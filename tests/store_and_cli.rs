use struct_tree::cli::{depth_for_tree, is_subcommand, parse_usize, preprocess_argv};
use struct_tree::config::{add_config_pattern, load_config_patterns, remove_config_pattern, save_config_patterns};
use struct_tree::git::{resolve_start, select_git_mode, uses_git_root, wants_file_set, GitError, GitFlags, GitMode};
use struct_tree::size::format_size;

fn strings(v: &[&str]) -> Vec<String> {
    v.iter().map(|s| s.to_string()).collect()
}

#[test]
fn store_text_is_read_line_by_line() {
    let ps = load_config_patterns("# comment\n*.tmp\n\n  venv  \r\nbuild\n");
    assert_eq!(ps, strings(&["*.tmp", "venv", "build"]));
    assert_eq!(load_config_patterns(""), Vec::<String>::new());
}

#[test]
fn store_text_is_written_one_per_line() {
    assert_eq!(save_config_patterns(&strings(&["a", "b*"])), "a\nb*");
    assert_eq!(save_config_patterns(&vec![]), "");
}

#[test]
fn add_list_remove_round_trip() {
    let mut ps = load_config_patterns("");
    assert!(add_config_pattern(&mut ps, "*.tmp".to_string()));
    let listed = load_config_patterns(&save_config_patterns(&ps));
    assert_eq!(listed, strings(&["*.tmp"]));
    assert!(!add_config_pattern(&mut ps, "*.tmp".to_string()));
    assert_eq!(ps.len(), 1);
    let mut ps = listed;
    assert!(remove_config_pattern(&mut ps, "*.tmp"));
    let listed = load_config_patterns(&save_config_patterns(&ps));
    assert!(listed.is_empty());
    let mut ps = listed;
    assert!(!remove_config_pattern(&mut ps, "*.tmp"));
}

#[test]
fn changed_wins_over_staged() {
    let f = GitFlags { changed: true, staged: true, ..GitFlags::default() };
    assert_eq!(select_git_mode(&f), Some(GitMode::Changed));
    let f = GitFlags { staged_root: true, unversioned: true, versioned: true, ..GitFlags::default() };
    assert_eq!(select_git_mode(&f), Some(GitMode::Staged));
    let f = GitFlags { history: true, versioned_root: true, ..GitFlags::default() };
    assert_eq!(select_git_mode(&f), Some(GitMode::Versioned));
    assert!(uses_git_root(&f));
    assert_eq!(select_git_mode(&GitFlags::default()), None);
    assert!(!wants_file_set(GitMode::History));
    assert!(wants_file_set(GitMode::Changed));
}

#[test]
fn git_mode_outside_repository_fails() {
    let r = resolve_start(Some(GitMode::Staged), false, "/tmp/x".to_string(), None);
    assert_eq!(r, Err(GitError::NotARepository));
    let r = resolve_start(None, false, "/tmp/x".to_string(), None);
    assert_eq!(r, Ok("/tmp/x".to_string()));
    let r = resolve_start(Some(GitMode::Changed), true, "sub".to_string(), Some(Some("/repo".to_string())));
    assert_eq!(r, Ok("/repo".to_string()));
    let r = resolve_start(Some(GitMode::Changed), false, "sub".to_string(), Some(Some("/repo".to_string())));
    assert_eq!(r, Ok("sub".to_string()));
}

#[test]
fn numbers_parse_like_from_str() {
    assert_eq!(parse_usize("42"), Some(42));
    assert_eq!(parse_usize("+7"), Some(7));
    assert_eq!(parse_usize("0"), Some(0));
    assert_eq!(parse_usize(""), None);
    assert_eq!(parse_usize("+"), None);
    assert_eq!(parse_usize("-1"), None);
    assert_eq!(parse_usize("3a"), None);
    assert_eq!(parse_usize("99999999999999999999999"), None);
    assert_eq!(parse_usize(&usize::MAX.to_string()), Some(usize::MAX));
}

#[test]
fn positionals_are_taken_out() {
    let r = preprocess_argv(&strings(&["struct", "3", "-i", "7", "~/p", "extra", "-z"]));
    assert_eq!(r.depth, Some(3));
    assert_eq!(r.path, Some("~/p".to_string()));
    assert_eq!(r.cleaned, strings(&["struct", "-i", "7", "-z"]));
    let r = preprocess_argv(&strings(&["struct", "search", "x", "2"]));
    assert_eq!(r.depth, None);
    assert_eq!(r.path, None);
    assert_eq!(r.cleaned, strings(&["struct", "search", "x", "2"]));
    let r = preprocess_argv(&strings(&["struct", "docs", "4"]));
    assert_eq!(r.depth, Some(4));
    assert_eq!(r.path, Some("docs".to_string()));
}

#[test]
fn subcommand_words() {
    assert!(is_subcommand("search"));
    assert!(is_subcommand("clear"));
    assert!(!is_subcommand("searching"));
}

#[test]
fn requested_depth_for_tree() {
    assert_eq!(depth_for_tree(None), usize::MAX);
    assert_eq!(depth_for_tree(Some(0)), 1);
    assert_eq!(depth_for_tree(Some(3)), 3);
}

#[test]
fn sizes_read_naturally() {
    assert_eq!(format_size(0), "0 B");
    assert_eq!(format_size(512), "512 B");
    assert_eq!(format_size(1024), "1.0 KB");
    assert_eq!(format_size(1536), "1.5 KB");
    assert_eq!(format_size(5_000_000), "4.7 MB");
    assert_eq!(format_size(3 * 1024 * 1024 * 1024), "3.0 GB");
}

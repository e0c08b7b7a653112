use struct_tree::compiled::compile;
use struct_tree::ignores::{
    build_ignores_from_patterns, ignore_regex_for, is_ignored, matches_custom_pattern, parse_no_ignore,
    should_ignore_dir, should_ignore_file, split_patterns, IgnoreRules, Suppression,
};

fn strings(v: &[&str]) -> Vec<String> {
    v.iter().map(|s| s.to_string()).collect()
}

fn no_suppression() -> Suppression {
    Suppression { skip_defaults: false, skip_config: false, skip_specifics: vec![] }
}

#[test]
fn default_directories_are_ignored() {
    for name in ["node_modules", "__pycache__", ".git", "target", "venv", "blob_storage", "GPUCache"] {
        assert!(should_ignore_dir(name), "{}", name);
    }
    assert!(should_ignore_dir("mypkg.egg-info"));
    assert!(!should_ignore_dir("src"));
    assert!(!should_ignore_dir("node_module"));
    assert!(!should_ignore_dir("Target"));
}

#[test]
fn default_files_are_ignored() {
    assert!(should_ignore_file("module.pyc"));
    assert!(should_ignore_file("a.b.swp"));
    assert!(should_ignore_file("package-lock.json"));
    assert!(should_ignore_file(".DS_Store"));
    assert!(should_ignore_file("pyc"));
    assert!(!should_ignore_file("main.rs"));
    assert!(!should_ignore_file("script.py"));
    assert!(!should_ignore_file("pyc.txt"));
}

#[test]
fn ignore_pattern_becomes_anchored_expression() {
    assert_eq!(ignore_regex_for(" *.tmp "), "^.*.tmp$");
    assert_eq!(ignore_regex_for("venv"), "^venv$");
}

#[test]
fn custom_patterns_compile_and_match() {
    let rules = build_ignores_from_patterns(strings(&["*.tmp", "  build_out ", "[unclosed"]));
    assert_eq!(rules.len(), 2);
    assert_eq!(rules[0].as_str(), "^.*.tmp$");
    assert!(matches_custom_pattern("notes.tmp", &rules));
    assert!(matches_custom_pattern("build_out", &rules));
    assert!(!matches_custom_pattern("notes.tmpx", &rules));
    assert!(!matches_custom_pattern("my_build_out", &rules));
}

#[test]
fn split_inline_patterns() {
    assert_eq!(split_patterns("win, Linux,,  ,venv "), strings(&["win", "Linux", "venv"]));
    assert_eq!(split_patterns(""), Vec::<String>::new());
}

#[test]
fn no_ignore_directives_fold() {
    let s = parse_no_ignore(&strings(&["defaults", "venv", "config", "dist"]));
    assert!(s.skip_defaults);
    assert!(s.skip_config);
    assert_eq!(s.skip_specifics, strings(&["venv", "dist"]));
    let s = parse_no_ignore(&strings(&["defaults", "venv", "dist"]));
    assert!(s.skip_defaults && !s.skip_config);
    assert_eq!(s.skip_specifics, strings(&["venv", "dist"]));
    let s = parse_no_ignore(&strings(&["all"]));
    assert!(s.skip_defaults && s.skip_config && s.skip_specifics.is_empty());
    let s = parse_no_ignore(&strings(&["config"]));
    assert!(!s.skip_defaults && s.skip_config && s.skip_specifics.is_empty());
    let s = parse_no_ignore(&vec![]);
    assert!(!s.skip_defaults && !s.skip_config && s.skip_specifics.is_empty());
}

#[test]
fn policy_combines_sources_and_exemptions() {
    let rules = IgnoreRules {
        config: vec![compile("^.*\\.log$".to_string()).unwrap()],
        inline: vec![compile("^scratch$".to_string()).unwrap()],
    };
    let none = no_suppression();
    assert!(is_ignored("node_modules", true, &rules, &none));
    assert!(!is_ignored("node_modules", false, &rules, &none));
    assert!(is_ignored("app.log", false, &rules, &none));
    assert!(is_ignored("scratch", true, &rules, &none));
    assert!(!is_ignored("src", true, &rules, &none));

    let skip_defaults = Suppression { skip_defaults: true, skip_config: false, skip_specifics: vec![] };
    assert!(!is_ignored("node_modules", true, &rules, &skip_defaults));
    assert!(is_ignored("app.log", false, &rules, &skip_defaults));

    let skip_config = Suppression { skip_defaults: false, skip_config: true, skip_specifics: vec![] };
    assert!(!is_ignored("app.log", false, &rules, &skip_config));
    assert!(is_ignored("scratch", true, &rules, &skip_config));

    let exempt = Suppression { skip_defaults: false, skip_config: false, skip_specifics: strings(&["venv", "dist"]) };
    assert!(!is_ignored("venv", true, &rules, &exempt));
    assert!(!is_ignored("dist", true, &rules, &exempt));
    assert!(is_ignored(".venv", true, &rules, &exempt));
}

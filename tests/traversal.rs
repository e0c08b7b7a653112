use struct_tree::compiled::compile;
use struct_tree::ignores::{IgnoreRules, Suppression};
use struct_tree::render::{display_name, display_tree, render_tree, TreeView};
use struct_tree::search::{order_flat_hits, search_descends, search_files, MatchMode};
use struct_tree::snapshot::{depths, is_well_formed, FsEntry};
use struct_tree::tree::{cumulative_sizes, select_tree, TreeConfig};

fn entry(name: &str, rel: &str, parent: Option<usize>, is_dir: bool, size: u64) -> FsEntry {
    FsEntry {
        name: name.to_string(),
        rel_path: rel.to_string(),
        parent,
        is_dir,
        size,
        executable: false,
    }
}

// root
// ├── src/            0
// │   ├── main.rs     1
// │   └── lib/        2
// │       └── deep.rs 3
// ├── node_modules/   4
// │   └── pkg.js      5
// ├── big/            6
// │   └── blob.bin    7
// └── README.md       8
fn sample() -> Vec<FsEntry> {
    vec![
        entry("src", "src", None, true, 0),
        entry("main.rs", "src/main.rs", Some(0), false, 100),
        entry("lib", "src/lib", Some(0), true, 0),
        entry("deep.rs", "src/lib/deep.rs", Some(2), false, 50),
        entry("node_modules", "node_modules", None, true, 0),
        entry("pkg.js", "node_modules/pkg.js", Some(4), false, 10),
        entry("big", "big", None, true, 0),
        entry("blob.bin", "big/blob.bin", Some(6), false, 5_000_000),
        entry("README.md", "README.md", None, false, 20),
    ]
}

fn config(depth: usize) -> TreeConfig {
    TreeConfig {
        depth,
        rules: IgnoreRules { config: vec![], inline: vec![] },
        suppression: Suppression { skip_defaults: false, skip_config: false, skip_specifics: vec![] },
        max_size_bytes: None,
        git_files: None,
        show_size: false,
    }
}

fn shown_names(es: &[FsEntry], view: &TreeView) -> Vec<String> {
    view.lines.iter().map(|l| format!("{}{}", l.lead, es[l.entry].name)).collect()
}

#[test]
fn depths_count_levels() {
    assert_eq!(depths(&sample()), vec![1, 2, 2, 3, 1, 2, 1, 2, 1]);
}

#[test]
fn cumulative_sizes_sum_files_below() {
    let c = cumulative_sizes(&sample());
    assert_eq!(c[0], 150);
    assert_eq!(c[2], 50);
    assert_eq!(c[6], 5_000_000);
    assert_eq!(c[8], 20);
}

#[test]
fn default_ignored_directory_is_hidden() {
    let es = sample();
    let sel = select_tree(&es, &config(usize::MAX));
    assert!(!sel.shown[4]);
    assert!(!sel.shown[5]);
    assert!(sel.shown[0] && sel.shown[3]);
}

#[test]
fn default_ignored_directory_appears_when_defaults_skipped() {
    let es = sample();
    let mut cfg = config(usize::MAX);
    cfg.suppression.skip_defaults = true;
    let sel = select_tree(&es, &cfg);
    assert!(sel.shown[4]);
    assert!(sel.shown[5]);
}

#[test]
fn exempted_name_is_shown() {
    let es = sample();
    let mut cfg = config(usize::MAX);
    cfg.suppression.skip_specifics = vec!["venv".to_string(), "node_modules".to_string()];
    let sel = select_tree(&es, &cfg);
    assert!(sel.shown[4]);
}

#[test]
fn inline_pattern_hides_entries() {
    let es = sample();
    let mut cfg = config(usize::MAX);
    cfg.rules.inline = vec![compile("^.*.md$".to_string()).unwrap()];
    let sel = select_tree(&es, &cfg);
    assert!(!sel.shown[8]);
    assert!(sel.shown[1]);
}

#[test]
fn rendered_tree_orders_and_connects() {
    let es = sample();
    let view = display_tree(&es, &config(usize::MAX));
    assert_eq!(
        shown_names(&es, &view),
        vec![
            "├── big",
            "│   └── blob.bin",
            "├── src",
            "│   ├── lib",
            "│   │   └── deep.rs",
            "│   └── main.rs",
            "└── README.md",
        ]
    );
}

#[test]
fn depth_limit_cuts_tree() {
    let es = sample();
    let view = display_tree(&es, &config(1));
    assert_eq!(shown_names(&es, &view), vec!["├── big", "├── src", "└── README.md"]);
    let view = display_tree(&es, &config(2));
    assert!(!view.lines.iter().any(|l| l.entry == 3));
    assert!(view.lines.iter().any(|l| l.entry == 2));
}

#[test]
fn large_directory_is_listed_but_not_opened() {
    let es = sample();
    let mut cfg = config(usize::MAX);
    cfg.max_size_bytes = Some(1024 * 1024);
    let view = display_tree(&es, &cfg);
    assert!(view.selection.pruned[6]);
    assert!(!view.selection.pruned[0]);
    assert!(view.lines.iter().any(|l| l.entry == 6));
    assert!(!view.lines.iter().any(|l| l.entry == 7));
    assert!(view.lines.iter().any(|l| l.entry == 3));
}

#[test]
fn file_set_keeps_listed_files_and_their_directories() {
    let es = sample();
    let mut cfg = config(usize::MAX);
    cfg.git_files = Some(vec!["src/lib/deep.rs".to_string()]);
    let view = display_tree(&es, &cfg);
    assert_eq!(shown_names(&es, &view), vec!["└── src", "    └── lib", "        └── deep.rs"]);
}

#[test]
fn case_is_ignored_when_ordering() {
    let es = vec![
        entry("b.txt", "b.txt", None, false, 1),
        entry("A.txt", "A.txt", None, false, 1),
        entry("c.txt", "c.txt", None, false, 1),
    ];
    let shown = vec![true, true, true];
    let pruned = vec![false, false, false];
    let lines = render_tree(&es, &shown, &pruned);
    let order: Vec<usize> = lines.iter().map(|l| l.entry).collect();
    assert_eq!(order, vec![1, 0, 2]);
    assert_eq!(lines[2].lead, "└── ");
}

#[test]
fn search_finds_ignored_directory_by_name_only() {
    let es = sample();
    let m = MatchMode::build("node_modules").unwrap();
    let r = search_files(&m, &es, 0, &vec![]);
    assert_eq!(r.hits, vec![4]);
    let m = MatchMode::build("*.js").unwrap();
    let r = search_files(&m, &es, 0, &vec![]);
    assert!(r.hits.is_empty());
}

#[test]
fn search_keeps_ancestors_of_hits() {
    let es = sample();
    let m = MatchMode::build("deep").unwrap();
    let r = search_files(&m, &es, 0, &vec![]);
    assert_eq!(r.hits, vec![3]);
    assert_eq!(r.retained, vec![true, false, true, true, false, false, false, false, false]);
}

#[test]
fn search_depth_limit() {
    let es = sample();
    let m = MatchMode::build("*.rs").unwrap();
    assert_eq!(search_files(&m, &es, 2, &vec![]).hits, vec![1]);
    assert_eq!(search_files(&m, &es, 0, &vec![]).hits, vec![1, 3]);
}

#[test]
fn search_descends_decision() {
    let custom = vec![compile("^skip$".to_string()).unwrap()];
    assert!(!search_descends("node_modules", true, &custom));
    assert!(!search_descends("skip", true, &custom));
    assert!(search_descends("skip", false, &custom));
    assert!(search_descends("src", true, &custom));
}

#[test]
fn well_formed_snapshots() {
    assert!(is_well_formed(&sample()));
    let bad = vec![entry("a", "a", Some(1), false, 0), entry("b", "b", None, true, 0)];
    assert!(!is_well_formed(&bad));
    let bad = vec![entry("a", "a", None, false, 0), entry("b", "a/b", Some(0), false, 0)];
    assert!(!is_well_formed(&bad));
}

#[test]
fn flat_hits_sorted_by_path_components() {
    let es = vec![
        entry("a-b", "a-b", None, true, 0),
        entry("a", "a", None, true, 0),
        entry("c", "a/c", Some(1), false, 0),
        entry("b.txt", "b.txt", None, false, 0),
        entry("B.txt", "B.txt", None, false, 0),
    ];
    assert_eq!(order_flat_hits(&es, &vec![0, 2, 3, 4]), vec![4, 2, 0, 3]);
    assert_eq!(order_flat_hits(&es, &vec![]), Vec::<usize>::new());
}

#[test]
fn directory_names_end_with_slash() {
    let es = sample();
    assert_eq!(display_name(&es[0]), "src/");
    assert_eq!(display_name(&es[1]), "main.rs");
}

#[test]
fn subtree_lines_follow_their_directory() {
    let es = vec![
        entry("b", "b", None, true, 0),
        entry("a", "a", None, true, 0),
        entry("x.txt", "b/x.txt", Some(0), false, 1),
        entry("y.txt", "a/y.txt", Some(1), false, 1),
    ];
    let view = display_tree(&es, &config(usize::MAX));
    let order: Vec<usize> = view.lines.iter().map(|l| l.entry).collect();
    assert_eq!(order, vec![1, 3, 0, 2]);
}

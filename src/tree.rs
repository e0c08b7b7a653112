//! Which entries the tree shows: ignore policy, depth limit, size pruning and
//! the version-control file set.
use vstd::prelude::*;
use crate::ignores::{any_matches, default_ignored_dir, exempted, ignored, is_ignored, IgnoreRules, Suppression};
use crate::snapshot::{ancestor_or_self, depth, depths, lemma_ancestor_le, lemma_ancestor_trans, lemma_depth_bound, mark_with_ancestors, marked_below, wf, FsEntry};
use crate::text::str_eq;

verus! {

/// The settings of one tree display, fixed for the whole traversal.
pub struct TreeConfig {
    /// How many levels below the root are listed.
    pub depth: usize,
    /// The compiled ignore patterns.
    pub rules: IgnoreRules,
    /// The exemptions of this run.
    pub suppression: Suppression,
    /// Directories whose contents weigh more than this many bytes are listed but
    /// not opened. The limit applies whether or not sizes are displayed: it is a
    /// flag of its own on the command line, and a listed-but-closed directory is
    /// what it promises either way.
    pub max_size_bytes: Option<u64>,
    /// When present, only these files (paths from the root) and the directories above them are shown.
    pub git_files: Option<Vec<String>>,
    /// Whether sizes are displayed.
    pub show_size: bool,
}

/// The summed size of the files among the first `k` entries that lie below `a`.
pub open spec fn size_below_upto(es: Seq<FsEntry>, a: int, k: int) -> nat
    decreases k,
{
    if k <= 0 {
        0
    } else {
        size_below_upto(es, a, k - 1) + if !es[k - 1].is_dir && ancestor_or_self(es, a, k - 1) {
            es[k - 1].size as nat
        } else {
            0
        }
    }
}

/// The cumulative size of a directory: the sizes of all files below it.
pub open spec fn cumulative_size(es: Seq<FsEntry>, a: int) -> nat {
    size_below_upto(es, a, es.len() as int)
}

/// Whether a directory is listed but not opened because its contents are too large.
/// Only the limit decides this; whether sizes are displayed does not.
pub open spec fn size_pruned(es: Seq<FsEntry>, cfg: TreeConfig, p: int) -> bool {
    cfg.max_size_bytes is Some && es[p].is_dir && cumulative_size(es, p) > cfg.max_size_bytes.unwrap() as nat
}

/// Whether the tree reaches an entry: it is not ignored, lies within the depth
/// limit, and every directory above it is reached and opened.
pub open spec fn tree_reaches(es: Seq<FsEntry>, cfg: TreeConfig, i: int) -> bool
    decreases i,
{
    0 <= i < es.len()
        && !ignored(es[i].name@, es[i].is_dir, cfg.rules, cfg.suppression)
        && depth(es, i) <= cfg.depth
        && match es[i].parent {
            Some(p) => (p as int) < i && tree_reaches(es, cfg, p as int) && !size_pruned(es, cfg, p as int),
            None => true,
        }
}

/// Whether an entry's path is in the version-control file set.
pub open spec fn in_file_set(files: Seq<String>, path: Seq<char>) -> bool {
    exists|k: int| 0 <= k < files.len() && #[trigger] files[k]@ == path
}

/// The entries that the file set lets through on their own: reached files in the set.
pub open spec fn file_set_marks(es: Seq<FsEntry>, cfg: TreeConfig) -> Seq<bool> {
    Seq::new(es.len(), |h: int| tree_reaches(es, cfg, h) && !es[h].is_dir
        && in_file_set(cfg.git_files.unwrap()@, es[h].rel_path@))
}

/// Whether the tree shows an entry. Under a file set a file is shown when it is
/// in the set, a directory when something shown lies below it.
pub open spec fn tree_shown(es: Seq<FsEntry>, cfg: TreeConfig, i: int) -> bool {
    tree_reaches(es, cfg, i) && (cfg.git_files is None || marked_below(es, file_set_marks(es, cfg), i))
}

/// Which entries the tree shows, which directories it leaves closed, and each
/// entry's cumulative size.
pub struct TreeSelection {
    /// For each entry, whether the tree shows it.
    pub shown: Vec<bool>,
    /// For each entry, whether it is a directory listed but not opened for its size.
    pub pruned: Vec<bool>,
    /// For each entry, the sizes of the files below it summed.
    pub cumulative: Vec<u128>,
}

proof fn lemma_size_bound(es: Seq<FsEntry>, a: int, k: int)
    requires
        0 <= k,
    ensures
        size_below_upto(es, a, k) <= k * 0xffff_ffff_ffff_ffff,
    decreases k,
{
    if k > 0 {
        lemma_size_bound(es, a, k - 1);
    }
}

/// The cumulative size of every entry.
pub fn cumulative_sizes(es: &Vec<FsEntry>) -> (r: Vec<u128>)
    requires
        wf(es@),
    ensures
        r@.len() == es@.len(),
        forall|a: int| 0 <= a < es@.len() ==> r@[a] as nat == cumulative_size(es@, a),
{
    let n = es.len();
    let mut cum: Vec<u128> = Vec::new();
    let mut k: usize = 0;
    while k < n
        invariant
            n == es@.len(),
            k <= n,
            cum@.len() == k,
            forall|j: int| 0 <= j < k ==> cum@[j] == 0,
        decreases n - k,
    {
        cum.push(0);
        k = k + 1;
    }
    let mut h: usize = 0;
    while h < n
        invariant
            n == es@.len(),
            wf(es@),
            h <= n,
            cum@.len() == n,
            forall|a: int| 0 <= a < n ==> cum@[a] as nat == size_below_upto(es@, a, h as int),
        decreases n - h,
    {
        if !es[h].is_dir {
            let size = es[h].size;
            let mut cur: Option<usize> = Some(h);
            while cur.is_some()
                invariant
                    n == es@.len(),
                    wf(es@),
                    h < n,
                    !es@[h as int].is_dir,
                    size == es@[h as int].size,
                    cum@.len() == n,
                    cur is Some ==> cur.unwrap() <= h && ancestor_or_self(es@, cur.unwrap() as int, h as int),
                    forall|a: int| 0 <= a < n ==> cum@[a] as nat == size_below_upto(es@, a, h as int) + if ancestor_or_self(es@, a, h as int)
                        && !(cur is Some && ancestor_or_self(es@, a, cur.unwrap() as int)) {
                        size as nat
                    } else {
                        0
                    },
                decreases match cur { Some(c) => c + 1, None => 0 },
            {
                let c = cur.unwrap();
                proof {
                    lemma_size_bound(es@, c as int, h as int);
                    assert(size_below_upto(es@, c as int, h as int) + size as nat <= (h + 1) * 0xffff_ffff_ffff_ffff) by (nonlinear_arith)
                        requires size_below_upto(es@, c as int, h as int) <= h * 0xffff_ffff_ffff_ffff, size <= 0xffff_ffff_ffff_ffffu64;
                    assert((h + 1) * 0xffff_ffff_ffff_ffff <= 0x1_0000_0000_0000_0000 * 0xffff_ffff_ffff_ffff) by (nonlinear_arith)
                        requires h < 0x1_0000_0000_0000_0000;
                    assert(es@[c as int].parent is Some ==> !ancestor_or_self(es@, c as int, es@[c as int].parent.unwrap() as int)) by {
                        if es@[c as int].parent is Some {
                            let p = es@[c as int].parent.unwrap() as int;
                            if ancestor_or_self(es@, c as int, p) {
                                lemma_ancestor_le(es@, c as int, p);
                            }
                        }
                    }
                }
                let v = cum[c] + size as u128;
                cum.set(c, v);
                let next = es[c].parent;
                proof {
                    if next is Some {
                        let p = next.unwrap() as int;
                        assert(ancestor_or_self(es@, p, p));
                        assert(ancestor_or_self(es@, p, c as int));
                        lemma_ancestor_trans(es@, p, c as int, h as int);
                    }
                    assert forall|a: int| 0 <= a < n implies cum@[a] as nat == size_below_upto(es@, a, h as int) + if ancestor_or_self(es@, a, h as int)
                        && !(next is Some && ancestor_or_self(es@, a, next.unwrap() as int)) {
                        size as nat
                    } else {
                        0
                    } by {
                        if next is Some && ancestor_or_self(es@, a, next.unwrap() as int) {
                            lemma_ancestor_trans(es@, a, next.unwrap() as int, c as int);
                            lemma_ancestor_le(es@, a, next.unwrap() as int);
                        }
                        if a != c as int && ancestor_or_self(es@, a, c as int) {
                            assert(next is Some && ancestor_or_self(es@, a, next.unwrap() as int));
                        }
                        if ancestor_or_self(es@, a, h as int) && !(next is Some && ancestor_or_self(es@, a, next.unwrap() as int)) && a != c as int {
                            assert(!ancestor_or_self(es@, a, c as int));
                        }
                    }
                }
                cur = next;
            }
        }
        assert forall|a: int| 0 <= a < n implies cum@[a] as nat == size_below_upto(es@, a, h + 1) by {}
        h = h + 1;
    }
    cum
}

/// Whether a path is in the file set.
pub fn in_files(files: &Vec<String>, path: &str) -> (r: bool)
    ensures
        r == in_file_set(files@, path@),
{
    let mut k: usize = 0;
    while k < files.len()
        invariant
            k <= files.len(),
            forall|j: int| 0 <= j < k ==> files@[j]@ != path@,
        decreases files.len() - k,
    {
        if str_eq(files[k].as_str(), path) {
            return true;
        }
        k = k + 1;
    }
    false
}

/// Decides, for a snapshot, what the tree shows and which directories it leaves closed.
pub fn select_tree(es: &Vec<FsEntry>, cfg: &TreeConfig) -> (r: TreeSelection)
    requires
        wf(es@),
    ensures
        r.shown@.len() == es@.len(),
        r.pruned@.len() == es@.len(),
        r.cumulative@.len() == es@.len(),
        forall|i: int| 0 <= i < es@.len() ==> r.shown@[i] == tree_shown(es@, *cfg, i),
        forall|i: int| 0 <= i < es@.len() ==> r.pruned@[i] == size_pruned(es@, *cfg, i),
        forall|i: int| 0 <= i < es@.len() ==> r.cumulative@[i] as nat == cumulative_size(es@, i),
{
    let n = es.len();
    let levels = depths(es);
    let cumulative = cumulative_sizes(es);
    let mut reach: Vec<bool> = Vec::new();
    let mut pruned: Vec<bool> = Vec::new();
    let mut i: usize = 0;
    while i < n
        invariant
            n == es@.len(),
            wf(es@),
            levels@.len() == n,
            cumulative@.len() == n,
            forall|j: int| 0 <= j < n ==> levels@[j] as nat == depth(es@, j),
            forall|j: int| 0 <= j < n ==> cumulative@[j] as nat == cumulative_size(es@, j),
            i <= n,
            reach@.len() == i,
            pruned@.len() == i,
            forall|j: int| 0 <= j < i ==> reach@[j] == tree_reaches(es@, *cfg, j),
            forall|j: int| 0 <= j < i ==> pruned@[j] == size_pruned(es@, *cfg, j),
        decreases n - i,
    {
        let e = &es[i];
        let above = match e.parent {
            Some(p) => reach[p] && !pruned[p],
            None => true,
        };
        let r = above && levels[i] <= cfg.depth
            && !is_ignored(e.name.as_str(), e.is_dir, &cfg.rules, &cfg.suppression);
        let pr = match cfg.max_size_bytes {
            Some(m) => e.is_dir && cumulative[i] > m as u128,
            None => false,
        };
        reach.push(r);
        pruned.push(pr);
        i = i + 1;
    }
    let shown = match &cfg.git_files {
        None => reach,
        Some(files) => {
            let mut marks: Vec<bool> = Vec::new();
            let mut h: usize = 0;
            while h < n
                invariant
                    n == es@.len(),
                    cfg.git_files == Some(*files),
                    reach@.len() == n,
                    forall|j: int| 0 <= j < n ==> reach@[j] == tree_reaches(es@, *cfg, j),
                    h <= n,
                    marks@.len() == h,
                    forall|j: int| 0 <= j < h ==> marks@[j] == file_set_marks(es@, *cfg)[j],
                decreases n - h,
            {
                let m = reach[h] && !es[h].is_dir && in_files(files, es[h].rel_path.as_str());
                marks.push(m);
                h = h + 1;
            }
            assert(marks@ =~= file_set_marks(es@, *cfg));
            let below = mark_with_ancestors(es, &marks);
            let mut out: Vec<bool> = Vec::new();
            let mut k: usize = 0;
            while k < n
                invariant
                    n == es@.len(),
                    cfg.git_files is Some,
                    reach@.len() == n,
                    below@.len() == n,
                    forall|j: int| 0 <= j < n ==> reach@[j] == tree_reaches(es@, *cfg, j),
                    forall|j: int| 0 <= j < n ==> below@[j] == marked_below(es@, file_set_marks(es@, *cfg), j),
                    k <= n,
                    out@.len() == k,
                    forall|j: int| 0 <= j < k ==> out@[j] == tree_shown(es@, *cfg, j),
                decreases n - k,
            {
                out.push(reach[k] && below[k]);
                k = k + 1;
            }
            out
        },
    };
    TreeSelection { shown, pruned, cumulative }
}

/// A directory that a built-in rule names is not shown while the built-in rules
/// are on and its name is not exempted.
pub proof fn lemma_default_dir_hidden(es: Seq<FsEntry>, cfg: TreeConfig, i: int)
    requires
        0 <= i < es.len(),
        es[i].is_dir,
        default_ignored_dir(es[i].name@),
        !cfg.suppression.skip_defaults,
        !exempted(es[i].name@, cfg.suppression),
    ensures
        !tree_shown(es, cfg, i),
{
}

/// With the built-in rules off, a directory that a built-in rule names is shown
/// when no custom pattern hides it, it lies within the depth limit, the directory
/// holding it is reached and opened, and no file set restricts the tree.
pub proof fn lemma_default_dir_shown_when_skipped(es: Seq<FsEntry>, cfg: TreeConfig, i: int)
    requires
        0 <= i < es.len(),
        es[i].is_dir,
        default_ignored_dir(es[i].name@),
        cfg.suppression.skip_defaults,
        cfg.suppression.skip_config || !any_matches(cfg.rules.config@, es[i].name@),
        !any_matches(cfg.rules.inline@, es[i].name@),
        depth(es, i) <= cfg.depth,
        match es[i].parent {
            Some(p) => (p as int) < i && tree_reaches(es, cfg, p as int) && !size_pruned(es, cfg, p as int),
            None => true,
        },
        cfg.git_files is None,
    ensures
        tree_shown(es, cfg, i),
{
}

/// No shown entry lies deeper than the depth limit.
pub proof fn lemma_shown_within_depth(es: Seq<FsEntry>, cfg: TreeConfig, i: int)
    requires
        tree_shown(es, cfg, i),
    ensures
        depth(es, i) <= cfg.depth,
{
}

/// With a limit of one level, the depth a requested depth of `0` stands for, only
/// children of the root are shown.
pub proof fn lemma_depth_one_shows_children(es: Seq<FsEntry>, cfg: TreeConfig, i: int)
    requires
        cfg.depth <= 1,
        tree_shown(es, cfg, i),
    ensures
        es[i].parent is None,
{
    match es[i].parent {
        Some(p) => {
            if 0 <= (p as int) && (p as int) < i {
                lemma_depth_bound(es, p as int);
            }
        },
        None => {},
    }
}

proof fn lemma_reached_above_open(es: Seq<FsEntry>, cfg: TreeConfig, a: int, j: int)
    requires
        tree_reaches(es, cfg, j),
        ancestor_or_self(es, a, j),
        a != j,
    ensures
        !size_pruned(es, cfg, a),
    decreases j,
{
    let p = es[j].parent.unwrap() as int;
    if p != a {
        lemma_reached_above_open(es, cfg, a, p);
    }
}

/// A directory whose cumulative size exceeds the threshold is still shown when it
/// is reached and no file set restricts the tree, but nothing below it is shown.
pub proof fn lemma_large_dir_closed(es: Seq<FsEntry>, cfg: TreeConfig, i: int, j: int)
    requires
        0 <= i < es.len(),
        es[i].is_dir,
        cfg.max_size_bytes is Some,
        cumulative_size(es, i) > cfg.max_size_bytes.unwrap() as nat,
        ancestor_or_self(es, i, j),
        j != i,
    ensures
        tree_reaches(es, cfg, i) && cfg.git_files is None ==> tree_shown(es, cfg, i),
        !tree_shown(es, cfg, j),
{
    if tree_reaches(es, cfg, j) {
        lemma_reached_above_open(es, cfg, i, j);
    }
}

} // verus!

//! Laying out the shown entries as a connector-drawn tree: directories first,
//! then by name without regard to case, each level indented under its directory.
use vstd::prelude::*;
use crate::snapshot::{ancestor_or_self, lemma_ancestor_le, lemma_ancestor_trans, lemma_step_up, marked_below, wf, FsEntry};
use crate::tree::{file_set_marks, select_tree, size_pruned, tree_reaches, tree_shown, TreeConfig, TreeSelection};
use crate::text::{lower_of, lowercase, push_char, push_str};

verus! {

/// Lexicographic order on character sequences, as `str` compares.
pub open spec fn seq_less(a: Seq<char>, b: Seq<char>) -> bool
    decreases a.len(),
{
    if a.len() == 0 {
        b.len() > 0
    } else if b.len() == 0 {
        false
    } else if a[0] != b[0] {
        a[0] < b[0]
    } else {
        seq_less(a.drop_first(), b.drop_first())
    }
}

/// The order is strict.
pub proof fn lemma_seq_less_asym(a: Seq<char>, b: Seq<char>)
    requires
        seq_less(a, b),
    ensures
        !seq_less(b, a),
        a != b,
    decreases a.len(),
{
    if a.len() > 0 && b.len() > 0 && a[0] == b[0] {
        lemma_seq_less_asym(a.drop_first(), b.drop_first());
    }
}

/// Two different sequences are ordered one way or the other.
pub proof fn lemma_seq_less_total(a: Seq<char>, b: Seq<char>)
    requires
        a != b,
    ensures
        seq_less(a, b) || seq_less(b, a),
    decreases a.len(),
{
    if a.len() > 0 && b.len() > 0 && a[0] == b[0] {
        assert(a.drop_first() != b.drop_first()) by {
            if a.drop_first() == b.drop_first() {
                assert(a =~= seq![a[0]] + a.drop_first());
                assert(b =~= seq![b[0]] + b.drop_first());
            }
        }
        lemma_seq_less_total(a.drop_first(), b.drop_first());
    } else if a.len() == 0 && b.len() == 0 {
        assert(a =~= b);
    }
}

/// The order is transitive.
pub proof fn lemma_seq_less_trans(a: Seq<char>, b: Seq<char>, c: Seq<char>)
    requires
        seq_less(a, b),
        seq_less(b, c),
    ensures
        seq_less(a, c),
    decreases a.len(),
{
    if a.len() > 0 && b.len() > 0 && c.len() > 0 && a[0] == b[0] && b[0] == c[0] {
        lemma_seq_less_trans(a.drop_first(), b.drop_first(), c.drop_first());
    }
}

/// Whether entry `i` comes before entry `j` among siblings: directories first,
/// then by lowercased name, then in listing order.
pub open spec fn key_less(es: Seq<FsEntry>, i: int, j: int) -> bool {
    let li = lower_of(es[i].name@);
    let lj = lower_of(es[j].name@);
    (es[i].is_dir && !es[j].is_dir) || (es[i].is_dir == es[j].is_dir && (seq_less(li, lj) || (li == lj && i < j)))
}

proof fn lemma_key_asym(es: Seq<FsEntry>, i: int, j: int)
    requires
        key_less(es, i, j),
    ensures
        !key_less(es, j, i),
{
    let li = lower_of(es[i].name@);
    let lj = lower_of(es[j].name@);
    if seq_less(li, lj) {
        lemma_seq_less_asym(li, lj);
    }
}

proof fn lemma_key_total(es: Seq<FsEntry>, i: int, j: int)
    requires
        i != j,
    ensures
        key_less(es, i, j) || key_less(es, j, i),
{
    let li = lower_of(es[i].name@);
    let lj = lower_of(es[j].name@);
    if li != lj {
        lemma_seq_less_total(li, lj);
    }
}

proof fn lemma_key_trans(es: Seq<FsEntry>, i: int, j: int, k: int)
    requires
        key_less(es, i, j),
        key_less(es, j, k),
    ensures
        key_less(es, i, k),
{
    let li = lower_of(es[i].name@);
    let lj = lower_of(es[j].name@);
    let lk = lower_of(es[k].name@);
    if seq_less(li, lj) && seq_less(lj, lk) {
        lemma_seq_less_trans(li, lj, lk);
    }
}

/// Whether `a` sorts before `b`.
fn str_less(a: &str, b: &str) -> (r: bool)
    ensures
        r == seq_less(a@, b@),
{
    let n = a.unicode_len();
    let m = b.unicode_len();
    let mut i: usize = 0;
    assert(a@.subrange(0, n as int) == a@);
    assert(b@.subrange(0, m as int) == b@);
    while i < n && i < m && a.get_char(i) == b.get_char(i)
        invariant
            n == a@.len(),
            m == b@.len(),
            i <= n,
            i <= m,
            seq_less(a@, b@) == seq_less(a@.subrange(i as int, n as int), b@.subrange(i as int, m as int)),
        decreases n - i,
    {
        assert(a@.subrange(i as int, n as int).drop_first() == a@.subrange(i + 1, n as int));
        assert(b@.subrange(i as int, m as int).drop_first() == b@.subrange(i + 1, m as int));
        i = i + 1;
    }
    if i == n {
        i < m
    } else if i == m {
        false
    } else {
        a.get_char(i) < b.get_char(i)
    }
}

/// Whether the entry is the child of `parent`, `None` standing for the root.
pub open spec fn child_of(es: Seq<FsEntry>, i: int, parent: Option<usize>) -> bool {
    es[i].parent == parent
}

/// The shown children of `parent`, in display order.
fn sorted_children(es: &Vec<FsEntry>, lowers: &Vec<String>, shown: &Vec<bool>, parent: Option<usize>) -> (r: Vec<usize>)
    requires
        lowers@.len() == es@.len(),
        shown@.len() == es@.len(),
        forall|i: int| 0 <= i < es@.len() ==> lowers@[i]@ == lower_of(es@[i].name@),
    ensures
        forall|k: int| 0 <= k < r@.len() ==> 0 <= #[trigger] r@[k] < es@.len(),
        forall|k: int, l: int| 0 <= k < l < r@.len() ==> key_less(es@, r@[k] as int, r@[l] as int),
        forall|x: usize| x < es@.len() ==> (shown@[x as int] && child_of(es@, x as int, parent) <==> r@.contains(x)),
{
    let n = es.len();
    let mut out: Vec<usize> = Vec::new();
    let mut i: usize = 0;
    while i < n
        invariant
            n == es@.len(),
            lowers@.len() == n,
            shown@.len() == n,
            forall|x: int| 0 <= x < n ==> lowers@[x]@ == lower_of(es@[x].name@),
            i <= n,
            forall|k: int| 0 <= k < out@.len() ==> 0 <= #[trigger] out@[k] < i,
            forall|k: int, l: int| 0 <= k < l < out@.len() ==> key_less(es@, out@[k] as int, out@[l] as int),
            forall|x: usize| x < i ==> (shown@[x as int] && child_of(es@, x as int, parent) <==> out@.contains(x)),
        decreases n - i,
    {
        let is_child = shown[i] && es[i].parent == parent;
        assert(is_child == (shown@[i as int] && child_of(es@, i as int, parent)));
        if is_child {
            let mut k: usize = 0;
            while k < out.len() && !before(es, lowers, i, out[k])
                invariant
                    n == es@.len(),
                    i < n,
                    k <= out@.len(),
                    forall|x: int| 0 <= x < out@.len() ==> 0 <= #[trigger] out@[x] < i,
                    forall|x: int| 0 <= x < k ==> !key_less(es@, i as int, #[trigger] out@[x] as int),
                    forall|a: int, b: int| 0 <= a < b < out@.len() ==> key_less(es@, out@[a] as int, out@[b] as int),
                    forall|x: usize| x < i ==> (shown@[x as int] && child_of(es@, x as int, parent) <==> out@.contains(x)),
                    shown@.len() == n,
                    is_child == (shown@[i as int] && child_of(es@, i as int, parent)),
                    is_child,
                    lowers@.len() == n,
                    forall|x: int| 0 <= x < n ==> lowers@[x]@ == lower_of(es@[x].name@),
                decreases out@.len() - k,
            {
                k = k + 1;
            }
            let ghost prev = out@;
            proof {
                assert forall|x: int| 0 <= x < k implies key_less(es@, prev[x] as int, i as int) by {
                    lemma_key_total(es@, prev[x] as int, i as int);
                }
                assert forall|x: int| k <= x < prev.len() implies key_less(es@, i as int, prev[x] as int) by {
                    if x > k {
                        lemma_key_trans(es@, i as int, prev[k as int] as int, prev[x] as int);
                    }
                }
            }
            out.insert(k, i);
            assert forall|a: int, b: int| 0 <= a < b < out@.len() implies key_less(es@, out@[a] as int, out@[b] as int) by {
                if a < k && b > k {
                    lemma_key_trans(es@, out@[a] as int, i as int, out@[b] as int);
                }
            }
            assert(out@ == prev.insert(k as int, i));
            assert forall|x: int| 0 <= x <= i implies (shown@[x] && child_of(es@, x, parent) <==> out@.contains(x as usize)) by {
                assert(x < i ==> (shown@[x] && child_of(es@, x, parent) <==> prev.contains(x as usize)));
                assert(x == i ==> (shown@[x] && child_of(es@, x, parent)));
                if prev.contains(x as usize) {
                    let y = choose|y: int| 0 <= y < prev.len() && prev[y] == x as usize;
                    if y < k {
                        assert(out@[y] == x as usize);
                    } else {
                        assert(out@[y + 1] == x as usize);
                    }
                    assert(out@.contains(x as usize));
                }
                if x == i {
                    assert(out@[k as int] == i);
                    assert(out@.contains(x as usize));
                } else if out@.contains(x as usize) {
                    let y = choose|y: int| 0 <= y < out@.len() && out@[y] == x as usize;
                    if y < k {
                        assert(prev[y] == x as usize);
                    } else {
                        assert(y != k);
                        assert(prev[y - 1] == x as usize);
                    }
                    assert(prev.contains(x as usize));
                }
            }
            assert(forall|x: usize| x < i + 1 ==> (shown@[x as int] && child_of(es@, x as int, parent) <==> out@.contains(x)));
        } else {
            assert forall|x: int| 0 <= x <= i implies (shown@[x] && child_of(es@, x, parent) <==> out@.contains(x as usize)) by {
                if x == i && out@.contains(x as usize) {
                    let y = choose|y: int| 0 <= y < out@.len() && out@[y] == x as usize;
                    assert(out@[y] < i);
                }
            }
            assert(forall|x: usize| x < i + 1 ==> (shown@[x as int] && child_of(es@, x as int, parent) <==> out@.contains(x)));
        }
        i = i + 1;
    }
    out
}

/// Whether entry `i` comes before entry `j` among siblings.
fn before(es: &Vec<FsEntry>, lowers: &Vec<String>, i: usize, j: usize) -> (r: bool)
    requires
        i < es@.len(),
        j < es@.len(),
        lowers@.len() == es@.len(),
        forall|x: int| 0 <= x < es@.len() ==> lowers@[x]@ == lower_of(es@[x].name@),
    ensures
        r == key_less(es@, i as int, j as int),
{
    let di = es[i].is_dir;
    let dj = es[j].is_dir;
    if di != dj {
        return di;
    }
    let li = lowers[i].as_str();
    let lj = lowers[j].as_str();
    if str_less(li, lj) {
        true
    } else if str_less(lj, li) {
        false
    } else {
        proof {
            if li@ != lj@ {
                lemma_seq_less_total(li@, lj@);
            }
        }
        i < j
    }
}

/// Whether no shown sibling comes after the entry: it gets the closing connector.
pub open spec fn is_last(es: Seq<FsEntry>, shown: Seq<bool>, i: int) -> bool {
    forall|j: int| 0 <= j < es.len() && j != i && #[trigger] shown[j] && es[j].parent == es[i].parent
        ==> !key_less(es, i, j)
}

/// The connector before an entry's name.
pub open spec fn connector(last: bool) -> Seq<char> {
    if last {
        seq!['\u{2514}', '\u{2500}', '\u{2500}', ' ']
    } else {
        seq!['\u{251c}', '\u{2500}', '\u{2500}', ' ']
    }
}

/// What a directory adds to the indentation of the lines below it.
pub open spec fn continuation(last: bool) -> Seq<char> {
    if last {
        seq![' ', ' ', ' ', ' ']
    } else {
        seq!['\u{2502}', ' ', ' ', ' ']
    }
}

/// The indentation of the lines below entry `a`; `a < 0` stands for the root.
pub open spec fn prefix_below(es: Seq<FsEntry>, shown: Seq<bool>, a: int) -> Seq<char>
    decreases a + 1,
{
    if a < 0 || a >= es.len() {
        Seq::empty()
    } else {
        let up = match es[a].parent {
            Some(q) => if (q as int) < a {
                prefix_below(es, shown, q as int)
            } else {
                Seq::empty()
            },
            None => Seq::empty(),
        };
        up + continuation(is_last(es, shown, a))
    }
}

/// The index of a parent, `-1` for the root.
pub open spec fn parent_index(p: Option<usize>) -> int {
    match p {
        Some(q) => q as int,
        None => -1,
    }
}

/// What stands before an entry's name on its line: the indentation and the connector.
pub open spec fn lead(es: Seq<FsEntry>, shown: Seq<bool>, i: int) -> Seq<char> {
    prefix_below(es, shown, parent_index(es[i].parent)) + connector(is_last(es, shown, i))
}

/// One line of the rendered tree: which entry, and what stands before its name.
pub struct TreeLine {
    /// The entry the line names.
    pub entry: usize,
    /// The indentation and connector before the name.
    pub lead: String,
}

/// Whether a line names a shown entry with the indentation and connector it is owed.
pub open spec fn line_ok(es: Seq<FsEntry>, shown: Seq<bool>, l: TreeLine) -> bool {
    l.entry < es.len() && shown[l.entry as int] && l.lead@ == lead(es, shown, l.entry as int)
}

/// Whether `x` lies below `a` (`-1` for the root) with every directory between
/// them shown and opened.
pub open spec fn below_open(es: Seq<FsEntry>, shown: Seq<bool>, pruned: Seq<bool>, a: int, x: int) -> bool
    decreases x,
{
    0 <= x < es.len() && (parent_index(es[x].parent) == a || match es[x].parent {
        Some(p) => (p as int) < x && shown[p as int] && !pruned[p as int] && below_open(es, shown, pruned, a, p as int),
        None => false,
    })
}

/// Whether `x` is one of the first `idx` children or lies open below one of them.
pub open spec fn under_done(es: Seq<FsEntry>, shown: Seq<bool>, pruned: Seq<bool>, cs: Seq<usize>, idx: int, x: usize) -> bool {
    exists|j: int| 0 <= j < idx && (x == #[trigger] cs[j]
        || (shown[cs[j] as int] && !pruned[cs[j] as int] && es[cs[j] as int].is_dir
            && below_open(es, shown, pruned, cs[j] as int, x as int)))
}

/// Whether `x` lies strictly below `a`; everything lies below the root (`a < 0`).
pub open spec fn strictly_below(es: Seq<FsEntry>, a: int, x: int) -> bool {
    a < 0 || (a != x && ancestor_or_self(es, a, x))
}

/// Whether, from position `from` on, lines of siblings come in display order.
pub open spec fn siblings_ordered(es: Seq<FsEntry>, out: Seq<TreeLine>, from: int) -> bool {
    forall|k: int, l: int| #![trigger out[k], out[l]]
        from <= k < l < out.len() && es[out[k].entry as int].parent == es[out[l].entry as int].parent
            ==> key_less(es, out[k].entry as int, out[l].entry as int)
}

/// Whether, from position `from` on, lines come in pre-order: no line names an
/// entry above one named on an earlier line, and the lines between a line and
/// a later line below it name entries below it too.
pub open spec fn preorder(es: Seq<FsEntry>, out: Seq<TreeLine>, from: int) -> bool {
    &&& forall|k: int, l: int| #![trigger out[k], out[l]]
        from <= k < l < out.len() ==> !strictly_below(es, out[l].entry as int, out[k].entry as int)
    &&& forall|k: int, l: int, m: int| #![trigger out[k], out[l], out[m]]
        from <= k < l < m < out.len() && strictly_below(es, out[k].entry as int, out[m].entry as int)
            ==> strictly_below(es, out[k].entry as int, out[l].entry as int)
}

/// Whether an entry is one of the first `idx` children or lies below one of them.
pub open spec fn owned(es: Seq<FsEntry>, cs: Seq<usize>, idx: int, e: int) -> bool {
    exists|j: int| 0 <= j < idx && (e == #[trigger] cs[j] || strictly_below(es, cs[j] as int, e))
}

proof fn lemma_one_child_above(es: Seq<FsEntry>, c1: int, c2: int, q: int)
    requires
        wf(es),
        0 <= c1 < es.len(),
        0 <= c2 < es.len(),
        es[c1].parent == es[c2].parent,
        ancestor_or_self(es, c1, q),
        ancestor_or_self(es, c2, q),
    ensures
        c1 == c2,
    decreases q,
{
    if q == c1 && q != c2 {
        let p = es[c1].parent.unwrap() as int;
        lemma_ancestor_le(es, c2, p);
    } else if q == c2 && q != c1 {
        let p = es[c2].parent.unwrap() as int;
        lemma_ancestor_le(es, c1, p);
    } else if q != c1 && q != c2 {
        let p = es[q].parent.unwrap() as int;
        lemma_one_child_above(es, c1, c2, p);
    }
}

proof fn lemma_comparable(es: Seq<FsEntry>, a: int, b: int, x: int)
    requires
        ancestor_or_self(es, a, x),
        ancestor_or_self(es, b, x),
    ensures
        ancestor_or_self(es, a, b) || ancestor_or_self(es, b, a),
    decreases x,
{
    if x != a && x != b {
        let p = es[x].parent.unwrap() as int;
        lemma_comparable(es, a, b, p);
    }
}

/// Entries below two different siblings are never one above the other.
proof fn lemma_apart(es: Seq<FsEntry>, cj: int, c: int, ek: int, em: int)
    requires
        wf(es),
        0 <= cj < es.len(),
        0 <= c < es.len(),
        cj != c,
        es[cj].parent == es[c].parent,
        ancestor_or_self(es, cj, ek),
        ancestor_or_self(es, c, em),
    ensures
        !(ek != em && ancestor_or_self(es, ek, em)),
        !(em != ek && ancestor_or_self(es, em, ek)),
{
    if ancestor_or_self(es, ek, em) {
        lemma_comparable(es, ek, c, em);
        if ancestor_or_self(es, c, ek) {
            lemma_one_child_above(es, cj, c, ek);
        } else {
            lemma_ancestor_trans(es, cj, ek, c);
            assert(ancestor_or_self(es, c, c));
            lemma_one_child_above(es, cj, c, c);
        }
    }
    if ancestor_or_self(es, em, ek) {
        lemma_ancestor_trans(es, c, em, ek);
        lemma_one_child_above(es, cj, c, ek);
    }
}

proof fn lemma_below_parent(es: Seq<FsEntry>, c: int, x: int)
    requires
        0 <= c,
        strictly_below(es, c, x),
    ensures
        es[x].parent is Some,
        ancestor_or_self(es, c, es[x].parent.unwrap() as int),
        c <= es[x].parent.unwrap() as int,
{
    lemma_ancestor_le(es, c, es[x].parent.unwrap() as int);
}

/// Whether some line names entry `x`.
pub open spec fn covered(out: Seq<TreeLine>, x: usize) -> bool {
    exists|k: int| 0 <= k < out.len() && (#[trigger] out[k]).entry == x
}

proof fn lemma_top_child(es: Seq<FsEntry>, shown: Seq<bool>, pruned: Seq<bool>, a: int, x: int) -> (c: int)
    requires
        wf(es),
        below_open(es, shown, pruned, a, x),
    ensures
        0 <= c <= x,
        parent_index(es[c].parent) == a,
        x == c || (shown[c] && !pruned[c] && es[c].is_dir && below_open(es, shown, pruned, c, x)),
    decreases x,
{
    if parent_index(es[x].parent) == a {
        x
    } else {
        let p = es[x].parent.unwrap() as int;
        let c = lemma_top_child(es, shown, pruned, a, p);
        if p == c {
            assert(parent_index(es[x].parent) == c);
        }
        c
    }
}

fn push_connector(s: &mut String, last: bool)
    ensures
        final(s)@ == old(s)@ + connector(last),
{
    if last {
        push_str(s, "\u{2514}\u{2500}\u{2500} ");
        proof {
            reveal_strlit("\u{2514}\u{2500}\u{2500} ");
        }
    } else {
        push_str(s, "\u{251c}\u{2500}\u{2500} ");
        proof {
            reveal_strlit("\u{251c}\u{2500}\u{2500} ");
        }
    }
    assert(final(s)@ =~= old(s)@ + connector(last));
}

fn push_continuation(s: &mut String, last: bool)
    ensures
        final(s)@ == old(s)@ + continuation(last),
{
    if last {
        push_str(s, "    ");
        proof {
            reveal_strlit("    ");
        }
    } else {
        push_str(s, "\u{2502}   ");
        proof {
            reveal_strlit("\u{2502}   ");
        }
    }
    assert(final(s)@ =~= old(s)@ + continuation(last));
}

/// Appends the lines for the shown entries below `parent`, depth first, siblings in order.
fn render_level(
    es: &Vec<FsEntry>,
    lowers: &Vec<String>,
    shown: &Vec<bool>,
    pruned: &Vec<bool>,
    parent: Option<usize>,
    prefix: &String,
    out: &mut Vec<TreeLine>,
)
    requires
        wf(es@),
        lowers@.len() == es@.len(),
        shown@.len() == es@.len(),
        pruned@.len() == es@.len(),
        forall|i: int| 0 <= i < es@.len() ==> lowers@[i]@ == lower_of(es@[i].name@),
        parent is Some ==> parent.unwrap() < es@.len(),
        prefix@ == prefix_below(es@, shown@, parent_index(parent)),
        forall|k: int| 0 <= k < old(out)@.len() ==> line_ok(es@, shown@, #[trigger] old(out)@[k]),
    ensures
        forall|k: int| 0 <= k < final(out)@.len() ==> line_ok(es@, shown@, #[trigger] final(out)@[k]),
        old(out)@.len() <= final(out)@.len(),
        forall|k: int| 0 <= k < old(out)@.len() ==> final(out)@[k] == old(out)@[k],
        forall|x: usize| x < es@.len() && shown@[x as int] && below_open(es@, shown@, pruned@, parent_index(parent), x as int)
            ==> covered(final(out)@, x),
        forall|k: int| old(out)@.len() <= k < final(out)@.len()
            ==> strictly_below(es@, parent_index(parent), (#[trigger] final(out)@[k]).entry as int),
        siblings_ordered(es@, final(out)@, old(out)@.len() as int),
        preorder(es@, final(out)@, old(out)@.len() as int),
    decreases match parent { Some(p) => es@.len() - p, None => es@.len() + 1int },
{
    let cs = sorted_children(es, lowers, shown, parent);
    let m = cs.len();
    let total = es.len();
    let mut idx: usize = 0;
    while idx < m
        invariant
            total == es@.len(),
            wf(es@),
            lowers@.len() == es@.len(),
            shown@.len() == es@.len(),
            pruned@.len() == es@.len(),
            forall|i: int| 0 <= i < es@.len() ==> lowers@[i]@ == lower_of(es@[i].name@),
            parent is Some ==> parent.unwrap() < es@.len(),
            prefix@ == prefix_below(es@, shown@, parent_index(parent)),
            m == cs@.len(),
            forall|k: int| 0 <= k < cs@.len() ==> 0 <= #[trigger] cs@[k] < es@.len(),
            forall|k: int, l: int| 0 <= k < l < cs@.len() ==> key_less(es@, cs@[k] as int, cs@[l] as int),
            forall|x: usize| x < es@.len() ==> (shown@[x as int] && child_of(es@, x as int, parent) <==> cs@.contains(x)),
            forall|k: int| 0 <= k < out@.len() ==> line_ok(es@, shown@, #[trigger] out@[k]),
            old(out)@.len() <= out@.len(),
            forall|k: int| 0 <= k < old(out)@.len() ==> out@[k] == old(out)@[k],
            idx <= m,
            forall|x: usize| x < es@.len() && shown@[x as int] && #[trigger] under_done(es@, shown@, pruned@, cs@, idx as int, x)
                ==> covered(out@, x),
            forall|k: int| old(out)@.len() <= k < out@.len() ==> owned(es@, cs@, idx as int, (#[trigger] out@[k]).entry as int),
            siblings_ordered(es@, out@, old(out)@.len() as int),
            preorder(es@, out@, old(out)@.len() as int),
        decreases m - idx,
    {
        let c = cs[idx];
        let last = idx + 1 == m;
        proof {
            let ci = c as int;
            assert(cs@[idx as int] == c);
            assert(cs@.contains(c));
            assert(shown@[ci] && child_of(es@, ci, parent));
            if last {
                assert forall|j: int| 0 <= j < es@.len() && j != ci && #[trigger] shown@[j] && es@[j].parent == es@[ci].parent
                    implies !key_less(es@, ci, j) by {
                    let ju = j as usize;
                    assert(ju as int == j);
                    assert(shown@[ju as int] && child_of(es@, ju as int, parent));
                    assert(cs@.contains(ju));
                    let y = choose|y: int| 0 <= y < cs@.len() && cs@[y] == ju;
                    assert(y != idx as int);
                    assert(y < idx);
                    lemma_key_asym(es@, j, ci);
                }
            } else {
                let j = cs@[idx + 1] as int;
                assert(cs@.contains(j as usize));
                assert(shown@[j] && child_of(es@, j, parent));
                lemma_key_asym(es@, ci, j);
                assert(shown@[j] && es@[j].parent == es@[ci].parent && j != ci);
            }
            assert(last == is_last(es@, shown@, ci));
            assert(parent_index(es@[ci].parent) == parent_index(parent));
        }
        let mut lead = prefix.clone();
        push_connector(&mut lead, last);
        let ghost before = out@;
        out.push(TreeLine { entry: c, lead });
        proof {
            assert(out@[before.len() as int].entry == c);
            assert forall|x: usize| covered(before, x) implies covered(out@, x) by {
                let k = choose|k: int| 0 <= k < before.len() && (#[trigger] before[k]).entry == x;
                assert(out@[k] == before[k]);
            }
        }
        proof {
            let ci = c as int;
            let base = old(out)@.len() as int;
            let lpos = before.len() as int;
            assert forall|k: int| base <= k < out@.len() implies owned(es@, cs@, idx + 1, (#[trigger] out@[k]).entry as int) by {
                if k < lpos {
                    assert(out@[k] == before[k]);
                    assert(owned(es@, cs@, idx as int, before[k].entry as int));
                    let j = choose|j: int| 0 <= j < idx && (before[k].entry as int == #[trigger] cs@[j]
                        || strictly_below(es@, cs@[j] as int, before[k].entry as int));
                    assert(cs@[j] == cs@[j]);
                } else {
                    assert(out@[k].entry == cs@[idx as int]);
                }
            }
            assert forall|k: int, l: int| #![trigger out@[k], out@[l]]
                base <= k < l < out@.len() && es@[out@[k].entry as int].parent == es@[out@[l].entry as int].parent
                    implies key_less(es@, out@[k].entry as int, out@[l].entry as int) by {
                if l == lpos {
                    assert(out@[k] == before[k]);
                    let e = before[k].entry as int;
                    let j = choose|j: int| 0 <= j < idx && (e == #[trigger] cs@[j]
                        || strictly_below(es@, cs@[j] as int, e));
                    assert(cs@.contains(cs@[j]));
                    assert(child_of(es@, cs@[j] as int, parent));
                    if e == cs@[j] as int {
                    } else {
                        lemma_below_parent(es@, cs@[j] as int, e);
                        assert(es@[ci].parent == parent);
                        match parent {
                            Some(p) => {
                                assert((p as int) < cs@[j] as int);
                            },
                            None => {},
                        }
                    }
                } else {
                    assert(out@[k] == before[k]);
                    assert(out@[l] == before[l]);
                }
            }
        }
        proof {
            let ci = c as int;
            let base = old(out)@.len() as int;
            let lpos = before.len() as int;
            assert forall|k: int| base <= k < lpos implies {
                let ek = (#[trigger] before[k]).entry as int;
                !(ek != ci && ancestor_or_self(es@, ek, ci)) && !(ci != ek && ancestor_or_self(es@, ci, ek))
            } by {
                let ek = before[k].entry as int;
                assert(owned(es@, cs@, idx as int, ek));
                let j = choose|j: int| 0 <= j < idx && (ek == #[trigger] cs@[j]
                    || strictly_below(es@, cs@[j] as int, ek));
                assert(cs@.contains(cs@[j]));
                assert(child_of(es@, cs@[j] as int, parent));
                assert(ancestor_or_self(es@, cs@[j] as int, ek));
                assert(key_less(es@, cs@[j] as int, cs@[idx as int] as int));
                if cs@[j] as int == ci {
                    lemma_key_asym(es@, ci, ci);
                }
                assert(ancestor_or_self(es@, ci, ci));
                lemma_apart(es@, cs@[j] as int, ci, ek, ci);
            }
            assert forall|k: int, l: int| #![trigger out@[k], out@[l]]
                base <= k < l < out@.len() implies !strictly_below(es@, out@[l].entry as int, out@[k].entry as int) by {
                assert(out@[k] == before[k]);
                if l < lpos {
                    assert(out@[l] == before[l]);
                }
            }
            assert forall|k: int, l: int, mm: int| #![trigger out@[k], out@[l], out@[mm]]
                base <= k < l < mm < out@.len() && strictly_below(es@, out@[k].entry as int, out@[mm].entry as int)
                    implies strictly_below(es@, out@[k].entry as int, out@[l].entry as int) by {
                assert(out@[k] == before[k]);
                assert(out@[l] == before[l]);
                if mm < lpos {
                    assert(out@[mm] == before[mm]);
                }
            }
        }
        let ghost mid = out@;
        let ghost cidx = idx as int;
        if es[c].is_dir && !pruned[c] {
            let mut below = prefix.clone();
            push_continuation(&mut below, last);
            proof {
                let ci = c as int;
                match parent {
                    Some(p) => assert((p as int) < ci),
                    None => {},
                }
                assert(below@ == prefix_below(es@, shown@, ci));
            }
            render_level(es, lowers, shown, pruned, Some(c), &below, out);
            proof {
                let ci = c as int;
                let base = old(out)@.len() as int;
                let mlen = mid.len() as int;
                assert forall|k: int| base <= k < mlen - 1 implies {
                    let ek = (#[trigger] mid[k]).entry as int;
                    forall|e: int| #![trigger ancestor_or_self(es@, ci, e)] ancestor_or_self(es@, ci, e)
                        ==> !(ek != e && ancestor_or_self(es@, ek, e)) && !(e != ek && ancestor_or_self(es@, e, ek))
                } by {
                    let ek = mid[k].entry as int;
                    assert(mid[k] == before[k]);
                    assert(owned(es@, cs@, cidx, ek));
                    let j = choose|j: int| 0 <= j < cidx && (ek == #[trigger] cs@[j]
                        || strictly_below(es@, cs@[j] as int, ek));
                    assert(cs@.contains(cs@[j]));
                    assert(child_of(es@, cs@[j] as int, parent));
                    assert(ancestor_or_self(es@, cs@[j] as int, ek));
                    assert(key_less(es@, cs@[j] as int, cs@[cidx] as int));
                    if cs@[j] as int == ci {
                        lemma_key_asym(es@, ci, ci);
                    }
                    assert forall|e: int| #![trigger ancestor_or_self(es@, ci, e)] ancestor_or_self(es@, ci, e)
                        implies !(ek != e && ancestor_or_self(es@, ek, e)) && !(e != ek && ancestor_or_self(es@, e, ek)) by {
                        lemma_apart(es@, cs@[j] as int, ci, ek, e);
                    }
                }
                assert(mid[mlen - 1].entry == c);
                assert forall|k: int, l: int| #![trigger out@[k], out@[l]]
                    base <= k < l < out@.len() implies !strictly_below(es@, out@[l].entry as int, out@[k].entry as int) by {
                    if l < mlen {
                        assert(out@[k] == mid[k]);
                        assert(out@[l] == mid[l]);
                    } else if k >= mlen {
                    } else {
                        let el = out@[l].entry as int;
                        assert(strictly_below(es@, ci, el));
                        assert(out@[k] == mid[k]);
                        if k == mlen - 1 {
                            if ancestor_or_self(es@, el, ci) {
                                lemma_ancestor_le(es@, el, ci);
                                lemma_ancestor_le(es@, ci, el);
                            }
                        } else {
                            assert(ancestor_or_self(es@, ci, el));
                        }
                    }
                }
                assert forall|k: int, l: int, mm: int| #![trigger out@[k], out@[l], out@[mm]]
                    base <= k < l < mm < out@.len() && strictly_below(es@, out@[k].entry as int, out@[mm].entry as int)
                        implies strictly_below(es@, out@[k].entry as int, out@[l].entry as int) by {
                    if mm < mlen {
                        assert(out@[k] == mid[k]);
                        assert(out@[l] == mid[l]);
                        assert(out@[mm] == mid[mm]);
                    } else if k >= mlen {
                    } else {
                        assert(out@[k] == mid[k]);
                        let em = out@[mm].entry as int;
                        assert(strictly_below(es@, ci, em));
                        assert(ancestor_or_self(es@, ci, em));
                        if k == mlen - 1 {
                            assert(out@[k].entry == c);
                            if l >= mlen {
                                assert(strictly_below(es@, ci, out@[l].entry as int));
                            }
                        }
                    }
                }
                assert forall|k: int| base <= k < out@.len() implies owned(es@, cs@, cidx + 1, (#[trigger] out@[k]).entry as int) by {
                    if k < mlen {
                        assert(out@[k] == mid[k]);
                    } else {
                        assert(strictly_below(es@, ci, out@[k].entry as int));
                        assert(cs@[cidx] == c);
                    }
                }
                assert forall|k: int, l: int| #![trigger out@[k], out@[l]]
                    base <= k < l < out@.len() && es@[out@[k].entry as int].parent == es@[out@[l].entry as int].parent
                        implies key_less(es@, out@[k].entry as int, out@[l].entry as int) by {
                    if l < mlen {
                        assert(out@[k] == mid[k]);
                        assert(out@[l] == mid[l]);
                    } else if k >= mlen {
                    } else {
                        assert(out@[k] == mid[k]);
                        let ek = mid[k].entry as int;
                        let el = out@[l].entry as int;
                        lemma_below_parent(es@, ci, el);
                        let q = es@[el].parent.unwrap() as int;
                        assert(es@[ci].parent == parent);
                        match parent {
                            Some(p) => assert((p as int) < ci),
                            None => {},
                        }
                        if k < before.len() {
                            assert(mid[k] == before[k]);
                            assert(owned(es@, cs@, cidx, ek));
                            let j = choose|j: int| 0 <= j < cidx && (ek == #[trigger] cs@[j]
                                || strictly_below(es@, cs@[j] as int, ek));
                            assert(cs@.contains(cs@[j]));
                            assert(child_of(es@, cs@[j] as int, parent));
                            if ek != cs@[j] as int {
                                lemma_below_parent(es@, cs@[j] as int, ek);
                                if es@[ek].parent == es@[el].parent {
                                    lemma_one_child_above(es@, cs@[j] as int, ci, q);
                                    lemma_key_asym(es@, ci, ci);
                                    assert(key_less(es@, cs@[j] as int, cs@[cidx] as int));
                                }
                            }
                        } else {
                            assert(ek == ci);
                        }
                    }
                }
            }
            proof {
                assert forall|x: usize| covered(mid, x) implies covered(out@, x) by {
                    let k = choose|k: int| 0 <= k < mid.len() && (#[trigger] mid[k]).entry == x;
                    assert(out@[k] == mid[k]);
                }
            }
        }
        proof {
            assert(covered(mid, c));
            assert(covered(out@, c)) by {
                assert(out@[before.len() as int] == mid[before.len() as int]);
            }
            assert forall|x: usize| x < es@.len() && shown@[x as int] && #[trigger] under_done(es@, shown@, pruned@, cs@, idx + 1, x)
                implies covered(out@, x) by {
                let j = choose|j: int| 0 <= j < idx + 1 && (x == #[trigger] cs@[j]
                    || (shown@[cs@[j] as int] && !pruned@[cs@[j] as int] && es@[cs@[j] as int].is_dir
                        && below_open(es@, shown@, pruned@, cs@[j] as int, x as int)));
                if j < idx {
                    assert(under_done(es@, shown@, pruned@, cs@, idx as int, x));
                    assert(covered(before, x));
                    assert(covered(mid, x));
                } else {
                    assert(cs@[j] == c);
                }
            }
        }
        idx = idx + 1;
    }
    proof {
        assert forall|x: usize| x < es@.len() && shown@[x as int] && below_open(es@, shown@, pruned@, parent_index(parent), x as int)
            implies covered(out@, x) by {
            let ci = lemma_top_child(es@, shown@, pruned@, parent_index(parent), x as int);
            let cu = ci as usize;
            assert(cu as int == ci);
            assert(shown@[ci]);
            assert(child_of(es@, ci, parent));
            assert(cs@.contains(cu));
            let j = choose|j: int| 0 <= j < cs@.len() && cs@[j] == cu;
            assert(under_done(es@, shown@, pruned@, cs@, m as int, x));
        }
        assert forall|k: int| old(out)@.len() <= k < out@.len()
            implies strictly_below(es@, parent_index(parent), (#[trigger] out@[k]).entry as int) by {
            let e = out@[k].entry as int;
            assert(owned(es@, cs@, m as int, e));
            let j = choose|j: int| 0 <= j < m && (e == #[trigger] cs@[j] || strictly_below(es@, cs@[j] as int, e));
            let cj = cs@[j] as int;
            assert(cs@.contains(cs@[j]));
            assert(child_of(es@, cj, parent));
            match parent {
                Some(p) => {
                    let pi = p as int;
                    assert(ancestor_or_self(es@, pi, pi));
                    assert(ancestor_or_self(es@, pi, cj));
                    if e != cj {
                        lemma_ancestor_trans(es@, pi, cj, e);
                        lemma_ancestor_le(es@, cj, e);
                    }
                },
                None => {},
            }
        }
    }
}

/// The lines of the tree of shown entries, in pre-order: each directory's line
/// is followed by the lines below it. Directories are opened unless pruned;
/// siblings come directories first and then by name without regard to case.
pub fn render_tree(es: &Vec<FsEntry>, shown: &Vec<bool>, pruned: &Vec<bool>) -> (r: Vec<TreeLine>)
    requires
        wf(es@),
        shown@.len() == es@.len(),
        pruned@.len() == es@.len(),
    ensures
        forall|k: int| 0 <= k < r@.len() ==> line_ok(es@, shown@, #[trigger] r@[k]),
        forall|x: usize| x < es@.len() && shown@[x as int] && below_open(es@, shown@, pruned@, -1, x as int)
            ==> covered(r@, x),
        siblings_ordered(es@, r@, 0),
        preorder(es@, r@, 0),
{
    let n = es.len();
    let mut lowers: Vec<String> = Vec::new();
    let mut i: usize = 0;
    while i < n
        invariant
            n == es@.len(),
            i <= n,
            lowers@.len() == i,
            forall|j: int| 0 <= j < i ==> lowers@[j]@ == lower_of(es@[j].name@),
        decreases n - i,
    {
        lowers.push(lowercase(es[i].name.as_str()));
        i = i + 1;
    }
    let mut out: Vec<TreeLine> = Vec::new();
    let root = String::new();
    render_level(es, &lowers, shown, pruned, None, &root, &mut out);
    out
}

/// How an entry's name is shown: a directory's name ends with `/`.
pub open spec fn shown_name(e: FsEntry) -> Seq<char> {
    if e.is_dir {
        e.name@.push('/')
    } else {
        e.name@
    }
}

/// The name of an entry as a line shows it.
pub fn display_name(e: &FsEntry) -> (r: String)
    ensures
        r@ == shown_name(*e),
{
    let mut s = e.name.clone();
    if e.is_dir {
        push_char(&mut s, '/');
    }
    s
}

/// A tree display: what was selected and the lines to print.
pub struct TreeView {
    /// What is shown and what is left closed.
    pub selection: TreeSelection,
    /// The lines, top to bottom.
    pub lines: Vec<TreeLine>,
}

proof fn lemma_shown_is_open(es: Seq<FsEntry>, cfg: TreeConfig, shown: Seq<bool>, pruned: Seq<bool>, x: int)
    requires
        wf(es),
        shown.len() == es.len(),
        pruned.len() == es.len(),
        forall|i: int| 0 <= i < es.len() ==> shown[i] == tree_shown(es, cfg, i),
        forall|i: int| 0 <= i < es.len() ==> pruned[i] == size_pruned(es, cfg, i),
        0 <= x < es.len(),
        tree_shown(es, cfg, x),
    ensures
        below_open(es, shown, pruned, -1, x),
    decreases x,
{
    match es[x].parent {
        Some(p) => {
            let pi = p as int;
            assert(tree_reaches(es, cfg, pi));
            if cfg.git_files is Some {
                let marks = file_set_marks(es, cfg);
                let h = choose|h: int| 0 <= h < es.len() && marks[h] && #[trigger] crate::snapshot::ancestor_or_self(es, x, h);
                lemma_step_up(es, pi, x, h);
                assert(marked_below(es, marks, pi));
            }
            lemma_shown_is_open(es, cfg, shown, pruned, pi);
        },
        None => {},
    }
}

/// Selects what the tree shows and lays it out: every line names a shown entry
/// with its indentation and connector, and every shown entry has a line.
pub fn display_tree(es: &Vec<FsEntry>, cfg: &TreeConfig) -> (r: TreeView)
    requires
        wf(es@),
    ensures
        r.selection.shown@.len() == es@.len(),
        r.selection.pruned@.len() == es@.len(),
        r.selection.cumulative@.len() == es@.len(),
        forall|i: int| 0 <= i < es@.len() ==> r.selection.shown@[i] == tree_shown(es@, *cfg, i),
        forall|i: int| 0 <= i < es@.len() ==> r.selection.pruned@[i] == size_pruned(es@, *cfg, i),
        forall|i: int| 0 <= i < es@.len() ==> r.selection.cumulative@[i] as nat == crate::tree::cumulative_size(es@, i),
        forall|k: int| 0 <= k < r.lines@.len() ==> line_ok(es@, r.selection.shown@, #[trigger] r.lines@[k]),
        forall|x: usize| x < es@.len() && tree_shown(es@, *cfg, x as int) ==> covered(r.lines@, x),
        siblings_ordered(es@, r.lines@, 0),
        preorder(es@, r.lines@, 0),
{
    let selection = select_tree(es, cfg);
    let lines = render_tree(es, &selection.shown, &selection.pruned);
    proof {
        assert forall|x: usize| x < es@.len() && tree_shown(es@, *cfg, x as int) implies covered(lines@, x) by {
            lemma_shown_is_open(es@, *cfg, selection.shown@, selection.pruned@, x as int);
        }
    }
    TreeView { selection, lines }
}

} // verus!

//! A directory subtree as read from disk: entries listed with their parent,
//! each parent before its children.
use vstd::prelude::*;

verus! {

/// One entry below the traversal root.
pub struct FsEntry {
    /// The entry's own name.
    pub name: String,
    /// The path from the traversal root, components joined by `/`.
    pub rel_path: String,
    /// The directory holding it; `None` for a child of the root.
    pub parent: Option<usize>,
    /// Whether it is a directory.
    pub is_dir: bool,
    /// Its size in bytes; for a directory, what the directory entry itself takes.
    pub size: u64,
    /// Whether it is an executable file.
    pub executable: bool,
}

/// Each parent is a directory listed before its children.
pub open spec fn wf(es: Seq<FsEntry>) -> bool {
    forall|i: int| 0 <= i < es.len() ==> match #[trigger] es[i].parent {
        Some(p) => (p as int) < i && es[p as int].is_dir,
        None => true,
    }
}

/// How many levels below the root an entry stands; a child of the root is at level 1.
pub open spec fn depth(es: Seq<FsEntry>, i: int) -> nat
    decreases i,
{
    if 0 <= i < es.len() {
        match es[i].parent {
            Some(p) => if 0 <= (p as int) && (p as int) < i {
                depth(es, p as int) + 1
            } else {
                1
            },
            None => 1,
        }
    } else {
        0
    }
}

/// Whether `a` is `h` or a directory that `h` lies below.
pub open spec fn ancestor_or_self(es: Seq<FsEntry>, a: int, h: int) -> bool
    decreases h,
{
    h == a || (0 <= h < es.len() && match es[h].parent {
        Some(p) => (p as int) < h && ancestor_or_self(es, a, p as int),
        None => false,
    })
}

/// Whether some marked entry is `a` or lies below `a`.
pub open spec fn marked_below(es: Seq<FsEntry>, marks: Seq<bool>, a: int) -> bool {
    exists|h: int| 0 <= h < es.len() && marks[h] && #[trigger] ancestor_or_self(es, a, h)
}

/// An entry lies after every directory it lies below.
pub proof fn lemma_ancestor_le(es: Seq<FsEntry>, a: int, h: int)
    requires
        ancestor_or_self(es, a, h),
    ensures
        a <= h,
    decreases h,
{
    if h != a {
        let p = es[h].parent.unwrap() as int;
        lemma_ancestor_le(es, a, p);
    }
}

/// Lying below is transitive.
pub proof fn lemma_ancestor_trans(es: Seq<FsEntry>, a: int, b: int, h: int)
    requires
        ancestor_or_self(es, a, b),
        ancestor_or_self(es, b, h),
    ensures
        ancestor_or_self(es, a, h),
    decreases h,
{
    if h != b {
        let p = es[h].parent.unwrap() as int;
        lemma_ancestor_trans(es, a, b, p);
    }
}

proof fn lemma_step_down(es: Seq<FsEntry>, a: int, h: int) -> (c: int)
    requires
        wf(es),
        0 <= a,
        ancestor_or_self(es, a, h),
        h != a,
    ensures
        0 <= c < es.len(),
        es[c].parent is Some && es[c].parent.unwrap() as int == a,
        ancestor_or_self(es, c, h),
    decreases h,
{
    let p = es[h].parent.unwrap() as int;
    if p == a {
        h
    } else {
        let c = lemma_step_down(es, a, p);
        c
    }
}

/// The directory holding `c` lies above whatever `c` lies above.
pub proof fn lemma_step_up(es: Seq<FsEntry>, a: int, c: int, h: int)
    requires
        wf(es),
        0 <= a < c < es.len(),
        es[c].parent is Some && es[c].parent.unwrap() as int == a,
        ancestor_or_self(es, c, h),
    ensures
        ancestor_or_self(es, a, h),
    decreases h,
{
    if h == c {
        assert(ancestor_or_self(es, a, a));
    } else {
        let q = es[h].parent.unwrap() as int;
        lemma_step_up(es, a, c, q);
    }
}

/// Marks every entry that is marked itself or has a marked entry below it.
pub fn mark_with_ancestors(es: &Vec<FsEntry>, marks: &Vec<bool>) -> (r: Vec<bool>)
    requires
        wf(es@),
        marks@.len() == es@.len(),
    ensures
        r@.len() == es@.len(),
        forall|i: int| 0 <= i < es@.len() ==> r@[i] == marked_below(es@, marks@, i),
{
    let n = es.len();
    let mut kept: Vec<bool> = Vec::new();
    let mut flag: Vec<bool> = Vec::new();
    let mut k: usize = 0;
    while k < n
        invariant
            n == es@.len(),
            k <= n,
            kept@.len() == k,
            flag@.len() == k,
            forall|j: int| 0 <= j < k ==> !flag@[j],
        decreases n - k,
    {
        kept.push(false);
        flag.push(false);
        k = k + 1;
    }
    let mut i: usize = n;
    while i > 0
        invariant
            n == es@.len(),
            marks@.len() == n,
            wf(es@),
            i <= n,
            kept@.len() == n,
            flag@.len() == n,
            forall|j: int| i <= j < n ==> kept@[j] == marked_below(es@, marks@, j),
            forall|p: int| 0 <= p < i ==> flag@[p] == exists|c: int|
                i <= c < n && (#[trigger] es@[c]).parent == Some(p as usize) && marked_below(es@, marks@, c),
        decreases i,
    {
        i = i - 1;
        let ghost ki = i as int;
        let v = marks[i] || flag[i];
        proof {
            if marked_below(es@, marks@, ki) {
                let h = choose|h: int| 0 <= h < es@.len() && marks@[h] && #[trigger] ancestor_or_self(es@, ki, h);
                if h != ki {
                    let c = lemma_step_down(es@, ki, h);
                    assert(es@[c].parent.unwrap() == i);
                    lemma_ancestor_le(es@, ki, h);
                    assert(ancestor_or_self(es@, c, h));
                    assert(marked_below(es@, marks@, c));
                    assert(c > ki);
                }
            }
            if v {
                if marks@[ki] {
                    assert(ancestor_or_self(es@, ki, ki));
                } else {
                    let c = choose|c: int| ki < c < n && (#[trigger] es@[c]).parent == Some(i) && marked_below(es@, marks@, c);
                    let h = choose|h: int| 0 <= h < es@.len() && marks@[h] && #[trigger] ancestor_or_self(es@, c, h);
                    assert(0 <= ki < c);
                    lemma_step_up(es@, ki, c, h);
                }
            }
        }
        kept.set(i, v);
        if v {
            match es[i].parent {
                Some(p) => {
                    flag.set(p, true);
                },
                None => {},
            }
        }
        assert forall|p: int| 0 <= p < i implies flag@[p] == exists|c: int|
            i <= c < n && (#[trigger] es@[c]).parent == Some(p as usize) && marked_below(es@, marks@, c) by {
            if es@[ki].parent == Some(p as usize) && v {
                assert(i <= ki < n);
            }
        }
    }
    kept
}

/// A level is at least one and at most the entry's position plus one.
pub proof fn lemma_depth_bound(es: Seq<FsEntry>, i: int)
    requires
        0 <= i < es.len(),
    ensures
        1 <= depth(es, i) <= i + 1,
    decreases i,
{
    match es[i].parent {
        Some(p) => if 0 <= (p as int) && (p as int) < i {
            lemma_depth_bound(es, p as int);
        },
        None => {},
    }
}

/// The level of each entry below the root.
pub fn depths(es: &Vec<FsEntry>) -> (r: Vec<usize>)
    requires
        wf(es@),
    ensures
        r@.len() == es@.len(),
        forall|i: int| 0 <= i < es@.len() ==> r@[i] as nat == depth(es@, i),
{
    let n = es.len();
    let mut r: Vec<usize> = Vec::new();
    let mut i: usize = 0;
    while i < n
        invariant
            n == es@.len(),
            wf(es@),
            i <= n,
            r@.len() == i,
            forall|j: int| 0 <= j < i ==> r@[j] as nat == depth(es@, j),
        decreases n - i,
    {
        proof {
            lemma_depth_bound(es@, i as int);
        }
        let d = match es[i].parent {
            Some(p) => r[p] + 1,
            None => 1,
        };
        r.push(d);
        i = i + 1;
    }
    r
}

/// Whether a snapshot is well formed: each parent is a directory listed before its children.
pub fn is_well_formed(es: &Vec<FsEntry>) -> (r: bool)
    ensures
        r == wf(es@),
{
    let mut i: usize = 0;
    while i < es.len()
        invariant
            i <= es@.len(),
            forall|j: int| 0 <= j < i ==> match #[trigger] es@[j].parent {
                Some(p) => (p as int) < j && es@[p as int].is_dir,
                None => true,
            },
        decreases es@.len() - i,
    {
        match es[i].parent {
            Some(p) => {
                if p >= i || !es[p].is_dir {
                    assert(!wf(es@)) by {
                        assert(match es@[i as int].parent {
                            Some(p) => (p as int) < i && es@[p as int].is_dir,
                            None => true,
                        } == false);
                    }
                    return false;
                }
            },
            None => {},
        }
        i = i + 1;
    }
    true
}

} // verus!

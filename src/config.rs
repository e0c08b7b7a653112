//! The persisted ignore patterns: one pattern per line of a plain text store.
use vstd::prelude::*;
use crate::text::{
    keeps, kept_trimmed, lemma_leading_exact, lemma_trailing_exact, pieces, push_char, push_str, split_kept,
    str_eq, trimmed, white_space,
};

verus! {

/// The characters of each string.
pub open spec fn views(v: Seq<String>) -> Seq<Seq<char>> {
    v.map_values(|s: String| s@)
}

/// The patterns that a store's text holds: each line trimmed, blank lines and
/// lines starting with `#` left out.
pub open spec fn stored_patterns(content: Seq<char>) -> Seq<Seq<char>> {
    kept_trimmed(pieces(content, '\n'), true)
}

/// The patterns of a store, read from its text.
pub fn load_config_patterns(content: &str) -> (r: Vec<String>)
    ensures
        views(r@) == stored_patterns(content@),
{
    split_kept(content, '\n', true)
}

/// The patterns joined by line feeds.
pub open spec fn joined(ps: Seq<Seq<char>>) -> Seq<char>
    decreases ps.len(),
{
    if ps.len() == 0 {
        Seq::empty()
    } else if ps.len() == 1 {
        ps[0]
    } else {
        joined(ps.drop_last()).push('\n') + ps.last()
    }
}

/// The text a store holds for a list of patterns: one per line.
pub fn save_config_patterns(patterns: &Vec<String>) -> (r: String)
    ensures
        r@ == joined(views(patterns@)),
{
    let mut out = String::new();
    let mut i: usize = 0;
    while i < patterns.len()
        invariant
            i <= patterns.len(),
            out@ == joined(views(patterns@).subrange(0, i as int)),
        decreases patterns.len() - i,
    {
        let ghost ps = views(patterns@).subrange(0, i + 1);
        assert(ps.drop_last() == views(patterns@).subrange(0, i as int));
        if i > 0 {
            push_char(&mut out, '\n');
        }
        push_str(&mut out, patterns[i].as_str());
        if i == 0 {
            assert(out@ =~= joined(ps));
        }
        i = i + 1;
    }
    assert(views(patterns@).subrange(0, patterns.len() as int) == views(patterns@));
    out
}

/// The store after adding a pattern, and whether it was added: a pattern already there is not added again.
pub open spec fn after_add(ps: Seq<Seq<char>>, p: Seq<char>) -> (Seq<Seq<char>>, bool) {
    if ps.contains(p) {
        (ps, false)
    } else {
        (ps.push(p), true)
    }
}

/// Adds a pattern unless it is already there; says whether it was added.
pub fn add_config_pattern(patterns: &mut Vec<String>, pattern: String) -> (r: bool)
    ensures
        (views(final(patterns)@), r) == after_add(views(old(patterns)@), pattern@),
{
    let mut i: usize = 0;
    while i < patterns.len()
        invariant
            i <= patterns.len(),
            forall|j: int| 0 <= j < i ==> patterns@[j]@ != pattern@,
        decreases patterns.len() - i,
    {
        if str_eq(patterns[i].as_str(), pattern.as_str()) {
            assert(views(patterns@)[i as int] == pattern@);
            return false;
        }
        i = i + 1;
    }
    assert(!views(patterns@).contains(pattern@));
    let ghost before = views(patterns@);
    patterns.push(pattern);
    assert(views(patterns@) =~= before.push(pattern@));
    true
}

/// The store without any copy of a pattern.
pub open spec fn without(ps: Seq<Seq<char>>, p: Seq<char>) -> Seq<Seq<char>>
    decreases ps.len(),
{
    if ps.len() == 0 {
        ps
    } else if ps.last() == p {
        without(ps.drop_last(), p)
    } else {
        without(ps.drop_last(), p).push(ps.last())
    }
}

/// The store after removing a pattern, and whether it was there to remove.
pub open spec fn after_remove(ps: Seq<Seq<char>>, p: Seq<char>) -> (Seq<Seq<char>>, bool) {
    (without(ps, p), ps.contains(p))
}

/// Removes every copy of a pattern; says whether there was one, `false` being "not found".
pub fn remove_config_pattern(patterns: &mut Vec<String>, pattern: &str) -> (r: bool)
    ensures
        (views(final(patterns)@), r) == after_remove(views(old(patterns)@), pattern@),
{
    let ghost ps = views(patterns@);
    let mut kept: Vec<String> = Vec::new();
    let mut found = false;
    let mut i: usize = 0;
    while i < patterns.len()
        invariant
            i <= patterns.len(),
            ps == views(patterns@),
            views(kept@) == without(ps.subrange(0, i as int), pattern@),
            found == ps.subrange(0, i as int).contains(pattern@),
        decreases patterns.len() - i,
    {
        let ghost pre = ps.subrange(0, i as int);
        assert(ps.subrange(0, i + 1).drop_last() == pre);
        assert(ps.subrange(0, i + 1) == pre.push(ps[i as int]));
        if str_eq(patterns[i].as_str(), pattern) {
            assert(ps.subrange(0, i + 1)[i as int] == pattern@);
            found = true;
        } else {
            let ghost before = views(kept@);
            kept.push(patterns[i].clone());
            assert(views(kept@) =~= before.push(ps[i as int]));
            assert(found == ps.subrange(0, i + 1).contains(pattern@)) by {
                if ps.subrange(0, i + 1).contains(pattern@) {
                    let whole = ps.subrange(0, i + 1);
                    let k = choose|k: int| 0 <= k < whole.len() && #[trigger] whole[k] == pattern@;
                    assert(k != i);
                    assert(pre[k] == pattern@);
                }
            }
        }
        i = i + 1;
    }
    assert(ps.subrange(0, patterns.len() as int) == ps);
    *patterns = kept;
    found
}

/// Whether a pattern reads back from the store as written: not blank, no line
/// break, not starting with `#`, and no white space at either end.
pub open spec fn storable(p: Seq<char>) -> bool {
    p.len() > 0 && p[0] != '#' && !p.contains('\n') && !white_space(p[0]) && !white_space(p.last())
}

proof fn lemma_trimmed_storable(p: Seq<char>)
    requires
        storable(p),
    ensures
        trimmed(p) == p,
{
    lemma_leading_exact(p, 0);
    assert(p.subrange(0, p.len() as int) == p);
    lemma_trailing_exact(p, 0);
}

proof fn lemma_pieces_after_sep(s: Seq<char>, b: Seq<char>, sep: char)
    requires
        !b.contains(sep),
    ensures
        pieces(s.push(sep) + b, sep) == pieces(s, sep).push(b),
    decreases b.len(),
{
    if b.len() == 0 {
        assert(s.push(sep) + b =~= s.push(sep));
        assert(s.push(sep).drop_last() =~= s);
        assert(b =~= Seq::<char>::empty());
    } else {
        let b0 = b.drop_last();
        assert(!b0.contains(sep)) by {
            if b0.contains(sep) {
                let k = choose|k: int| 0 <= k < b0.len() && b0[k] == sep;
                assert(b[k] == sep);
            }
        }
        lemma_pieces_after_sep(s, b0, sep);
        assert((s.push(sep) + b).drop_last() == s.push(sep) + b0);
        assert((s.push(sep) + b).last() == b.last());
        assert(b.last() != sep) by {
            assert(b[b.len() - 1] == b.last());
        }
        assert(b0.push(b.last()) == b);
        assert(pieces(s.push(sep) + b, sep) =~= pieces(s, sep).push(b));
    }
}

proof fn lemma_pieces_single(b: Seq<char>, sep: char)
    requires
        !b.contains(sep),
    ensures
        pieces(b, sep) == seq![b],
    decreases b.len(),
{
    if b.len() > 0 {
        let b0 = b.drop_last();
        assert(!b0.contains(sep)) by {
            if b0.contains(sep) {
                let k = choose|k: int| 0 <= k < b0.len() && b0[k] == sep;
                assert(b[k] == sep);
            }
        }
        lemma_pieces_single(b0, sep);
        assert(b.last() != sep) by {
            assert(b[b.len() - 1] == b.last());
        }
        assert(b0.push(b.last()) == b);
        assert(pieces(b, sep) =~= seq![b]);
    } else {
        assert(b =~= Seq::<char>::empty());
        assert(pieces(b, sep) =~= seq![b]);
    }
}

proof fn lemma_pieces_joined(ps: Seq<Seq<char>>)
    requires
        ps.len() > 0,
        forall|i: int| 0 <= i < ps.len() ==> storable(#[trigger] ps[i]),
    ensures
        pieces(joined(ps), '\n') == ps,
    decreases ps.len(),
{
    if ps.len() == 1 {
        assert(storable(ps[0]));
        lemma_pieces_single(ps[0], '\n');
        assert(ps =~= seq![ps[0]]);
    } else {
        let pre = ps.drop_last();
        assert forall|i: int| 0 <= i < pre.len() implies storable(#[trigger] pre[i]) by {
            assert(pre[i] == ps[i]);
        }
        lemma_pieces_joined(pre);
        assert(storable(ps[ps.len() - 1]));
        lemma_pieces_after_sep(joined(pre), ps.last(), '\n');
        assert(pre.push(ps.last()) == ps);
    }
}

proof fn lemma_kept_storable(ps: Seq<Seq<char>>)
    requires
        forall|i: int| 0 <= i < ps.len() ==> storable(#[trigger] ps[i]),
    ensures
        kept_trimmed(ps, true) == ps,
    decreases ps.len(),
{
    if ps.len() > 0 {
        let pre = ps.drop_last();
        assert forall|i: int| 0 <= i < pre.len() implies storable(#[trigger] pre[i]) by {
            assert(pre[i] == ps[i]);
        }
        lemma_kept_storable(pre);
        assert(storable(ps[ps.len() - 1]));
        lemma_trimmed_storable(ps.last());
        assert(keeps(trimmed(ps.last()), true));
        assert(pre.push(ps.last()) == ps);
    }
}

/// Writing storable patterns to the store and reading them back gives the same list.
pub proof fn lemma_store_round_trip(ps: Seq<Seq<char>>)
    requires
        forall|i: int| 0 <= i < ps.len() ==> storable(#[trigger] ps[i]),
    ensures
        stored_patterns(joined(ps)) == ps,
{
    if ps.len() == 0 {
        assert(pieces(joined(ps), '\n') =~= seq![Seq::<char>::empty()]);
        assert(trimmed(Seq::<char>::empty()).len() == 0) by {
            crate::text::lemma_trimmed_len(Seq::<char>::empty());
        }
        let one = seq![Seq::<char>::empty()];
        assert(one.last() == Seq::<char>::empty());
        assert(one.drop_last() =~= Seq::<Seq<char>>::empty());
        assert(kept_trimmed(one, true) == kept_trimmed(one.drop_last(), true));
        assert(ps =~= Seq::<Seq<char>>::empty());
    } else {
        lemma_pieces_joined(ps);
        lemma_kept_storable(ps);
    }
}

proof fn lemma_without_absent(ps: Seq<Seq<char>>, p: Seq<char>)
    requires
        !ps.contains(p),
    ensures
        without(ps, p) == ps,
    decreases ps.len(),
{
    if ps.len() > 0 {
        let pre = ps.drop_last();
        assert(!pre.contains(p)) by {
            if pre.contains(p) {
                let k = choose|k: int| 0 <= k < pre.len() && pre[k] == p;
                assert(ps[k] == p);
            }
        }
        lemma_without_absent(pre, p);
        assert(ps[ps.len() - 1] != p);
        assert(pre.push(ps.last()) == ps);
    }
}

/// Adding a new pattern and listing the store shows it once, after the others;
/// removing it leaves the store as it was; removing it again finds nothing.
pub proof fn lemma_add_remove_round_trip(ps: Seq<Seq<char>>, p: Seq<char>)
    requires
        forall|i: int| 0 <= i < ps.len() ==> storable(#[trigger] ps[i]),
        storable(p),
        !ps.contains(p),
    ensures
        after_add(ps, p).1,
        stored_patterns(joined(after_add(ps, p).0)) == ps.push(p),
        after_remove(after_add(ps, p).0, p).1,
        stored_patterns(joined(after_remove(after_add(ps, p).0, p).0)) == ps,
        !after_remove(after_remove(after_add(ps, p).0, p).0, p).1,
        after_remove(after_remove(after_add(ps, p).0, p).0, p).0 == after_remove(after_add(ps, p).0, p).0,
{
    let added = ps.push(p);
    assert forall|i: int| 0 <= i < added.len() implies storable(#[trigger] added[i]) by {
        if i < ps.len() {
            assert(added[i] == ps[i]);
        }
    }
    lemma_store_round_trip(added);
    assert(added[ps.len() as int] == p);
    assert(added.drop_last() == ps);
    lemma_without_absent(ps, p);
    lemma_store_round_trip(ps);
    lemma_without_absent(ps, p);
}

} // verus!

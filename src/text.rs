use vstd::prelude::*;

verus! {

/// What `str::to_lowercase` makes of a character sequence.
pub uninterp spec fn lower_of(s: Seq<char>) -> Seq<char>;

/// Whether a character has the Unicode `White_Space` property: tab to carriage
/// return, space, next line, no-break space, ogham space mark, the spaces from
/// en quad to hair space, line and paragraph separators, narrow no-break space,
/// medium mathematical space and ideographic space.
pub open spec fn white_space(c: char) -> bool {
    let u = c as u32;
    (0x9 <= u && u <= 0xd) || u == 0x20 || u == 0x85 || u == 0xa0 || u == 0x1680
        || (0x2000 <= u && u <= 0x200a) || u == 0x2028 || u == 0x2029 || u == 0x202f
        || u == 0x205f || u == 0x3000
}

/// An ASCII character lowercased: `A` to `Z` become `a` to `z`, others stay.
pub open spec fn ascii_lower(c: char) -> char {
    if 'A' <= c && c <= 'Z' {
        ((c as u32) + 32) as char
    } else {
        c
    }
}

/// Relies on `str::to_lowercase`: the result depends on the characters alone,
/// the empty string stays empty, and an ASCII string is lowercased character
/// by character, `A` to `Z` becoming `a` to `z`.
#[verifier::external_body]
pub fn lowercase(s: &str) -> (r: String)
    ensures
        r@ == lower_of(s@),
        s@.len() == 0 ==> r@.len() == 0,
        (forall|i: int| 0 <= i < s@.len() ==> (#[trigger] s@[i] as u32) < 128)
            ==> r@ == s@.map_values(|c: char| ascii_lower(c)),
{
    s.to_lowercase()
}

/// Relies on `char::is_whitespace`, which holds exactly of the characters with
/// the Unicode `White_Space` property.
#[verifier::external_body]
pub fn is_white_space(c: char) -> (r: bool)
    ensures
        r == white_space(c),
{
    c.is_whitespace()
}

/// Relies on `String::push`: appends one character.
#[verifier::external_body]
pub fn push_char(s: &mut String, c: char)
    ensures
        final(s)@ == old(s)@.push(c),
{
    s.push(c)
}

/// Appends the characters of `t` to `s`.
pub fn push_str(s: &mut String, t: &str)
    ensures
        final(s)@ == old(s)@ + t@,
{
    s.append(t);
}

/// Equality of two character sequences.
pub fn str_eq(a: &str, b: &str) -> (r: bool)
    ensures
        r == (a@ == b@),
{
    let n = a.unicode_len();
    if n != b.unicode_len() {
        return false;
    }
    let mut i: usize = 0;
    while i < n
        invariant
            n == a@.len(),
            n == b@.len(),
            i <= n,
            a@.subrange(0, i as int) == b@.subrange(0, i as int),
        decreases n - i,
    {
        if a.get_char(i) != b.get_char(i) {
            assert(a@[i as int] != b@[i as int]);
            return false;
        }
        assert(a@.subrange(0, i + 1) == a@.subrange(0, i as int).push(a@[i as int]));
        assert(b@.subrange(0, i + 1) == b@.subrange(0, i as int).push(b@[i as int]));
        i = i + 1;
    }
    assert(a@ == a@.subrange(0, n as int));
    assert(b@ == b@.subrange(0, n as int));
    true
}

/// Whether `s` ends with `suffix`.
pub open spec fn ends_with(s: Seq<char>, suffix: Seq<char>) -> bool {
    suffix.len() <= s.len() && s.subrange(s.len() - suffix.len(), s.len() as int) == suffix
}

/// Whether `s` holds `needle` as a contiguous run starting at `i`.
pub open spec fn occurs_at(s: Seq<char>, needle: Seq<char>, i: int) -> bool {
    0 <= i && i + needle.len() <= s.len() && s.subrange(i, i + needle.len()) == needle
}

/// Whether `needle` occurs anywhere in `s`.
pub open spec fn contains(s: Seq<char>, needle: Seq<char>) -> bool {
    exists|i: int| occurs_at(s, needle, i)
}

/// Compares `s` and `t` from position `i` of `s` over the length of `t`.
fn matches_at(s: &str, t: &str, i: usize) -> (r: bool)
    requires
        i + t@.len() <= s@.len(),
    ensures
        r == occurs_at(s@, t@, i as int),
{
    let m = t.unicode_len();
    let n = s.unicode_len();
    let mut k: usize = 0;
    while k < m
        invariant
            m == t@.len(),
            n == s@.len(),
            i + m <= s@.len(),
            k <= m,
            s@.subrange(i as int, i + k) == t@.subrange(0, k as int),
        decreases m - k,
    {
        if s.get_char(i + k) != t.get_char(k) {
            assert(s@.subrange(i as int, i + m)[k as int] != t@[k as int]);
            return false;
        }
        assert(s@.subrange(i as int, i + k + 1) == s@.subrange(i as int, i + k).push(s@[i + k]));
        assert(t@.subrange(0, k + 1) == t@.subrange(0, k as int).push(t@[k as int]));
        k = k + 1;
    }
    assert(t@ == t@.subrange(0, m as int));
    true
}

/// Whether `s` ends with `suffix`.
pub fn str_ends_with(s: &str, suffix: &str) -> (r: bool)
    ensures
        r == ends_with(s@, suffix@),
{
    let n = s.unicode_len();
    let m = suffix.unicode_len();
    if m > n {
        return false;
    }
    matches_at(s, suffix, n - m)
}

/// Whether `needle` occurs in `s` as a contiguous run.
pub fn str_contains(s: &str, needle: &str) -> (r: bool)
    ensures
        r == contains(s@, needle@),
{
    let n = s.unicode_len();
    let m = needle.unicode_len();
    if m > n {
        assert forall|i: int| !occurs_at(s@, needle@, i) by {}
        return false;
    }
    let mut i: usize = 0;
    loop
        invariant
            n == s@.len(),
            m == needle@.len(),
            m <= n,
            i <= n - m,
            forall|j: int| 0 <= j < i ==> !occurs_at(s@, needle@, j),
        decreases n - m - i,
    {
        if matches_at(s, needle, i) {
            return true;
        }
        if i == n - m {
            assert forall|j: int| !occurs_at(s@, needle@, j) by {}
            return false;
        }
        i = i + 1;
    }
}

/// Whether the character occurs in `s`.
pub fn has_char(s: &str, c: char) -> (r: bool)
    ensures
        r == s@.contains(c),
{
    let n = s.unicode_len();
    let mut i: usize = 0;
    while i < n
        invariant
            n == s@.len(),
            i <= n,
            forall|j: int| 0 <= j < i ==> s@[j] != c,
        decreases n - i,
    {
        if s.get_char(i) == c {
            return true;
        }
        i = i + 1;
    }
    false
}

/// Number of leading characters of `s` that are white space.
pub open spec fn leading_white(s: Seq<char>) -> nat
    decreases s.len(),
{
    if s.len() > 0 && white_space(s[0]) {
        1 + leading_white(s.drop_first())
    } else {
        0
    }
}

/// Number of trailing characters of `s` that are white space.
pub open spec fn trailing_white(s: Seq<char>) -> nat
    decreases s.len(),
{
    if s.len() > 0 && white_space(s.last()) {
        1 + trailing_white(s.drop_last())
    } else {
        0
    }
}

/// `s` without its leading and trailing white space.
pub open spec fn trimmed(s: Seq<char>) -> Seq<char> {
    let front = s.subrange(leading_white(s) as int, s.len() as int);
    front.subrange(0, front.len() - trailing_white(front))
}

pub proof fn lemma_leading_exact(s: Seq<char>, k: int)
    requires
        0 <= k <= s.len(),
        forall|j: int| 0 <= j < k ==> white_space(#[trigger] s[j]),
        k < s.len() ==> !white_space(s[k]),
    ensures
        leading_white(s) == k,
    decreases s.len(),
{
    if k > 0 {
        assert forall|j: int| 0 <= j < k - 1 implies white_space(#[trigger] s.drop_first()[j]) by {
            assert(s.drop_first()[j] == s[j + 1]);
        }
        if k - 1 < s.drop_first().len() {
            assert(s.drop_first()[k - 1] == s[k]);
        }
        lemma_leading_exact(s.drop_first(), k - 1);
    }
}

pub proof fn lemma_trailing_exact(s: Seq<char>, k: int)
    requires
        0 <= k <= s.len(),
        forall|j: int| s.len() - k <= j < s.len() ==> white_space(#[trigger] s[j]),
        k < s.len() ==> !white_space(s[s.len() - k - 1]),
    ensures
        trailing_white(s) == k,
    decreases s.len(),
{
    if k > 0 {
        let d = s.drop_last();
        assert forall|j: int| d.len() - (k - 1) <= j < d.len() implies white_space(#[trigger] d[j]) by {
            assert(d[j] == s[j]);
        }
        if k - 1 < d.len() {
            assert(d[d.len() - (k - 1) - 1] == s[s.len() - k - 1]);
        }
        lemma_trailing_exact(d, k - 1);
    }
}

pub proof fn lemma_trimmed_len(s: Seq<char>)
    ensures
        s.len() == 0 ==> trimmed(s).len() == 0,
{
    if s.len() == 0 {
        lemma_leading_exact(s, 0);
        lemma_trailing_exact(s.subrange(0, 0), 0);
    }
}

/// `s` without leading and trailing white space, as `str::trim` gives it.
pub fn trim(s: &str) -> (r: String)
    ensures
        r@ == trimmed(s@),
{
    let n = s.unicode_len();
    let mut lo: usize = 0;
    while lo < n && is_white_space(s.get_char(lo))
        invariant
            n == s@.len(),
            lo <= n,
            forall|j: int| 0 <= j < lo ==> white_space(#[trigger] s@[j]),
        decreases n - lo,
    {
        lo = lo + 1;
    }
    proof {
        lemma_leading_exact(s@, lo as int);
    }
    let mut hi: usize = n;
    while hi > lo && is_white_space(s.get_char(hi - 1))
        invariant
            n == s@.len(),
            lo <= hi <= n,
            forall|j: int| hi <= j < n ==> white_space(#[trigger] s@[j]),
        decreases hi,
    {
        hi = hi - 1;
    }
    let front = Ghost(s@.subrange(lo as int, n as int));
    proof {
        let k = (n - hi) as int;
        assert forall|j: int| front@.len() - k <= j < front@.len() implies white_space(#[trigger] front@[j]) by {
            assert(front@[j] == s@[lo + j]);
        }
        if k < front@.len() {
            assert(front@[front@.len() - k - 1] == s@[hi - 1]);
        }
        lemma_trailing_exact(front@, k);
    }
    let r = s.substring_char(lo, hi);
    assert(r@ == front@.subrange(0, front@.len() - trailing_white(front@)));
    r.to_string()
}

/// The pieces of `s` between separators, as `str::split` gives them.
pub open spec fn pieces(s: Seq<char>, sep: char) -> Seq<Seq<char>>
    decreases s.len(),
{
    if s.len() == 0 {
        seq![Seq::empty()]
    } else if s.last() == sep {
        pieces(s.drop_last(), sep).push(Seq::empty())
    } else {
        let pre = pieces(s.drop_last(), sep);
        pre.update(pre.len() - 1, pre.last().push(s.last()))
    }
}

pub proof fn lemma_pieces_nonempty(s: Seq<char>, sep: char)
    ensures
        pieces(s, sep).len() >= 1,
    decreases s.len(),
{
    if s.len() > 0 {
        lemma_pieces_nonempty(s.drop_last(), sep);
    }
}

/// Whether a trimmed piece is kept: it is not blank, and with `drop_comments`
/// it does not start with `#`.
pub open spec fn keeps(t: Seq<char>, drop_comments: bool) -> bool {
    t.len() > 0 && !(drop_comments && t[0] == '#')
}

/// Of a list of pieces, those that are kept, trimmed.
pub open spec fn kept_trimmed(ps: Seq<Seq<char>>, drop_comments: bool) -> Seq<Seq<char>>
    decreases ps.len(),
{
    if ps.len() == 0 {
        Seq::empty()
    } else if !keeps(trimmed(ps.last()), drop_comments) {
        kept_trimmed(ps.drop_last(), drop_comments)
    } else {
        kept_trimmed(ps.drop_last(), drop_comments).push(trimmed(ps.last()))
    }
}

/// The kept pieces of `list` between separators, trimmed.
pub fn split_kept(list: &str, sep: char, drop_comments: bool) -> (r: Vec<String>)
    ensures
        r@.map_values(|p: String| p@) == kept_trimmed(pieces(list@, sep), drop_comments),
{
    let n = list.unicode_len();
    let mut out: Vec<String> = Vec::new();
    let mut start: usize = 0;
    let mut i: usize = 0;
    proof {
        assert(list@.subrange(0, 0) =~= Seq::<char>::empty());
    }
    while i < n
        invariant
            n == list@.len(),
            start <= i <= n,
            pieces(list@.subrange(0, i as int), sep).len() >= 1,
            pieces(list@.subrange(0, i as int), sep).last() == list@.subrange(start as int, i as int),
            out@.map_values(|p: String| p@) == kept_trimmed(pieces(list@.subrange(0, i as int), sep).drop_last(), drop_comments),
        decreases n - i,
    {
        let ghost pre = list@.subrange(0, i as int);
        let ghost cur = list@.subrange(0, i + 1);
        assert(cur.drop_last() == pre);
        proof {
            lemma_pieces_nonempty(pre, sep);
        }
        if list.get_char(i) == sep {
            let piece = list.substring_char(start, i);
            let t = trim(piece);
            let ghost before = out@.map_values(|p: String| p@);
            assert(pieces(cur, sep).drop_last() == pieces(pre, sep));
            assert(pieces(pre, sep) == pieces(pre, sep).drop_last().push(pieces(pre, sep).last()));
            if t.unicode_len() > 0 && !(drop_comments && t.get_char(0) == '#') {
                out.push(t);
                assert(out@.map_values(|p: String| p@) =~= before.push(trimmed(piece@)));
            }
            start = i + 1;
            assert(list@.subrange(start as int, i + 1) =~= Seq::<char>::empty());
        } else {
            assert(pieces(cur, sep).drop_last() =~= pieces(pre, sep).drop_last());
            assert(list@.subrange(start as int, i + 1) =~= list@.subrange(start as int, i as int).push(list@[i as int]));
        }
        i = i + 1;
    }
    assert(list@.subrange(0, n as int) == list@);
    let piece = list.substring_char(start, n);
    let t = trim(piece);
    let ghost before = out@.map_values(|p: String| p@);
    let ghost all = pieces(list@, sep);
    assert(all == all.drop_last().push(all.last()));
    if t.unicode_len() > 0 && !(drop_comments && t.get_char(0) == '#') {
        out.push(t);
        assert(out@.map_values(|p: String| p@) =~= before.push(trimmed(piece@)));
    }
    out
}

} // verus!

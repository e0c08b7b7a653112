//! Reading the positional depth and path out of the command line.
use vstd::prelude::*;
use crate::config::views;
use crate::text::str_eq;

verus! {

/// Whether a word names a subcommand.
pub open spec fn subcommand_word(s: Seq<char>) -> bool {
    s == "search"@ || s == "add"@ || s == "remove"@ || s == "list"@ || s == "clear"@ || s == "help"@
}

/// Whether a word names a subcommand.
pub fn is_subcommand(s: &str) -> (r: bool)
    ensures
        r == subcommand_word(s@),
{
    str_eq(s, "search") || str_eq(s, "add") || str_eq(s, "remove") || str_eq(s, "list")
        || str_eq(s, "clear") || str_eq(s, "help")
}

/// Whether a flag takes the next word as its value.
pub open spec fn value_flag(s: Seq<char>) -> bool {
    s == "-i"@ || s == "--ignore"@ || s == "-s"@ || s == "--skip-large"@ || s == "-n"@ || s == "--no-ignore"@
}

fn is_value_flag(s: &str) -> (r: bool)
    ensures
        r == value_flag(s@),
{
    str_eq(s, "-i") || str_eq(s, "--ignore") || str_eq(s, "-s") || str_eq(s, "--skip-large")
        || str_eq(s, "-n") || str_eq(s, "--no-ignore")
}

/// The number a run of decimal digits writes.
pub open spec fn digits_value(s: Seq<char>) -> nat
    decreases s.len(),
{
    if s.len() == 0 {
        0
    } else {
        digits_value(s.drop_last()) * 10 + ((s.last() as u32) - ('0' as u32)) as nat
    }
}

/// Whether every character is a decimal digit.
pub open spec fn all_digits(s: Seq<char>) -> bool {
    forall|i: int| 0 <= i < s.len() ==> '0' <= #[trigger] s[i] && s[i] <= '9'
}

/// The text after an optional leading `+`.
pub open spec fn unsigned_part(s: Seq<char>) -> Seq<char> {
    if s.len() > 0 && s[0] == '+' {
        s.drop_first()
    } else {
        s
    }
}

/// What `usize`'s `FromStr` reads: an optional `+`, then one or more digits,
/// whose value fits.
pub open spec fn parsed_usize(s: Seq<char>) -> Option<nat> {
    let d = unsigned_part(s);
    if d.len() > 0 && all_digits(d) && digits_value(d) <= usize::MAX {
        Some(digits_value(d))
    } else {
        None
    }
}

proof fn lemma_digits_grow(s: Seq<char>)
    requires
        s.len() > 0,
    ensures
        digits_value(s) >= digits_value(s.drop_last()),
{
    let v = digits_value(s.drop_last());
    assert(v * 10 >= v) by (nonlinear_arith);
}

/// Reads a non-negative decimal number.
pub fn parse_usize(s: &str) -> (r: Option<usize>)
    ensures
        match r {
            Some(v) => parsed_usize(s@) == Some(v as nat),
            None => parsed_usize(s@) is None,
        },
{
    let n = s.unicode_len();
    let mut start: usize = 0;
    if n > 0 && s.get_char(0) == '+' {
        start = 1;
    }
    let ghost d = unsigned_part(s@);
    assert(d == s@.subrange(start as int, n as int));
    if start == n {
        return None;
    }
    let mut v: usize = 0;
    let mut over = false;
    let mut i: usize = start;
    assert(s@.subrange(start as int, start as int) =~= Seq::<char>::empty());
    while i < n
        invariant
            n == s@.len(),
            start <= i <= n,
            d == s@.subrange(start as int, n as int),
            d == unsigned_part(s@),
            all_digits(s@.subrange(start as int, i as int)),
            !over ==> v as nat == digits_value(s@.subrange(start as int, i as int)),
            over ==> digits_value(s@.subrange(start as int, i as int)) > usize::MAX,
        decreases n - i,
    {
        let c = s.get_char(i);
        if c < '0' || c > '9' {
            let ghost k = i - start;
            assert(d[k] == c);
            assert(!all_digits(d));

            return None;
        }
        let ghost pre = s@.subrange(start as int, i as int);
        let ghost cur = s@.subrange(start as int, i + 1);
        assert(cur.drop_last() == pre);
        assert(cur.last() == c);
        assert(all_digits(cur)) by {
            assert forall|k: int| 0 <= k < cur.len() implies '0' <= #[trigger] cur[k] && cur[k] <= '9' by {
                if k < pre.len() {
                    assert(cur[k] == pre[k]);
                }
            }
        }
        proof {
            lemma_digits_grow(cur);
        }
        if !over {
            let w: u128 = (v as u128) * 10 + ((c as u32) - ('0' as u32)) as u128;
            if w > usize::MAX as u128 {
                over = true;
            } else {
                v = w as usize;
            }
        }
        i = i + 1;
    }
    if over {
        None
    } else {
        Some(v)
    }
}

/// The state of the scan over the words after the program name: whether the
/// next word is a flag's value, the depth and path found, and the words kept.
pub open spec fn scan(toks: Seq<Seq<char>>) -> (bool, Option<nat>, Option<Seq<char>>, Seq<Seq<char>>)
    decreases toks.len(),
{
    if toks.len() == 0 {
        (false, None, None, Seq::empty())
    } else {
        let st = scan(toks.drop_last());
        let t = toks.last();
        if st.0 {
            (false, st.1, st.2, st.3.push(t))
        } else if t.len() > 0 && t[0] == '-' {
            (value_flag(t), st.1, st.2, st.3.push(t))
        } else if st.1 is None && parsed_usize(t) is Some {
            (false, parsed_usize(t), st.2, st.3)
        } else if st.2 is None {
            (false, st.1, Some(t), st.3)
        } else {
            st
        }
    }
}

/// The positional depth and path, and the words left for the flag parser.
pub struct Positionals {
    /// The first bare number.
    pub depth: Option<usize>,
    /// The first other bare word.
    pub path: Option<String>,
    /// The program name, the flags and their values.
    pub cleaned: Vec<String>,
}

/// The depth as a number.
pub open spec fn depth_view(d: Option<usize>) -> Option<nat> {
    match d {
        Some(v) => Some(v as nat),
        None => None,
    }
}

/// Takes the first bare number as the depth and the first other bare word as the
/// path, leaving flags and their values in place and dropping further bare words.
/// After a subcommand word everything is left as it is.
pub fn preprocess_argv(raw: &Vec<String>) -> (r: Positionals)
    ensures
        raw@.len() > 1 && subcommand_word(raw@[1]@) ==> r.depth is None && r.path is None && views(r.cleaned@) == views(raw@),
        !(raw@.len() > 1 && subcommand_word(raw@[1]@)) ==> {
            let st = scan(views(raw@).subrange(if raw@.len() > 0 { 1 } else { 0 }, raw@.len() as int));
            &&& depth_view(r.depth) == st.1
            &&& crate::ignores::opt_view(r.path) == st.2
            &&& views(r.cleaned@) == views(raw@).subrange(0, if raw@.len() > 0 { 1 } else { 0 }) + st.3
        },
{
    let n = raw.len();
    if n > 1 && is_subcommand(raw[1].as_str()) {
        let cleaned = raw.clone();
        assert(views(cleaned@) =~= views(raw@));
        return Positionals { depth: None, path: None, cleaned };
    }
    let mut cleaned: Vec<String> = Vec::new();
    if n > 0 {
        cleaned.push(raw[0].clone());
    }
    let first: usize = if n > 0 { 1 } else { 0 };
    let ghost toks = views(raw@).subrange(first as int, n as int);
    let mut skip = false;
    let mut depth: Option<usize> = None;
    let mut path: Option<String> = None;
    let mut i: usize = first;
    assert(views(raw@).subrange(first as int, first as int) =~= Seq::<Seq<char>>::empty());
    assert(views(cleaned@) =~= views(raw@).subrange(0, first as int) + Seq::<Seq<char>>::empty());
    while i < n
        invariant
            n == raw@.len(),
            first <= i <= n,
            first == if n > 0 { 1usize } else { 0usize },
            ({
                let st = scan(views(raw@).subrange(first as int, i as int));
                &&& skip == st.0
                &&& depth_view(depth) == st.1
                &&& crate::ignores::opt_view(path) == st.2
                &&& views(cleaned@) == views(raw@).subrange(0, first as int) + st.3
            }),
        decreases n - i,
    {
        let ghost pre = views(raw@).subrange(first as int, i as int);
        let ghost cur = views(raw@).subrange(first as int, i + 1);
        assert(cur.drop_last() == pre);
        assert(cur.last() == raw@[i as int]@);
        let tok = raw[i].as_str();
        let ghost before = views(cleaned@);
        if skip {
            cleaned.push(raw[i].clone());
            skip = false;
            assert(views(cleaned@) =~= before.push(tok@));
        } else if tok.unicode_len() > 0 && tok.get_char(0) == '-' {
            cleaned.push(raw[i].clone());
            skip = is_value_flag(tok);
            assert(views(cleaned@) =~= before.push(tok@));
        } else {
            let parsed = if depth.is_none() { parse_usize(tok) } else { None };
            if depth.is_none() && parsed.is_some() {
                depth = parsed;
            } else if path.is_none() {
                path = Some(raw[i].clone());
            }
        }
        i = i + 1;
    }
    assert(views(raw@).subrange(first as int, n as int) == toks);
    Positionals { depth, path, cleaned }
}

/// The depth the tree is drawn to: unlimited when none is given, one level for `0`.
pub fn depth_for_tree(raw: Option<usize>) -> (r: usize)
    ensures
        raw is None ==> r == usize::MAX,
        raw == Some(0usize) ==> r == 1,
        raw is Some && raw.unwrap() > 0 ==> r == raw.unwrap(),
{
    match raw {
        None => usize::MAX,
        Some(0) => 1,
        Some(d) => d,
    }
}

} // verus!

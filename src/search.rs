//! Matching names against a search term: a glob, or a case-insensitive substring.
use vstd::prelude::*;
use crate::compiled::{compile, escape, escaped, is_match, regex_accepts, regex_matches, CompiledRegex};
use crate::ignores::{any_matches, default_ignored_dir, matches_custom_pattern, should_ignore_dir};
use crate::snapshot::{ancestor_or_self, depth, depths, mark_with_ancestors, marked_below, wf, FsEntry};
use crate::render::{lemma_seq_less_total, lemma_seq_less_trans, seq_less};
use crate::text::{contains, has_char, lower_of, lowercase, push_char, push_str, str_contains};

verus! {

/// Why a search term cannot be used.
#[derive(PartialEq, Eq, Structural, Debug, Clone, Copy)]
pub enum SearchError {
    /// The term is empty.
    EmptyPattern,
    /// The expression made from the term does not compile.
    InvalidPattern,
}

/// How a search term is matched against names.
pub enum MatchMode {
    /// A term with `*` or `?`, as an anchored case-insensitive expression.
    Glob(CompiledRegex),
    /// A term without wildcards, lowercased, looked for anywhere in the lowercased name.
    Substring(String),
}

/// Whether the term holds a wildcard.
pub open spec fn has_wildcard(p: Seq<char>) -> bool {
    p.contains('*') || p.contains('?')
}

/// The escaped term with `\*` turned into `.*` and `\?` into `.`, left to right.
pub open spec fn wildcards_restored(e: Seq<char>) -> Seq<char>
    decreases e.len(),
{
    if e.len() >= 2 && e[0] == '\\' && e[1] == '*' {
        seq!['.', '*'] + wildcards_restored(e.subrange(2, e.len() as int))
    } else if e.len() >= 2 && e[0] == '\\' && e[1] == '?' {
        seq!['.'] + wildcards_restored(e.subrange(2, e.len() as int))
    } else if e.len() == 0 {
        e
    } else {
        seq![e[0]] + wildcards_restored(e.drop_first())
    }
}

/// The expression a wildcard term compiles to: case-insensitive and anchored at both ends.
pub open spec fn glob_regex_text(p: Seq<char>) -> Seq<char> {
    seq!['(', '?', 'i', ')', '^'] + wildcards_restored(escaped(p)) + seq!['$']
}

impl MatchMode {
    /// Whether a name matches under this mode.
    pub open spec fn matches(&self, name: Seq<char>) -> bool {
        match self {
            MatchMode::Glob(re) => regex_matches(re.source(), name),
            MatchMode::Substring(needle) => contains(lower_of(name), needle@),
        }
    }

    /// Whether this mode is what `build` makes of `p`.
    pub open spec fn built_from(&self, p: Seq<char>) -> bool {
        match self {
            MatchMode::Glob(re) => has_wildcard(p) && re.source() == glob_regex_text(p),
            MatchMode::Substring(needle) => !has_wildcard(p) && needle@ == lower_of(p),
        }
    }

    /// Makes the matcher for a search term; an empty term is refused.
    pub fn build(pattern: &str) -> (r: Result<MatchMode, SearchError>)
        ensures
            pattern@.len() == 0 ==> r == Err::<MatchMode, SearchError>(SearchError::EmptyPattern),
            pattern@.len() > 0 && has_wildcard(pattern@) && !regex_accepts(glob_regex_text(pattern@))
                ==> r == Err::<MatchMode, SearchError>(SearchError::InvalidPattern),
            r is Ok <==> pattern@.len() > 0 && (has_wildcard(pattern@) ==> regex_accepts(glob_regex_text(pattern@))),
            r is Ok ==> r.unwrap().built_from(pattern@),
    {
        if pattern.unicode_len() == 0 {
            return Err(SearchError::EmptyPattern);
        }
        if has_char(pattern, '*') || has_char(pattern, '?') {
            let e = escape(pattern);
            let body = restore_wildcards(e.as_str());
            let mut text = String::new();
            push_str(&mut text, "(?i)^");
            push_str(&mut text, body.as_str());
            push_char(&mut text, '$');
            proof {
                reveal_strlit("(?i)^");
            }
            assert(text@ =~= glob_regex_text(pattern@));
            match compile(text) {
                Some(re) => Ok(MatchMode::Glob(re)),
                None => Err(SearchError::InvalidPattern),
            }
        } else {
            Ok(MatchMode::Substring(lowercase(pattern)))
        }
    }

    /// Whether a name matches under this mode.
    pub fn is_match(&self, filename: &str) -> (r: bool)
        ensures
            r == self.matches(filename@),
    {
        match self {
            MatchMode::Glob(re) => is_match(re, filename),
            MatchMode::Substring(needle) => {
                let lower = lowercase(filename);
                str_contains(lower.as_str(), needle.as_str())
            },
        }
    }
}

/// Turns `\*` into `.*` and `\?` into `.` in an escaped term.
fn restore_wildcards(e: &str) -> (r: String)
    ensures
        r@ == wildcards_restored(e@),
{
    let n = e.unicode_len();
    let mut out = String::new();
    let mut i: usize = 0;
    assert(e@.subrange(0, n as int) == e@);
    while i < n
        invariant
            n == e@.len(),
            i <= n,
            out@ + wildcards_restored(e@.subrange(i as int, n as int)) == wildcards_restored(e@),
        decreases n - i,
    {
        let ghost rest = e@.subrange(i as int, n as int);
        let c = e.get_char(i);
        if c == '\\' && i + 1 < n && (e.get_char(i + 1) == '*' || e.get_char(i + 1) == '?') {
            assert(rest.subrange(2, rest.len() as int) == e@.subrange(i + 2, n as int));
            if e.get_char(i + 1) == '*' {
                push_str(&mut out, ".*");
                proof {
                    reveal_strlit(".*");
                }
                assert(out@ + wildcards_restored(e@.subrange(i + 2, n as int)) =~= wildcards_restored(e@));
            } else {
                push_char(&mut out, '.');
                assert(out@ + wildcards_restored(e@.subrange(i + 2, n as int)) =~= wildcards_restored(e@));
            }
            i = i + 2;
        } else {
            assert(rest.drop_first() == e@.subrange(i + 1, n as int));
            push_char(&mut out, c);
            assert(out@ + wildcards_restored(e@.subrange(i + 1, n as int)) =~= wildcards_restored(e@));
            i = i + 1;
        }
    }
    assert(e@.subrange(n as int, n as int) =~= Seq::<char>::empty());
    assert(out@ =~= out@ + wildcards_restored(e@.subrange(n as int, n as int)));
    out
}

/// Whether a search leaves a directory's contents unvisited: a built-in rule or a
/// custom pattern names it.
pub open spec fn search_prunes(name: Seq<char>, is_dir: bool, custom: Seq<CompiledRegex>) -> bool {
    is_dir && (default_ignored_dir(name) || any_matches(custom, name))
}

/// Whether a search looks into the entry: none of the directories above it is pruned.
pub open spec fn search_reaches(es: Seq<FsEntry>, custom: Seq<CompiledRegex>, i: int) -> bool
    decreases i,
{
    0 <= i < es.len() && match es[i].parent {
        Some(p) => (p as int) < i && search_reaches(es, custom, p as int)
            && !search_prunes(es[p as int].name@, es[p as int].is_dir, custom),
        None => true,
    }
}

/// Whether a level lies within a search's depth limit; a limit of 0 means none.
pub open spec fn within_limit(level: nat, max_depth: usize) -> bool {
    max_depth == 0 || level <= max_depth
}

/// Whether the entry is a search hit: looked into, within the limit, and its name matches.
pub open spec fn search_hit(es: Seq<FsEntry>, m: MatchMode, custom: Seq<CompiledRegex>, max_depth: usize, i: int) -> bool {
    search_reaches(es, custom, i) && within_limit(depth(es, i), max_depth) && m.matches(es[i].name@)
}

/// Whether a search descends into an entry it reached.
pub fn search_descends(name: &str, is_dir: bool, custom: &Vec<CompiledRegex>) -> (r: bool)
    ensures
        r == !search_prunes(name@, is_dir, custom@),
{
    !(is_dir && (should_ignore_dir(name) || matches_custom_pattern(name, custom)))
}

/// What a search found.
pub struct SearchResult {
    /// The entries that match, in listing order.
    pub hits: Vec<usize>,
    /// For each entry, whether it is a hit or a directory above one: the entries of the result tree.
    pub retained: Vec<bool>,
}

/// Searches a snapshot: every reached entry within the depth limit is tested, and a
/// pruned directory is still tested though nothing below it is.
pub fn search_files(matcher: &MatchMode, es: &Vec<FsEntry>, max_depth: usize, custom: &Vec<CompiledRegex>) -> (r: SearchResult)
    requires
        wf(es@),
    ensures
        forall|k: int| 0 <= k < r.hits@.len() ==> 0 <= #[trigger] r.hits@[k] < es@.len(),
        forall|k: int, l: int| 0 <= k < l < r.hits@.len() ==> r.hits@[k] < r.hits@[l],
        forall|i: int| 0 <= i < es@.len() ==> (search_hit(es@, *matcher, custom@, max_depth, i)
            <==> exists|k: int| 0 <= k < r.hits@.len() && r.hits@[k] == i),
        r.retained@.len() == es@.len(),
        forall|i: int| 0 <= i < es@.len() ==> r.retained@[i] == marked_below(es@,
            Seq::new(es@.len(), |h: int| search_hit(es@, *matcher, custom@, max_depth, h)), i),
{
    let n = es.len();
    let levels = depths(es);
    let mut reach: Vec<bool> = Vec::new();
    let mut hit: Vec<bool> = Vec::new();
    let mut hits: Vec<usize> = Vec::new();
    let mut i: usize = 0;
    while i < n
        invariant
            n == es@.len(),
            wf(es@),
            levels@.len() == n,
            forall|j: int| 0 <= j < n ==> levels@[j] as nat == depth(es@, j),
            i <= n,
            reach@.len() == i,
            hit@.len() == i,
            forall|j: int| 0 <= j < i ==> reach@[j] == search_reaches(es@, custom@, j),
            forall|j: int| 0 <= j < i ==> hit@[j] == search_hit(es@, *matcher, custom@, max_depth, j),
            forall|k: int| 0 <= k < hits@.len() ==> 0 <= #[trigger] hits@[k] < i,
            forall|k: int, l: int| 0 <= k < l < hits@.len() ==> hits@[k] < hits@[l],
            forall|j: int| 0 <= j < i ==> (hit@[j] <==> exists|k: int| 0 <= k < hits@.len() && hits@[k] == j),
        decreases n - i,
    {
        let e = &es[i];
        let reached = match e.parent {
            Some(p) => reach[p] && search_descends(es[p].name.as_str(), es[p].is_dir, custom),
            None => true,
        };
        let h = reached && (max_depth == 0 || levels[i] <= max_depth) && matcher.is_match(e.name.as_str());
        reach.push(reached);
        hit.push(h);
        if h {
            let ghost before = hits@;
            hits.push(i);
            assert forall|j: int| 0 <= j <= i implies (hit@[j] <==> exists|k: int| 0 <= k < hits@.len() && hits@[k] == j) by {
                if j < i && hit@[j] {
                    let k = choose|k: int| 0 <= k < before.len() && before[k] == j;
                    assert(hits@[k] == j);
                }
                if j == i {
                    assert(hits@[hits@.len() - 1] == j);
                }
                if j < i && exists|k: int| 0 <= k < hits@.len() && hits@[k] == j {
                    let k = choose|k: int| 0 <= k < hits@.len() && hits@[k] == j;
                    assert(k < before.len());
                }
            }
        } else {
            assert forall|j: int| 0 <= j <= i implies (hit@[j] <==> exists|k: int| 0 <= k < hits@.len() && hits@[k] == j) by {
                if j == i && exists|k: int| 0 <= k < hits@.len() && hits@[k] == j {
                    let k = choose|k: int| 0 <= k < hits@.len() && hits@[k] == j;
                    assert(hits@[k] < i);
                }
            }
        }
        i = i + 1;
    }
    assert forall|j: int| 0 <= j < es@.len() implies (search_hit(es@, *matcher, custom@, max_depth, j)
        <==> exists|k: int| 0 <= k < hits@.len() && hits@[k] == j) by {
        assert(hit@[j] == search_hit(es@, *matcher, custom@, max_depth, j));
    }
    assert(hit@ =~= Seq::new(es@.len(), |h: int| search_hit(es@, *matcher, custom@, max_depth, h)));
    let retained = mark_with_ancestors(es, &hit);
    SearchResult { hits, retained }
}

proof fn lemma_reached_above_descends(es: Seq<FsEntry>, custom: Seq<CompiledRegex>, a: int, j: int)
    requires
        search_reaches(es, custom, j),
        ancestor_or_self(es, a, j),
        a != j,
    ensures
        !search_prunes(es[a].name@, es[a].is_dir, custom),
    decreases j,
{
    let p = es[j].parent.unwrap() as int;
    if p != a {
        lemma_reached_above_descends(es, custom, a, p);
    }
}

/// A directory that a built-in rule names is still a hit when the search reaches
/// it within the limit and its name matches, but nothing below it is reached.
pub proof fn lemma_ignored_dir_direct_hit(es: Seq<FsEntry>, m: MatchMode, custom: Seq<CompiledRegex>, max_depth: usize, i: int, j: int)
    requires
        0 <= i < es.len(),
        es[i].is_dir,
        default_ignored_dir(es[i].name@),
        ancestor_or_self(es, i, j),
        j != i,
    ensures
        search_reaches(es, custom, i) && within_limit(depth(es, i), max_depth) && m.matches(es[i].name@)
            ==> search_hit(es, m, custom, max_depth, i),
        !search_reaches(es, custom, j),
        !search_hit(es, m, custom, max_depth, j),
{
    if search_reaches(es, custom, j) {
        lemma_reached_above_descends(es, custom, i, j);
    }
}

/// A path with its separators made lower than any character, so that plain
/// character order compares paths component by component.
pub open spec fn path_key(s: Seq<char>) -> Seq<char> {
    s.map_values(|c: char| if c == '/' { '\0' } else { c })
}

/// Whether entry `i` comes before entry `j` in flat output: by path, then in listing order.
pub open spec fn flat_less(es: Seq<FsEntry>, i: int, j: int) -> bool {
    let a = path_key(es[i].rel_path@);
    let b = path_key(es[j].rel_path@);
    seq_less(a, b) || (a == b && i < j)
}

proof fn lemma_flat_total(es: Seq<FsEntry>, i: int, j: int)
    requires
        i != j,
    ensures
        flat_less(es, i, j) || flat_less(es, j, i),
{
    let a = path_key(es[i].rel_path@);
    let b = path_key(es[j].rel_path@);
    if a != b {
        lemma_seq_less_total(a, b);
    }
}

proof fn lemma_flat_trans(es: Seq<FsEntry>, i: int, j: int, k: int)
    requires
        flat_less(es, i, j),
        flat_less(es, j, k),
    ensures
        flat_less(es, i, k),
{
    let a = path_key(es[i].rel_path@);
    let b = path_key(es[j].rel_path@);
    let c = path_key(es[k].rel_path@);
    if seq_less(a, b) && seq_less(b, c) {
        lemma_seq_less_trans(a, b, c);
    }
}

fn key_char(c: char) -> (r: char)
    ensures
        r == if c == '/' { '\0' } else { c },
{
    if c == '/' { '\0' } else { c }
}

/// Whether path `a` sorts before path `b`.
fn path_less(a: &str, b: &str) -> (r: bool)
    ensures
        r == seq_less(path_key(a@), path_key(b@)),
{
    let ghost ka = path_key(a@);
    let ghost kb = path_key(b@);
    let n = a.unicode_len();
    let m = b.unicode_len();
    let mut i: usize = 0;
    assert(ka.subrange(0, n as int) == ka);
    assert(kb.subrange(0, m as int) == kb);
    while i < n && i < m && key_char(a.get_char(i)) == key_char(b.get_char(i))
        invariant
            n == a@.len(),
            m == b@.len(),
            ka == path_key(a@),
            kb == path_key(b@),
            ka.len() == n,
            kb.len() == m,
            i <= n,
            i <= m,
            seq_less(ka, kb) == seq_less(ka.subrange(i as int, n as int), kb.subrange(i as int, m as int)),
        decreases n - i,
    {
        assert(ka.subrange(i as int, n as int).drop_first() == ka.subrange(i + 1, n as int));
        assert(kb.subrange(i as int, m as int).drop_first() == kb.subrange(i + 1, m as int));
        i = i + 1;
    }
    if i == n {
        i < m
    } else if i == m {
        false
    } else {
        key_char(a.get_char(i)) < key_char(b.get_char(i))
    }
}

fn flat_before(es: &Vec<FsEntry>, i: usize, j: usize) -> (r: bool)
    requires
        i < es@.len(),
        j < es@.len(),
    ensures
        r == flat_less(es@, i as int, j as int),
{
    let a = es[i].rel_path.as_str();
    let b = es[j].rel_path.as_str();
    if path_less(a, b) {
        true
    } else if path_less(b, a) {
        false
    } else {
        proof {
            if path_key(a@) != path_key(b@) {
                lemma_seq_less_total(path_key(a@), path_key(b@));
            }
        }
        i < j
    }
}

/// The hits in flat-output order: by path, component by component.
pub fn order_flat_hits(es: &Vec<FsEntry>, hits: &Vec<usize>) -> (r: Vec<usize>)
    requires
        forall|k: int| 0 <= k < hits@.len() ==> #[trigger] hits@[k] < es@.len(),
        forall|k: int, l: int| 0 <= k < l < hits@.len() ==> hits@[k] != hits@[l],
    ensures
        r@.len() == hits@.len(),
        forall|k: int, l: int| 0 <= k < l < r@.len() ==> flat_less(es@, r@[k] as int, r@[l] as int),
        forall|x: usize| r@.contains(x) <==> hits@.contains(x),
{
    let mut out: Vec<usize> = Vec::new();
    let mut i: usize = 0;
    while i < hits.len()
        invariant
            i <= hits@.len(),
            forall|k: int| 0 <= k < hits@.len() ==> #[trigger] hits@[k] < es@.len(),
            forall|k: int, l: int| 0 <= k < l < hits@.len() ==> hits@[k] != hits@[l],
            out@.len() == i,
            forall|k: int| 0 <= k < out@.len() ==> #[trigger] out@[k] < es@.len(),
            forall|k: int, l: int| 0 <= k < l < out@.len() ==> flat_less(es@, out@[k] as int, out@[l] as int),
            forall|x: usize| out@.contains(x) <==> hits@.subrange(0, i as int).contains(x),
        decreases hits@.len() - i,
    {
        let h = hits[i];
        proof {
            assert forall|k: int| 0 <= k < out@.len() implies out@[k] != h by {
                assert(out@.contains(out@[k]));
                let y = choose|y: int| 0 <= y < i && #[trigger] hits@.subrange(0, i as int)[y] == out@[k];
                assert(hits@[y] == out@[k]);
            }
        }
        let mut k: usize = 0;
        while k < out.len() && !flat_before(es, h, out[k])
            invariant
                h < es@.len(),
                k <= out@.len(),
                forall|x: int| 0 <= x < out@.len() ==> #[trigger] out@[x] < es@.len(),
                forall|x: int| 0 <= x < k ==> !flat_less(es@, h as int, #[trigger] out@[x] as int),
            decreases out@.len() - k,
        {
            k = k + 1;
        }
        let ghost prev = out@;
        proof {
            assert forall|x: int| 0 <= x < k implies flat_less(es@, prev[x] as int, h as int) by {
                assert(prev[x] != h);
                lemma_flat_total(es@, prev[x] as int, h as int);
            }
            assert forall|x: int| k <= x < prev.len() implies flat_less(es@, h as int, prev[x] as int) by {
                if x > k {
                    lemma_flat_trans(es@, h as int, prev[k as int] as int, prev[x] as int);
                }
            }
        }
        out.insert(k, h);
        assert forall|a: int, b: int| 0 <= a < b < out@.len() implies flat_less(es@, out@[a] as int, out@[b] as int) by {
            if a < k && b > k {
                lemma_flat_trans(es@, out@[a] as int, h as int, out@[b] as int);
            }
        }
        assert(out@ == prev.insert(k as int, h));
        assert forall|x: usize| out@.contains(x) <==> hits@.subrange(0, i + 1).contains(x) by {
            let hs = hits@.subrange(0, i + 1);
            assert(hs == hits@.subrange(0, i as int).push(h));
            if out@.contains(x) {
                let y = choose|y: int| 0 <= y < out@.len() && out@[y] == x;
                if y < k {
                    assert(prev[y] == x);
                    assert(prev.contains(x));
                } else if y > k {
                    assert(prev[y - 1] == x);
                    assert(prev.contains(x));
                } else {
                    assert(hs[i as int] == x);
                }
                assert(hs.contains(x));
            }
            if hs.contains(x) {
                let y = choose|y: int| 0 <= y < hs.len() && hs[y] == x;
                if y < i {
                    assert(hits@.subrange(0, i as int)[y] == x);
                    assert(prev.contains(x));
                    let z = choose|z: int| 0 <= z < prev.len() && prev[z] == x;
                    if z < k {
                        assert(out@[z] == x);
                    } else {
                        assert(out@[z + 1] == x);
                    }
                } else {
                    assert(out@[k as int] == x);
                }
                assert(out@.contains(x));
            }
        }
        i = i + 1;
    }
    assert(hits@.subrange(0, hits@.len() as int) == hits@);
    out
}

} // verus!

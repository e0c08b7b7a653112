//! Whether an entry is hidden: built-in names, persisted and inline patterns,
//! and the exemptions asked for on one run.
use vstd::prelude::*;
use crate::compiled::{compile, is_match, regex_accepts, regex_matches, CompiledRegex};
use crate::text::{ends_with, kept_trimmed, pieces, push_char, push_str, split_kept, str_ends_with, str_eq, trim, trimmed};

verus! {

/// Directory names hidden by default: tool caches, dependency trees, virtual
/// environments, version-control stores, editor settings, build outputs and
/// browser-profile caches, and any `*.egg-info`.
pub open spec fn default_ignored_dir(s: Seq<char>) -> bool {
    s == "__pycache__"@
        || s == ".pytest_cache"@
        || s == ".mypy_cache"@
        || s == ".ruff_cache"@
        || s == ".tox"@
        || s == "dist"@
        || s == "build"@
        || s == ".coverage"@
        || s == "venv"@
        || s == ".venv"@
        || s == "env"@
        || s == ".env"@
        || s == "virtualenv"@
        || s == "node_modules"@
        || s == ".npm"@
        || s == ".yarn"@
        || s == ".git"@
        || s == ".svn"@
        || s == ".hg"@
        || s == ".vscode"@
        || s == ".idea"@
        || s == ".obsidian"@
        || s == "target"@
        || s == "bin"@
        || s == "obj"@
        || s == ".next"@
        || s == ".nuxt"@
        || s == ".DS_Store"@
        || s == "chrome_profile"@
        || s == "lofi_chrome_profile"@
        || s == "GPUCache"@
        || s == "ShaderCache"@
        || s == "GrShaderCache"@
        || s == "Cache"@
        || s == "blob_storage"@
        || ends_with(s, ".egg-info"@)
}

/// Whether a directory is hidden by the built-in rules.
pub fn should_ignore_dir(name: &str) -> (r: bool)
    ensures
        r == default_ignored_dir(name@),
{
    str_eq(name, "__pycache__")
        || str_eq(name, ".pytest_cache")
        || str_eq(name, ".mypy_cache")
        || str_eq(name, ".ruff_cache")
        || str_eq(name, ".tox")
        || str_eq(name, "dist")
        || str_eq(name, "build")
        || str_eq(name, ".coverage")
        || str_eq(name, "venv")
        || str_eq(name, ".venv")
        || str_eq(name, "env")
        || str_eq(name, ".env")
        || str_eq(name, "virtualenv")
        || str_eq(name, "node_modules")
        || str_eq(name, ".npm")
        || str_eq(name, ".yarn")
        || str_eq(name, ".git")
        || str_eq(name, ".svn")
        || str_eq(name, ".hg")
        || str_eq(name, ".vscode")
        || str_eq(name, ".idea")
        || str_eq(name, ".obsidian")
        || str_eq(name, "target")
        || str_eq(name, "bin")
        || str_eq(name, "obj")
        || str_eq(name, ".next")
        || str_eq(name, ".nuxt")
        || str_eq(name, ".DS_Store")
        || str_eq(name, "chrome_profile")
        || str_eq(name, "lofi_chrome_profile")
        || str_eq(name, "GPUCache")
        || str_eq(name, "ShaderCache")
        || str_eq(name, "GrShaderCache")
        || str_eq(name, "Cache")
        || str_eq(name, "blob_storage")
        || str_ends_with(name, ".egg-info")
}

/// The part of `s` after its last `.`; all of `s` when it holds no `.`.
pub open spec fn last_dot_segment(s: Seq<char>) -> Seq<char>
    decreases s.len(),
{
    if s.len() == 0 {
        s
    } else if s.last() == '.' {
        Seq::empty()
    } else {
        last_dot_segment(s.drop_last()).push(s.last())
    }
}

/// Extensions hidden by default: compiled Python and editor swap files.
pub open spec fn default_ignored_extension(e: Seq<char>) -> bool {
    e == "pyc"@
        || e == "pyo"@
        || e == "pyd"@
        || e == "swp"@
        || e == "swo"@
}

/// File names hidden by default.
pub open spec fn default_ignored_file(s: Seq<char>) -> bool {
    default_ignored_extension(last_dot_segment(s)) || s == "package-lock.json"@ || s == ".DS_Store"@
}

/// The part of `name` after its last `.`.
fn extension_of(name: &str) -> (r: &str)
    ensures
        r@ == last_dot_segment(name@),
{
    let n = name.unicode_len();
    let mut i: usize = n;
    assert(name@.subrange(0, n as int) == name@);
    assert(name@.subrange(n as int, n as int) =~= Seq::<char>::empty());
    assert(name@ + Seq::<char>::empty() =~= name@);
    while i > 0 && name.get_char(i - 1) != '.'
        invariant
            n == name@.len(),
            i <= n,
            last_dot_segment(name@) == last_dot_segment(name@.subrange(0, i as int)) + name@.subrange(i as int, n as int),
        decreases i,
    {
        let ghost p = name@.subrange(0, i as int);
        assert(p.drop_last() == name@.subrange(0, i - 1));
        assert(name@.subrange(i - 1, n as int) == seq![p.last()] + name@.subrange(i as int, n as int));
        i = i - 1;
    }
    if i > 0 {
        let ghost p = name@.subrange(0, i as int);
        assert(p.last() == '.');
    } else {
        assert(name@.subrange(0, 0) =~= Seq::<char>::empty());
    }
    assert(name@.subrange(i as int, n as int) == Seq::<char>::empty() + name@.subrange(i as int, n as int));
    name.substring_char(i, n)
}

/// Whether a file is hidden by the built-in rules.
pub fn should_ignore_file(name: &str) -> (r: bool)
    ensures
        r == default_ignored_file(name@),
{
    let e = extension_of(name);
    (str_eq(e, "pyc")
        || str_eq(e, "pyo")
        || str_eq(e, "pyd")
        || str_eq(e, "swp")
        || str_eq(e, "swo"))
        || str_eq(name, "package-lock.json") || str_eq(name, ".DS_Store")
}

/// `s` with each `*` widened to `.*`.
pub open spec fn star_expanded(s: Seq<char>) -> Seq<char>
    decreases s.len(),
{
    if s.len() == 0 {
        s
    } else if s.last() == '*' {
        star_expanded(s.drop_last()) + seq!['.', '*']
    } else {
        star_expanded(s.drop_last()).push(s.last())
    }
}

/// The anchored expression an ignore pattern stands for: trimmed, `*` widened,
/// and matched against the whole name.
pub open spec fn ignore_regex_text(p: Seq<char>) -> Seq<char> {
    seq!['^'] + star_expanded(trimmed(p)) + seq!['$']
}

/// The expressions of those patterns that compile, in their order.
pub open spec fn accepted_ignore_regexes(ps: Seq<Seq<char>>) -> Seq<Seq<char>>
    decreases ps.len(),
{
    if ps.len() == 0 {
        Seq::empty()
    } else {
        let rest = accepted_ignore_regexes(ps.drop_last());
        if regex_accepts(ignore_regex_text(ps.last())) {
            rest.push(ignore_regex_text(ps.last()))
        } else {
            rest
        }
    }
}

/// The source texts of a list of compiled expressions.
pub open spec fn sources(rs: Seq<CompiledRegex>) -> Seq<Seq<char>> {
    rs.map_values(|r: CompiledRegex| r.source())
}

/// Whether any of the expressions matches `name`.
pub open spec fn any_matches(rs: Seq<CompiledRegex>, name: Seq<char>) -> bool {
    exists|i: int| 0 <= i < rs.len() && regex_matches(#[trigger] rs[i].source(), name)
}

/// The anchored expression text of one ignore pattern.
pub fn ignore_regex_for(p: &str) -> (r: String)
    ensures
        r@ == ignore_regex_text(p@),
{
    let t = trim(p);
    let n = t.unicode_len();
    let mut out = String::new();
    push_char(&mut out, '^');
    let mut i: usize = 0;
    while i < n
        invariant
            n == t@.len(),
            i <= n,
            t@ == trimmed(p@),
            out@ == seq!['^'] + star_expanded(t@.subrange(0, i as int)),
        decreases n - i,
    {
        let c = t.get_char(i);
        let ghost before = t@.subrange(0, i as int);
        assert(t@.subrange(0, i + 1).drop_last() == before);
        if c == '*' {
            push_str(&mut out, ".*");
            proof {
                reveal_strlit(".*");
            }
            assert(out@ =~= seq!['^'] + star_expanded(t@.subrange(0, i + 1)));
        } else {
            push_char(&mut out, c);
            assert(out@ =~= seq!['^'] + star_expanded(t@.subrange(0, i + 1)));
        }
        i = i + 1;
    }
    assert(t@.subrange(0, n as int) == t@);
    push_char(&mut out, '$');
    assert(out@ =~= ignore_regex_text(p@));
    out
}

/// Compiles persisted and inline ignore patterns; one that does not compile is dropped.
pub fn build_ignores_from_patterns(patterns: Vec<String>) -> (r: Vec<CompiledRegex>)
    ensures
        sources(r@) == accepted_ignore_regexes(patterns@.map_values(|p: String| p@)),
{
    let ghost ps = patterns@.map_values(|p: String| p@);
    let mut out: Vec<CompiledRegex> = Vec::new();
    let mut i: usize = 0;
    while i < patterns.len()
        invariant
            i <= patterns.len(),
            ps == patterns@.map_values(|p: String| p@),
            sources(out@) == accepted_ignore_regexes(ps.subrange(0, i as int)),
        decreases patterns.len() - i,
    {
        let text = ignore_regex_for(patterns[i].as_str());
        assert(ps.subrange(0, i + 1).drop_last() == ps.subrange(0, i as int));
        assert(ps.subrange(0, i + 1).last() == patterns@[i as int]@);
        match compile(text) {
            Some(re) => {
                let ghost prev = out@;
                let ghost src = re.source();
                out.push(re);
                assert(sources(out@) =~= sources(prev).push(src));
            },
            None => {},
        }
        i = i + 1;
    }
    assert(ps.subrange(0, patterns.len() as int) == ps);
    out
}

/// Whether a name matches any of the patterns.
pub fn matches_custom_pattern(name: &str, patterns: &Vec<CompiledRegex>) -> (r: bool)
    ensures
        r == any_matches(patterns@, name@),
{
    let mut i: usize = 0;
    while i < patterns.len()
        invariant
            i <= patterns.len(),
            forall|j: int| 0 <= j < i ==> !regex_matches(#[trigger] patterns@[j].source(), name@),
        decreases patterns.len() - i,
    {
        if is_match(&patterns[i], name) {
            return true;
        }
        i = i + 1;
    }
    false
}

/// The exemptions asked for on one run. They only ever take ignoring away.
pub struct Suppression {
    /// The built-in rules are off.
    pub skip_defaults: bool,
    /// The persisted patterns are off.
    pub skip_config: bool,
    /// Names that are never hidden, every one asked for, in order.
    pub skip_specifics: Vec<String>,
}

/// The compiled patterns that hide entries, by where they came from.
pub struct IgnoreRules {
    /// Patterns from the persisted store.
    pub config: Vec<CompiledRegex>,
    /// Patterns given on the command line.
    pub inline: Vec<CompiledRegex>,
}

/// Whether `v` is one of the directive words `all`, `defaults`, `config`.
pub open spec fn is_keyword(v: Seq<char>) -> bool {
    v == "all"@ || v == "defaults"@ || v == "config"@
}

/// The directives that name a pattern rather than a group, in order.
pub open spec fn non_keywords(vs: Seq<Seq<char>>) -> Seq<Seq<char>>
    decreases vs.len(),
{
    if vs.len() == 0 {
        Seq::empty()
    } else if is_keyword(vs.last()) {
        non_keywords(vs.drop_last())
    } else {
        non_keywords(vs.drop_last()).push(vs.last())
    }
}

/// The characters of an optional string.
pub open spec fn opt_view(o: Option<String>) -> Option<Seq<char>> {
    match o {
        Some(s) => Some(s@),
        None => None,
    }
}

/// Folds the un-ignore directives (`all`, `defaults`, `config`, or a name):
/// the two group switches, and every name directive in order.
pub fn parse_no_ignore(values: &Vec<String>) -> (r: Suppression)
    ensures
        r.skip_defaults == exists|i: int|
            0 <= i < values@.len() && (#[trigger] values@[i]@ == "all"@ || values@[i]@ == "defaults"@),
        r.skip_config == exists|i: int|
            0 <= i < values@.len() && (#[trigger] values@[i]@ == "all"@ || values@[i]@ == "config"@),
        r.skip_specifics@.map_values(|s: String| s@) == non_keywords(values@.map_values(|v: String| v@)),
{
    let ghost vs = values@.map_values(|v: String| v@);
    let mut skip_defaults = false;
    let mut skip_config = false;
    let mut specifics: Vec<String> = Vec::new();
    let mut i: usize = 0;
    while i < values.len()
        invariant
            i <= values.len(),
            vs == values@.map_values(|v: String| v@),
            skip_defaults == exists|k: int|
                0 <= k < i && (#[trigger] values@[k]@ == "all"@ || values@[k]@ == "defaults"@),
            skip_config == exists|k: int|
                0 <= k < i && (#[trigger] values@[k]@ == "all"@ || values@[k]@ == "config"@),
            specifics@.map_values(|s: String| s@) == non_keywords(vs.subrange(0, i as int)),
        decreases values.len() - i,
    {
        let v = values[i].as_str();
        let is_all = str_eq(v, "all");
        let is_defaults = str_eq(v, "defaults");
        let is_config = str_eq(v, "config");
        if is_all || is_defaults {
            skip_defaults = true;
        }
        if is_all || is_config {
            skip_config = true;
        }
        assert(vs.subrange(0, i + 1).drop_last() == vs.subrange(0, i as int));
        assert(vs.subrange(0, i + 1).last() == v@);
        if !(is_all || is_defaults || is_config) {
            let ghost before = specifics@.map_values(|s: String| s@);
            specifics.push(values[i].clone());
            assert(specifics@.map_values(|s: String| s@) =~= before.push(v@));
        }
        i = i + 1;
    }
    assert(vs.subrange(0, vs.len() as int) == vs);
    Suppression { skip_defaults, skip_config, skip_specifics: specifics }
}

/// Whether the built-in rules hide an entry of this kind and name.
pub open spec fn default_ignored(name: Seq<char>, is_dir: bool) -> bool {
    if is_dir {
        default_ignored_dir(name)
    } else {
        default_ignored_file(name)
    }
}

/// Whether the exemptions name this entry. Every name directive counts, not
/// only the first.
pub open spec fn exempted(name: Seq<char>, sup: Suppression) -> bool {
    exists|k: int| 0 <= k < sup.skip_specifics@.len() && #[trigger] sup.skip_specifics@[k]@ == name
}

/// The ignore policy: built-in rules unless they are off, then persisted
/// patterns unless they are off, then inline patterns; an exempted name is
/// never hidden.
pub open spec fn ignored(name: Seq<char>, is_dir: bool, rules: IgnoreRules, sup: Suppression) -> bool {
    !exempted(name, sup) && (
        (default_ignored(name, is_dir) && !sup.skip_defaults)
        || (!sup.skip_config && any_matches(rules.config@, name))
        || any_matches(rules.inline@, name)
    )
}

/// Whether an entry is hidden from the tree.
pub fn is_ignored(name: &str, is_dir: bool, rules: &IgnoreRules, sup: &Suppression) -> (r: bool)
    ensures
        r == ignored(name@, is_dir, *rules, *sup),
{
    let mut k: usize = 0;
    while k < sup.skip_specifics.len()
        invariant
            k <= sup.skip_specifics@.len(),
            forall|j: int| 0 <= j < k ==> sup.skip_specifics@[j]@ != name@,
        decreases sup.skip_specifics@.len() - k,
    {
        if str_eq(sup.skip_specifics[k].as_str(), name) {
            return false;
        }
        k = k + 1;
    }
    let by_default = if is_dir {
        should_ignore_dir(name)
    } else {
        should_ignore_file(name)
    };
    if by_default && !sup.skip_defaults {
        return true;
    }
    if !sup.skip_config && matches_custom_pattern(name, &rules.config) {
        return true;
    }
    matches_custom_pattern(name, &rules.inline)
}

/// The patterns of a comma-separated list: each piece trimmed, blank pieces dropped.
pub fn split_patterns(list: &str) -> (r: Vec<String>)
    ensures
        r@.map_values(|p: String| p@) == kept_trimmed(pieces(list@, ','), false),
{
    split_kept(list, ',', false)
}

} // verus!

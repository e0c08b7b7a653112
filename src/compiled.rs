//! Regular expressions compiled by the `regex` crate, tied to their source text.
use vstd::prelude::*;

verus! {

#[verifier::external_type_specification]
#[verifier::external_body]
pub struct ExRegex(regex::Regex);

/// Whether `regex::Regex::new` accepts a pattern text.
pub uninterp spec fn regex_accepts(pattern: Seq<char>) -> bool;

/// Whether `regex::Regex::is_match` finds a match of the compiled pattern in a text.
pub uninterp spec fn regex_matches(pattern: Seq<char>, text: Seq<char>) -> bool;

/// Whether `c` is one of the characters that `regex::escape` prefixes with a backslash.
pub open spec fn is_meta(c: char) -> bool {
    c == '\\' || c == '.' || c == '+' || c == '*' || c == '?' || c == '(' || c == ')'
        || c == '|' || c == '[' || c == ']' || c == '{' || c == '}' || c == '^' || c == '$'
        || c == '#' || c == '&' || c == '-' || c == '~'
}

/// The text `regex::escape` makes of `s`: every meta character gets a backslash before it.
pub open spec fn escaped(s: Seq<char>) -> Seq<char>
    decreases s.len(),
{
    if s.len() == 0 {
        s
    } else {
        let head = if is_meta(s.last()) {
            seq!['\\', s.last()]
        } else {
            seq![s.last()]
        };
        escaped(s.drop_last()) + head
    }
}

/// Relies on `regex::escape`, which prefixes each meta character with a backslash.
#[verifier::external_body]
pub fn escape(s: &str) -> (r: String)
    ensures
        r@ == escaped(s@),
{
    regex::escape(s)
}

/// A regular expression together with the text it was compiled from.
pub struct CompiledRegex {
    source: String,
    re: regex::Regex,
}

impl CompiledRegex {
    /// The pattern text this expression was compiled from.
    pub closed spec fn source(&self) -> Seq<char> {
        self.source@
    }

    /// The pattern text this expression was compiled from.
    pub fn as_str(&self) -> (r: &str)
        ensures
            r@ == self.source(),
    {
        self.source.as_str()
    }
}

/// Relies on `regex::Regex::new`: it compiles the text, or fails on text it refuses.
#[verifier::external_body]
pub fn compile(source: String) -> (r: Option<CompiledRegex>)
    ensures
        r.is_some() == regex_accepts(source@),
        r.is_some() ==> r.unwrap().source() == source@,
{
    match regex::Regex::new(&source) {
        Ok(re) => Some(CompiledRegex { source, re }),
        Err(_) => None,
    }
}

/// Relies on `regex::Regex::is_match`: whether the expression matches somewhere in `text`.
#[verifier::external_body]
pub fn is_match(r: &CompiledRegex, text: &str) -> (b: bool)
    ensures
        b == regex_matches(r.source(), text@),
{
    r.re.is_match(text)
}

} // verus!

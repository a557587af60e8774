//! The calls into the `regex` crate and into std's Unicode upper-casing that
//! the configuration rules need. Their results are named, not restated: the
//! contracts below say that each call gives the named value of its arguments.

use vstd::prelude::*;

verus! {

#[verifier::external_type_specification]
#[verifier::external_body]
pub struct ExRegex(regex::Regex);

/// Whether the `regex` crate accepts `pattern` (`regex::Regex::new` returns `Ok`).
pub uninterp spec fn regex_compiles(pattern: Seq<char>) -> bool;

/// Whether the regular expression `pattern` matches somewhere in `haystack`
/// (`regex::Regex::is_match` of the compiled pattern).
pub uninterp spec fn regex_is_match(pattern: Seq<char>, haystack: Seq<char>) -> bool;

/// The text std's `str::to_uppercase` gives for `s`.
pub uninterp spec fn str_to_uppercase(s: Seq<char>) -> Seq<char>;

/// A regular expression compiled by the `regex` crate, with the text it was
/// compiled from. Only `compile_pattern` builds one.
pub(crate) struct CompiledPattern {
    regex: regex::Regex,
    source: Ghost<Seq<char>>,
}

impl View for CompiledPattern {
    type V = Seq<char>;

    closed spec fn view(&self) -> Seq<char> {
        self.source@
    }
}

/// Calls `regex::Regex::new(source)`. Trusted: the result is present exactly
/// when the crate accepts the pattern, and then it remembers `source` as its
/// text. Which patterns are accepted is left to the name `regex_compiles`.
#[verifier::external_body]
pub(crate) fn compile_pattern(source: &str) -> (r: Option<CompiledPattern>)
    ensures
        r is Some <==> regex_compiles(source@),
        r matches Some(p) ==> p@ == source@,
{
    match regex::Regex::new(source) {
        Ok(regex) => Some(CompiledPattern { regex, source: Ghost(source@) }),
        Err(_) => None,
    }
}

/// Calls `regex::Regex::is_match(haystack)` on the compiled pattern. Trusted:
/// the answer is `regex_is_match` of the pattern's text and the haystack;
/// the matching rules themselves are left to that name.
#[verifier::external_body]
pub(crate) fn pattern_is_match(pattern: &CompiledPattern, haystack: &str) -> (r: bool)
    ensures
        r == regex_is_match(pattern@, haystack@),
{
    pattern.regex.is_match(haystack)
}

/// Calls std's `str::to_uppercase`. Trusted: the result is `str_to_uppercase`
/// of the argument; the Unicode case mapping is left to that name.
#[verifier::external_body]
pub(crate) fn to_uppercase(s: &str) -> (r: String)
    ensures
        r@ == str_to_uppercase(s@),
{
    s.to_uppercase()
}

} // verus!

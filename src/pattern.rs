use vstd::prelude::*;

verus! {

/// The compiled byte-oriented expression of the regex crate, held opaque.
#[verifier::external_type_specification]
#[verifier::external_body]
pub struct ExRegex(regex::bytes::Regex);

/// The regex crate's error for a pattern that does not compile, held opaque.
#[verifier::external_type_specification]
#[verifier::external_body]
pub struct ExRegexError(regex::Error);

/// Whether `pattern` compiles as a byte-oriented regular expression.
pub uninterp spec fn regex_compiles(pattern: Seq<char>) -> bool;

/// Whether the regular expression `pattern` matches somewhere in `haystack`.
pub uninterp spec fn regex_is_match(pattern: Seq<char>, haystack: Seq<u8>) -> bool;

/// A compiled content pattern, together with the text it was compiled from.
///
/// The fields are private: the only way to build a pattern is [`compile_regex`],
/// so `compiled` is always the expression compiled from `source`.
#[derive(Debug)]
pub struct Pattern {
    source: String,
    compiled: regex::bytes::Regex,
}

impl View for Pattern {
    type V = Seq<char>;

    /// The text the pattern was compiled from.
    closed spec fn view(&self) -> Seq<char> {
        self.source@
    }
}

/// Relies on regex::bytes::Regex::new: it succeeds or fails on the pattern
/// text alone; on success the expression is kept with its text.
#[verifier::external_body]
pub(crate) fn compile_regex(source: String) -> (r: Result<Pattern, regex::Error>)
    ensures
        r is Ok <==> regex_compiles(source@),
        r matches Ok(p) ==> p@ == source@,
{
    match regex::bytes::Regex::new(&source) {
        Ok(compiled) => Ok(Pattern { source, compiled }),
        Err(e) => Err(e),
    }
}

/// Relies on regex::bytes::Regex::is_match, run with the expression compiled
/// from `p@`: whether it matches anywhere in the bytes.
#[verifier::external_body]
pub(crate) fn regex_matches(p: &Pattern, data: &[u8]) -> (r: bool)
    ensures
        r == regex_is_match(p@, data@),
{
    p.compiled.is_match(data)
}

impl Pattern {
    /// The text the pattern was compiled from.
    pub fn source(&self) -> (r: &String)
        ensures
            r@ == self@,
    {
        &self.source
    }
}

} // verus!

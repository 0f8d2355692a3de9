//! The delimiter codec that cuts an NRTM stream into chunks (regex, re_delimiter_codec).
use vstd::prelude::*;

verus! {

#[verifier::external_type_specification]
#[verifier::external_body]
pub struct ExREDelimiterCodec(re_delimiter_codec::REDelimiterCodec);

#[verifier::external_type_specification]
#[verifier::external_body]
pub struct ExRegex(regex::bytes::Regex);

#[verifier::external_type_specification]
#[verifier::external_body]
pub struct ExRegexError(regex::Error);

/// The delimiter after which a chunk ends: the empty line that ends an RPSL object.
///
/// `\n[^%].*` keeps comment lines of the prelude from ending a chunk; the
/// `[^AD][^DE][^DL]` line keeps the empty line after an `ADD` / `DEL` header from
/// ending one. `(?R)` is CRLF mode, in which `.` matches neither `\r` nor `\n`.
pub const NRTM_DELIMITER: &'static str = "(?R)\\n[^%].*\\n[^AD][^DE][^DL].*\\n\\n";

/// Whether `regex::bytes::Regex::new` accepts `pattern`.
pub uninterp spec fn regex_compiles(pattern: Seq<char>) -> bool;

/// A compiled regular expression with the pattern it was compiled from. Only
/// `compile_regex` makes one.
pub struct CompiledRegex {
    regex: regex::bytes::Regex,
    pattern: &'static str,
}

impl CompiledRegex {
    /// The pattern that the expression was compiled from.
    pub closed spec fn pattern(&self) -> Seq<char> {
        self.pattern@
    }
}

/// The pattern of the expression after whose matches a
/// `re_delimiter_codec::REDelimiterCodec` ends its chunks.
pub uninterp spec fn codec_pattern(c: re_delimiter_codec::REDelimiterCodec) -> Seq<char>;

/// The largest chunk, in bytes, that a `re_delimiter_codec::REDelimiterCodec` hands out.
pub uninterp spec fn codec_max_length(c: re_delimiter_codec::REDelimiterCodec) -> usize;

/// Calls `regex::bytes::Regex::new`, which compiles `pattern` or returns an error, and
/// keeps the pattern with the compiled expression. Whether it succeeds depends on the
/// pattern alone and is named `regex_compiles`. `NRTM_DELIMITER` is built only from
/// syntax that the regex documentation lists (the `R` flag, escapes, negated classes,
/// `.` and `*`), so it compiles.
#[verifier::external_body]
pub(crate) fn compile_regex(pattern: &'static str) -> (r: Result<CompiledRegex, regex::Error>)
    ensures
        r is Ok <==> regex_compiles(pattern@),
        r matches Ok(c) ==> c.pattern() == pattern@,
        pattern@ == NRTM_DELIMITER@ ==> r is Ok,
{
    match regex::bytes::Regex::new(pattern) {
        Ok(regex) => Ok(CompiledRegex { regex, pattern }),
        Err(e) => Err(e),
    }
}

/// Calls `re_delimiter_codec::REDelimiterCodec::new_with_max_length`, which builds a
/// codec that keeps the expression and the limit: it cuts after each match of the
/// expression, with chunks of at most `max_length` bytes. How it cuts a stream is the
/// codec's own and is not stated.
#[verifier::external_body]
pub(crate) fn delimiter_codec(regex: CompiledRegex, max_length: usize) -> (r:
    re_delimiter_codec::REDelimiterCodec)
    ensures
        codec_pattern(r) == regex.pattern(),
        codec_max_length(r) == max_length,
{
    re_delimiter_codec::REDelimiterCodec::new_with_max_length(regex.regex, max_length)
}

} // verus!

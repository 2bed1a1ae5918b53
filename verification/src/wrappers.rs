//! Trusted bindings to functions whose code Verus does not read: a few
//! std primitives, the `url` and `regex` crates, and the texts of I/O and
//! JSON errors.  Each item below names the outside function it calls and
//! states exactly what its contract claims; nothing else in the crate is
//! trusted.
use vstd::prelude::*;

verus! {

/// Calls `String::push`, which (per its documentation) appends the given
/// `char` to the end of the string.  Claimed: the new contents are the old
/// ones followed by `c`.
#[verifier::external_body]
pub(crate) fn push_char(s: &mut String, c: char)
    ensures
        final(s)@ == old(s)@.push(c),
{
    s.push(c);
}

} // verus!

verus! {

// ---------------------------------------------------------------------------
// std: Unicode upper-casing and file system probes
// ---------------------------------------------------------------------------

/// The full Unicode upper-case mapping of `s`, as `str::to_uppercase`
/// computes it (it may change the length, e.g. `ß` becomes `SS`).
pub uninterp spec fn unicode_upper(s: Seq<char>) -> Seq<char>;

/// `c` is an ASCII character.
pub open spec fn is_ascii_char(c: char) -> bool {
    (c as u32) < 128
}

/// `c` with `a`..`z` mapped to `A`..`Z`; every other character unchanged.
pub open spec fn ascii_upper_char(c: char) -> char {
    if 97 <= (c as u32) && (c as u32) <= 122 {
        ((c as u32) - 32) as char
    } else {
        c
    }
}

/// Calls `str::to_uppercase`.  Claimed: the result is `unicode_upper`
/// of the argument, a function of the argument alone; and, as the Unicode
/// upper-case mapping that the documentation names maps `a`..`z` to
/// `A`..`Z` and leaves every other ASCII character as it is, an ASCII
/// argument gives its ASCII upper-casing.
#[verifier::external_body]
pub(crate) fn to_uppercase(s: &str) -> (r: String)
    ensures
        r@ == unicode_upper(s@),
        (forall|i: int| 0 <= i < s@.len() ==> is_ascii_char(#[trigger] s@[i])) ==> r@ == s@.map_values(
            |c: char| ascii_upper_char(c),
        ),
{
    s.to_uppercase()
}

/// Calls `std::path::Path::is_file` on the path spelled `s`.  The answer
/// depends on the file system at the time of the call, so nothing is
/// claimed of it.
#[verifier::external_body]
pub(crate) fn path_is_file(s: &str) -> bool {
    std::path::Path::new(s).is_file()
}

/// Calls `std::path::Path::is_dir` on the path spelled `s`.  The answer
/// depends on the file system at the time of the call, so nothing is
/// claimed of it.
#[verifier::external_body]
pub(crate) fn path_is_dir(s: &str) -> bool {
    std::path::Path::new(s).is_dir()
}

// ---------------------------------------------------------------------------
// url
// ---------------------------------------------------------------------------

/// Whether `url::Url::parse` accepts `input` as an absolute URL.
pub uninterp spec fn url_parses(input: Seq<char>) -> bool;

/// `Url::host_str` of the URL that `Url::parse` makes of `input`.
pub uninterp spec fn url_host(input: Seq<char>) -> Option<Seq<char>>;

/// `Url::path` of the URL that `Url::parse` makes of `input`.
pub uninterp spec fn url_path(input: Seq<char>) -> Seq<char>;

/// `Url::query` of the URL that `Url::parse` makes of `input`.
pub uninterp spec fn url_query(input: Seq<char>) -> Option<Seq<char>>;

/// The text (`Display`) of the `url::ParseError` that `Url::parse`
/// returns for `input`.
pub uninterp spec fn url_error_text(input: Seq<char>) -> Seq<char>;

/// The parts of a parsed URL that this library reads.
#[derive(Debug, Clone)]
pub struct UrlParts {
    /// `Url::host_str`.
    pub host: Option<String>,
    /// `Url::path`.
    pub path: String,
    /// `Url::query`.
    pub query: Option<String>,
}

/// Calls `url::Url::parse`, then `host_str`, `path` and `query` on the
/// result (or `to_string` on the error).  Claimed: success exactly when
/// `url_parses`, and each part equal to its name applied to the input.
/// All are functions of the input alone.
#[verifier::external_body]
pub(crate) fn parse_url(input: &str) -> (r: Result<UrlParts, String>)
    ensures
        r is Ok <==> url_parses(input@),
        r matches Ok(p) ==> {
            &&& p.host.deep_view() == url_host(input@)
            &&& p.path@ == url_path(input@)
            &&& p.query.deep_view() == url_query(input@)
        },
        r matches Err(e) ==> e@ == url_error_text(input@),
{
    match url::Url::parse(input) {
        Ok(u) => Ok(UrlParts {
            host: u.host_str().map(|h| h.to_string()),
            path: u.path().to_string(),
            query: u.query().map(|q| q.to_string()),
        }),
        Err(e) => Err(e.to_string()),
    }
}

// ---------------------------------------------------------------------------
// regex
// ---------------------------------------------------------------------------

#[verifier::external_type_specification]
#[verifier::external_body]
pub struct ExRegexError(regex::Error);

/// Whether `regex::Regex::new` accepts `pattern`.
pub uninterp spec fn regex_compiles(pattern: Seq<char>) -> bool;

/// Whether the regex compiled from `pattern` matches somewhere in
/// `haystack` (`Regex::is_match`).
pub uninterp spec fn regex_finds(pattern: Seq<char>, haystack: Seq<char>) -> bool;

/// Calls `regex::Regex::new`.  Claimed: `Ok` exactly when
/// `regex_compiles(pattern)`; the error value itself is not described.
#[verifier::external_body]
pub(crate) fn regex_new(pattern: &str) -> (r: Result<(), regex::Error>)
    ensures
        r is Ok <==> regex_compiles(pattern@),
{
    regex::Regex::new(pattern).map(|_| ())
}

/// Calls `regex::Regex::is_match` on the regex built from `pattern`
/// (the pattern is compiled here, which `requires` says succeeds).
/// Claimed: the answer is `regex_finds(pattern, haystack)`.
#[verifier::external_body]
pub(crate) fn regex_is_match(pattern: &str, haystack: &str) -> (b: bool)
    requires
        regex_compiles(pattern@),
    ensures
        b == regex_finds(pattern@, haystack@),
{
    match regex::Regex::new(pattern) {
        Ok(re) => re.is_match(haystack),
        Err(_) => false,
    }
}

} // verus!

verus! {

// ---------------------------------------------------------------------------
// Error texts
// ---------------------------------------------------------------------------

#[verifier::external_type_specification]
#[verifier::external_body]
pub struct ExIoError(std::io::Error);

#[verifier::external_type_specification]
#[verifier::external_body]
pub struct ExJsonError(serde_json::Error);

/// Calls `to_string` on a `std::io::Error`.  Its text comes from the
/// operating system, so nothing is claimed of it.
#[verifier::external_body]
pub(crate) fn io_error_text(e: &std::io::Error) -> String {
    e.to_string()
}

/// Calls `to_string` on a `serde_json::Error`.  Nothing is claimed of
/// the text.
#[verifier::external_body]
pub(crate) fn json_error_text(e: &serde_json::Error) -> String {
    e.to_string()
}

} // verus!

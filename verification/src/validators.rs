//! Validators for command-line values: paths that must exist, URLs that
//! must parse.
//!
//! Paths are handed back as the text they were given in; turning them
//! into `PathBuf`s is the caller's part.
use vstd::prelude::*;

use crate::text::{append_str, copy_str};
use crate::wrappers::{parse_url, path_is_dir, path_is_file, url_error_text, url_parses};

verus! {

/// The outcome of checking that `s` names an existing file, given whether
/// it is one: the path back, or the message `file not found: <s>`.
pub fn file_outcome(s: &str, is_file: bool) -> (r: Result<String, String>)
    ensures
        r is Ok <==> is_file,
        r matches Ok(p) ==> p@ == s@,
        r matches Err(m) ==> m@ == "file not found: "@ + s@,
{
    if is_file {
        Ok(copy_str(s))
    } else {
        let mut m = copy_str("file not found: ");
        append_str(&mut m, s);
        Err(m)
    }
}

/// The outcome of checking that `s` names an existing directory, given
/// whether it is one: the path back, or the message
/// `directory not found: <s>`.
pub fn dir_outcome(s: &str, is_dir: bool) -> (r: Result<String, String>)
    ensures
        r is Ok <==> is_dir,
        r matches Ok(p) ==> p@ == s@,
        r matches Err(m) ==> m@ == "directory not found: "@ + s@,
{
    if is_dir {
        Ok(copy_str(s))
    } else {
        let mut m = copy_str("directory not found: ");
        append_str(&mut m, s);
        Err(m)
    }
}

/// Validates that a path points to an existing file (a directory is not
/// one).
///
/// # Errors
///
/// Returns an error message string if the file does not exist.
pub fn existing_file(s: &str) -> (r: Result<String, String>)
    ensures
        r matches Ok(p) ==> p@ == s@,
        r matches Err(m) ==> m@ == "file not found: "@ + s@,
{
    file_outcome(s, path_is_file(s))
}

/// Validates that a path points to an existing directory.
///
/// # Errors
///
/// Returns an error message string if the directory does not exist.
pub fn existing_dir(s: &str) -> (r: Result<String, String>)
    ensures
        r matches Ok(p) ==> p@ == s@,
        r matches Err(m) ==> m@ == "directory not found: "@ + s@,
{
    dir_outcome(s, path_is_dir(s))
}

/// Validates that a string is a well-formed URL.
///
/// # Errors
///
/// Returns `invalid URL: ` and the parser's message if the URL cannot be
/// parsed.
pub fn valid_url(s: &str) -> (r: Result<String, String>)
    ensures
        r is Ok <==> url_parses(s@),
        r matches Ok(u) ==> u@ == s@,
        r matches Err(m) ==> m@ == "invalid URL: "@ + url_error_text(s@),
{
    match parse_url(s) {
        Ok(_) => Ok(copy_str(s)),
        Err(e) => {
            let mut m = copy_str("invalid URL: ");
            append_str(&mut m, e.as_str());
            Err(m)
        },
    }
}

} // verus!

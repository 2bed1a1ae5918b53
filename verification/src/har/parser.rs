//! Checks on a loaded HAR file, and the ways loading one can fail.
//!
//! Reading the file and decoding its JSON happen in the caller; the
//! library holds the error values and the rule that a HAR file must hold
//! at least one entry.
use vstd::prelude::*;

use crate::har::types::Har;
use crate::text::{append_str, copy_str};
use crate::wrappers::{io_error_text, json_error_text};

verus! {

/// Errors that can occur when loading a HAR file.
#[derive(Debug)]
#[allow(inconsistent_fields)]
pub enum ParseError {
    /// The file does not exist or cannot be read.
    FileNotFound(String),
    /// The file could not be read (I/O error).
    Io {
        /// The file path.
        path: String,
        /// The underlying I/O error.
        source: std::io::Error,
    },
    /// The file is not valid JSON.
    InvalidJson {
        /// The file path.
        path: String,
        /// The underlying JSON error.
        source: serde_json::Error,
    },
    /// The JSON is valid but doesn't match the HAR schema.
    MissingLog {
        /// The file path.
        path: String,
    },
    /// The log has no entries.
    NoEntries {
        /// The file path.
        path: String,
    },
}

impl ParseError {
    /// The error's message.  For I/O and JSON errors it ends with the
    /// underlying error's own text, which is not described here.
    pub fn message(&self) -> (m: String)
        ensures
            match self {
                ParseError::FileNotFound(p) => m@ == "file not found: "@ + p@,
                ParseError::Io { path, .. } => exists|t: Seq<char>|
                    m@ == "failed to read file "@ + path@ + ": "@ + t,
                ParseError::InvalidJson { path, .. } => exists|t: Seq<char>|
                    m@ == "invalid JSON in "@ + path@ + ": "@ + t,
                ParseError::MissingLog { path } => m@ == "invalid HAR structure in "@ + path@
                    + ": missing 'log' field"@,
                ParseError::NoEntries { path } => m@ == "HAR file "@ + path@ + " contains no entries"@,
            },
    {
        match self {
            ParseError::FileNotFound(p) => {
                let mut m = copy_str("file not found: ");
                append_str(&mut m, p.as_str());
                m
            },
            ParseError::Io { path, source } => {
                let mut m = copy_str("failed to read file ");
                append_str(&mut m, path.as_str());
                append_str(&mut m, ": ");
                let t = io_error_text(source);
                append_str(&mut m, t.as_str());
                assert(m@ == "failed to read file "@ + path@ + ": "@ + t@);
                m
            },
            ParseError::InvalidJson { path, source } => {
                let mut m = copy_str("invalid JSON in ");
                append_str(&mut m, path.as_str());
                append_str(&mut m, ": ");
                let t = json_error_text(source);
                append_str(&mut m, t.as_str());
                assert(m@ == "invalid JSON in "@ + path@ + ": "@ + t@);
                m
            },
            ParseError::MissingLog { path } => {
                let mut m = copy_str("invalid HAR structure in ");
                append_str(&mut m, path.as_str());
                append_str(&mut m, ": missing 'log' field");
                m
            },
            ParseError::NoEntries { path } => {
                let mut m = copy_str("HAR file ");
                append_str(&mut m, path.as_str());
                append_str(&mut m, " contains no entries");
                m
            },
        }
    }
}

/// Accept a decoded HAR read from `path` if it holds at least one entry.
///
/// # Errors
///
/// `NoEntries` when the log has no entries.
pub fn check_entries(har: Har, path: &str) -> (r: Result<Har, ParseError>)
    ensures
        r is Ok <==> har.log.entries@.len() > 0,
        r matches Ok(h) ==> h == har,
        r matches Err(e) ==> e matches ParseError::NoEntries { path: p } && p@ == path@,
{
    if har.log.entries.len() == 0 {
        Err(ParseError::NoEntries { path: copy_str(path) })
    } else {
        Ok(har)
    }
}

} // verus!

//! How a run ends: the process exit status for each kind of failure, and
//! the logging set-up the global flags ask for.
//!
//! Exit statuses are part of the command line contract, so that scripts
//! and agents can branch on them: 0 success (and a HAR file with no
//! entries), 1 any other failure, 2 file not found, 3 invalid HAR, 4 no
//! results.
use vstd::prelude::*;

use crate::cli::GlobalArgs;
use crate::har::parser::ParseError;
use crate::text::{copy_str, occurs_in, str_contains};

verus! {

/// Why a command failed.
#[derive(Debug)]
pub enum Failure {
    /// Loading the HAR file failed.
    Load(ParseError),
    /// Any other failure, with its message.
    Other(String),
}

/// The exit status for a failure.
pub open spec fn exit_status(f: Failure) -> u8 {
    match f {
        Failure::Load(e) => match e {
            ParseError::FileNotFound(_) => 2,
            ParseError::InvalidJson { .. } => 3,
            ParseError::MissingLog { .. } => 3,
            ParseError::NoEntries { .. } => 0,
            ParseError::Io { .. } => 1,
        },
        Failure::Other(m) => if occurs_in("NO_RESULTS"@, m@) {
            4
        } else {
            1
        },
    }
}

/// Map a failure to the process exit status.
pub fn exit_code(f: &Failure) -> (c: u8)
    ensures
        c == exit_status(*f),
{
    match f {
        Failure::Load(e) => match e {
            ParseError::FileNotFound(_) => 2,
            ParseError::InvalidJson { .. } => 3,
            ParseError::MissingLog { .. } => 3,
            ParseError::NoEntries { .. } => 0,
            ParseError::Io { .. } => 1,
        },
        Failure::Other(m) => if str_contains(m.as_str(), "NO_RESULTS") {
            4
        } else {
            1
        },
    }
}

/// The log filter directive for the global flags: errors only when quiet,
/// else by verbosity: `RUST_LOG` (when set) or info, debug, trace.
pub open spec fn log_directive(quiet: bool, verbose: u8, rust_log: Option<Seq<char>>) -> Seq<char> {
    if quiet {
        "harvey=error"@
    } else if verbose == 0 {
        match rust_log {
            Some(v) => v,
            None => "harvey=info"@,
        }
    } else if verbose == 1 {
        "harvey=debug"@
    } else {
        "harvey=trace"@
    }
}

/// Choose the log filter directive; `rust_log` is the value of the
/// `RUST_LOG` environment variable, if set.
pub fn log_filter(global: &GlobalArgs, rust_log: Option<String>) -> (r: String)
    ensures
        r@ == log_directive(global.quiet, global.verbose, rust_log.deep_view()),
{
    if global.quiet {
        copy_str("harvey=error")
    } else if global.verbose == 0 {
        match rust_log {
            Some(v) => v,
            None => copy_str("harvey=info"),
        }
    } else if global.verbose == 1 {
        copy_str("harvey=debug")
    } else {
        copy_str("harvey=trace")
    }
}

/// Whether log output may use ANSI colors: not when `--no-color` is given
/// nor when the `NO_COLOR` environment variable is set.
pub fn use_ansi(global: &GlobalArgs, no_color_env: bool) -> (b: bool)
    ensures
        b == (!global.no_color && !no_color_env),
{
    !global.no_color && !no_color_env
}

} // verus!

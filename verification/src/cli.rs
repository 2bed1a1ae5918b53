//! Global arguments and the top-level command set.
use vstd::prelude::*;

use crate::commands::analyze::AnalyzeArgs;
use crate::commands::capture::CaptureArgs;
use crate::commands::domains::DomainsArgs;
use crate::commands::endpoints::EndpointsArgs;
use crate::commands::entries::EntriesArgs;
use crate::commands::inspect::InspectArgs;
use crate::commands::schema::SchemaArgs;

verus! {

/// Global arguments available to all subcommands.
#[derive(Debug, Clone)]
pub struct GlobalArgs {
    /// Log verbosity (each `-v` adds one).
    pub verbose: u8,
    /// Suppress all diagnostic output; only data is emitted.
    pub quiet: bool,
    /// Output as machine-readable JSON instead of human tables.
    pub json: bool,
    /// Disable ANSI color codes in output.
    pub no_color: bool,
}

/// A parsed command line: global flags and one subcommand.
#[derive(Debug)]
pub struct Cli {
    /// Global flags (verbose, quiet, json, no-color).
    pub global: GlobalArgs,
    /// The subcommand to execute.
    pub command: Command,
}

/// Top-level subcommands.
#[derive(Debug)]
pub enum Command {
    /// Analyze a HAR file: summary statistics and distributions.
    Analyze(AnalyzeArgs),
    /// List and filter individual HTTP request/response entries.
    Entries(EntriesArgs),
    /// Show per-domain breakdown of all requests.
    Domains(DomainsArgs),
    /// Show deduplicated API endpoint summary.
    Endpoints(EndpointsArgs),
    /// Live-capture network traffic from a URL via Chrome DevTools.
    Capture(CaptureArgs),
    /// Inspect a single entry in full detail.
    Inspect(InspectArgs),
    /// Print the JSON output schema for a command.
    Schema(SchemaArgs),
}

} // verus!

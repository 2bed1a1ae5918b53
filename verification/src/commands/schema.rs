//! `schema`: which JSON output schema to print.
use vstd::prelude::*;

use crate::text::copy_str;

verus! {

/// Arguments of the `schema` command.
#[derive(Debug, Clone, Copy)]
pub struct SchemaArgs {
    /// Which command's schema to display.
    pub command: SchemaCommand,
}

/// Available schemas to display.
#[derive(Debug, Clone, Copy, PartialEq, Eq, Structural)]
pub enum SchemaCommand {
    /// Schema for `analyze --json` output.
    Analyze,
    /// Schema for `entries --json` output (JSONL format).
    Entries,
    /// Schema for `domains --json` output.
    Domains,
    /// Schema for `inspect --json` output.
    Inspect,
}

} // verus!

verus! {

/// The file holding the output schema of `command`.
pub open spec fn schema_file(command: SchemaCommand) -> Seq<char> {
    match command {
        SchemaCommand::Analyze => "analyze-output.json"@,
        SchemaCommand::Entries => "entries-output.json"@,
        SchemaCommand::Domains => "domains-output.json"@,
        SchemaCommand::Inspect => "inspect-output.json"@,
    }
}

/// The name of the file holding the output schema of `command`.
pub fn schema_file_name(command: SchemaCommand) -> (r: String)
    ensures
        r@ == schema_file(command),
{
    match command {
        SchemaCommand::Analyze => copy_str("analyze-output.json"),
        SchemaCommand::Entries => copy_str("entries-output.json"),
        SchemaCommand::Domains => copy_str("domains-output.json"),
        SchemaCommand::Inspect => copy_str("inspect-output.json"),
    }
}

} // verus!

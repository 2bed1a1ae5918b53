//! Output mode selection.
use vstd::prelude::*;

verus! {

/// Whether to render human-readable tables or machine-parseable JSON.
#[derive(Debug, Clone, Copy, PartialEq, Eq, Structural)]
pub enum OutputMode {
    /// Human-readable table output.
    Human,
    /// Machine-parseable JSON (or JSONL) output.
    Json,
}

impl OutputMode {
    /// Select the output mode based on the `--json` flag.
    pub fn from_args(json_flag: bool) -> (mode: Self)
        ensures
            mode == (if json_flag { OutputMode::Json } else { OutputMode::Human }),
    {
        if json_flag {
            OutputMode::Json
        } else {
            OutputMode::Human
        }
    }
}

} // verus!

//! `analyze`: aggregate HAR statistics.
use vstd::prelude::*;

use crate::cli::GlobalArgs;
use crate::commands::entries::mode_for;
use crate::har::stats::{compute, describes, total_content, Stats};
use crate::har::types::{Entry, Har};
use crate::output::OutputMode;
use crate::timestamps::{instant, parse_instant};
use crate::text::{copy_str, lemma_seq_lt_total, lemma_seq_lt_transitive, seq_lt, str_lt};

verus! {

/// Arguments of the `analyze` command.
#[derive(Debug, Clone)]
pub struct AnalyzeArgs {
    /// Path to the .har file.
    pub file: String,
}

/// The start timestamps of `entries`, in order.
pub open spec fn start_times(entries: Seq<Entry>) -> Seq<Seq<char>> {
    entries.map_values(|e: Entry| e.started_date_time@)
}

/// `x` is one of `xs` and no member of `xs` sorts before it.
pub open spec fn is_least(x: Seq<char>, xs: Seq<Seq<char>>) -> bool {
    &&& xs.contains(x)
    &&& forall|i: int| 0 <= i < xs.len() ==> !seq_lt(#[trigger] xs[i], x)
}

/// `x` is one of `xs` and sorts before no member of `xs`.
pub open spec fn is_greatest(x: Seq<char>, xs: Seq<Seq<char>>) -> bool {
    &&& xs.contains(x)
    &&& forall|i: int| 0 <= i < xs.len() ==> !seq_lt(x, #[trigger] xs[i])
}

/// Some start time of `ts` is an ISO 8601 timestamp.
pub open spec fn any_instant(ts: Seq<Seq<char>>) -> bool {
    exists|j: int| 0 <= j < ts.len() && (#[trigger] instant(ts[j])) is Some
}

/// `ts[i]` denotes the earliest instant among the timestamps of `ts`, and
/// no earlier position denotes that instant.
pub open spec fn is_earliest_at(ts: Seq<Seq<char>>, i: int) -> bool {
    &&& 0 <= i < ts.len()
    &&& instant(ts[i]) is Some
    &&& forall|j: int|
        0 <= j < ts.len() && (#[trigger] instant(ts[j])) is Some ==> instant(ts[i])->0 <= instant(ts[j])->0
    &&& forall|j: int| 0 <= j < i && (#[trigger] instant(ts[j])) is Some ==> instant(ts[i])->0 < instant(ts[j])->0
}

/// `ts[i]` denotes the latest instant among the timestamps of `ts`, and
/// no earlier position denotes that instant.
pub open spec fn is_latest_at(ts: Seq<Seq<char>>, i: int) -> bool {
    &&& 0 <= i < ts.len()
    &&& instant(ts[i]) is Some
    &&& forall|j: int|
        0 <= j < ts.len() && (#[trigger] instant(ts[j])) is Some ==> instant(ts[j])->0 <= instant(ts[i])->0
    &&& forall|j: int| 0 <= j < i && (#[trigger] instant(ts[j])) is Some ==> instant(ts[j])->0 < instant(ts[i])->0
}

/// `first` and `last` are the earliest and latest of the start times
/// `ts`, as [`time_range`] describes.
pub open spec fn is_time_range(first: Option<String>, last: Option<String>, ts: Seq<Seq<char>>) -> bool {
    &&& ts.len() == 0 ==> first is None && last is None
    &&& any_instant(ts) ==> exists|i: int, k: int|
        {
            &&& is_earliest_at(ts, i)
            &&& is_latest_at(ts, k)
            &&& first matches Some(a) && a@ == ts[i]
            &&& last matches Some(b) && b@ == ts[k]
        }
    &&& ts.len() > 0 && !any_instant(ts) ==> {
        &&& first matches Some(a) && is_least(a@, ts)
        &&& last matches Some(b) && is_greatest(b@, ts)
    }
}

/// The earliest and latest start timestamps of `entries` as points in
/// time (ISO 8601, offsets taken into account; of timestamps denoting the
/// same instant, the first in the log), or `None` for both when there
/// are no entries.  Start times that are not ISO 8601 timestamps take no
/// part; when none is, the texts are compared as text.
pub fn time_range(entries: &[Entry]) -> (r: (Option<String>, Option<String>))
    ensures
        is_time_range(r.0, r.1, start_times(entries@)),
{
    if entries.len() == 0 {
        return (None, None);
    }
    let ghost ts = start_times(entries@);
    let mut best_min: Option<usize> = None;
    let mut best_max: Option<usize> = None;
    let mut min_key: i128 = 0;
    let mut max_key: i128 = 0;
    let mut i: usize = 0;
    while i < entries.len()
        invariant
            i <= entries@.len(),
            ts == start_times(entries@),
            best_min is None <==> forall|j: int| 0 <= j < i ==> (#[trigger] instant(ts[j])) is None,
            best_max is None <==> best_min is None,
            best_min matches Some(b) ==> {
                &&& b < i
                &&& instant(ts[b as int]) == Some(min_key as int)
                &&& forall|j: int| 0 <= j < i && (#[trigger] instant(ts[j])) is Some ==> min_key <= instant(ts[j])->0
                &&& forall|j: int| 0 <= j < b && (#[trigger] instant(ts[j])) is Some ==> min_key < instant(ts[j])->0
            },
            best_max matches Some(b) ==> {
                &&& b < i
                &&& instant(ts[b as int]) == Some(max_key as int)
                &&& forall|j: int| 0 <= j < i && (#[trigger] instant(ts[j])) is Some ==> instant(ts[j])->0 <= max_key
                &&& forall|j: int| 0 <= j < b && (#[trigger] instant(ts[j])) is Some ==> instant(ts[j])->0 < max_key
            },
        decreases entries@.len() - i,
    {
        assert(ts[i as int] == entries@[i as int].started_date_time@);
        match parse_instant(entries[i].started_date_time.as_str()) {
            Some(k) => {
                let take_min = match best_min {
                    None => true,
                    Some(_) => k < min_key,
                };
                if take_min {
                    best_min = Some(i);
                    min_key = k;
                }
                let take_max = match best_max {
                    None => true,
                    Some(_) => k > max_key,
                };
                if take_max {
                    best_max = Some(i);
                    max_key = k;
                }
            },
            None => {},
        }
        i += 1;
    }
    match (best_min, best_max) {
        (Some(a), Some(b)) => {
            let first = copy_str(entries[a].started_date_time.as_str());
            let last = copy_str(entries[b].started_date_time.as_str());
            proof {
                assert(ts[a as int] == first@);
                assert(ts[b as int] == last@);
                assert(is_earliest_at(ts, a as int));
                assert(is_latest_at(ts, b as int));
            }
            (Some(first), Some(last))
        },
        _ => {
            proof {
                assert forall|j: int| 0 <= j < ts.len() implies (#[trigger] instant(ts[j])) is None by {
                }
                assert(!any_instant(ts));
            }
            text_range(entries)
        },
    }
}

/// The least and greatest start times of `entries` in text order.
fn text_range(entries: &[Entry]) -> (r: (Option<String>, Option<String>))
    requires
        entries@.len() > 0,
    ensures
        r.0 matches Some(first) && is_least(first@, start_times(entries@)),
        r.1 matches Some(last) && is_greatest(last@, start_times(entries@)),
{
    let ghost ts = start_times(entries@);
    let mut min: usize = 0;
    let mut max: usize = 0;
    let mut i: usize = 1;
    proof {
        crate::text::lemma_seq_lt_irreflexive(ts[0]);
    }
    while i < entries.len()
        invariant
            1 <= i <= entries@.len(),
            ts == start_times(entries@),
            min < i,
            max < i,
            forall|k: int| 0 <= k < i ==> !seq_lt(#[trigger] ts[k], ts[min as int]),
            forall|k: int| 0 <= k < i ==> !seq_lt(ts[max as int], #[trigger] ts[k]),
        decreases entries@.len() - i,
    {
        if str_lt(entries[i].started_date_time.as_str(), entries[min].started_date_time.as_str()) {
            proof {
                assert forall|k: int| 0 <= k < i + 1 implies !seq_lt(#[trigger] ts[k], ts[i as int]) by {
                    if k < i {
                        lemma_seq_lt_total(ts[k], ts[min as int]);
                        if seq_lt(ts[k], ts[i as int]) {
                            lemma_seq_lt_transitive(ts[k], ts[i as int], ts[min as int]);
                        }
                    } else {
                        crate::text::lemma_seq_lt_irreflexive(ts[k]);
                    }
                }
            }
            min = i;
        }
        if str_lt(entries[max].started_date_time.as_str(), entries[i].started_date_time.as_str()) {
            proof {
                assert forall|k: int| 0 <= k < i + 1 implies !seq_lt(ts[i as int], #[trigger] ts[k]) by {
                    if k < i {
                        if seq_lt(ts[i as int], ts[k]) {
                            lemma_seq_lt_transitive(ts[max as int], ts[i as int], ts[k]);
                        }
                    } else {
                        crate::text::lemma_seq_lt_irreflexive(ts[k]);
                    }
                }
            }
            max = i;
        }
        i += 1;
    }
    let first = copy_str(entries[min].started_date_time.as_str());
    let last = copy_str(entries[max].started_date_time.as_str());
    proof {
        assert(ts[min as int] == first@);
        assert(ts[max as int] == last@);
    }
    (Some(first), Some(last))
}

/// What the `analyze` command shows.
#[derive(Debug, Clone)]
pub struct AnalyzeReport {
    /// Table or JSON.
    pub mode: OutputMode,
    /// The statistics of the log.
    pub stats: Stats,
    /// Earliest request timestamp.
    pub time_start: Option<String>,
    /// Latest request timestamp.
    pub time_end: Option<String>,
}

/// Run the `analyze` command on a loaded HAR.
///
/// The sum of the response content sizes must fit in 64 bits.
pub fn run(args: &AnalyzeArgs, global: &GlobalArgs, har: &Har) -> (r: AnalyzeReport)
    requires
        total_content(har.log.entries@) <= u64::MAX,
    ensures
        r.mode == mode_for(global.json),
        describes(r.stats, har.log.entries@),
        is_time_range(r.time_start, r.time_end, start_times(har.log.entries@)),
{
    let mode = OutputMode::from_args(global.json);
    let stats = compute(&har.log);
    let (time_start, time_end) = time_range(har.log.entries.as_slice());
    AnalyzeReport { mode, stats, time_start, time_end }
}

} // verus!

//! `domains`: per-domain breakdown of a HAR capture.
//!
//! Average request times are arithmetic on doubles and are computed by
//! the caller from each summary's `times`; the library groups, counts,
//! sums sizes, and decides the display order.
use vstd::prelude::*;

use crate::har::stats::{entry_domain, entry_domains, entry_statuses, extract_domain, is_status_distribution, lemma_total_transfer_monotone, response_size, status_distribution, total_transfer, StatusCount};
use crate::har::types::{Entry, Millis};
use crate::order::{group_positions, is_grouping, is_rearrangement, lemma_group_of, lemma_positions_of_sound, lemma_select_push, lemma_select_take, models, positions_of, select, stable_order, Group, OrderKey};
use crate::cli::GlobalArgs;
use crate::commands::entries::mode_for;
use crate::har::types::Har;
use crate::output::OutputMode;
use crate::text::seq_lt;

verus! {

/// Arguments of the `domains` command.
#[derive(Debug, Clone)]
pub struct DomainsArgs {
    /// Path to the .har file.
    pub file: String,
    /// Sort domains by this metric.
    pub sort_by: DomainSortBy,
}

/// Fields available for sorting domain output.
#[derive(Debug, Clone, Copy, PartialEq, Eq, Structural)]
pub enum DomainSortBy {
    /// Sort by number of requests.
    Requests,
    /// Sort by total bytes transferred.
    Bytes,
    /// Sort by average request time.
    AvgTime,
}

/// Aggregated figures for a single domain.
#[derive(Debug, Clone)]
pub struct DomainSummary {
    /// The domain name.
    pub domain: String,
    /// Number of requests to this domain.
    pub request_count: usize,
    /// Total bytes transferred (requests + responses).
    pub total_bytes: u64,
    /// The times of this domain's requests, in log order (their average
    /// is the domain's average time).
    pub times: Vec<Millis>,
    /// HTTP status code distribution: code and count, ascending.
    pub status_summary: Vec<StatusCount>,
}

/// The entries of `entries` whose domain is `d`, in log order.
pub open spec fn domain_entries(entries: Seq<Entry>, d: Seq<char>) -> Seq<Entry>
    decreases entries.len(),
{
    if entries.len() == 0 {
        Seq::empty()
    } else if entry_domain(entries.last()) == d {
        domain_entries(entries.drop_last(), d).push(entries.last())
    } else {
        domain_entries(entries.drop_last(), d)
    }
}

/// The times of `entries`, in order.
pub open spec fn entry_times(entries: Seq<Entry>) -> Seq<Millis> {
    entries.map_values(|e: Entry| e.time)
}

/// `s` is the summary of domain `s.domain` within `entries`.
pub open spec fn summarizes(s: DomainSummary, entries: Seq<Entry>) -> bool {
    let mine = domain_entries(entries, s.domain@);
    &&& s.request_count == mine.len()
    &&& s.request_count > 0
    &&& s.total_bytes == total_transfer(mine)
    &&& s.times@ == entry_times(mine)
    &&& is_status_distribution(s.status_summary@, entry_statuses(mine))
}

/// Some summary in `summaries` is for domain `d`.
pub open spec fn has_summary(summaries: Seq<DomainSummary>, d: Seq<char>) -> bool {
    exists|i: int| 0 <= i < summaries.len() && summaries[i].domain@ == d
}

/// `summaries` holds one summary per domain of `entries`, ascending by
/// domain name (the order a `BTreeMap` keyed by domain iterates in).
pub open spec fn is_domain_breakdown(summaries: Seq<DomainSummary>, entries: Seq<Entry>) -> bool {
    &&& forall|i: int, j: int|
        0 <= i < j < summaries.len() ==> seq_lt(summaries[i].domain@, summaries[j].domain@)
    &&& forall|i: int| 0 <= i < summaries.len() ==> summarizes(#[trigger] summaries[i], entries)
    &&& forall|k: int| 0 <= k < entries.len() ==> #[trigger] has_summary(summaries, entry_domain(entries[k]))
}

/// The entries of a domain are those at its positions in the domain list.
proof fn lemma_domain_entries_positions(entries: Seq<Entry>, d: Seq<char>)
    requires
        entries.len() <= usize::MAX,
    ensures
        domain_entries(entries, d) == select(entries, positions_of(entry_domains(entries), d)),
    decreases entries.len(),
{
    if entries.len() > 0 {
        let rest = entries.drop_last();
        lemma_domain_entries_positions(rest, d);
        assert(entry_domains(entries).drop_last() =~= entry_domains(rest));
        let ps = positions_of(entry_domains(rest), d);
        lemma_positions_of_sound(entry_domains(rest), d);
        assert(select(entries, ps) =~= select(rest, ps));
        if entry_domain(entries.last()) == d {
            assert(select(entries, ps.push((entries.len() - 1) as usize)) =~= select(entries, ps).push(entries.last()));
        }
    }
}

/// Group entries by domain and compute per-domain figures, ascending by
/// domain.  The byte total of each domain must fit in 64 bits.
pub fn build_summaries(entries: &[Entry]) -> (summaries: Vec<DomainSummary>)
    requires
        forall|d: Seq<char>| total_transfer(#[trigger] domain_entries(entries@, d)) <= u64::MAX,
    ensures
        is_domain_breakdown(summaries@, entries@),
{
    let mut domains: Vec<String> = Vec::new();
    let mut i: usize = 0;
    while i < entries.len()
        invariant
            i <= entries@.len(),
            domains@.len() == i,
            forall|k: int| 0 <= k < i ==> (#[trigger] domains@[k])@ == entry_domain(entries@[k]),
        decreases entries@.len() - i,
    {
        domains.push(extract_domain(&entries[i]));
        i += 1;
    }
    assert(models(domains@) =~= entry_domains(entries@));
    let groups = group_positions(&domains);
    let ghost ms = entry_domains(entries@);
    let n_entries = entries.len();

    let mut summaries: Vec<DomainSummary> = Vec::new();
    let mut g: usize = 0;
    while g < groups.len()
        invariant
            g <= groups@.len(),
            ms == entry_domains(entries@),
            ms.len() == entries@.len(),
            entries@.len() == n_entries,
            is_grouping(groups@, ms),
            forall|d: Seq<char>| total_transfer(#[trigger] domain_entries(entries@, d)) <= u64::MAX,
            summaries@.len() == g,
            forall|q: int| 0 <= q < g ==> (#[trigger] summaries@[q]).domain@ == groups@[q].key@,
            forall|q: int| 0 <= q < g ==> summarizes(#[trigger] summaries@[q], entries@),
        decreases groups@.len() - g,
    {
        let members = &groups[g].members;
        let ghost key = groups@[g as int].key@;
        proof {
            assert(groups@[g as int].members@ == positions_of(ms, key));
            lemma_positions_of_sound(ms, key);
            lemma_domain_entries_positions(entries@, key);
        }
        let ghost mine = domain_entries(entries@, key);
        let mut bytes: u64 = 0;
        let mut times: Vec<Millis> = Vec::new();
        let mut statuses: Vec<u16> = Vec::new();
        let mut q: usize = 0;
        while q < members.len()
            invariant
                q <= members@.len(),
                members@ == positions_of(ms, key),
                ms.len() == entries@.len(),
                forall|x: int| 0 <= x < members@.len() ==> (#[trigger] members@[x]) < ms.len(),
                mine == select(entries@, members@),
                total_transfer(mine) <= u64::MAX,
                bytes == total_transfer(select(entries@, members@.take(q as int))),
                times@ == entry_times(select(entries@, members@.take(q as int))),
                statuses@ == entry_statuses(select(entries@, members@.take(q as int))),
            decreases members@.len() - q,
        {
            let e = &entries[members[q]];
            proof {
                lemma_select_push(entries@, members@, q as int);
                lemma_select_take(entries@, members@, q as int + 1);
                lemma_total_transfer_monotone(mine, q as int + 1);
                let next = select(entries@, members@.take(q + 1));
                assert(next.drop_last() == select(entries@, members@.take(q as int)));
                assert(next.last() == *e);
            }
            bytes = bytes + response_size(e);
            times.push(e.time);
            statuses.push(e.response.status);
            proof {
                let next = select(entries@, members@.take(q + 1));
                assert(times@ =~= entry_times(next));
                assert(statuses@ =~= entry_statuses(next));
            }
            q += 1;
        }
        proof {
            assert(members@.take(members@.len() as int) =~= members@);
        }
        let status_summary = status_distribution(&statuses);
        let summary = DomainSummary {
            domain: groups[g].key.duplicate(),
            request_count: members.len(),
            total_bytes: bytes,
            times,
            status_summary,
        };
        proof {
            assert(groups@[g as int].members@.len() > 0);
            assert(summarizes(summary, entries@));
        }
        summaries.push(summary);
        g += 1;
    }
    proof {
        assert forall|i: int, j: int| 0 <= i < j < summaries@.len() implies seq_lt(summaries@[i].domain@, summaries@[j].domain@) by {
            assert(String::model_lt(groups@[i].key.model(), groups@[j].key.model()));
        }
        assert forall|k: int| 0 <= k < entries@.len() implies #[trigger] has_summary(summaries@, entry_domain(entries@[k])) by {
            let gi = lemma_group_of(groups@, ms, k);
            assert(summaries@[gi].domain@ == ms[k]);
        }
    }
    summaries
}

/// The number a summary is ordered by, for each ordering; `avg` is the
/// summary's average time.
pub open spec fn summary_sort_key(s: DomainSummary, by: DomainSortBy, avg: Millis) -> int {
    match by {
        DomainSortBy::Requests => s.request_count as int,
        DomainSortBy::Bytes => s.total_bytes as int,
        DomainSortBy::AvgTime => avg.total_key(),
    }
}

/// `ord` lists the summaries by descending key, keeping the given order
/// among equal keys (a stable sort on the reversed key).
pub open spec fn is_summary_order(
    ord: Seq<usize>,
    summaries: Seq<DomainSummary>,
    by: DomainSortBy,
    avg_times: Seq<Millis>,
) -> bool {
    &&& is_rearrangement(ord, summaries.len())
    &&& forall|i: int, j: int|
        #![trigger ord[i], ord[j]]
        0 <= i < j < ord.len() ==> {
            let a = ord[i] as int;
            let b = ord[j] as int;
            summary_sort_key(summaries[a], by, avg_times[a]) > summary_sort_key(
                summaries[b],
                by,
                avg_times[b],
            ) || (summary_sort_key(summaries[a], by, avg_times[a]) == summary_sort_key(
                summaries[b],
                by,
                avg_times[b],
            ) && a < b)
        }
}

/// The display order of the summaries: positions sorted by descending
/// request count, byte total, or average time (`avg_times[i]` is the
/// average time of `summaries[i]`, compared by `f64::total_cmp`), ties
/// kept in domain order.
pub fn order_summaries(
    summaries: &Vec<DomainSummary>,
    by: DomainSortBy,
    avg_times: &Vec<Millis>,
) -> (ord: Vec<usize>)
    requires
        avg_times@.len() == summaries@.len(),
    ensures
        is_summary_order(ord@, summaries@, by, avg_times@),
{
    let n = summaries.len();
    let mut keys: Vec<i128> = Vec::new();
    let mut i: usize = 0;
    while i < n
        invariant
            i <= n,
            n == summaries@.len(),
            avg_times@.len() == n,
            keys@.len() == i,
            forall|k: int| 0 <= k < i ==> #[trigger] keys@[k] == summary_sort_key(summaries@[k], by, avg_times@[k]),
        decreases n - i,
    {
        let key: i128 = match by {
            DomainSortBy::Requests => summaries[i].request_count as i128,
            DomainSortBy::Bytes => summaries[i].total_bytes as i128,
            DomainSortBy::AvgTime => avg_times[i].total_key_of(),
        };
        keys.push(key);
        i += 1;
    }
    let ord = stable_order(&keys, true);
    proof {
        let ms = models(keys@);
        assert forall|a: int, b: int| #![trigger ord@[a], ord@[b]] 0 <= a < b < ord@.len() implies {
            let x = ord@[a] as int;
            let y = ord@[b] as int;
            summary_sort_key(summaries@[x], by, avg_times@[x]) > summary_sort_key(
                summaries@[y],
                by,
                avg_times@[y],
            ) || (summary_sort_key(summaries@[x], by, avg_times@[x]) == summary_sort_key(
                summaries@[y],
                by,
                avg_times@[y],
            ) && x < y)
        } by {
            let x = ord@[a] as int;
            let y = ord@[b] as int;
            assert(crate::order::comes_before(|p, q| i128::model_lt(p, q), ms, true, x, y));
            assert(ms[x] == keys@[x]);
            assert(ms[y] == keys@[y]);
        }
    }
    ord
}

/// What the `domains` command shows.
#[derive(Debug, Clone)]
pub struct DomainsReport {
    /// Table or JSON.
    pub mode: OutputMode,
    /// How the summaries are to be ordered for display.
    pub sort_by: DomainSortBy,
    /// One summary per domain, ascending by domain name; see
    /// [`order_summaries`] for the display order.
    pub summaries: Vec<DomainSummary>,
}

/// Run the `domains` command on a loaded HAR: one summary per domain.
/// The byte total of each domain must fit in 64 bits.
pub fn run(args: &DomainsArgs, global: &GlobalArgs, har: &Har) -> (r: DomainsReport)
    requires
        forall|d: Seq<char>| total_transfer(#[trigger] domain_entries(har.log.entries@, d)) <= u64::MAX,
    ensures
        r.mode == mode_for(global.json),
        r.sort_by == args.sort_by,
        is_domain_breakdown(r.summaries@, har.log.entries@),
{
    let mode = OutputMode::from_args(global.json);
    let summaries = build_summaries(har.log.entries.as_slice());
    DomainsReport { mode, sort_by: args.sort_by, summaries }
}

} // verus!

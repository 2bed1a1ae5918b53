//! Aggregate statistics for HAR files.
//!
//! Everything here is exact integer and string work.  The floating-point
//! aggregates of a log (average and percentile times) are arithmetic on
//! doubles and are left to the caller, which gets the entry times sorted
//! from [`compute`].
use vstd::prelude::*;

use crate::har::types::{Entry, Log, Millis};
use crate::order::{group_positions, is_grouping, is_rearrangement, lemma_group_of, lemma_rearrangement_without_last, rearranged, lemma_positions_of_sound, models, positions_of, stable_order, OrderKey};
use crate::text::{copy_str, seq_lt};
use crate::wrappers::{parse_url, url_host, url_parses};

verus! {

// ---------------------------------------------------------------------------
// Sizes
// ---------------------------------------------------------------------------

/// A byte count from a HAR size field, where negative values (HAR uses -1)
/// mean "unknown" and count as nothing.
pub open spec fn known_size(v: i64) -> int {
    if v >= 0 {
        v as int
    } else {
        0
    }
}

/// Total transfer size of an entry: the response content size
/// (`content.size`, the primary size source), plus the response headers
/// and the request headers and body where their sizes are known; unknown
/// sizes (HAR writes -1) count as zero.
pub open spec fn transfer_size(e: Entry) -> int {
    e.response.content.size as int + known_size(e.response.headers_size) + known_size(e.request.headers_size)
        + known_size(e.request.body_size)
}

/// Sum of the transfer sizes of `entries`.
pub open spec fn total_transfer(entries: Seq<Entry>) -> int
    decreases entries.len(),
{
    if entries.len() == 0 {
        0
    } else {
        total_transfer(entries.drop_last()) + transfer_size(entries.last())
    }
}

/// A transfer size is never negative.
pub proof fn lemma_transfer_nonnegative(e: Entry)
    ensures
        transfer_size(e) >= 0,
{
}

/// A prefix of the entries, and any single entry, transfers no more than
/// all of them.
pub proof fn lemma_total_transfer_monotone(entries: Seq<Entry>, i: int)
    requires
        0 <= i <= entries.len(),
    ensures
        0 <= total_transfer(entries.take(i)) <= total_transfer(entries),
        forall|k: int| 0 <= k < entries.len() ==> transfer_size(#[trigger] entries[k]) <= total_transfer(entries),
    decreases entries.len(),
{
    if entries.len() > 0 {
        let rest = entries.drop_last();
        lemma_transfer_nonnegative(entries.last());
        if i < entries.len() {
            assert(entries.take(i) =~= rest.take(i));
            lemma_total_transfer_monotone(rest, i);
        } else {
            assert(entries.take(i) =~= entries);
            lemma_total_transfer_monotone(rest, 0);
        }
        lemma_total_transfer_monotone(rest, 0);
        assert forall|k: int| 0 <= k < entries.len() implies transfer_size(#[trigger] entries[k]) <= total_transfer(entries) by {
            if k < rest.len() {
                assert(entries[k] == rest[k]);
            }
        }
    }
}

/// Compute total transfer size (content + headers) for an entry.
///
/// Uses `content.size` as the primary size source; the header sizes and
/// the request body size count only when they are non-negative (HAR uses
/// -1 as an "unknown" sentinel).
pub fn response_size(entry: &Entry) -> (n: u64)
    requires
        transfer_size(*entry) <= u64::MAX,
    ensures
        n == transfer_size(*entry),
{
    let body: u64 = entry.response.content.size;
    let headers: u64 = if entry.response.headers_size >= 0 {
        entry.response.headers_size as u64
    } else {
        0
    };
    let req_headers: u64 = if entry.request.headers_size >= 0 {
        entry.request.headers_size as u64
    } else {
        0
    };
    let req_body: u64 = if entry.request.body_size >= 0 {
        entry.request.body_size as u64
    } else {
        0
    };
    body + headers + req_headers + req_body
}

/// The transfer size of an entry, computed without any bound on it.
pub fn transfer_size_exact(entry: &Entry) -> (n: u128)
    ensures
        n == transfer_size(*entry),
{
    let body: u128 = entry.response.content.size as u128;
    let headers: u128 = if entry.response.headers_size >= 0 {
        entry.response.headers_size as u128
    } else {
        0
    };
    let req_headers: u128 = if entry.request.headers_size >= 0 {
        entry.request.headers_size as u128
    } else {
        0
    };
    let req_body: u128 = if entry.request.body_size >= 0 {
        entry.request.body_size as u128
    } else {
        0
    };
    body + headers + req_headers + req_body
}

/// Sum of the response content sizes of `entries`.
pub open spec fn total_content(entries: Seq<Entry>) -> int
    decreases entries.len(),
{
    if entries.len() == 0 {
        0
    } else {
        total_content(entries.drop_last()) + entries.last().response.content.size
    }
}

/// Removing one entry takes its content size off the sum.
pub proof fn lemma_total_content_remove(entries: Seq<Entry>, j: int)
    requires
        0 <= j < entries.len(),
    ensures
        total_content(entries) == total_content(entries.remove(j)) + entries[j].response.content.size,
    decreases entries.len(),
{
    if j == entries.len() - 1 {
        assert(entries.remove(j) =~= entries.drop_last());
    } else {
        let rest = entries.drop_last();
        lemma_total_content_remove(rest, j);
        assert(entries.remove(j).drop_last() =~= rest.remove(j));
        assert(entries.remove(j).last() == entries.last());
    }
}

/// The content sum does not depend on the order of the entries.
pub proof fn lemma_total_content_rearranged(entries: Seq<Entry>, ord: Seq<usize>)
    requires
        is_rearrangement(ord, entries.len()),
    ensures
        total_content(rearranged(entries, ord)) == total_content(entries),
    decreases entries.len(),
{
    if entries.len() > 0 {
        let j = ord.last() as int;
        let rest = lemma_rearrangement_without_last(entries, ord);
        lemma_total_content_rearranged(entries.remove(j), rest);
        lemma_total_content_remove(entries, j);
    }
}

/// A prefix of the entries has no more content than all of them.
pub proof fn lemma_total_content_monotone(entries: Seq<Entry>, i: int)
    requires
        0 <= i <= entries.len(),
    ensures
        0 <= total_content(entries.take(i)) <= total_content(entries),
    decreases entries.len(),
{
    if entries.len() > 0 {
        let rest = entries.drop_last();
        if i < entries.len() {
            assert(entries.take(i) =~= rest.take(i));
            lemma_total_content_monotone(rest, i);
        } else {
            assert(entries.take(i) =~= entries);
            lemma_total_content_monotone(rest, 0);
        }
        lemma_total_content_monotone(rest, 0);
    }
}

/// Sum of the response content sizes of `entries`.
pub fn total_content_size(entries: &[Entry]) -> (n: u64)
    requires
        total_content(entries@) <= u64::MAX,
    ensures
        n == total_content(entries@),
{
    let mut total: u64 = 0;
    let mut i: usize = 0;
    while i < entries.len()
        invariant
            i <= entries@.len(),
            total_content(entries@) <= u64::MAX,
            total == total_content(entries@.take(i as int)),
        decreases entries@.len() - i,
    {
        proof {
            assert(entries@.take(i + 1).drop_last() =~= entries@.take(i as int));
            assert(entries@.take(i + 1).last() == entries@[i as int]);
            lemma_total_content_monotone(entries@, i + 1);
        }
        total = total + entries[i].response.content.size;
        i += 1;
    }
    assert(entries@.take(entries@.len() as int) =~= entries@);
    total
}

// ---------------------------------------------------------------------------
// Domains
// ---------------------------------------------------------------------------

/// The domain of a request URL: the host of the parsed URL, or `unknown`
/// when the URL does not parse or has no host.
pub open spec fn domain_of_url(url: Seq<char>) -> Seq<char> {
    if url_parses(url) && url_host(url) is Some {
        url_host(url)->0
    } else {
        "unknown"@
    }
}

/// The domain of an entry.
pub open spec fn entry_domain(e: Entry) -> Seq<char> {
    domain_of_url(e.request.url@)
}

/// Extract the domain from an entry's request URL.
///
/// Returns the host portion of the URL, or `"unknown"` if the URL
/// cannot be parsed.
pub fn extract_domain(entry: &Entry) -> (d: String)
    ensures
        d@ == entry_domain(*entry),
{
    domain_from_url(entry.request.url.as_str())
}

/// The domain of a URL (see [`domain_of_url`]).
pub fn domain_from_url(url: &str) -> (d: String)
    ensures
        d@ == domain_of_url(url@),
{
    match parse_url(url) {
        Ok(parts) => match parts.host {
            Some(h) => h,
            None => String::from_str("unknown"),
        },
        Err(_) => String::from_str("unknown"),
    }
}

// ---------------------------------------------------------------------------
// Distributions
// ---------------------------------------------------------------------------

/// How many times a status code occurs.
#[derive(Debug, Clone)]
pub struct StatusCount {
    /// The status code.
    pub status: u16,
    /// Number of entries with that code.
    pub count: usize,
}

/// How many times a name (MIME type, method, ...) occurs.
#[derive(Debug, Clone)]
pub struct NameCount {
    /// The name.
    pub name: String,
    /// Number of entries with that name.
    pub count: usize,
}

/// Number of occurrences of `m` in `ms`.
pub open spec fn occurrences<M>(ms: Seq<M>, m: M) -> nat {
    positions_of(ms, m).len()
}

/// `d` lists every status code of `codes` once, ascending, with its number
/// of occurrences: a `BTreeMap<u16, usize>` from code to count.
pub open spec fn is_status_distribution(d: Seq<StatusCount>, codes: Seq<u16>) -> bool {
    &&& forall|i: int, j: int| 0 <= i < j < d.len() ==> d[i].status < d[j].status
    &&& forall|i: int|
        0 <= i < d.len() ==> (#[trigger] d[i]).count == occurrences(codes, d[i].status)
            && d[i].count > 0
    &&& forall|k: int| 0 <= k < codes.len() ==> #[trigger] has_status(d, codes[k])
}

/// Some element of `d` is for status `code`.
pub open spec fn has_status(d: Seq<StatusCount>, code: u16) -> bool {
    exists|i: int| 0 <= i < d.len() && d[i].status == code
}

/// `d` lists every name of `names` once, ascending in code point order,
/// with its number of occurrences: a `BTreeMap<String, usize>`.
pub open spec fn is_name_distribution(d: Seq<NameCount>, names: Seq<Seq<char>>) -> bool {
    &&& forall|i: int, j: int| 0 <= i < j < d.len() ==> seq_lt(d[i].name@, d[j].name@)
    &&& forall|i: int|
        0 <= i < d.len() ==> (#[trigger] d[i]).count == occurrences(names, d[i].name@)
            && d[i].count > 0
    &&& forall|k: int| 0 <= k < names.len() ==> #[trigger] has_name(d, names[k])
}

/// Some element of `d` is for `name`.
pub open spec fn has_name(d: Seq<NameCount>, name: Seq<char>) -> bool {
    exists|i: int| 0 <= i < d.len() && d[i].name@ == name
}

/// Count the status codes `codes`.
pub fn status_distribution(codes: &Vec<u16>) -> (d: Vec<StatusCount>)
    ensures
        is_status_distribution(d@, codes@),
{
    let groups = group_positions(codes);
    assert(models(codes@) =~= codes@);
    let mut d: Vec<StatusCount> = Vec::new();
    let mut i: usize = 0;
    while i < groups.len()
        invariant
            i <= groups@.len(),
            is_grouping(groups@, codes@),
            d@.len() == i,
            forall|k: int| 0 <= k < i ==> (#[trigger] d@[k]).status == groups@[k].key && d@[k].count == groups@[k].members@.len(),
        decreases groups@.len() - i,
    {
        d.push(StatusCount { status: groups[i].key, count: groups[i].members.len() });
        i += 1;
    }
    proof {
        assert(d@.len() == groups@.len());
        assert forall|k: int| 0 <= k < codes@.len() implies #[trigger] has_status(d@, codes@[k]) by {
            let g = lemma_group_of(groups@, codes@, k);
            assert(d@[g].status == groups@[g].key);
            assert(groups@[g].key == codes@[k]);
            assert(0 <= g < d@.len());
            assert(d@[g].status == codes@[k]);
            assert(has_status(d@, codes@[k]));
        }
        assert forall|i: int| 0 <= i < d@.len() implies (#[trigger] d@[i]).count == occurrences(codes@, d@[i].status) && d@[i].count > 0 by {
            assert(groups@[i].members@ == positions_of(codes@, groups@[i].key.model()));
            assert(groups@[i].members@.len() > 0);
        }
        assert forall|i: int, j: int| 0 <= i < j < d@.len() implies d@[i].status < d@[j].status by {
            assert(u16::model_lt(groups@[i].key.model(), groups@[j].key.model()));
        }
        assert(is_status_distribution(d@, codes@));
    }
    d
}

/// Count the names `names`.
pub fn name_distribution(names: &Vec<String>) -> (d: Vec<NameCount>)
    ensures
        is_name_distribution(d@, models(names@)),
{
    let groups = group_positions(names);
    let mut d: Vec<NameCount> = Vec::new();
    let mut i: usize = 0;
    while i < groups.len()
        invariant
            i <= groups@.len(),
            is_grouping(groups@, models(names@)),
            d@.len() == i,
            forall|k: int| 0 <= k < i ==> (#[trigger] d@[k]).name@ == groups@[k].key@ && d@[k].count == groups@[k].members@.len(),
        decreases groups@.len() - i,
    {
        d.push(NameCount { name: groups[i].key.duplicate(), count: groups[i].members.len() });
        i += 1;
    }
    proof {
        let ms = models(names@);
        assert forall|k: int| 0 <= k < ms.len() implies #[trigger] has_name(d@, ms[k]) by {
            let g = lemma_group_of(groups@, ms, k);
            assert(d@[g].name@ == groups@[g].key@);
        }
        assert forall|i: int| 0 <= i < d@.len() implies (#[trigger] d@[i]).count == occurrences(ms, d@[i].name@) && d@[i].count > 0 by {
            assert(groups@[i].members@ == positions_of(ms, groups@[i].key.model()));
            assert(groups@[i].members@.len() > 0);
        }
        assert forall|i: int, j: int| 0 <= i < j < d@.len() implies seq_lt(d@[i].name@, d@[j].name@) by {
            assert(String::model_lt(groups@[i].key.model(), groups@[j].key.model()));
        }
    }
    d
}

/// `out` is strictly ascending in code point order.
pub open spec fn strictly_ascending(out: Seq<Seq<char>>) -> bool {
    forall|i: int, j: int| 0 <= i < j < out.len() ==> seq_lt(out[i], out[j])
}

/// The distinct values among `names`, ascending (what sorting and then
/// deduplicating them gives).
pub fn distinct_sorted(names: &Vec<String>) -> (out: Vec<String>)
    ensures
        strictly_ascending(models(out@)),
        models(out@).to_set() == models(names@).to_set(),
{
    let groups = group_positions(names);
    let count: usize = names.len();
    let mut out: Vec<String> = Vec::new();
    let mut i: usize = 0;
    while i < groups.len()
        invariant
            i <= groups@.len(),
            out@.len() == i,
            forall|k: int| 0 <= k < i ==> (#[trigger] out@[k])@ == groups@[k].key@,
        decreases groups@.len() - i,
    {
        out.push(groups[i].key.duplicate());
        i += 1;
    }
    proof {
        let ms = models(names@);
        let ks = models(out@);
        assert(ms.len() == count);
        assert forall|i: int, j: int| 0 <= i < j < ks.len() implies seq_lt(ks[i], ks[j]) by {
            assert(String::model_lt(groups@[i].key.model(), groups@[j].key.model()));
        }
        assert forall|x: Seq<char>| ks.to_set().contains(x) <==> ms.to_set().contains(x) by {
            if ks.to_set().contains(x) {
                let i = choose|i: int| 0 <= i < ks.len() && ks[i] == x;
                let members = groups@[i].members@;
                assert(members == positions_of(ms, groups@[i].key.model()));
                lemma_positions_of_sound(ms, groups@[i].key.model());
                assert(members.len() > 0);
                let p = members[0] as int;
                assert(ms[p] == x);
                assert(ms.contains(x));
            }
            if ms.to_set().contains(x) {
                let k = choose|k: int| 0 <= k < ms.len() && ms[k] == x;
                let i = lemma_group_of(groups@, ms, k);
                assert(ks[i] == x);
                assert(ks.contains(x));
            }
        }
        assert(ks.to_set() =~= ms.to_set());
    }
    out
}

/// A strictly ascending list has as many elements as its set.
pub proof fn lemma_ascending_set_len(ks: Seq<Seq<char>>)
    requires
        strictly_ascending(ks),
    ensures
        ks.to_set().len() == ks.len(),
{
    assert forall|i: int, j: int| 0 <= i < ks.len() && 0 <= j < ks.len() && i != j implies ks[i] != ks[j] by {
        if i < j {
            String::lemma_model_order(ks[i], ks[i], ks[i]);
        } else {
            String::lemma_model_order(ks[j], ks[j], ks[j]);
        }
    }
    assert(ks.no_duplicates());
    ks.unique_seq_to_set();
}

/// Number of distinct values among `names`.
pub fn distinct_count(names: &Vec<String>) -> (n: usize)
    ensures
        n == models(names@).to_set().len(),
{
    let out = distinct_sorted(names);
    proof {
        lemma_ascending_set_len(models(out@));
    }
    out.len()
}

// ---------------------------------------------------------------------------
// Whole-log statistics
// ---------------------------------------------------------------------------

/// The status codes of `entries`, in order.
pub open spec fn entry_statuses(entries: Seq<Entry>) -> Seq<u16> {
    entries.map_values(|e: Entry| e.response.status)
}

/// The response MIME types of `entries`, in order.
pub open spec fn entry_mime_types(entries: Seq<Entry>) -> Seq<Seq<char>> {
    entries.map_values(|e: Entry| e.response.content.mime_type@)
}

/// The request methods of `entries`, in order.
pub open spec fn entry_methods(entries: Seq<Entry>) -> Seq<Seq<char>> {
    entries.map_values(|e: Entry| e.request.method@)
}

/// The domains of `entries`, in order.
pub open spec fn entry_domains(entries: Seq<Entry>) -> Seq<Seq<char>> {
    entries.map_values(|e: Entry| entry_domain(e))
}

/// `times` holds the times of `entries`, each once, in some order.
pub open spec fn rearranges_times(times: Seq<Millis>, entries: Seq<Entry>) -> bool {
    exists|ord: Seq<usize>|
        is_rearrangement(ord, entries.len()) && times == ord.map_values(
            |k: usize| entries[k as int].time,
        )
}

/// `times` is the times of `entries` sorted in ascending numeric order
/// (as sorting by `f64::partial_cmp` orders them).
pub open spec fn is_sorted_times(times: Seq<Millis>, entries: Seq<Entry>) -> bool {
    &&& rearranges_times(times, entries)
    &&& forall|i: int, j: int|
        0 <= i < j < times.len() ==> times[i].numeric_key() <= times[j].numeric_key()
}

/// Computed statistics for an entire HAR log.
#[derive(Debug, Clone)]
pub struct Stats {
    /// Total number of entries.
    pub total_entries: usize,
    /// Sum of all response content sizes in bytes.
    pub total_bytes: u64,
    /// The entry times, ascending; the averages and percentiles are
    /// computed from these.
    pub sorted_times: Vec<Millis>,
    /// Fastest request time in milliseconds.
    pub min_time_ms: Millis,
    /// Slowest request time in milliseconds.
    pub max_time_ms: Millis,
    /// Distribution of HTTP status codes: code and count, ascending.
    pub status_distribution: Vec<StatusCount>,
    /// Distribution of MIME types: type and count, ascending.
    pub content_type_distribution: Vec<NameCount>,
    /// Distribution of HTTP methods: method and count, ascending.
    pub method_distribution: Vec<NameCount>,
    /// Number of unique domains contacted.
    pub unique_domains: usize,
}

/// The times of `entries` sorted ascending by numeric value.
pub fn sorted_times(entries: &[Entry]) -> (times: Vec<Millis>)
    ensures
        is_sorted_times(times@, entries@),
{
    let mut keys: Vec<i128> = Vec::new();
    let mut i: usize = 0;
    while i < entries.len()
        invariant
            i <= entries@.len(),
            keys@.len() == i,
            forall|k: int| 0 <= k < i ==> #[trigger] keys@[k] == entries@[k].time.numeric_key(),
        decreases entries@.len() - i,
    {
        keys.push(entries[i].time.numeric_key_of());
        i += 1;
    }
    let order = stable_order(&keys, false);
    let ghost ms = models(keys@);
    assert forall|k: int| 0 <= k < ms.len() implies #[trigger] ms[k] == keys@[k] by {
    }
    let mut times: Vec<Millis> = Vec::new();
    let mut j: usize = 0;
    while j < order.len()
        invariant
            j <= order@.len(),
            order@.len() == entries@.len(),
            forall|q: int| 0 <= q < order@.len() ==> #[trigger] order@[q] < entries@.len(),
            times@.len() == j,
            forall|q: int| 0 <= q < j ==> #[trigger] times@[q] == entries@[order@[q] as int].time,
        decreases order@.len() - j,
    {
        times.push(entries[order[j]].time);
        j += 1;
    }
    proof {
        assert(times@ =~= order@.map_values(|k: usize| entries@[k as int].time));
        assert(is_rearrangement(order@, entries@.len()));
        assert(rearranges_times(times@, entries@));
        assert forall|a: int, b: int| 0 <= a < b < times@.len() implies times@[a].numeric_key() <= times@[b].numeric_key() by {
            assert(crate::order::comes_before(
                |x, y| i128::model_lt(x, y),
                ms,
                false,
                order@[a] as int,
                order@[b] as int,
            ));
            assert(ms[order@[a] as int] == keys@[order@[a] as int]);
            assert(ms[order@[b] as int] == keys@[order@[b] as int]);
        }
    }
    times
}

/// `stats` are the statistics of `entries`.
pub open spec fn describes(stats: Stats, entries: Seq<Entry>) -> bool {
    &&& stats.total_entries == entries.len()
    &&& stats.total_bytes == total_content(entries)
    &&& is_sorted_times(stats.sorted_times@, entries)
    &&& entries.len() == 0 ==> stats.min_time_ms.bits == 0 && stats.max_time_ms.bits == 0
    &&& entries.len() > 0 ==> stats.min_time_ms == stats.sorted_times@[0]
        && stats.max_time_ms == stats.sorted_times@.last()
    &&& is_status_distribution(stats.status_distribution@, entry_statuses(entries))
    &&& is_name_distribution(stats.content_type_distribution@, entry_mime_types(entries))
    &&& is_name_distribution(stats.method_distribution@, entry_methods(entries))
    &&& stats.unique_domains == entry_domains(entries).to_set().len()
}

/// Compute aggregate statistics from a HAR log.
///
/// The sum of the response content sizes must fit in 64 bits.
pub fn compute(log: &Log) -> (stats: Stats)
    requires
        total_content(log.entries@) <= u64::MAX,
    ensures
        describes(stats, log.entries@),
{
    let entries = log.entries.as_slice();
    let total_entries = entries.len();
    let total_bytes = total_content_size(entries);
    let times = sorted_times(entries);

    let mut statuses: Vec<u16> = Vec::new();
    let mut mimes: Vec<String> = Vec::new();
    let mut methods: Vec<String> = Vec::new();
    let mut domains: Vec<String> = Vec::new();
    let mut i: usize = 0;
    while i < entries.len()
        invariant
            i <= entries@.len(),
            entries@ == log.entries@,
            statuses@.len() == i,
            mimes@.len() == i,
            methods@.len() == i,
            domains@.len() == i,
            forall|k: int| 0 <= k < i ==> #[trigger] statuses@[k] == entries@[k].response.status,
            forall|k: int| 0 <= k < i ==> (#[trigger] mimes@[k])@ == entries@[k].response.content.mime_type@,
            forall|k: int| 0 <= k < i ==> (#[trigger] methods@[k])@ == entries@[k].request.method@,
            forall|k: int| 0 <= k < i ==> (#[trigger] domains@[k])@ == entry_domain(entries@[k]),
        decreases entries@.len() - i,
    {
        let e = &entries[i];
        statuses.push(e.response.status);
        mimes.push(copy_str(e.response.content.mime_type.as_str()));
        methods.push(copy_str(e.request.method.as_str()));
        domains.push(extract_domain(e));
        i += 1;
    }
    assert(statuses@ =~= entry_statuses(entries@));
    assert(models(mimes@) =~= entry_mime_types(entries@));
    assert(models(methods@) =~= entry_methods(entries@));
    assert(models(domains@) =~= entry_domains(entries@));

    let status_distribution = status_distribution(&statuses);
    let content_type_distribution = name_distribution(&mimes);
    let method_distribution = name_distribution(&methods);
    let unique_domains = distinct_count(&domains);

    let (min_time_ms, max_time_ms) = if times.len() == 0 {
        (Millis::zero(), Millis::zero())
    } else {
        (times[0], times[times.len() - 1])
    };
    proof {
        let ord = choose|ord: Seq<usize>|
            is_rearrangement(ord, entries@.len()) && times@ == ord.map_values(
                |k: usize| entries@[k as int].time,
            );
        assert(times@.len() == entries@.len());
    }
    Stats {
        total_entries,
        total_bytes,
        sorted_times: times,
        min_time_ms,
        max_time_ms,
        status_distribution,
        content_type_distribution,
        method_distribution,
        unique_domains,
    }
}

} // verus!

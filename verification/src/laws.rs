//! Properties of the library as a whole: what holds of every input, or
//! across several functions.  Each is a proof about the specifications
//! that the functions' contracts are stated in.
use vstd::prelude::*;

use crate::commands::domains::{domain_entries, is_domain_breakdown, is_summary_order, DomainSortBy, DomainSummary};
use crate::commands::endpoints::{endpoint_entries, in_domain, endpoint_of, is_endpoint_listing, summary_key, EndpointSummary};
use crate::har::stats::{describes, is_sorted_times, entry_domain, entry_domains, entry_methods, entry_mime_types, entry_statuses, has_name, has_status, is_name_distribution, is_status_distribution, occurrences, total_transfer, transfer_size, NameCount, StatusCount};
use crate::commands::inspect::{truncated, bottleneck_of, is_slowest, lemma_slowest_unique, phase_key, phase_names, phase_values, takes_part};
use crate::har::types::{Entry, Millis, Timings};
use crate::order::{
    is_rearrangement, lemma_ascending_unique, lemma_position_in, lemma_positions_of_occurs, lemma_positions_of_prefix,
    lemma_positions_of_rearranged, lemma_positions_of_suffix, pair_lt, rearranged, OrderKey,
};
use crate::har::stats::lemma_total_content_rearranged;
use crate::partition::{keys_weight, lemma_count_is_weight, lemma_partition_sum, lemma_total_ones, ones, total_upto, weight_upto};
use crate::commands::analyze::{any_instant, is_earliest_at, is_greatest, is_latest_at, is_least, is_time_range};
use crate::timestamps::{instant, is_calendar_day, law_instant_follows_text, lemma_first_difference, two_digits, zone_start};
use crate::commands::entries::{requested_filters, is_listing, is_sorting, is_stable_sorting, lemma_key_order, sorts_before, EntriesArgs, SortBy, SortDir};
use crate::har::filter::{matching_entries, no_filters, predicate_holds, PredicateModel};
use crate::sizes::{as_double, exact_limit, spacing};
use crate::wrappers::{ascii_upper_char, is_ascii_char, regex_finds, unicode_upper};
use crate::text::{eq_ignore_ascii_case, lower_char, ellipsis, fitting_chars, lemma_seq_lt_irreflexive, lower_seq, seq_lt, shortened, utf8_len, utf8_width};

verus! {

// ---------------------------------------------------------------------------
// Tallies account for every entry
// ---------------------------------------------------------------------------

/// The sum of the counts of a status distribution.
pub open spec fn status_total(d: Seq<StatusCount>) -> int
    decreases d.len(),
{
    if d.len() == 0 {
        0
    } else {
        status_total(d.drop_last()) + d.last().count
    }
}

/// The sum of the counts of a name distribution.
pub open spec fn name_total(d: Seq<NameCount>) -> int
    decreases d.len(),
{
    if d.len() == 0 {
        0
    } else {
        name_total(d.drop_last()) + d.last().count
    }
}

/// The sum of the request counts of domain summaries.
pub open spec fn domain_requests_total(s: Seq<DomainSummary>) -> int
    decreases s.len(),
{
    if s.len() == 0 {
        0
    } else {
        domain_requests_total(s.drop_last()) + s.last().request_count
    }
}

/// The sum of the byte totals of domain summaries.
pub open spec fn domain_bytes_total(s: Seq<DomainSummary>) -> int
    decreases s.len(),
{
    if s.len() == 0 {
        0
    } else {
        domain_bytes_total(s.drop_last()) + s.last().total_bytes
    }
}

/// The sum of the request counts of endpoint summaries.
pub open spec fn endpoint_requests_total(s: Seq<EndpointSummary>) -> int
    decreases s.len(),
{
    if s.len() == 0 {
        0
    } else {
        endpoint_requests_total(s.drop_last()) + s.last().count
    }
}

/// The transfer sizes of `entries`, in order.
pub open spec fn transfer_sizes(entries: Seq<Entry>) -> Seq<int> {
    entries.map_values(|e: Entry| transfer_size(e))
}

proof fn lemma_occurrences_weight<M>(ms: Seq<M>, m: M)
    ensures
        occurrences(ms, m) == weight_upto(ms, ones(ms.len()), m, ms.len()),
{
    lemma_count_is_weight(ms, m, ms.len());
    assert(ms.take(ms.len() as int) =~= ms);
}

proof fn lemma_status_keys(d: Seq<StatusCount>, codes: Seq<u16>)
    requires
        forall|i: int| 0 <= i < d.len() ==> (#[trigger] d[i]).count == occurrences(codes, d[i].status),
    ensures
        status_total(d) == keys_weight(
            codes,
            ones(codes.len()),
            d.map_values(|c: StatusCount| c.status),
            codes.len(),
        ),
    decreases d.len(),
{
    if d.len() > 0 {
        let rest = d.drop_last();
        assert forall|i: int| 0 <= i < rest.len() implies (#[trigger] rest[i]).count == occurrences(codes, rest[i].status) by {
            assert(rest[i] == d[i]);
        }
        lemma_status_keys(rest, codes);
        assert(d.map_values(|c: StatusCount| c.status).drop_last() =~= rest.map_values(|c: StatusCount| c.status));
        assert(d.last().count == occurrences(codes, d.last().status));
        lemma_occurrences_weight(codes, d.last().status);
    }
}

/// A status distribution accounts for every code exactly once: its
/// counts add up to the number of codes.
pub proof fn law_status_distribution_total(d: Seq<StatusCount>, codes: Seq<u16>)
    requires
        is_status_distribution(d, codes),
    ensures
        status_total(d) == codes.len(),
{
    let ks = d.map_values(|c: StatusCount| c.status);
    assert forall|i: int| 0 <= i < d.len() implies (#[trigger] d[i]).count == occurrences(codes, d[i].status) by {
    }
    lemma_status_keys(d, codes);
    assert(ks.no_duplicates()) by {
        assert forall|i: int, j: int| 0 <= i < ks.len() && 0 <= j < ks.len() && i != j implies ks[i] != ks[j] by {
            if i < j {
                assert(d[i].status < d[j].status);
            } else {
                assert(d[j].status < d[i].status);
            }
        }
    }
    assert forall|i: int| 0 <= i < codes.len() implies ks.contains(#[trigger] codes[i]) by {
        assert(has_status(d, codes[i]));
        let k = choose|k: int| 0 <= k < d.len() && d[k].status == codes[i];
        assert(ks[k] == codes[i]);
    }
    lemma_partition_sum(codes, ones(codes.len()), ks, codes.len());
    lemma_total_ones(codes.len(), codes.len());
}

proof fn lemma_name_keys(d: Seq<NameCount>, names: Seq<Seq<char>>)
    requires
        forall|i: int| 0 <= i < d.len() ==> (#[trigger] d[i]).count == occurrences(names, d[i].name@),
    ensures
        name_total(d) == keys_weight(
            names,
            ones(names.len()),
            d.map_values(|c: NameCount| c.name@),
            names.len(),
        ),
    decreases d.len(),
{
    if d.len() > 0 {
        let rest = d.drop_last();
        assert forall|i: int| 0 <= i < rest.len() implies (#[trigger] rest[i]).count == occurrences(names, rest[i].name@) by {
            assert(rest[i] == d[i]);
        }
        lemma_name_keys(rest, names);
        assert(d.map_values(|c: NameCount| c.name@).drop_last() =~= rest.map_values(|c: NameCount| c.name@));
        assert(d.last().count == occurrences(names, d.last().name@));
        lemma_occurrences_weight(names, d.last().name@);
    }
}

/// A name distribution accounts for every name exactly once: its counts
/// add up to the number of names.
pub proof fn law_name_distribution_total(d: Seq<NameCount>, names: Seq<Seq<char>>)
    requires
        is_name_distribution(d, names),
    ensures
        name_total(d) == names.len(),
{
    let ks = d.map_values(|c: NameCount| c.name@);
    assert forall|i: int| 0 <= i < d.len() implies (#[trigger] d[i]).count == occurrences(names, d[i].name@) by {
    }
    lemma_name_keys(d, names);
    assert(ks.no_duplicates()) by {
        assert forall|i: int, j: int| 0 <= i < ks.len() && 0 <= j < ks.len() && i != j implies ks[i] != ks[j] by {
            lemma_seq_lt_irreflexive(ks[i]);
            if i < j {
                assert(seq_lt(d[i].name@, d[j].name@));
            } else {
                assert(seq_lt(d[j].name@, d[i].name@));
            }
        }
    }
    assert forall|i: int| 0 <= i < names.len() implies ks.contains(#[trigger] names[i]) by {
        assert(has_name(d, names[i]));
        let k = choose|k: int| 0 <= k < d.len() && d[k].name@ == names[i];
        assert(ks[k] == names[i]);
    }
    lemma_partition_sum(names, ones(names.len()), ks, names.len());
    lemma_total_ones(names.len(), names.len());
}

/// Every distribution of the statistics accounts for every entry: the
/// status, content type and method counts each add up to the number of
/// entries.
pub proof fn law_stats_distributions_cover(stats: crate::har::stats::Stats, entries: Seq<Entry>)
    requires
        describes(stats, entries),
    ensures
        status_total(stats.status_distribution@) == stats.total_entries,
        name_total(stats.content_type_distribution@) == stats.total_entries,
        name_total(stats.method_distribution@) == stats.total_entries,
{
    law_status_distribution_total(stats.status_distribution@, entry_statuses(entries));
    law_name_distribution_total(stats.content_type_distribution@, entry_mime_types(entries));
    law_name_distribution_total(stats.method_distribution@, entry_methods(entries));
}

// ---------------------------------------------------------------------------
// Domain and endpoint summaries account for every entry
// ---------------------------------------------------------------------------

proof fn lemma_domain_weights(entries: Seq<Entry>, d: Seq<char>, k: nat)
    requires
        k <= entries.len(),
    ensures
        domain_entries(entries.take(k as int), d).len() == weight_upto(
            entry_domains(entries),
            ones(entries.len()),
            d,
            k,
        ),
        total_transfer(domain_entries(entries.take(k as int), d)) == weight_upto(
            entry_domains(entries),
            transfer_sizes(entries),
            d,
            k,
        ),
    decreases k,
{
    if k > 0 {
        lemma_domain_weights(entries, d, (k - 1) as nat);
        let pre = entries.take(k as int);
        assert(pre.drop_last() =~= entries.take(k - 1));
        assert(pre.last() == entries[k - 1]);
        let mine = domain_entries(entries.take(k - 1), d);
        if entry_domain(entries[k - 1]) == d {
            assert(mine.push(entries[k - 1]).drop_last() =~= mine);
        }
    }
}

proof fn lemma_total_transfer_upto(entries: Seq<Entry>, k: nat)
    requires
        k <= entries.len(),
    ensures
        total_transfer(entries.take(k as int)) == total_upto(transfer_sizes(entries), k),
    decreases k,
{
    if k > 0 {
        lemma_total_transfer_upto(entries, (k - 1) as nat);
        assert(entries.take(k as int).drop_last() =~= entries.take(k - 1));
    }
}

proof fn lemma_domain_keys(s: Seq<DomainSummary>, entries: Seq<Entry>)
    requires
        forall|i: int| 0 <= i < s.len() ==> {
            &&& (#[trigger] s[i]).request_count == domain_entries(entries, s[i].domain@).len()
            &&& s[i].total_bytes == total_transfer(domain_entries(entries, s[i].domain@))
        },
    ensures
        domain_requests_total(s) == keys_weight(
            entry_domains(entries),
            ones(entries.len()),
            s.map_values(|x: DomainSummary| x.domain@),
            entries.len(),
        ),
        domain_bytes_total(s) == keys_weight(
            entry_domains(entries),
            transfer_sizes(entries),
            s.map_values(|x: DomainSummary| x.domain@),
            entries.len(),
        ),
    decreases s.len(),
{
    if s.len() > 0 {
        let rest = s.drop_last();
        assert forall|i: int| 0 <= i < rest.len() implies {
            &&& (#[trigger] rest[i]).request_count == domain_entries(entries, rest[i].domain@).len()
            &&& rest[i].total_bytes == total_transfer(domain_entries(entries, rest[i].domain@))
        } by {
            assert(rest[i] == s[i]);
        }
        lemma_domain_keys(rest, entries);
        assert(s.map_values(|x: DomainSummary| x.domain@).drop_last() =~= rest.map_values(
            |x: DomainSummary| x.domain@,
        ));
        let last = s.last();
        assert(last == s[s.len() - 1]);
        lemma_domain_weights(entries, last.domain@, entries.len());
        assert(entries.take(entries.len() as int) =~= entries);
    }
}

/// The domain breakdown accounts for every entry exactly once: the
/// request counts add up to the number of entries, and the byte totals
/// to the log's total transfer size.
pub proof fn law_domain_breakdown_cover(s: Seq<DomainSummary>, entries: Seq<Entry>)
    requires
        is_domain_breakdown(s, entries),
    ensures
        domain_requests_total(s) == entries.len(),
        domain_bytes_total(s) == total_transfer(entries),
{
    let ks = s.map_values(|x: DomainSummary| x.domain@);
    let ms = entry_domains(entries);
    assert forall|i: int| 0 <= i < s.len() implies {
        &&& (#[trigger] s[i]).request_count == domain_entries(entries, s[i].domain@).len()
        &&& s[i].total_bytes == total_transfer(domain_entries(entries, s[i].domain@))
    } by {
        assert(crate::commands::domains::summarizes(s[i], entries));
    }
    lemma_domain_keys(s, entries);
    assert(ks.no_duplicates()) by {
        assert forall|i: int, j: int| 0 <= i < ks.len() && 0 <= j < ks.len() && i != j implies ks[i] != ks[j] by {
            lemma_seq_lt_irreflexive(ks[i]);
            if i < j {
                assert(seq_lt(s[i].domain@, s[j].domain@));
            } else {
                assert(seq_lt(s[j].domain@, s[i].domain@));
            }
        }
    }
    assert forall|i: int| 0 <= i < entries.len() implies ks.contains(#[trigger] ms[i]) by {
        assert(crate::commands::domains::has_summary(s, entry_domain(entries[i])));
        let k = choose|k: int| 0 <= k < s.len() && s[k].domain@ == entry_domain(entries[i]);
        assert(ks[k] == ms[i]);
    }
    lemma_partition_sum(ms, ones(entries.len()), ks, entries.len());
    lemma_total_ones(entries.len(), entries.len());
    lemma_partition_sum(ms, transfer_sizes(entries), ks, entries.len());
    lemma_total_transfer_upto(entries, entries.len());
    assert(entries.take(entries.len() as int) =~= entries);
}

/// The `domains` and `analyze` views of one log agree: the domains'
/// request counts add up to the analysed number of entries.
pub proof fn law_domains_agree_with_stats(
    s: Seq<DomainSummary>,
    stats: crate::har::stats::Stats,
    entries: Seq<Entry>,
)
    requires
        is_domain_breakdown(s, entries),
        describes(stats, entries),
    ensures
        domain_requests_total(s) == stats.total_entries,
{
    law_domain_breakdown_cover(s, entries);
}

proof fn lemma_endpoint_weights(entries: Seq<Entry>, key: (Seq<char>, Seq<char>), k: nat)
    requires
        k <= entries.len(),
    ensures
        endpoint_entries(entries.take(k as int), key).len() == weight_upto(
            crate::commands::endpoints::entry_endpoints(entries),
            ones(entries.len()),
            key,
            k,
        ),
    decreases k,
{
    if k > 0 {
        lemma_endpoint_weights(entries, key, (k - 1) as nat);
        let pre = entries.take(k as int);
        assert(pre.drop_last() =~= entries.take(k - 1));
        assert(pre.last() == entries[k - 1]);
    }
}

proof fn lemma_endpoint_keys(s: Seq<EndpointSummary>, entries: Seq<Entry>)
    requires
        forall|i: int| 0 <= i < s.len() ==> (#[trigger] s[i]).count == endpoint_entries(entries, summary_key(s[i])).len(),
    ensures
        endpoint_requests_total(s) == keys_weight(
            crate::commands::endpoints::entry_endpoints(entries),
            ones(entries.len()),
            s.map_values(|x: EndpointSummary| summary_key(x)),
            entries.len(),
        ),
    decreases s.len(),
{
    if s.len() > 0 {
        let rest = s.drop_last();
        assert forall|i: int| 0 <= i < rest.len() implies (#[trigger] rest[i]).count == endpoint_entries(
            entries,
            summary_key(rest[i]),
        ).len() by {
            assert(rest[i] == s[i]);
        }
        lemma_endpoint_keys(rest, entries);
        assert(s.map_values(|x: EndpointSummary| summary_key(x)).drop_last() =~= rest.map_values(
            |x: EndpointSummary| summary_key(x),
        ));
        let last = s.last();
        assert(last == s[s.len() - 1]);
        lemma_endpoint_weights(entries, summary_key(last), entries.len());
        assert(entries.take(entries.len() as int) =~= entries);
    }
}

/// The endpoint listing accounts for every request exactly once: the
/// endpoints' counts add up to the number of requests summarised.
pub proof fn law_endpoint_listing_cover(s: Seq<EndpointSummary>, entries: Seq<Entry>)
    requires
        is_endpoint_listing(s, entries),
    ensures
        endpoint_requests_total(s) == entries.len(),
{
    let ks = s.map_values(|x: EndpointSummary| summary_key(x));
    let ms = crate::commands::endpoints::entry_endpoints(entries);
    assert forall|i: int| 0 <= i < s.len() implies (#[trigger] s[i]).count == endpoint_entries(
        entries,
        summary_key(s[i]),
    ).len() by {
        assert(crate::commands::endpoints::summarizes_endpoint(s[i], entries));
    }
    lemma_endpoint_keys(s, entries);
    assert(ks.no_duplicates()) by {
        assert forall|i: int, j: int| 0 <= i < ks.len() && 0 <= j < ks.len() && i != j implies ks[i] != ks[j] by {
            lemma_seq_lt_irreflexive(ks[i].0);
            lemma_seq_lt_irreflexive(ks[i].1);
            if ks[i] == ks[j] {
                assert(s[i].count == s[j].count);
                if i < j {
                    assert(!pair_lt(ks[i], ks[j]));
                } else {
                    assert(!pair_lt(ks[j], ks[i]));
                }
            }
        }
    }
    assert forall|i: int| 0 <= i < entries.len() implies ks.contains(#[trigger] ms[i]) by {
        assert(crate::commands::endpoints::has_endpoint(s, endpoint_of(entries[i])));
        let k = choose|k: int| 0 <= k < s.len() && summary_key(s[k]) == endpoint_of(entries[i]);
        assert(ks[k] == ms[i]);
    }
    lemma_partition_sum(ms, ones(entries.len()), ks, entries.len());
    lemma_total_ones(entries.len(), entries.len());
}

/// The display order of the domain summaries is by the chosen field
/// itself, largest first: by request count, by total bytes (whatever the
/// request counts), or by average time in `f64::total_cmp` order; summaries
/// that tie keep their given order.
pub proof fn law_summary_order_descending(
    ord: Seq<usize>,
    summaries: Seq<DomainSummary>,
    by: DomainSortBy,
    avg_times: Seq<Millis>,
    i: int,
    j: int,
)
    requires
        is_summary_order(ord, summaries, by, avg_times),
        0 <= i < j < ord.len(),
    ensures
        by == DomainSortBy::Requests ==> summaries[ord[i] as int].request_count > summaries[ord[j] as int].request_count
            || (summaries[ord[i] as int].request_count == summaries[ord[j] as int].request_count && ord[i] < ord[j]),
        by == DomainSortBy::Bytes ==> summaries[ord[i] as int].total_bytes > summaries[ord[j] as int].total_bytes
            || (summaries[ord[i] as int].total_bytes == summaries[ord[j] as int].total_bytes && ord[i] < ord[j]),
        by == DomainSortBy::AvgTime ==> avg_times[ord[i] as int].total_key() > avg_times[ord[j] as int].total_key()
            || (avg_times[ord[i] as int].total_key() == avg_times[ord[j] as int].total_key() && ord[i] < ord[j]),
{
    assert(ord[i] < summaries.len() && ord[j] < summaries.len());
}

// ---------------------------------------------------------------------------
// Filtering
// ---------------------------------------------------------------------------

/// A predicate with no filter set lets every entry through.
pub proof fn law_no_filters_keep_all(entries: Seq<Entry>)
    ensures
        matching_entries(entries, no_filters()) == entries,
    decreases entries.len(),
{
    if entries.len() > 0 {
        law_no_filters_keep_all(entries.drop_last());
        assert(entries.drop_last().push(entries.last()) =~= entries);
    }
}

/// Filters combine with AND: an entry passes a predicate exactly when it
/// passes each of the predicate's filters on its own.
pub proof fn law_filters_conjoin(p: PredicateModel, e: Entry)
    ensures
        predicate_holds(p, e) == {
            &&& predicate_holds(PredicateModel { url_pattern: p.url_pattern, ..no_filters() }, e)
            &&& predicate_holds(PredicateModel { status: p.status, ..no_filters() }, e)
            &&& predicate_holds(PredicateModel { method: p.method, ..no_filters() }, e)
            &&& predicate_holds(PredicateModel { mime_type: p.mime_type, ..no_filters() }, e)
            &&& predicate_holds(PredicateModel { domain: p.domain, ..no_filters() }, e)
        },
{
}

/// For an ASCII method, the method filter as `with_method` stores it
/// (upper-cased) passes exactly the entries whose method equals it
/// ignoring ASCII case: `--filter-method post` keeps `POST`.
pub proof fn law_ascii_method_filter(e: Entry, m: Seq<char>)
    requires
        forall|i: int| 0 <= i < m.len() ==> is_ascii_char(#[trigger] m[i]),
    ensures
        predicate_holds(
            PredicateModel { method: Some(m.map_values(|c: char| ascii_upper_char(c))), ..no_filters() },
            e,
        ) == eq_ignore_ascii_case(e.request.method@, m),
{
    let u = m.map_values(|c: char| ascii_upper_char(c));
    assert forall|i: int| 0 <= i < m.len() implies lower_char(#[trigger] u[i]) == lower_char(m[i]) by {
        let c = m[i];
        if 97 <= (c as u32) && (c as u32) <= 122 {
            assert(ascii_upper_char(c) as u32 == (c as u32) - 32);
        }
    }
    assert(lower_seq(u) =~= lower_seq(m));
}

/// Lowering ASCII letters twice is lowering them once.
proof fn lemma_lower_seq_idempotent(m: Seq<char>)
    ensures
        lower_seq(lower_seq(m)) == lower_seq(m),
{
    assert forall|i: int| 0 <= i < m.len() implies #[trigger] lower_seq(lower_seq(m))[i] == lower_seq(m)[i] by {
        let c = m[i];
        if 65 <= (c as u32) && (c as u32) <= 90 {
            assert(lower_char(c) as u32 == (c as u32) + 32);
        }
    }
    assert(lower_seq(lower_seq(m)) =~= lower_seq(m));
}

/// What each builder's filter lets through.  A MIME-type or domain filter
/// made from `m` or `d` passes an entry only when its MIME type or domain
/// equals it ignoring ASCII case, whatever other filters are set, and on
/// its own passes exactly those entries; a status filter passes exactly
/// that status, and a URL filter exactly the URLs its pattern matches.
pub proof fn law_filter_builders(q: PredicateModel, e: Entry, m: Seq<char>, d: Seq<char>, s: u16, u: Seq<char>)
    ensures
        predicate_holds(PredicateModel { mime_type: Some(lower_seq(m)), ..q }, e) ==> eq_ignore_ascii_case(
            e.response.content.mime_type@,
            m,
        ),
        predicate_holds(PredicateModel { mime_type: Some(lower_seq(m)), ..no_filters() }, e)
            == eq_ignore_ascii_case(e.response.content.mime_type@, m),
        predicate_holds(PredicateModel { domain: Some(lower_seq(d)), ..q }, e) ==> eq_ignore_ascii_case(
            entry_domain(e),
            d,
        ),
        predicate_holds(PredicateModel { domain: Some(lower_seq(d)), ..no_filters() }, e) == eq_ignore_ascii_case(
            entry_domain(e),
            d,
        ),
        predicate_holds(PredicateModel { status: Some(s), ..q }, e) ==> e.response.status == s,
        predicate_holds(PredicateModel { status: Some(s), ..no_filters() }, e) == (e.response.status == s),
        predicate_holds(PredicateModel { url_pattern: Some(u), ..q }, e) ==> regex_finds(u, e.request.url@),
        predicate_holds(PredicateModel { url_pattern: Some(u), ..no_filters() }, e) == regex_finds(
            u,
            e.request.url@,
        ),
{
    lemma_lower_seq_idempotent(m);
    lemma_lower_seq_idempotent(d);
}

/// What the `entries` arguments ask of an entry, field by field.
pub open spec fn passes_arguments(args: EntriesArgs, e: Entry) -> bool {
    &&& (args.filter_url matches Some(u) ==> regex_finds(u@, e.request.url@))
    &&& (args.filter_status matches Some(s) ==> e.response.status == s)
    &&& (args.filter_method matches Some(m) ==> eq_ignore_ascii_case(e.request.method@, unicode_upper(m@)))
    &&& (args.filter_mime matches Some(m) ==> eq_ignore_ascii_case(e.response.content.mime_type@, m@))
    &&& (args.filter_domain matches Some(d) ==> eq_ignore_ascii_case(entry_domain(e), d@))
}

/// An entry that passes lies among the matching entries.
proof fn lemma_matching_complete(entries: Seq<Entry>, p: PredicateModel, k: int)
    requires
        0 <= k < entries.len(),
        predicate_holds(p, entries[k]),
    ensures
        matching_entries(entries, p).contains(entries[k]),
    decreases entries.len(),
{
    let m = matching_entries(entries, p);
    if k == entries.len() - 1 {
        assert(m[m.len() - 1] == entries[k]);
    } else {
        lemma_matching_complete(entries.drop_last(), p, k);
        let rest = matching_entries(entries.drop_last(), p);
        let j = choose|j: int| 0 <= j < rest.len() && rest[j] == entries.drop_last()[k];
        if predicate_holds(p, entries.last()) {
            assert(m[j] == rest[j]);
        }
    }
}

/// An `entries` listing honours every filter argument: each entry shown
/// meets what the arguments ask (the MIME type and domain equal to the
/// given ones ignoring ASCII case, the exact status, the method, a URL the
/// pattern matches), and when the limit does not cut the listing short,
/// every entry of the log that meets them is shown.
pub proof fn law_listing_honours_arguments(shown: Seq<Entry>, entries: Seq<Entry>, args: EntriesArgs)
    requires
        is_listing(shown, matching_entries(entries, requested_filters(args)), args),
    ensures
        forall|i: int| 0 <= i < shown.len() ==> passes_arguments(args, #[trigger] shown[i]),
        args.limit >= entries.len() ==> forall|k: int|
            0 <= k < entries.len() && passes_arguments(args, #[trigger] entries[k]) ==> shown.contains(entries[k]),
{
    let p = requested_filters(args);
    let matched = matching_entries(entries, p);
    assert forall|e: Entry| predicate_holds(p, e) == passes_arguments(args, e) by {
        if let Some(m) = args.filter_mime {
            lemma_lower_seq_idempotent(m@);
        }
        if let Some(d) = args.filter_domain {
            lemma_lower_seq_idempotent(d@);
        }
    }
    law_listing_entries_match(shown, entries, p, args);
    law_filter_sound_and_stable(entries, p);
    let sorted = choose|sorted: Seq<Entry>|
        is_sorting(sorted, matched, args.sort_by, args.sort_dir) && is_stable_sorting(
            sorted,
            matched,
            args.sort_by,
            args.sort_dir,
        ) && shown == sorted.take(
            if args.limit < sorted.len() {
                args.limit as int
            } else {
                sorted.len() as int
            },
        );
    let ord = choose|ord: Seq<usize>|
        is_rearrangement(ord, matched.len()) && sorted == ord.map_values(|k: usize| matched[k as int]);
    if args.limit >= entries.len() {
        assert(shown =~= sorted);
        assert forall|k: int| 0 <= k < entries.len() && passes_arguments(args, #[trigger] entries[k]) implies shown.contains(
            entries[k],
        ) by {
            lemma_matching_complete(entries, p, k);
            let q = choose|q: int| 0 <= q < matched.len() && matched[q] == entries[k];
            let r = lemma_position_in(ord, q);
            assert(sorted[r] == entries[k]);
        }
    }
}

/// Filtering keeps exactly the entries that pass, in log order: each kept
/// entry passes, and filtering the kept entries again changes nothing.
pub proof fn law_filter_sound_and_stable(entries: Seq<Entry>, p: PredicateModel)
    ensures
        forall|i: int| 0 <= i < matching_entries(entries, p).len() ==> predicate_holds(p, #[trigger] matching_entries(entries, p)[i]),
        matching_entries(entries, p).len() <= entries.len(),
        matching_entries(matching_entries(entries, p), p) == matching_entries(entries, p),
    decreases entries.len(),
{
    if entries.len() > 0 {
        let rest = entries.drop_last();
        law_filter_sound_and_stable(rest, p);
        let kept = matching_entries(rest, p);
        if predicate_holds(p, entries.last()) {
            let all = kept.push(entries.last());
            assert(all.drop_last() =~= kept);
            assert forall|i: int| 0 <= i < all.len() implies predicate_holds(p, #[trigger] all[i]) by {
                if i < kept.len() {
                    assert(all[i] == kept[i]);
                }
            }
        }
    }
}

proof fn lemma_lower_idempotent(d: Seq<char>)
    ensures
        lower_seq(lower_seq(d)) == lower_seq(d),
{
    assert(lower_seq(lower_seq(d)) =~= lower_seq(d));
}

/// The `entries` and `endpoints` domain filters agree: filtering entries
/// by domain `d` keeps exactly the entries that `endpoints` summarises for
/// `d`, and without a domain `endpoints` summarises every entry.
pub proof fn law_domain_filters_agree(entries: Seq<Entry>, d: Seq<char>)
    ensures
        matching_entries(entries, PredicateModel { domain: Some(lower_seq(d)), ..no_filters() }) == in_domain(
            entries,
            Some(d),
        ),
        in_domain(entries, None) == entries,
    decreases entries.len(),
{
    if entries.len() > 0 {
        law_domain_filters_agree(entries.drop_last(), d);
        lemma_lower_idempotent(d);
        assert(entries.drop_last().push(entries.last()) =~= entries);
    }
}

// ---------------------------------------------------------------------------
// Statistics
// ---------------------------------------------------------------------------

/// The fastest and slowest times bound every entry's time (in the numeric
/// order of the times).
pub proof fn law_time_bounds(stats: crate::har::stats::Stats, entries: Seq<Entry>, i: int)
    requires
        describes(stats, entries),
        0 <= i < entries.len(),
    ensures
        stats.min_time_ms.numeric_key() <= entries[i].time.numeric_key() <= stats.max_time_ms.numeric_key(),
{
    let times = stats.sorted_times@;
    let ord = choose|ord: Seq<usize>|
        crate::order::is_rearrangement(ord, entries.len()) && times == ord.map_values(
            |k: usize| entries[k as int].time,
        );
    let p = crate::order::lemma_position_in(ord, i);
    assert(times[p] == entries[i].time);
    if p > 0 {
        assert(times[0].numeric_key() <= times[p].numeric_key());
    }
    if p < times.len() - 1 {
        assert(times[p].numeric_key() <= times[times.len() - 1].numeric_key());
    }
}

/// Reordering the entries of a log does not change its statistics: what
/// describes the entries describes them in any other order, so the entry
/// count, the byte total, the sorted times, the fastest and slowest times,
/// the three distributions and the number of domains all stay as they are.
pub proof fn law_stats_order_free(stats: crate::har::stats::Stats, entries: Seq<Entry>, ord: Seq<usize>)
    requires
        describes(stats, entries),
        is_rearrangement(ord, entries.len()),
    ensures
        describes(stats, rearranged(entries, ord)),
{
    let n = entries.len();
    let moved = rearranged(entries, ord);
    lemma_total_content_rearranged(entries, ord);

    // The same times, picked out of the reordered entries.
    let times = stats.sorted_times@;
    let ord1 = choose|o: Seq<usize>|
        is_rearrangement(o, n) && times == o.map_values(|k: usize| entries[k as int].time);
    let ord2 = ord1.map_values(|x: usize| choose|p: usize| p < n && #[trigger] ord[p as int] == x);
    assert forall|q: int| 0 <= q < n implies #[trigger] ord2[q] < n && ord[ord2[q] as int] == ord1[q] by {
        assert(ord1[q] < n);
        let p = lemma_position_in(ord, ord1[q] as int);
        assert(ord[(p as usize) as int] == ord1[q]);
    }
    assert(ord2.no_duplicates()) by {
        assert forall|a: int, b: int| 0 <= a < ord2.len() && 0 <= b < ord2.len() && a != b implies ord2[a] != ord2[b] by {
            assert(ord[ord2[a] as int] == ord1[a]);
            assert(ord[ord2[b] as int] == ord1[b]);
            assert(ord1[a] != ord1[b]);
        }
    }
    assert(times =~= ord2.map_values(|k: usize| moved[k as int].time));
    assert(is_rearrangement(ord2, moved.len()));

    // Each tally counts the same values, and each value still occurs.
    let codes = entry_statuses(entries);
    assert(entry_statuses(moved) =~= rearranged(codes, ord));
    assert forall|c: u16| occurrences(entry_statuses(moved), c) == occurrences(codes, c) by {
        lemma_positions_of_rearranged(codes, ord, c);
    }
    let mimes = entry_mime_types(entries);
    assert(entry_mime_types(moved) =~= rearranged(mimes, ord));
    assert forall|t: Seq<char>| occurrences(entry_mime_types(moved), t) == occurrences(mimes, t) by {
        lemma_positions_of_rearranged(mimes, ord, t);
    }
    let methods = entry_methods(entries);
    assert(entry_methods(moved) =~= rearranged(methods, ord));
    assert forall|m: Seq<char>| occurrences(entry_methods(moved), m) == occurrences(methods, m) by {
        lemma_positions_of_rearranged(methods, ord, m);
    }
    assert forall|k: int| 0 <= k < n implies #[trigger] has_status(stats.status_distribution@, entry_statuses(moved)[k]) by {
        assert(entry_statuses(moved)[k] == codes[ord[k] as int]);
    }
    assert forall|k: int| 0 <= k < n implies #[trigger] has_name(stats.content_type_distribution@, entry_mime_types(moved)[k]) by {
        assert(entry_mime_types(moved)[k] == mimes[ord[k] as int]);
    }
    assert forall|k: int| 0 <= k < n implies #[trigger] has_name(stats.method_distribution@, entry_methods(moved)[k]) by {
        assert(entry_methods(moved)[k] == methods[ord[k] as int]);
    }

    // The same set of domains.
    let domains = entry_domains(entries);
    assert(entry_domains(moved).to_set() =~= domains.to_set()) by {
        assert forall|d: Seq<char>| entry_domains(moved).to_set().contains(d) implies domains.to_set().contains(d) by {
            let k = choose|k: int| 0 <= k < n && entry_domains(moved)[k] == d;
            assert(domains[ord[k] as int] == d);
        }
        assert forall|d: Seq<char>| domains.to_set().contains(d) implies entry_domains(moved).to_set().contains(d) by {
            let i = choose|i: int| 0 <= i < n && domains[i] == d;
            let p = lemma_position_in(ord, i);
            assert(entry_domains(moved)[p] == d);
        }
    }
}

/// A time that `t1` holds at place `i` is not below the one `t2` holds
/// there, when both are the sorted times of `entries`.
proof fn lemma_sorted_times_not_below(t1: Seq<Millis>, t2: Seq<Millis>, entries: Seq<Entry>, i: int)
    requires
        is_sorted_times(t1, entries),
        is_sorted_times(t2, entries),
        0 <= i < t1.len(),
    ensures
        t2.len() == t1.len(),
        t1[i].numeric_key() >= t2[i].numeric_key(),
{
    let o1 = choose|o: Seq<usize>|
        is_rearrangement(o, entries.len()) && t1 == o.map_values(|k: usize| entries[k as int].time);
    let o2 = choose|o: Seq<usize>|
        is_rearrangement(o, entries.len()) && t2 == o.map_values(|k: usize| entries[k as int].time);
    let v = t1[i].numeric_key();
    if v < t2[i].numeric_key() {
        let kb = entries.map_values(|e: Entry| e.time.numeric_key() <= v);
        let b1 = t1.map_values(|x: Millis| x.numeric_key() <= v);
        let b2 = t2.map_values(|x: Millis| x.numeric_key() <= v);
        assert(b1 =~= rearranged(kb, o1)) by {
            assert forall|k: int| 0 <= k < b1.len() implies b1[k] == rearranged(kb, o1)[k] by {
                assert(t1[k] == entries[o1[k] as int].time);
            }
        }
        assert(b2 =~= rearranged(kb, o2)) by {
            assert forall|k: int| 0 <= k < b2.len() implies b2[k] == rearranged(kb, o2)[k] by {
                assert(t2[k] == entries[o2[k] as int].time);
            }
        }
        lemma_positions_of_rearranged(kb, o1, true);
        lemma_positions_of_rearranged(kb, o2, true);
        assert forall|j: int| 0 <= j < i + 1 implies b1[j] == true by {
            if j < i {
                assert(t1[j].numeric_key() <= t1[i].numeric_key());
            }
        }
        lemma_positions_of_prefix(b1, true, i + 1);
        assert forall|j: int| i <= j < b2.len() implies b2[j] != true by {
            if j > i {
                assert(t2[i].numeric_key() <= t2[j].numeric_key());
            }
        }
        lemma_positions_of_suffix(b2, true, i);
    }
}

/// Two status distributions of the same codes are equal.
proof fn lemma_status_distribution_unique(d1: Seq<StatusCount>, d2: Seq<StatusCount>, codes: Seq<u16>)
    requires
        is_status_distribution(d1, codes),
        is_status_distribution(d2, codes),
    ensures
        d1 == d2,
{
    let a = d1.map_values(|c: StatusCount| c.status);
    let b = d2.map_values(|c: StatusCount| c.status);
    assert forall|x: int| 0 <= x < a.len() implies b.contains(#[trigger] a[x]) by {
        let j = lemma_positions_of_occurs(codes, d1[x].status);
        assert(has_status(d2, codes[j]));
        let q = choose|q: int| 0 <= q < d2.len() && d2[q].status == codes[j];
        assert(b[q] == a[x]);
    }
    assert forall|x: int| 0 <= x < b.len() implies a.contains(#[trigger] b[x]) by {
        let j = lemma_positions_of_occurs(codes, d2[x].status);
        assert(has_status(d1, codes[j]));
        let q = choose|q: int| 0 <= q < d1.len() && d1[q].status == codes[j];
        assert(a[q] == b[x]);
    }
    lemma_ascending_unique::<u16>(a, b);
    assert(a.len() == d1.len() && b.len() == d2.len());
    assert(a == b);
    assert(d1.len() == d2.len());
    assert forall|i: int| 0 <= i < d1.len() implies d1[i] == d2[i] by {
        assert(a[i] == b[i]);
        assert(d1[i].count == occurrences(codes, d1[i].status));
        assert(d2[i].count == occurrences(codes, d2[i].status));
    }
    assert(d1 =~= d2);
}

/// Two name distributions of the same names agree name by name and count
/// by count.
proof fn lemma_name_distribution_unique(d1: Seq<NameCount>, d2: Seq<NameCount>, names: Seq<Seq<char>>)
    requires
        is_name_distribution(d1, names),
        is_name_distribution(d2, names),
    ensures
        d1.len() == d2.len(),
        forall|i: int| 0 <= i < d1.len() ==> d1[i].name@ == d2[i].name@ && d1[i].count == d2[i].count,
{
    let a = d1.map_values(|c: NameCount| c.name@);
    let b = d2.map_values(|c: NameCount| c.name@);
    assert forall|x: int| 0 <= x < a.len() implies b.contains(#[trigger] a[x]) by {
        let j = lemma_positions_of_occurs(names, d1[x].name@);
        assert(has_name(d2, names[j]));
        let q = choose|q: int| 0 <= q < d2.len() && d2[q].name@ == names[j];
        assert(b[q] == a[x]);
    }
    assert forall|x: int| 0 <= x < b.len() implies a.contains(#[trigger] b[x]) by {
        let j = lemma_positions_of_occurs(names, d2[x].name@);
        assert(has_name(d1, names[j]));
        let q = choose|q: int| 0 <= q < d1.len() && d1[q].name@ == names[j];
        assert(a[q] == b[x]);
    }
    assert forall|x: int, y: int| 0 <= x < y < a.len() implies String::model_lt(a[x], a[y]) by {
        assert(seq_lt(d1[x].name@, d1[y].name@));
    }
    assert forall|x: int, y: int| 0 <= x < y < b.len() implies String::model_lt(b[x], b[y]) by {
        assert(seq_lt(d2[x].name@, d2[y].name@));
    }
    lemma_ascending_unique::<String>(a, b);
    assert(a.len() == d1.len() && b.len() == d2.len());
    assert forall|i: int| 0 <= i < d1.len() implies d1[i].name@ == d2[i].name@ && d1[i].count == d2[i].count by {
        assert(a[i] == b[i]);
    }
}

/// Reordering the entries of a log gives equal statistics: the same entry
/// count, byte total and number of domains, sorted times that agree place
/// by place in numeric order (so equal fastest and slowest times), the
/// same status distribution, and MIME-type and method distributions that
/// agree name by name and count by count.
pub proof fn law_stats_reordered_equal(
    s1: crate::har::stats::Stats,
    s2: crate::har::stats::Stats,
    entries: Seq<Entry>,
    ord: Seq<usize>,
)
    requires
        describes(s1, entries),
        is_rearrangement(ord, entries.len()),
        describes(s2, rearranged(entries, ord)),
    ensures
        s2.total_entries == s1.total_entries,
        s2.total_bytes == s1.total_bytes,
        s2.unique_domains == s1.unique_domains,
        s2.sorted_times@.len() == s1.sorted_times@.len(),
        forall|i: int|
            0 <= i < s1.sorted_times@.len() ==> (#[trigger] s2.sorted_times@[i]).numeric_key()
                == s1.sorted_times@[i].numeric_key(),
        s2.min_time_ms.numeric_key() == s1.min_time_ms.numeric_key(),
        s2.max_time_ms.numeric_key() == s1.max_time_ms.numeric_key(),
        s2.status_distribution@ == s1.status_distribution@,
        s2.content_type_distribution@.len() == s1.content_type_distribution@.len(),
        forall|i: int|
            0 <= i < s1.content_type_distribution@.len() ==> (#[trigger] s2.content_type_distribution@[i]).name@
                == s1.content_type_distribution@[i].name@ && s2.content_type_distribution@[i].count
                == s1.content_type_distribution@[i].count,
        s2.method_distribution@.len() == s1.method_distribution@.len(),
        forall|i: int|
            0 <= i < s1.method_distribution@.len() ==> (#[trigger] s2.method_distribution@[i]).name@
                == s1.method_distribution@[i].name@ && s2.method_distribution@[i].count
                == s1.method_distribution@[i].count,
{
    let moved = rearranged(entries, ord);
    law_stats_order_free(s1, entries, ord);
    let t1 = s1.sorted_times@;
    let t2 = s2.sorted_times@;
    assert forall|i: int| 0 <= i < t1.len() implies (#[trigger] t2[i]).numeric_key() == t1[i].numeric_key() by {
        lemma_sorted_times_not_below(t1, t2, moved, i);
        lemma_sorted_times_not_below(t2, t1, moved, i);
    }
    if t1.len() > 0 {
        lemma_sorted_times_not_below(t1, t2, moved, 0);
        assert(t2[t2.len() - 1].numeric_key() == t1[t1.len() - 1].numeric_key());
    } else {
        let o = choose|o: Seq<usize>|
            is_rearrangement(o, moved.len()) && t2 == o.map_values(|k: usize| moved[k as int].time);
    }
    lemma_status_distribution_unique(s2.status_distribution@, s1.status_distribution@, entry_statuses(moved));
    lemma_name_distribution_unique(
        s2.content_type_distribution@,
        s1.content_type_distribution@,
        entry_mime_types(moved),
    );
    lemma_name_distribution_unique(s2.method_distribution@, s1.method_distribution@, entry_methods(moved));
}

/// There are never more distinct domains than entries.
pub proof fn law_unique_domains_bounded(stats: crate::har::stats::Stats, entries: Seq<Entry>)
    requires
        describes(stats, entries),
    ensures
        stats.unique_domains <= stats.total_entries,
{
    entry_domains(entries).lemma_cardinality_of_set();
}

/// When no start time is an ISO 8601 timestamp, the earliest start time
/// (in text order) never sorts after the latest.
pub proof fn law_time_range_ordered(first: Seq<char>, last: Seq<char>, times: Seq<Seq<char>>)
    requires
        is_least(first, times),
        is_greatest(last, times),
    ensures
        !seq_lt(last, first),
{
    let i = choose|i: int| 0 <= i < times.len() && times[i] == last;
    assert(!seq_lt(times[i], first));
}

/// The earliest instant of a time range is never after its latest, and
/// each end is one definite position: at most one position is the
/// earliest and at most one the latest.
pub proof fn law_time_range_instants(ts: Seq<Seq<char>>, i: int, k: int, i2: int, k2: int)
    requires
        is_earliest_at(ts, i),
        is_latest_at(ts, k),
    ensures
        instant(ts[i])->0 <= instant(ts[k])->0,
        is_earliest_at(ts, i2) ==> i2 == i,
        is_latest_at(ts, k2) ==> k2 == k,
{
    assert(instant(ts[k]) is Some);
    if is_earliest_at(ts, i2) {
        assert(instant(ts[i2]) is Some);
        if i2 < i {
            assert(instant(ts[i])->0 < instant(ts[i2])->0);
        } else if i < i2 {
            assert(instant(ts[i2])->0 < instant(ts[i])->0);
        }
    }
    if is_latest_at(ts, k2) {
        assert(instant(ts[k2]) is Some);
        if k2 < k {
            assert(instant(ts[k2])->0 < instant(ts[k])->0);
        } else if k < k2 {
            assert(instant(ts[k])->0 < instant(ts[k2])->0);
        }
    }
}

// ---------------------------------------------------------------------------
// Listings
// ---------------------------------------------------------------------------

/// An `entries` listing shows `limit` entries, or all matching ones when
/// fewer match.
pub proof fn law_listing_length(shown: Seq<Entry>, matched: Seq<Entry>, args: EntriesArgs)
    requires
        is_listing(shown, matched, args),
    ensures
        shown.len() == if args.limit < matched.len() {
            args.limit as int
        } else {
            matched.len() as int
        },
{
    let sorted = choose|sorted: Seq<Entry>|
        is_sorting(sorted, matched, args.sort_by, args.sort_dir) && shown == sorted.take(
            if args.limit < sorted.len() {
                args.limit as int
            } else {
                sorted.len() as int
            },
        );
    let ord = choose|ord: Seq<usize>|
        crate::order::is_rearrangement(ord, matched.len()) && sorted == ord.map_values(
            |k: usize| matched[k as int],
        );
    assert(sorted.len() == matched.len());
}

/// Of two distinct positions, at most one sorts before the other.
proof fn lemma_sorts_before_asymmetric(by: SortBy, dir: SortDir, input: Seq<Entry>, x: int, y: int)
    requires
        x != y,
    ensures
        !(sorts_before(by, dir, input, x, y) && sorts_before(by, dir, input, y, x)),
{
    lemma_key_order(by, input[x], input[y]);
}

/// Two stable orders of the same entries agree on their first `i + 1`
/// positions.
proof fn lemma_stable_orders_agree(
    ord1: Seq<usize>,
    ord2: Seq<usize>,
    input: Seq<Entry>,
    by: SortBy,
    dir: SortDir,
    i: int,
)
    requires
        is_rearrangement(ord1, input.len()),
        is_rearrangement(ord2, input.len()),
        forall|a: int, b: int|
            0 <= a < b < ord1.len() ==> sorts_before(by, dir, input, ord1[a] as int, ord1[b] as int),
        forall|a: int, b: int|
            0 <= a < b < ord2.len() ==> sorts_before(by, dir, input, ord2[a] as int, ord2[b] as int),
        0 <= i < input.len(),
    ensures
        forall|k: int| 0 <= k <= i ==> ord1[k] == ord2[k],
    decreases i,
{
    if i > 0 {
        lemma_stable_orders_agree(ord1, ord2, input, by, dir, i - 1);
    }
    let x = ord1[i] as int;
    let y = ord2[i] as int;
    if x != y {
        let p = lemma_position_in(ord1, y);
        let q = lemma_position_in(ord2, x);
        if p < i {
            assert(ord1[p] == ord2[p]);
        }
        if q < i {
            assert(ord2[q] == ord1[q]);
        }
        assert(p > i && q > i);
        assert(sorts_before(by, dir, input, x, y));
        assert(sorts_before(by, dir, input, y, x));
        lemma_sorts_before_asymmetric(by, dir, input, x, y);
    }
}

/// Sorting is determined: two stable sortings of the same entries by the
/// same field and direction are the same sequence.
pub proof fn law_stable_sorting_unique(a: Seq<Entry>, b: Seq<Entry>, input: Seq<Entry>, by: SortBy, dir: SortDir)
    requires
        is_stable_sorting(a, input, by, dir),
        is_stable_sorting(b, input, by, dir),
    ensures
        a == b,
{
    let ord1 = choose|ord: Seq<usize>|
        is_rearrangement(ord, input.len()) && a == ord.map_values(|k: usize| input[k as int])
            && forall|i: int, j: int|
            0 <= i < j < ord.len() ==> sorts_before(by, dir, input, ord[i] as int, ord[j] as int);
    let ord2 = choose|ord: Seq<usize>|
        is_rearrangement(ord, input.len()) && b == ord.map_values(|k: usize| input[k as int])
            && forall|i: int, j: int|
            0 <= i < j < ord.len() ==> sorts_before(by, dir, input, ord[i] as int, ord[j] as int);
    if input.len() > 0 {
        lemma_stable_orders_agree(ord1, ord2, input, by, dir, input.len() - 1);
    }
    assert(ord1 =~= ord2);
}

/// The same matching entries and arguments always give the same listing.
pub proof fn law_listing_determined(s1: Seq<Entry>, s2: Seq<Entry>, matched: Seq<Entry>, args: EntriesArgs)
    requires
        is_listing(s1, matched, args),
        is_listing(s2, matched, args),
    ensures
        s1 == s2,
{
    let (by, dir) = (args.sort_by, args.sort_dir);
    let t1 = choose|sorted: Seq<Entry>|
        is_sorting(sorted, matched, by, dir) && is_stable_sorting(sorted, matched, by, dir) && s1 == sorted.take(
            if args.limit < sorted.len() {
                args.limit as int
            } else {
                sorted.len() as int
            },
        );
    let t2 = choose|sorted: Seq<Entry>|
        is_sorting(sorted, matched, by, dir) && is_stable_sorting(sorted, matched, by, dir) && s2 == sorted.take(
            if args.limit < sorted.len() {
                args.limit as int
            } else {
                sorted.len() as int
            },
        );
    law_stable_sorting_unique(t1, t2, matched, by, dir);
}

/// Every entry an `entries` listing shows passes the requested filters.
pub proof fn law_listing_entries_match(shown: Seq<Entry>, entries: Seq<Entry>, p: PredicateModel, args: EntriesArgs)
    requires
        is_listing(shown, matching_entries(entries, p), args),
    ensures
        forall|i: int| 0 <= i < shown.len() ==> predicate_holds(p, #[trigger] shown[i]),
{
    let matched = matching_entries(entries, p);
    law_filter_sound_and_stable(entries, p);
    let sorted = choose|sorted: Seq<Entry>|
        is_sorting(sorted, matched, args.sort_by, args.sort_dir) && shown == sorted.take(
            if args.limit < sorted.len() {
                args.limit as int
            } else {
                sorted.len() as int
            },
        );
    let ord = choose|ord: Seq<usize>|
        crate::order::is_rearrangement(ord, matched.len()) && sorted == ord.map_values(
            |k: usize| matched[k as int],
        );
    assert forall|i: int| 0 <= i < shown.len() implies predicate_holds(p, #[trigger] shown[i]) by {
        assert(shown[i] == sorted[i]);
        assert(sorted[i] == matched[ord[i] as int]);
    }
}

// ---------------------------------------------------------------------------
// Display
// ---------------------------------------------------------------------------

proof fn lemma_utf8_len_push(s: Seq<char>, c: char)
    ensures
        utf8_len(s.push(c)) == utf8_len(s) + utf8_width(c),
    decreases s.len(),
{
    if s.len() > 0 {
        lemma_utf8_len_push(s.drop_first(), c);
        assert(s.push(c).drop_first() =~= s.drop_first().push(c));
        assert(s.push(c)[0] == s[0]);
    } else {
        assert(s.push(c).drop_first() =~= Seq::<char>::empty());
        assert(utf8_len(Seq::<char>::empty()) == 0);
        assert(s.push(c)[0] == c);
    }
}

proof fn lemma_fitting_prefix(s: Seq<char>, budget: int)
    requires
        budget >= 0,
    ensures
        fitting_chars(s, budget) <= s.len(),
        utf8_len(s.take(fitting_chars(s, budget) as int)) <= budget,
    decreases s.len(),
{
    if s.len() > 0 && utf8_width(s[0]) <= budget {
        let rest = s.drop_first();
        lemma_fitting_prefix(rest, budget - utf8_width(s[0]));
        let k = fitting_chars(s, budget) as int;
        assert(s.take(k).drop_first() =~= rest.take(k - 1));
        assert(s.take(k)[0] == s[0]);
    } else {
        assert(s.take(0) =~= Seq::<char>::empty());
    }
}

/// Shortened text fits its budget: it is the text itself when that fits
/// in `limit` bytes, else a prefix of at most `keep` bytes followed by the
/// three-byte `…`; it never cuts a character in two.
pub proof fn law_shortened_fits(s: Seq<char>, limit: nat, keep: nat)
    ensures
        utf8_len(s) <= limit ==> shortened(s, limit, keep) == s,
        utf8_len(s) > limit ==> {
            let r = shortened(s, limit, keep);
            &&& r.last() == ellipsis()
            &&& r.drop_last() == s.take(r.len() - 1)
            &&& utf8_len(r) <= keep + 3
        },
{
    if utf8_len(s) > limit {
        lemma_fitting_prefix(s, keep as int);
        let pre = s.take(fitting_chars(s, keep as int) as int);
        lemma_utf8_len_push(pre, ellipsis());
        assert(pre.push(ellipsis()).drop_last() =~= pre);
    }
}

/// Truncated text keeps at most `max_len` characters of the text, and
/// ends in `…` exactly when it was cut.
pub proof fn law_truncated_fits(s: Seq<char>, max_len: nat)
    ensures
        s.len() <= max_len ==> truncated(s, max_len) == s,
        s.len() > max_len ==> {
            let r = truncated(s, max_len);
            &&& r.len() == max_len + 1
            &&& r.last() == ellipsis()
            &&& r.drop_last() == s.take(max_len as int)
        },
{
    if s.len() > max_len {
        assert(s.take(max_len as int).push(ellipsis()).drop_last() =~= s.take(max_len as int));
    }
}

/// Byte counts below 2⁵³ convert to doubles exactly, so their displayed
/// size is the count itself divided and rounded once.
pub proof fn law_small_counts_exact(n: nat)
    requires
        n < exact_limit(),
    ensures
        as_double(n) == n,
{
    assert(spacing(n) == 1);
    assert(n / 1 == n && n % 1 == 0) by (nonlinear_arith);
}

// ---------------------------------------------------------------------------
// The slowest timing phase
// ---------------------------------------------------------------------------

proof fn lemma_slowest_upto(vals: Seq<Option<Millis>>, n: nat) -> (r: Option<int>)
    requires
        n <= vals.len(),
    ensures
        r matches Some(i) ==> {
            &&& 0 <= i < n
            &&& takes_part(vals[i])
            &&& forall|j: int| 0 <= j < n && takes_part(#[trigger] vals[j]) ==> phase_key(vals[j]) <= phase_key(vals[i])
            &&& forall|j: int| i < j < n && takes_part(#[trigger] vals[j]) ==> phase_key(vals[j]) < phase_key(vals[i])
        },
        r is None ==> forall|j: int| 0 <= j < n ==> !takes_part(#[trigger] vals[j]),
    decreases n,
{
    if n == 0 {
        None
    } else {
        let prev = lemma_slowest_upto(vals, (n - 1) as nat);
        let last = n - 1;
        if takes_part(vals[last]) {
            match prev {
                Some(b) => if phase_key(vals[b]) <= phase_key(vals[last]) {
                    Some(last)
                } else {
                    Some(b)
                },
                None => Some(last),
            }
        } else {
            prev
        }
    }
}

/// The bottleneck is `unknown` exactly when no phase has a known,
/// non-negative time; otherwise it names a phase whose time no other
/// phase exceeds (the last such phase).
pub proof fn law_bottleneck_names_slowest(t: Timings)
    ensures
        bottleneck_of(t) == "unknown"@ <==> forall|j: int| 0 <= j < 7 ==> !takes_part(#[trigger] phase_values(t)[j]),
        (exists|j: int| 0 <= j < 7 && takes_part(#[trigger] phase_values(t)[j])) ==> exists|i: int|
            is_slowest(phase_values(t), i) && bottleneck_of(t) == #[trigger] phase_names()[i],
{
    let vals = phase_values(t);
    reveal_strlit("unknown");
    reveal_strlit("blocked");
    reveal_strlit("dns");
    reveal_strlit("connect");
    reveal_strlit("ssl");
    reveal_strlit("send");
    reveal_strlit("wait");
    reveal_strlit("receive");
    match lemma_slowest_upto(vals, 7) {
        Some(i) => {
            assert(is_slowest(vals, i));
            let c = choose|c: int| is_slowest(vals, c);
            lemma_slowest_unique(vals, i, c);
            assert(bottleneck_of(t) == phase_names()[i]);
            assert(phase_names()[i] != "unknown"@) by {
                assert("unknown"@[0] == 'u');
                assert(phase_names()[i][0] != 'u') by {
                    if i == 0 {
                        assert("blocked"@[0] == 'b');
                    } else if i == 1 {
                        assert("dns"@[0] == 'd');
                    } else if i == 2 {
                        assert("connect"@[0] == 'c');
                    } else if i == 3 {
                        assert("ssl"@[0] == 's');
                    } else if i == 4 {
                        assert("send"@[0] == 's');
                    } else if i == 5 {
                        assert("wait"@[0] == 'w');
                    } else {
                        assert("receive"@[0] == 'r');
                    }
                }
            }
            assert(takes_part(vals[i]));
        },
        None => {
            assert forall|c: int| !is_slowest(vals, c) by {
                if 0 <= c < 7 {
                    assert(!takes_part(vals[c]));
                }
            }
        },
    }
}


/// The time HAR records for the timing phase called `name`; `None` for a
/// name that is no phase.
pub open spec fn phase_time(t: Timings, name: Seq<char>) -> Option<Millis> {
    if name == "blocked"@ {
        t.blocked
    } else if name == "dns"@ {
        t.dns
    } else if name == "connect"@ {
        t.connect
    } else if name == "ssl"@ {
        t.ssl
    } else if name == "send"@ {
        Some(t.send)
    } else if name == "wait"@ {
        Some(t.wait)
    } else if name == "receive"@ {
        Some(t.receive)
    } else {
        None
    }
}

/// A recorded phase time counts when it is known and `>= 0.0`.
pub open spec fn recorded(v: Option<Millis>) -> bool {
    v matches Some(x) && x.is_nonnegative()
}

/// `v` is a recorded time that no recorded phase of `t` exceeds, in the
/// order of `f64::total_cmp`.
pub open spec fn no_phase_exceeds(t: Timings, v: Option<Millis>) -> bool {
    &&& recorded(v)
    &&& recorded(t.blocked) ==> t.blocked->0.total_key() <= v->0.total_key()
    &&& recorded(t.dns) ==> t.dns->0.total_key() <= v->0.total_key()
    &&& recorded(t.connect) ==> t.connect->0.total_key() <= v->0.total_key()
    &&& recorded(t.ssl) ==> t.ssl->0.total_key() <= v->0.total_key()
    &&& recorded(Some(t.send)) ==> t.send.total_key() <= v->0.total_key()
    &&& recorded(Some(t.wait)) ==> t.wait.total_key() <= v->0.total_key()
    &&& recorded(Some(t.receive)) ==> t.receive.total_key() <= v->0.total_key()
}

/// The bottleneck names the timing field with the largest known,
/// non-negative time: the field it names takes part and no field took
/// longer.  It is `unknown` exactly when no field takes part.
pub proof fn law_bottleneck_is_largest_field(t: Timings)
    ensures
        bottleneck_of(t) != "unknown"@ ==> no_phase_exceeds(t, phase_time(t, bottleneck_of(t))),
        bottleneck_of(t) == "unknown"@ <==> !recorded(t.blocked) && !recorded(t.dns) && !recorded(t.connect)
            && !recorded(t.ssl) && !recorded(Some(t.send)) && !recorded(Some(t.wait)) && !recorded(
            Some(t.receive),
        ),
{
    let vals = phase_values(t);
    law_bottleneck_names_slowest(t);
    reveal_strlit("blocked");
    reveal_strlit("dns");
    reveal_strlit("connect");
    reveal_strlit("ssl");
    reveal_strlit("send");
    reveal_strlit("wait");
    reveal_strlit("receive");
    assert(vals[0] == t.blocked && vals[1] == t.dns && vals[2] == t.connect && vals[3] == t.ssl);
    assert(vals[4] == Some(t.send) && vals[5] == Some(t.wait) && vals[6] == Some(t.receive));
    if bottleneck_of(t) != "unknown"@ {
        let i = choose|i: int| is_slowest(vals, i) && bottleneck_of(t) == #[trigger] phase_names()[i];
        assert(takes_part(vals[0]) ==> phase_key(vals[0]) <= phase_key(vals[i]));
        assert(takes_part(vals[1]) ==> phase_key(vals[1]) <= phase_key(vals[i]));
        assert(takes_part(vals[2]) ==> phase_key(vals[2]) <= phase_key(vals[i]));
        assert(takes_part(vals[3]) ==> phase_key(vals[3]) <= phase_key(vals[i]));
        assert(takes_part(vals[4]) ==> phase_key(vals[4]) <= phase_key(vals[i]));
        assert(takes_part(vals[5]) ==> phase_key(vals[5]) <= phase_key(vals[i]));
        assert(takes_part(vals[6]) ==> phase_key(vals[6]) <= phase_key(vals[i]));
        assert(phase_time(t, phase_names()[i]) == vals[i]) by {
            assert("blocked"@[0] == 'b' && "dns"@[0] == 'd' && "connect"@[0] == 'c' && "ssl"@[0] == 's');
            assert("send"@[0] == 's' && "wait"@[0] == 'w' && "receive"@[0] == 'r');
            assert("ssl"@[1] == 's' && "send"@[1] == 'e');
            if i == 0 {
                assert(phase_names()[i] == "blocked"@);
            } else if i == 1 {
                assert(phase_names()[i] == "dns"@);
                assert(phase_names()[i][0] != "blocked"@[0]);
            } else if i == 2 {
                assert(phase_names()[i] == "connect"@);
                assert(phase_names()[i][0] != "blocked"@[0]);
                assert(phase_names()[i][0] != "dns"@[0]);
            } else if i == 3 {
                assert(phase_names()[i] == "ssl"@);
                assert(phase_names()[i][0] != "blocked"@[0]);
                assert(phase_names()[i][0] != "dns"@[0]);
                assert(phase_names()[i][0] != "connect"@[0]);
            } else if i == 4 {
                assert(phase_names()[i] == "send"@);
                assert(phase_names()[i][0] != "blocked"@[0]);
                assert(phase_names()[i][0] != "dns"@[0]);
                assert(phase_names()[i][0] != "connect"@[0]);
                assert(phase_names()[i][1] != "ssl"@[1]);
            } else if i == 5 {
                assert(phase_names()[i] == "wait"@);
                assert(phase_names()[i][0] != "blocked"@[0]);
                assert(phase_names()[i][0] != "dns"@[0]);
                assert(phase_names()[i][0] != "connect"@[0]);
                assert(phase_names()[i][0] != "ssl"@[0]);
                assert(phase_names()[i][0] != "send"@[0]);
            } else {
                assert(phase_names()[i] == "receive"@);
                assert(phase_names()[i][0] != "blocked"@[0]);
                assert(phase_names()[i][0] != "dns"@[0]);
                assert(phase_names()[i][0] != "connect"@[0]);
                assert(phase_names()[i][0] != "ssl"@[0]);
                assert(phase_names()[i][0] != "send"@[0]);
                assert(phase_names()[i][0] != "wait"@[0]);
            }
        }
    } else {
        assert forall|j: int| 0 <= j < 7 implies !takes_part(#[trigger] vals[j]) by {
            if takes_part(vals[j]) {
                let i = choose|i: int| is_slowest(vals, i) && bottleneck_of(t) == #[trigger] phase_names()[i];
            }
        }
        assert(!takes_part(vals[0]) && !takes_part(vals[1]) && !takes_part(vals[2]) && !takes_part(vals[3]));
        assert(!takes_part(vals[4]) && !takes_part(vals[5]) && !takes_part(vals[6]));
    }
    if !takes_part(t.blocked) && !takes_part(t.dns) && !takes_part(t.connect) && !takes_part(t.ssl) && !takes_part(
        Some(t.send),
    ) && !takes_part(Some(t.wait)) && !takes_part(Some(t.receive)) {
        assert forall|j: int| 0 <= j < 7 implies !takes_part(#[trigger] vals[j]) by {
            if j == 0 {
            } else if j == 1 {
            } else if j == 2 {
            } else if j == 3 {
            } else if j == 4 {
            } else if j == 5 {
            } else {
            }
        }
    }
}


/// Timestamps written alike: each denotes an instant on a day of the
/// calendar and without a leap second, all have the same length, at most
/// nine fraction digits and the same zone designator.
pub open spec fn written_alike(ts: Seq<Seq<char>>) -> bool {
    forall|j: int|
        0 <= j < ts.len() ==> {
            &&& instant(#[trigger] ts[j]) is Some
            &&& is_calendar_day(ts[j])
            &&& two_digits(ts[j], 17) <= 59
            &&& ts[j].len() == ts[0].len()
            &&& zone_start(ts[j]) == zone_start(ts[0])
            &&& zone_start(ts[j]) <= 29
            &&& ts[j].skip(zone_start(ts[j])) == ts[0].skip(zone_start(ts[0]))
        }
}

/// Of two start times written alike, the one that sorts first in text
/// denotes the earlier instant.
proof fn lemma_alike_text_order(ts: Seq<Seq<char>>, j: int, i: int)
    requires
        written_alike(ts),
        0 <= j < ts.len(),
        0 <= i < ts.len(),
        seq_lt(ts[j], ts[i]),
    ensures
        instant(ts[j])->0 < instant(ts[i])->0,
{
    let a = ts[j];
    let b = ts[i];
    assert(instant(a) is Some && instant(b) is Some);
    assert(a.len() == b.len() && zone_start(a) == zone_start(b) && zone_start(a) <= 29);
    assert(a.skip(zone_start(a)) == b.skip(zone_start(b)));
    let p = zone_start(a);
    let d = lemma_first_difference(a, b);
    if d >= p {
        assert(a[d] == a.skip(p)[d - p]);
        assert(b[d] == b.skip(p)[d - p]);
    }
    assert(a[d] != b[d] && d < 29);
    law_instant_follows_text(a, b);
}

/// For start times written alike, the earliest and latest start times are
/// the first and last in text order.
pub proof fn law_time_range_alike(first: String, last: String, ts: Seq<Seq<char>>)
    requires
        is_time_range(Some(first), Some(last), ts),
        ts.len() > 0,
        written_alike(ts),
    ensures
        is_least(first@, ts),
        is_greatest(last@, ts),
{
    assert(instant(ts[0]) is Some);
    assert(any_instant(ts));
    let (i, k) = choose|i: int, k: int|
        {
            &&& is_earliest_at(ts, i)
            &&& is_latest_at(ts, k)
            &&& Some(first) matches Some(a) && a@ == ts[i]
            &&& Some(last) matches Some(b) && b@ == ts[k]
        };
    assert(ts.contains(first@) && ts.contains(last@)) by {
        assert(ts[i] == first@ && ts[k] == last@);
    }
    assert forall|j: int| 0 <= j < ts.len() implies !seq_lt(#[trigger] ts[j], first@) by {
        if seq_lt(ts[j], ts[i]) {
            lemma_alike_text_order(ts, j, i);
            assert(instant(ts[j]) is Some);
        }
    }
    assert forall|j: int| 0 <= j < ts.len() implies !seq_lt(last@, #[trigger] ts[j]) by {
        if seq_lt(ts[k], ts[j]) {
            lemma_alike_text_order(ts, k, j);
            assert(instant(ts[j]) is Some);
        }
    }
}

} // verus!

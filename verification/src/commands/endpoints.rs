//! `endpoints`: deduplicated API endpoint summary.
use vstd::prelude::*;

use crate::cli::GlobalArgs;
use crate::commands::entries::mode_for;
use crate::har::filter::pointed;
use crate::har::stats::{distinct_sorted, entry_domain, entry_domains, entry_statuses, extract_domain, is_status_distribution, status_distribution, strictly_ascending, StatusCount};
use crate::har::types::{Entry, Har};
use crate::order::{group_positions, is_grouping, lemma_group_of, lemma_positions_of_sound, lemma_select_push, models, pair_lt, positions_of, select, stable_order, Group, OrderKey, StringPair};
use crate::output::OutputMode;
use crate::text::{copy_str, eq_ignore_ascii_case, str_eq_ignore_ascii_case};
use crate::wrappers::{parse_url, url_parses, url_path};

verus! {

/// Arguments of the `endpoints` command.
#[derive(Debug, Clone)]
pub struct EndpointsArgs {
    /// Path to the .har file.
    pub file: String,
    /// Only endpoints of this domain (compared ignoring ASCII case).
    pub filter_domain: Option<String>,
}

/// A single endpoint: one method and path, with its requests.
#[derive(Debug, Clone)]
pub struct EndpointSummary {
    /// The HTTP method.
    pub method: String,
    /// The URL path (no query string).
    pub path: String,
    /// Number of requests to this endpoint.
    pub count: usize,
    /// The domains the endpoint was called on, ascending, each once.
    pub domains: Vec<String>,
    /// HTTP status code distribution: code and count, ascending.
    pub status_codes: Vec<StatusCount>,
}

/// A URL without its query string: the path of the parsed URL, or the
/// text unchanged when it does not parse.
pub open spec fn stripped_url(url: Seq<char>) -> Seq<char> {
    if url_parses(url) {
        url_path(url)
    } else {
        url
    }
}

/// Strip the query string from a URL, returning just the path.
pub fn strip_query(url: &str) -> (r: String)
    ensures
        r@ == stripped_url(url@),
{
    match parse_url(url) {
        Ok(parts) => parts.path,
        Err(_) => copy_str(url),
    }
}

/// The endpoint an entry belongs to: its method and stripped URL.
pub open spec fn endpoint_of(e: Entry) -> (Seq<char>, Seq<char>) {
    (e.request.method@, stripped_url(e.request.url@))
}

/// The endpoints of `entries`, in order.
pub open spec fn entry_endpoints(entries: Seq<Entry>) -> Seq<(Seq<char>, Seq<char>)> {
    entries.map_values(|e: Entry| endpoint_of(e))
}

/// The entries of `entries` belonging to endpoint `key`, in order.
pub open spec fn endpoint_entries(entries: Seq<Entry>, key: (Seq<char>, Seq<char>)) -> Seq<Entry>
    decreases entries.len(),
{
    if entries.len() == 0 {
        Seq::empty()
    } else if endpoint_of(entries.last()) == key {
        endpoint_entries(entries.drop_last(), key).push(entries.last())
    } else {
        endpoint_entries(entries.drop_last(), key)
    }
}

/// The key of a summary.
pub open spec fn summary_key(s: EndpointSummary) -> (Seq<char>, Seq<char>) {
    (s.method@, s.path@)
}

/// `s` is the summary of its endpoint within `entries`.
pub open spec fn summarizes_endpoint(s: EndpointSummary, entries: Seq<Entry>) -> bool {
    let mine = endpoint_entries(entries, summary_key(s));
    &&& s.count == mine.len()
    &&& s.count > 0
    &&& strictly_ascending(models(s.domains@))
    &&& models(s.domains@).to_set() == entry_domains(mine).to_set()
    &&& is_status_distribution(s.status_codes@, entry_statuses(mine))
}

/// Some summary in `summaries` is for endpoint `key`.
pub open spec fn has_endpoint(summaries: Seq<EndpointSummary>, key: (Seq<char>, Seq<char>)) -> bool {
    exists|i: int| 0 <= i < summaries.len() && summary_key(summaries[i]) == key
}

/// `summaries` holds one summary per endpoint of `entries`, most called
/// first; endpoints called equally often are ordered by method, then path.
pub open spec fn is_endpoint_listing(summaries: Seq<EndpointSummary>, entries: Seq<Entry>) -> bool {
    &&& forall|i: int| 0 <= i < summaries.len() ==> summarizes_endpoint(#[trigger] summaries[i], entries)
    &&& forall|i: int, j: int|
        #![trigger summaries[i], summaries[j]]
        0 <= i < j < summaries.len() ==> summaries[i].count > summaries[j].count || (
        summaries[i].count == summaries[j].count && pair_lt(
            summary_key(summaries[i]),
            summary_key(summaries[j]),
        ))
    &&& forall|k: int| 0 <= k < entries.len() ==> #[trigger] has_endpoint(summaries, endpoint_of(entries[k]))
}

proof fn lemma_endpoint_entries_positions(entries: Seq<Entry>, key: (Seq<char>, Seq<char>))
    requires
        entries.len() <= usize::MAX,
    ensures
        endpoint_entries(entries, key) == select(entries, positions_of(entry_endpoints(entries), key)),
    decreases entries.len(),
{
    if entries.len() > 0 {
        let rest = entries.drop_last();
        lemma_endpoint_entries_positions(rest, key);
        assert(entry_endpoints(entries).drop_last() =~= entry_endpoints(rest));
        let ps = positions_of(entry_endpoints(rest), key);
        lemma_positions_of_sound(entry_endpoints(rest), key);
        assert(select(entries, ps) =~= select(rest, ps));
        if endpoint_of(entries.last()) == key {
            assert(select(entries, ps.push((entries.len() - 1) as usize)) =~= select(entries, ps).push(entries.last()));
        }
    }
}

/// Build the summary of the endpoint whose entries sit at `members`.
fn summarize_group(items: &Vec<&Entry>, group: &Group<StringPair>) -> (s: EndpointSummary)
    requires
        group.members@ == positions_of(entry_endpoints(pointed(items@)), group.key.model()),
        group.members@.len() > 0,
    ensures
        summarizes_endpoint(s, pointed(items@)),
        summary_key(s) == group.key.model(),
        s.count == group.members@.len(),
{
    let ghost entries = pointed(items@);
    let ghost ms = entry_endpoints(entries);
    let ghost key = group.key.model();
    let members = &group.members;
    let n_items = items.len();
    proof {
        lemma_positions_of_sound(ms, key);
        lemma_endpoint_entries_positions(entries, key);
    }
    let ghost mine = endpoint_entries(entries, key);
    let mut domains: Vec<String> = Vec::new();
    let mut statuses: Vec<u16> = Vec::new();
    let mut q: usize = 0;
    while q < members.len()
        invariant
            q <= members@.len(),
            entries == pointed(items@),
            items@.len() == n_items,
            members@ == positions_of(ms, key),
            ms.len() == entries.len(),
            forall|x: int| 0 <= x < members@.len() ==> (#[trigger] members@[x]) < ms.len(),
            mine == select(entries, members@),
            models(domains@) == entry_domains(select(entries, members@.take(q as int))),
            statuses@ == entry_statuses(select(entries, members@.take(q as int))),
        decreases members@.len() - q,
    {
        let e: &Entry = items[members[q]];
        proof {
            lemma_select_push(entries, members@, q as int);
            assert(*e == entries[members@[q as int] as int]);
        }
        let ghost prev = select(entries, members@.take(q as int));
        let ghost prev_domains = domains@;
        let d = extract_domain(e);
        domains.push(d);
        statuses.push(e.response.status);
        proof {
            let next = select(entries, members@.take(q + 1));
            assert(next == prev.push(*e));
            assert(entry_domains(next) =~= entry_domains(prev).push(d@));
            assert(models(domains@) =~= models(prev_domains).push(d@));
            assert(statuses@ =~= entry_statuses(next));
        }
        q += 1;
    }
    proof {
        assert(members@.take(members@.len() as int) =~= members@);
    }
    let distinct = distinct_sorted(&domains);
    let status_codes = status_distribution(&statuses);
    EndpointSummary {
        method: copy_str(group.key.first.as_str()),
        path: copy_str(group.key.second.as_str()),
        count: members.len(),
        domains: distinct,
        status_codes,
    }
}

/// Group entries by method and path (query strings stripped), count
/// them, and order the endpoints by count, most called first.
pub fn build_endpoints(entries: &Vec<&Entry>) -> (summaries: Vec<EndpointSummary>)
    ensures
        is_endpoint_listing(summaries@, pointed(entries@)),
{
    let ghost items = pointed(entries@);
    let mut keys: Vec<StringPair> = Vec::new();
    let mut i: usize = 0;
    while i < entries.len()
        invariant
            i <= entries@.len(),
            items == pointed(entries@),
            keys@.len() == i,
            forall|k: int| 0 <= k < i ==> (#[trigger] keys@[k]).model() == endpoint_of(items[k]),
        decreases entries@.len() - i,
    {
        let e: &Entry = entries[i];
        let key = StringPair { first: copy_str(e.request.method.as_str()), second: strip_query(e.request.url.as_str()) };
        keys.push(key);
        i += 1;
    }
    assert(models(keys@) =~= entry_endpoints(items));
    let groups = group_positions(&keys);
    let ghost ms = entry_endpoints(items);

    let mut counts: Vec<usize> = Vec::new();
    let mut g: usize = 0;
    while g < groups.len()
        invariant
            g <= groups@.len(),
            counts@.len() == g,
            forall|k: int| 0 <= k < g ==> #[trigger] counts@[k] == groups@[k].members@.len(),
        decreases groups@.len() - g,
    {
        counts.push(groups[g].members.len());
        g += 1;
    }
    let ord = stable_order(&counts, true);

    let mut summaries: Vec<EndpointSummary> = Vec::new();
    let mut o: usize = 0;
    while o < ord.len()
        invariant
            o <= ord@.len(),
            items == pointed(entries@),
            ms == entry_endpoints(items),
            is_grouping(groups@, ms),
            counts@.len() == groups@.len(),
            forall|k: int| 0 <= k < groups@.len() ==> #[trigger] counts@[k] == groups@[k].members@.len(),
            crate::order::is_stable_order(|a, b| usize::model_lt(a, b), models(counts@), true, ord@),
            summaries@.len() == o,
            forall|q: int| 0 <= q < o ==> summarizes_endpoint(#[trigger] summaries@[q], items),
            forall|q: int| 0 <= q < o ==> summary_key(#[trigger] summaries@[q]) == groups@[ord@[q] as int].key.model(),
            forall|q: int| 0 <= q < o ==> (#[trigger] summaries@[q]).count == groups@[ord@[q] as int].members@.len(),
        decreases ord@.len() - o,
    {
        let gi = ord[o];
        proof {
            assert(groups@[gi as int].members@ == positions_of(ms, groups@[gi as int].key.model()));
            assert(groups@[gi as int].members@.len() > 0);
        }
        let s = summarize_group(entries, &groups[gi]);
        summaries.push(s);
        o += 1;
    }
    proof {
        let cs = models(counts@);
        assert forall|i: int, j: int|
            #![trigger summaries@[i], summaries@[j]]
            0 <= i < j < summaries@.len() implies summaries@[i].count > summaries@[j].count || (
            summaries@[i].count == summaries@[j].count && pair_lt(
                summary_key(summaries@[i]),
                summary_key(summaries@[j]),
            )) by {
            let x = ord@[i] as int;
            let y = ord@[j] as int;
            assert(crate::order::comes_before(|a, b| usize::model_lt(a, b), cs, true, x, y));
            assert(cs[x] == counts@[x] && cs[y] == counts@[y]);
            assert(summaries@[i].count == groups@[x].members@.len());
            assert(summaries@[j].count == groups@[y].members@.len());
            if x < y {
                assert(StringPair::model_lt(groups@[x].key.model(), groups@[y].key.model()));
            }
        }
        assert forall|k: int| 0 <= k < items.len() implies #[trigger] has_endpoint(summaries@, endpoint_of(items[k])) by {
            let gi = lemma_group_of(groups@, ms, k);
            // The group sits somewhere in the order.
            assert(ord@.len() == groups@.len());
            assert(forall|q: int| 0 <= q < ord@.len() ==> #[trigger] ord@[q] < groups@.len());
            let pos = crate::order::lemma_position_in(ord@, gi);
            assert(summary_key(summaries@[pos]) == groups@[gi].key.model());
        }
    }
    summaries
}

} // verus!

verus! {

/// The entries of `entries` whose domain equals `domain` ignoring ASCII
/// case, in log order; all of them when there is no domain.
pub open spec fn in_domain(entries: Seq<Entry>, domain: Option<Seq<char>>) -> Seq<Entry>
    decreases entries.len(),
{
    if entries.len() == 0 {
        Seq::empty()
    } else {
        let rest = in_domain(entries.drop_last(), domain);
        match domain {
            Some(d) => if eq_ignore_ascii_case(entry_domain(entries.last()), d) {
                rest.push(entries.last())
            } else {
                rest
            },
            None => rest.push(entries.last()),
        }
    }
}

/// The domain filter the arguments ask for.
pub open spec fn requested_domain(args: EndpointsArgs) -> Option<Seq<char>> {
    match args.filter_domain {
        Some(d) => Some(d@),
        None => None,
    }
}

/// What the `endpoints` command shows.
#[derive(Debug, Clone)]
pub struct EndpointsReport {
    /// Table or JSON.
    pub mode: OutputMode,
    /// One summary per endpoint, most called first.
    pub summaries: Vec<EndpointSummary>,
    /// Number of requests the summaries cover.
    pub requests: usize,
}

/// The entries of `entries` on the domain `domain` (ignoring ASCII
/// case), or all of them.
pub fn select_domain<'a>(entries: &'a [Entry], domain: &Option<String>) -> (r: Vec<&'a Entry>)
    ensures
        pointed(r@) == in_domain(
            entries@,
            match domain {
                Some(d) => Some(d@),
                None => None,
            },
        ),
{
    let ghost wanted = match domain {
        Some(d) => Some(d@),
        None => None,
    };
    let mut r: Vec<&'a Entry> = Vec::new();
    let mut i: usize = 0;
    while i < entries.len()
        invariant
            i <= entries@.len(),
            wanted == (match domain {
                Some(d) => Some(d@),
                None => None,
            }),
            pointed(r@) == in_domain(entries@.take(i as int), wanted),
        decreases entries@.len() - i,
    {
        let ghost before = r@;
        assert(entries@.take(i + 1).drop_last() =~= entries@.take(i as int));
        assert(entries@.take(i + 1).last() == entries@[i as int]);
        let keep = match domain {
            Some(d) => str_eq_ignore_ascii_case(extract_domain(&entries[i]).as_str(), d.as_str()),
            None => true,
        };
        if keep {
            r.push(&entries[i]);
            assert(pointed(r@) =~= pointed(before).push(entries@[i as int]));
        }
        i += 1;
    }
    assert(entries@.take(entries@.len() as int) =~= entries@);
    r
}

/// Run the `endpoints` command on a loaded HAR: keep the requested
/// domain's entries and summarise them per endpoint.
pub fn run(args: &EndpointsArgs, global: &GlobalArgs, har: &Har) -> (r: EndpointsReport)
    ensures
        r.mode == mode_for(global.json),
        r.requests == in_domain(har.log.entries@, requested_domain(*args)).len(),
        is_endpoint_listing(r.summaries@, in_domain(har.log.entries@, requested_domain(*args))),
{
    let mode = OutputMode::from_args(global.json);
    let entries = select_domain(har.log.entries.as_slice(), &args.filter_domain);
    let summaries = build_endpoints(&entries);
    EndpointsReport { mode, summaries, requests: entries.len() }
}

} // verus!

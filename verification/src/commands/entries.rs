//! `entries`: list and filter individual HAR entries.
use vstd::prelude::*;

use crate::cli::GlobalArgs;
use crate::har::filter::{filter_entries, matching_entries, pointed, EntryPredicate, PredicateModel};
use crate::har::stats::{entry_domain, extract_domain, response_size, transfer_size, transfer_size_exact};
use crate::har::types::{Entry, Har};
use crate::order::{comes_before, is_rearrangement, models, stable_order, OrderKey};
use crate::output::OutputMode;
use crate::text::{append_str, copy_str, decimal, lower_seq, push_decimal, seq_lt};
use crate::wrappers::{parse_url, push_char, regex_compiles, unicode_upper, url_parses, url_path, url_query};

verus! {

/// Arguments of the `entries` command.
#[derive(Debug, Clone)]
pub struct EntriesArgs {
    /// Path to the .har file.
    pub file: String,
    /// Keep entries whose URL matches this regex pattern.
    pub filter_url: Option<String>,
    /// Keep entries with exactly this HTTP status code.
    pub filter_status: Option<u16>,
    /// Keep entries with this HTTP method.
    pub filter_method: Option<String>,
    /// Keep entries with this response MIME type.
    pub filter_mime: Option<String>,
    /// Keep entries of this domain (exact host match).
    pub filter_domain: Option<String>,
    /// Sort results by this field.
    pub sort_by: SortBy,
    /// Sort direction.
    pub sort_dir: SortDir,
    /// Maximum number of entries to display.
    pub limit: usize,
    /// Include response body text in JSON output.
    pub include_body: bool,
}

/// Fields available for sorting entries.
#[derive(Debug, Clone, Copy, PartialEq, Eq, Structural)]
pub enum SortBy {
    /// Sort by total elapsed time.
    Time,
    /// Sort by total transfer size.
    Size,
    /// Sort by HTTP status code.
    Status,
    /// Sort by request URL.
    Url,
}

/// Sort direction.
#[derive(Debug, Clone, Copy, PartialEq, Eq, Structural)]
pub enum SortDir {
    /// Ascending order.
    Asc,
    /// Descending order.
    Desc,
}

/// `a` sorts strictly before `b` by the field `by`.
pub open spec fn key_lt(by: SortBy, a: Entry, b: Entry) -> bool {
    match by {
        SortBy::Time => a.time.numeric_key() < b.time.numeric_key(),
        SortBy::Size => transfer_size(a) < transfer_size(b),
        SortBy::Status => a.response.status < b.response.status,
        SortBy::Url => seq_lt(a.request.url@, b.request.url@),
    }
}

/// `a` and `b` have the same key for the field `by`.
pub open spec fn same_key(by: SortBy, a: Entry, b: Entry) -> bool {
    match by {
        SortBy::Time => a.time.numeric_key() == b.time.numeric_key(),
        SortBy::Size => transfer_size(a) == transfer_size(b),
        SortBy::Status => a.response.status == b.response.status,
        SortBy::Url => a.request.url@ == b.request.url@,
    }
}

/// Of two keys for the field `by`, at most one sorts before the other,
/// neither does when they are the same, and one does when they differ.
pub proof fn lemma_key_order(by: SortBy, a: Entry, b: Entry)
    ensures
        !(key_lt(by, a, b) && key_lt(by, b, a)),
        same_key(by, a, b) ==> !key_lt(by, a, b) && !key_lt(by, b, a),
        same_key(by, a, b) || key_lt(by, a, b) || key_lt(by, b, a),
        same_key(by, a, b) == same_key(by, b, a),
{
    if by == SortBy::Url {
        let (x, y) = (a.request.url@, b.request.url@);
        <String as OrderKey>::lemma_model_order(x, y, x);
        <String as OrderKey>::lemma_model_order(y, x, y);
    }
}

/// Position `x` of `input` comes before position `y` once `input` is
/// sorted stably by `by` in direction `dir`: by key, and, among equal
/// keys, by position.
pub open spec fn sorts_before(by: SortBy, dir: SortDir, input: Seq<Entry>, x: int, y: int) -> bool {
    if dir == SortDir::Desc {
        key_lt(by, input[y], input[x]) || (same_key(by, input[x], input[y]) && x < y)
    } else {
        key_lt(by, input[x], input[y]) || (same_key(by, input[x], input[y]) && x < y)
    }
}

/// `out` is `input` sorted stably by `by` in direction `dir`: ordered by
/// key, with entries of equal keys in their order in `input`.
pub open spec fn is_stable_sorting(out: Seq<Entry>, input: Seq<Entry>, by: SortBy, dir: SortDir) -> bool {
    exists|ord: Seq<usize>|
        is_rearrangement(ord, input.len()) && out == ord.map_values(|k: usize| input[k as int])
            && forall|i: int, j: int|
            0 <= i < j < ord.len() ==> sorts_before(by, dir, input, ord[i] as int, ord[j] as int)
}

/// `s` is ordered by `by` in direction `dir` (equal keys in any order).
pub open spec fn is_sorted_by(s: Seq<Entry>, by: SortBy, dir: SortDir) -> bool {
    forall|i: int, j: int|
        0 <= i < j < s.len() ==> (if dir == SortDir::Desc {
            !key_lt(by, s[i], s[j])
        } else {
            !key_lt(by, s[j], s[i])
        })
}

/// `out` holds the elements of `input`, each once, in some order.
pub open spec fn rearranges(out: Seq<Entry>, input: Seq<Entry>) -> bool {
    exists|ord: Seq<usize>|
        is_rearrangement(ord, input.len()) && out == ord.map_values(|k: usize| input[k as int])
}

/// `out` is `input` sorted by `by` in direction `dir`.
pub open spec fn is_sorting(out: Seq<Entry>, input: Seq<Entry>, by: SortBy, dir: SortDir) -> bool {
    rearranges(out, input) && is_sorted_by(out, by, dir)
}

/// `items` rearranged into the order `ord`.
fn arrange<'a>(items: &Vec<&'a Entry>, ord: &Vec<usize>) -> (out: Vec<&'a Entry>)
    requires
        is_rearrangement(ord@, items@.len()),
    ensures
        pointed(out@) == ord@.map_values(|k: usize| pointed(items@)[k as int]),
{
    let mut out: Vec<&'a Entry> = Vec::new();
    let mut q: usize = 0;
    while q < ord.len()
        invariant
            q <= ord@.len(),
            is_rearrangement(ord@, items@.len()),
            out@.len() == q,
            forall|r: int| 0 <= r < q ==> *(#[trigger] out@[r]) == *items@[ord@[r] as int],
        decreases ord@.len() - q,
    {
        out.push(items[ord[q]]);
        q += 1;
    }
    assert(pointed(out@) =~= ord@.map_values(|k: usize| pointed(items@)[k as int]));
    out
}

/// Sort entry references by `by` in direction `dir`.
pub fn sort_entries<'a>(entries: &mut Vec<&'a Entry>, by: SortBy, dir: SortDir)
    ensures
        is_sorting(pointed(final(entries)@), pointed(old(entries)@), by, dir),
        is_stable_sorting(pointed(final(entries)@), pointed(old(entries)@), by, dir),
{
    let descending = dir == SortDir::Desc;
    let n = entries.len();
    let ghost input = pointed(entries@);
    let ord: Vec<usize> = match by {
        SortBy::Time => {
            let mut keys: Vec<i128> = Vec::new();
            let mut i: usize = 0;
            while i < n
                invariant
                    i <= n,
                    n == entries@.len(),
                    input == pointed(entries@),
                    by == SortBy::Time,
                    descending == (dir == SortDir::Desc),
                    keys@.len() == i,
                    forall|k: int| 0 <= k < i ==> #[trigger] keys@[k] == entries@[k].time.numeric_key(),
                decreases n - i,
            {
                keys.push(entries[i].time.numeric_key_of());
                i += 1;
            }
            let ord = stable_order(&keys, descending);
            proof {
                let ms = models(keys@);
                assert forall|i: int, j: int| 0 <= i < j < ord@.len() implies sorts_before(
                    by,
                    dir,
                    input,
                    ord@[i] as int,
                    ord@[j] as int,
                ) by {
                    let x = ord@[i] as int;
                    let y = ord@[j] as int;
                    assert(comes_before(|a, b| i128::model_lt(a, b), ms, descending, x, y));
                    assert(ms[x] == keys@[x].model() && ms[y] == keys@[y].model());
                    assert(keys@[x] == input[x].time.numeric_key());
                    assert(keys@[y] == input[y].time.numeric_key());
                }
            }
            ord
        },
        SortBy::Size => {
            let mut keys: Vec<u128> = Vec::new();
            let mut i: usize = 0;
            while i < n
                invariant
                    i <= n,
                    n == entries@.len(),
                    input == pointed(entries@),
                    by == SortBy::Size,
                    descending == (dir == SortDir::Desc),
                    keys@.len() == i,
                    forall|k: int| 0 <= k < i ==> #[trigger] keys@[k] == transfer_size(*entries@[k]),
                decreases n - i,
            {
                keys.push(transfer_size_exact(entries[i]));
                i += 1;
            }
            let ord = stable_order(&keys, descending);
            proof {
                let ms = models(keys@);
                assert forall|i: int, j: int| 0 <= i < j < ord@.len() implies sorts_before(
                    by,
                    dir,
                    input,
                    ord@[i] as int,
                    ord@[j] as int,
                ) by {
                    let x = ord@[i] as int;
                    let y = ord@[j] as int;
                    assert(comes_before(|a, b| u128::model_lt(a, b), ms, descending, x, y));
                    assert(ms[x] == keys@[x].model() && ms[y] == keys@[y].model());
                    assert(keys@[x] == transfer_size(input[x]));
                    assert(keys@[y] == transfer_size(input[y]));
                }
            }
            ord
        },
        SortBy::Status => {
            let mut keys: Vec<u16> = Vec::new();
            let mut i: usize = 0;
            while i < n
                invariant
                    i <= n,
                    n == entries@.len(),
                    input == pointed(entries@),
                    by == SortBy::Status,
                    descending == (dir == SortDir::Desc),
                    keys@.len() == i,
                    forall|k: int| 0 <= k < i ==> #[trigger] keys@[k] == entries@[k].response.status,
                decreases n - i,
            {
                keys.push(entries[i].response.status);
                i += 1;
            }
            let ord = stable_order(&keys, descending);
            proof {
                let ms = models(keys@);
                assert forall|i: int, j: int| 0 <= i < j < ord@.len() implies sorts_before(
                    by,
                    dir,
                    input,
                    ord@[i] as int,
                    ord@[j] as int,
                ) by {
                    let x = ord@[i] as int;
                    let y = ord@[j] as int;
                    assert(comes_before(|a, b| u16::model_lt(a, b), ms, descending, x, y));
                    assert(ms[x] == keys@[x].model() && ms[y] == keys@[y].model());
                    assert(keys@[x] == input[x].response.status);
                    assert(keys@[y] == input[y].response.status);
                }
            }
            ord
        },
        SortBy::Url => {
            let mut keys: Vec<String> = Vec::new();
            let mut i: usize = 0;
            while i < n
                invariant
                    i <= n,
                    n == entries@.len(),
                    input == pointed(entries@),
                    by == SortBy::Url,
                    descending == (dir == SortDir::Desc),
                    keys@.len() == i,
                    forall|k: int| 0 <= k < i ==> (#[trigger] keys@[k])@ == entries@[k].request.url@,
                decreases n - i,
            {
                keys.push(copy_str(entries[i].request.url.as_str()));
                i += 1;
            }
            let ord = stable_order(&keys, descending);
            proof {
                let ms = models(keys@);
                assert forall|i: int, j: int| 0 <= i < j < ord@.len() implies sorts_before(
                    by,
                    dir,
                    input,
                    ord@[i] as int,
                    ord@[j] as int,
                ) by {
                    let x = ord@[i] as int;
                    let y = ord@[j] as int;
                    assert(comes_before(|a, b| String::model_lt(a, b), ms, descending, x, y));
                    assert(ms[x] == keys@[x].model() && ms[y] == keys@[y].model());
                    assert(keys@[x]@ == input[x].request.url@);
                    assert(keys@[y]@ == input[y].request.url@);
                }
            }
            ord
        },
    };
    let sorted = arrange(entries, &ord);
    proof {
        let out = pointed(sorted@);
        assert(is_rearrangement(ord@, input.len()));
        assert(out == ord@.map_values(|k: usize| input[k as int]));
        assert(rearranges(out, input));
        assert(is_stable_sorting(out, input, by, dir));
        assert forall|i: int, j: int| 0 <= i < j < out.len() implies (if dir == SortDir::Desc {
            !key_lt(by, out[i], out[j])
        } else {
            !key_lt(by, out[j], out[i])
        }) by {
            assert(out[i] == input[ord@[i] as int]);
            assert(out[j] == input[ord@[j] as int]);
            assert(sorts_before(by, dir, input, ord@[i] as int, ord@[j] as int));
            lemma_key_order(by, out[i], out[j]);
        }
    }
    *entries = sorted;
}

// ---------------------------------------------------------------------------
// The command
// ---------------------------------------------------------------------------

/// Why the `entries` command produced no listing.
#[derive(Debug)]
pub enum EntriesError {
    /// The `--filter-url` pattern is not a valid regex.
    InvalidUrlPattern(regex::Error),
    /// No entry passed the filters.
    NoResults,
}

/// What the `entries` command shows.
#[derive(Debug, Clone)]
pub struct EntriesReport<'a> {
    /// Table or JSON lines.
    pub mode: OutputMode,
    /// The entries to show, sorted and limited.
    pub entries: Vec<&'a Entry>,
    /// Number of entries in the log.
    pub total: usize,
}

/// The output mode `from_args` picks for a `--json` flag.
pub open spec fn mode_for(json_flag: bool) -> OutputMode {
    if json_flag {
        OutputMode::Json
    } else {
        OutputMode::Human
    }
}

/// The filters the arguments ask for.
pub open spec fn requested_filters(args: EntriesArgs) -> PredicateModel {
    PredicateModel {
        url_pattern: match args.filter_url {
            Some(p) => Some(p@),
            None => None,
        },
        status: args.filter_status,
        method: match args.filter_method {
            Some(m) => Some(unicode_upper(m@)),
            None => None,
        },
        mime_type: match args.filter_mime {
            Some(m) => Some(lower_seq(m@)),
            None => None,
        },
        domain: match args.filter_domain {
            Some(d) => Some(lower_seq(d@)),
            None => None,
        },
    }
}

/// The `--filter-url` pattern, if any, is a valid regex.
pub open spec fn url_pattern_valid(args: EntriesArgs) -> bool {
    args.filter_url matches Some(p) ==> regex_compiles(p@)
}

/// `shown` is the first `limit` entries of a sorting of `matched`.
pub open spec fn is_listing(shown: Seq<Entry>, matched: Seq<Entry>, args: EntriesArgs) -> bool {
    exists|sorted: Seq<Entry>|
        is_sorting(sorted, matched, args.sort_by, args.sort_dir) && is_stable_sorting(
            sorted,
            matched,
            args.sort_by,
            args.sort_dir,
        ) && shown == sorted.take(
            if args.limit < sorted.len() {
                args.limit as int
            } else {
                sorted.len() as int
            },
        )
}

/// Build the entry predicate the arguments ask for.
pub fn requested_predicate(args: &EntriesArgs) -> (r: Result<EntryPredicate, regex::Error>)
    ensures
        r is Ok <==> url_pattern_valid(*args),
        r matches Ok(p) ==> p@ == requested_filters(*args),
{
    let mut predicate = EntryPredicate::new();
    if let Some(pattern) = &args.filter_url {
        match predicate.with_url_pattern(pattern.as_str()) {
            Ok(p) => {
                predicate = p;
            },
            Err(e) => {
                return Err(e);
            },
        }
    }
    if let Some(status) = args.filter_status {
        predicate = predicate.with_status(status);
    }
    if let Some(method) = &args.filter_method {
        predicate = predicate.with_method(method.as_str());
    }
    if let Some(mime) = &args.filter_mime {
        predicate = predicate.with_mime_type(mime.as_str());
    }
    if let Some(domain) = &args.filter_domain {
        predicate = predicate.with_domain(domain.as_str());
    }
    Ok(predicate)
}

/// Run the `entries` command on a loaded HAR: filter, sort, limit.
///
/// # Errors
///
/// `InvalidUrlPattern` if the URL filter is not a valid regex,
/// `NoResults` if no entry passes the filters.
pub fn run<'a>(args: &EntriesArgs, global: &GlobalArgs, har: &'a Har) -> (r: Result<EntriesReport<'a>, EntriesError>)
    ensures
        r matches Err(EntriesError::InvalidUrlPattern(_)) <==> !url_pattern_valid(*args),
        r matches Err(EntriesError::NoResults) <==> url_pattern_valid(*args) && matching_entries(
            har.log.entries@,
            requested_filters(*args),
        ).len() == 0,
        r matches Ok(report) ==> {
            &&& report.mode == mode_for(global.json)
            &&& report.total == har.log.entries@.len()
            &&& is_listing(
                pointed(report.entries@),
                matching_entries(har.log.entries@, requested_filters(*args)),
                *args,
            )
        },
{
    let mode = OutputMode::from_args(global.json);
    let predicate = match requested_predicate(args) {
        Ok(p) => p,
        Err(e) => {
            return Err(EntriesError::InvalidUrlPattern(e));
        },
    };
    let mut matched = filter_entries(har.log.entries.as_slice(), &predicate);
    if matched.len() == 0 {
        return Err(EntriesError::NoResults);
    }
    let ghost unsorted = pointed(matched@);
    sort_entries(&mut matched, args.sort_by, args.sort_dir);
    let ghost sorted = pointed(matched@);
    matched.truncate(args.limit);
    proof {
        let shown = pointed(matched@);
        let k = if args.limit < sorted.len() { args.limit as int } else { sorted.len() as int };
        assert(shown =~= sorted.take(k));
        assert(is_listing(shown, unsorted, *args));
    }
    Ok(EntriesReport { mode, entries: matched, total: har.log.entries.len() })
}

// ---------------------------------------------------------------------------
// Display helpers
// ---------------------------------------------------------------------------

/// The path of a URL with its query string, if any (`/a/b?x=1`); the text
/// unchanged when it does not parse as a URL.
pub open spec fn path_of_url(url: Seq<char>) -> Seq<char> {
    if url_parses(url) {
        match url_query(url) {
            Some(q) => url_path(url) + seq!['?'] + q,
            None => url_path(url),
        }
    } else {
        url
    }
}

/// Extract the path portion of a URL.
pub fn extract_path(url: &str) -> (r: String)
    ensures
        r@ == path_of_url(url@),
{
    match parse_url(url) {
        Ok(parts) => {
            let mut path = parts.path;
            match parts.query {
                Some(q) => {
                    push_char(&mut path, '?');
                    append_str(&mut path, q.as_str());
                    path
                },
                None => path,
            }
        },
        Err(_) => copy_str(url),
    }
}

/// The mark shown before a status code: success, redirect, client error,
/// or anything else.
pub open spec fn status_mark(code: u16) -> char {
    if 200 <= code <= 299 {
        '\u{2713}'
    } else if 300 <= code <= 399 {
        '\u{2192}'
    } else if 400 <= code <= 499 {
        '\u{2717}'
    } else {
        '!'
    }
}

/// Format a status code with its category mark (`✓ 200`).
pub fn format_status(code: u16) -> (r: String)
    ensures
        r@ == seq![status_mark(code), ' '] + decimal(code as nat),
{
    let mark = if 200 <= code && code <= 299 {
        '\u{2713}'
    } else if 300 <= code && code <= 399 {
        '\u{2192}'
    } else if 400 <= code && code <= 499 {
        '\u{2717}'
    } else {
        '!'
    };
    let mut r = String::new();
    push_char(&mut r, mark);
    push_char(&mut r, ' ');
    push_decimal(&mut r, code as u128);
    assert(r@ =~= seq![status_mark(code), ' '] + decimal(code as nat));
    r
}

/// The fields computed for a listed entry.
#[derive(Debug, Clone)]
pub struct EntryComputed {
    /// Total transfer size (request + response headers and bodies).
    pub total_bytes: u64,
    /// Domain extracted from the request URL.
    pub domain: String,
    /// Response content type shortcut.
    pub content_type: String,
}

/// The derived fields of a listed entry.  Its transfer size must fit in
/// 64 bits.
pub fn entry_computed(entry: &Entry) -> (c: EntryComputed)
    requires
        transfer_size(*entry) <= u64::MAX,
    ensures
        c.total_bytes == transfer_size(*entry),
        c.domain@ == entry_domain(*entry),
        c.content_type@ == entry.response.content.mime_type@,
{
    EntryComputed {
        total_bytes: response_size(entry),
        domain: extract_domain(entry),
        content_type: copy_str(entry.response.content.mime_type.as_str()),
    }
}

} // verus!

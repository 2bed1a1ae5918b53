//! `inspect`: detailed view of single HAR entries.
//!
//! The library selects the entries to show and computes the derived
//! fields (transfer size, domain, content type, slowest timing phase);
//! laying them out as text, with their millisecond figures, is the
//! caller's part.
use vstd::prelude::*;

use crate::cli::GlobalArgs;
use crate::commands::entries::mode_for;
use crate::har::stats::{entry_domain, extract_domain, response_size, transfer_size};
use crate::har::types::{Cookie, Entry, Har, Header, Millis, PostData, QueryParam, Timings};
use crate::output::OutputMode;
use crate::sizes::{bytes_text, format_bytes};
use crate::text::{append_str, chars_of, copy_str, decimal, ellipsis, padded, push_decimal, push_padded, string_from_chars};
use crate::wrappers::{push_char, regex_compiles, regex_finds, regex_is_match, regex_new};

verus! {

/// Arguments of the `inspect` command.
#[derive(Debug, Clone)]
pub struct InspectArgs {
    /// Path to the .har file.
    pub file: String,
    /// Entry index to inspect (1-based, from the raw entries array).
    pub entry: usize,
    /// Inspect the first entry whose URL matches this regex instead.
    pub filter_url: Option<String>,
    /// With `filter_url`, inspect every matching entry.
    pub all: bool,
}

// ---------------------------------------------------------------------------
// The slowest timing phase
// ---------------------------------------------------------------------------

/// The names of the timing phases, in HAR order.
pub open spec fn phase_names() -> Seq<Seq<char>> {
    seq!["blocked"@, "dns"@, "connect"@, "ssl"@, "send"@, "wait"@, "receive"@]
}

/// The values of the timing phases of `t`, in the order of `phase_names`.
pub open spec fn phase_values(t: Timings) -> Seq<Option<Millis>> {
    seq![t.blocked, t.dns, t.connect, t.ssl, Some(t.send), Some(t.wait), Some(t.receive)]
}

/// A phase takes part when its time is known and `>= 0.0`.
pub open spec fn takes_part(v: Option<Millis>) -> bool {
    v matches Some(x) && x.is_nonnegative()
}

/// The `f64::total_cmp` position of a phase's time.
pub open spec fn phase_key(v: Option<Millis>) -> int {
    match v {
        Some(x) => x.total_key(),
        None => 0,
    }
}

/// Phase `i` is the slowest of `vals`: it takes part, no taking-part
/// phase is slower, and every later one is faster (of equally slow
/// phases, the last counts).
pub open spec fn is_slowest(vals: Seq<Option<Millis>>, i: int) -> bool {
    &&& 0 <= i < vals.len()
    &&& takes_part(vals[i])
    &&& forall|j: int| 0 <= j < vals.len() && takes_part(#[trigger] vals[j]) ==> phase_key(vals[j]) <= phase_key(vals[i])
    &&& forall|j: int| i < j < vals.len() && takes_part(#[trigger] vals[j]) ==> phase_key(vals[j]) < phase_key(vals[i])
}

/// The name of the slowest phase of `t`, or `unknown` when no phase takes
/// part.
pub open spec fn bottleneck_of(t: Timings) -> Seq<char> {
    let vals = phase_values(t);
    if exists|i: int| is_slowest(vals, i) {
        phase_names()[choose|i: int| is_slowest(vals, i)]
    } else {
        "unknown"@
    }
}

/// At most one phase is the slowest.
pub proof fn lemma_slowest_unique(vals: Seq<Option<Millis>>, i: int, k: int)
    requires
        is_slowest(vals, i),
        is_slowest(vals, k),
    ensures
        i == k,
{
    if i < k {
        assert(takes_part(vals[k]));
    } else if k < i {
        assert(takes_part(vals[i]));
    }
}

fn phase_value(t: &Timings, i: usize) -> (v: Option<Millis>)
    requires
        i < 7,
    ensures
        v == phase_values(*t)[i as int],
{
    match i {
        0 => t.blocked,
        1 => t.dns,
        2 => t.connect,
        3 => t.ssl,
        4 => Some(t.send),
        5 => Some(t.wait),
        _ => Some(t.receive),
    }
}

fn phase_name(i: usize) -> (s: String)
    requires
        i < 7,
    ensures
        s@ == phase_names()[i as int],
{
    match i {
        0 => copy_str("blocked"),
        1 => copy_str("dns"),
        2 => copy_str("connect"),
        3 => copy_str("ssl"),
        4 => copy_str("send"),
        5 => copy_str("wait"),
        _ => copy_str("receive"),
    }
}

/// Identify which timing phase is the slowest.
pub fn timing_bottleneck(t: &Timings) -> (r: String)
    ensures
        r@ == bottleneck_of(*t),
{
    let ghost vals = phase_values(*t);
    let mut best: Option<usize> = None;
    let mut best_key: i128 = 0;
    let mut i: usize = 0;
    while i < 7
        invariant
            i <= 7,
            vals == phase_values(*t),
            vals.len() == 7,
            best matches None ==> forall|j: int| 0 <= j < i ==> !takes_part(#[trigger] vals[j]),
            best matches Some(b) ==> {
                &&& b < i
                &&& takes_part(vals[b as int])
                &&& best_key == phase_key(vals[b as int])
                &&& forall|j: int| 0 <= j < i && takes_part(#[trigger] vals[j]) ==> phase_key(vals[j]) <= best_key
                &&& forall|j: int| b < j < i && takes_part(#[trigger] vals[j]) ==> phase_key(vals[j]) < best_key
            },
        decreases 7 - i,
    {
        let v = phase_value(t, i);
        if let Some(x) = v {
            if x.nonnegative() {
                let k = x.total_key_of();
                let replace = match best {
                    None => true,
                    Some(_) => best_key <= k,
                };
                if replace {
                    best = Some(i);
                    best_key = k;
                }
            }
        }
        i += 1;
    }
    match best {
        Some(b) => {
            proof {
                assert(is_slowest(vals, b as int));
                let c = choose|c: int| is_slowest(vals, c);
                lemma_slowest_unique(vals, b as int, c);
            }
            phase_name(b)
        },
        None => {
            proof {
                assert forall|c: int| !is_slowest(vals, c) by {
                    if 0 <= c < 7 {
                        assert(!takes_part(vals[c]));
                    }
                }
            }
            copy_str("unknown")
        },
    }
}

/// `s` unchanged when it has at most `max_len` characters; otherwise its
/// first `max_len` characters followed by `…`.
pub open spec fn truncated(s: Seq<char>, max_len: nat) -> Seq<char> {
    if s.len() <= max_len {
        s
    } else {
        s.take(max_len as int).push(ellipsis())
    }
}

/// Truncate a string to `max_len` characters, appending `…` if shortened.
pub fn truncate(s: &str, max_len: usize) -> (r: String)
    ensures
        r@ == truncated(s@, max_len as nat),
{
    let v = chars_of(s);
    if v.len() <= max_len {
        return string_from_chars(&v, 0, v.len());
    }
    let mut r = string_from_chars(&v, 0, max_len);
    push_char(&mut r, '\u{2026}');
    assert(v@.subrange(0, max_len as int) =~= v@.take(max_len as int));
    r
}

// ---------------------------------------------------------------------------
// Derived fields
// ---------------------------------------------------------------------------

/// The fields computed for an inspected entry.
#[derive(Debug, Clone)]
pub struct InspectComputed {
    /// Total transfer size in bytes.
    pub total_bytes: u64,
    /// Domain extracted from the URL.
    pub domain: String,
    /// Shortcut to the response content type.
    pub content_type: String,
    /// The slowest timing phase (e.g. `wait`, `receive`).
    pub bottleneck: String,
}

/// The derived fields of an entry.  Its transfer size must fit in 64
/// bits.
pub fn computed_fields(entry: &Entry) -> (c: InspectComputed)
    requires
        transfer_size(*entry) <= u64::MAX,
    ensures
        c.total_bytes == transfer_size(*entry),
        c.domain@ == entry_domain(*entry),
        c.content_type@ == entry.response.content.mime_type@,
        c.bottleneck@ == bottleneck_of(entry.timings),
{
    InspectComputed {
        total_bytes: response_size(entry),
        domain: extract_domain(entry),
        content_type: copy_str(entry.response.content.mime_type.as_str()),
        bottleneck: timing_bottleneck(&entry.timings),
    }
}

// ---------------------------------------------------------------------------
// The command
// ---------------------------------------------------------------------------

/// Why the `inspect` command has nothing to show.
#[derive(Debug)]
pub enum InspectError {
    /// The `--filter-url` pattern is not a valid regex.
    InvalidUrlPattern(regex::Error),
    /// No entry's URL matches the `--filter-url` pattern.
    NoMatch,
    /// The `--entry` index is not between 1 and the number of entries.
    IndexOutOfRange {
        /// The requested index.
        index: usize,
        /// The number of entries in the file.
        count: usize,
    },
}

/// An entry picked for display, with its 1-based position in the log.
#[derive(Debug, Clone)]
pub struct Inspected<'a> {
    /// The 1-based index of the entry in the log.
    pub index: usize,
    /// The entry.
    pub entry: &'a Entry,
}

/// What the `inspect` command shows.
#[derive(Debug, Clone)]
pub struct InspectReport<'a> {
    /// Text or JSON.
    pub mode: OutputMode,
    /// The entries to show.
    pub selected: Vec<Inspected<'a>>,
    /// The number the display counts against ("entry 3 of 8"): the
    /// number of matches when filtering, else the number of entries.
    pub total: usize,
}

/// The 0-based positions of the entries whose URL `pattern` matches,
/// ascending.
pub open spec fn url_match_positions(entries: Seq<Entry>, pattern: Seq<char>) -> Seq<int>
    decreases entries.len(),
{
    if entries.len() == 0 {
        Seq::empty()
    } else {
        let rest = url_match_positions(entries.drop_last(), pattern);
        if regex_finds(pattern, entries.last().request.url@) {
            rest.push(entries.len() - 1)
        } else {
            rest
        }
    }
}

/// The selected entries as (1-based index, entry) pairs.
pub open spec fn selection(selected: Seq<Inspected>) -> Seq<(int, Entry)> {
    selected.map_values(|s: Inspected| (s.index as int, *s.entry))
}

/// The entries at `positions`, paired with their 1-based indices.
pub open spec fn at_positions(entries: Seq<Entry>, positions: Seq<int>) -> Seq<(int, Entry)> {
    positions.map_values(|p: int| (p + 1, entries[p]))
}

/// The entries whose URL matches `pattern`, with their 1-based indices,
/// in log order.
pub fn url_matches<'a>(entries: &'a [Entry], pattern: &str) -> (r: Vec<Inspected<'a>>)
    requires
        regex_compiles(pattern@),
    ensures
        selection(r@) == at_positions(entries@, url_match_positions(entries@, pattern@)),
{
    let mut r: Vec<Inspected<'a>> = Vec::new();
    let mut i: usize = 0;
    while i < entries.len()
        invariant
            i <= entries@.len(),
            regex_compiles(pattern@),
            selection(r@) == at_positions(entries@, url_match_positions(entries@.take(i as int), pattern@)),
        decreases entries@.len() - i,
    {
        let ghost before = r@;
        let ghost ps = url_match_positions(entries@.take(i as int), pattern@);
        assert(entries@.take(i + 1).drop_last() =~= entries@.take(i as int));
        assert(entries@.take(i + 1).last() == entries@[i as int]);
        if regex_is_match(pattern, entries[i].request.url.as_str()) {
            r.push(Inspected { index: i + 1, entry: &entries[i] });
            assert(selection(r@) =~= selection(before).push((i + 1, entries@[i as int])));
            assert(at_positions(entries@, ps.push(i as int)) =~= at_positions(entries@, ps).push((i + 1, entries@[i as int])));
        }
        i += 1;
    }
    assert(entries@.take(entries@.len() as int) =~= entries@);
    r
}

/// Run the `inspect` command on a loaded HAR: pick the entries to show.
///
/// # Errors
///
/// `InvalidUrlPattern` if `--filter-url` is not a valid regex, `NoMatch`
/// if it matches no URL, `IndexOutOfRange` if `--entry` is not between 1
/// and the number of entries.
pub fn run<'a>(args: &InspectArgs, global: &GlobalArgs, har: &'a Har) -> (r: Result<InspectReport<'a>, InspectError>)
    ensures
        match args.filter_url {
            Some(p) => {
                let found = url_match_positions(har.log.entries@, p@);
                &&& (r matches Err(InspectError::InvalidUrlPattern(_))) <==> !regex_compiles(p@)
                &&& (r matches Err(InspectError::NoMatch)) <==> regex_compiles(p@) && found.len() == 0
                &&& !(r matches Err(InspectError::IndexOutOfRange { .. }))
                &&& r matches Ok(report) ==> {
                    &&& report.mode == mode_for(global.json)
                    &&& report.total == found.len()
                    &&& selection(report.selected@) == if args.all {
                        at_positions(har.log.entries@, found)
                    } else {
                        at_positions(har.log.entries@, found.take(1))
                    }
                }
            },
            None => {
                let n = har.log.entries@.len();
                &&& (r matches Err(e) ==> e == (InspectError::IndexOutOfRange { index: args.entry, count: n as usize }))
                &&& r is Err <==> args.entry < 1 || args.entry > n
                &&& r matches Ok(report) ==> {
                    &&& report.mode == mode_for(global.json)
                    &&& report.total == n
                    &&& selection(report.selected@) == seq![(args.entry as int, har.log.entries@[args.entry - 1])]
                }
            },
        },
{
    let mode = OutputMode::from_args(global.json);
    let entries = har.log.entries.as_slice();
    match &args.filter_url {
        Some(pattern) => {
            match regex_new(pattern.as_str()) {
                Ok(()) => {},
                Err(e) => {
                    return Err(InspectError::InvalidUrlPattern(e));
                },
            }
            let mut found = url_matches(entries, pattern.as_str());
            assert(selection(found@).len() == found@.len());
            if found.len() == 0 {
                return Err(InspectError::NoMatch);
            }
            let total = found.len();
            if !args.all {
                let ghost whole = found@;
                found.truncate(1);
                assert(selection(found@) =~= selection(whole).take(1));
            }
            Ok(InspectReport { mode, selected: found, total })
        },
        None => {
            let idx = args.entry;
            if idx < 1 || idx > entries.len() {
                return Err(InspectError::IndexOutOfRange { index: idx, count: entries.len() });
            }
            let mut selected: Vec<Inspected<'a>> = Vec::new();
            selected.push(Inspected { index: idx, entry: &entries[idx - 1] });
            assert(selection(selected@) =~= seq![(idx as int, entries@[idx - 1])]);
            Ok(InspectReport { mode, selected, total: entries.len() })
        },
    }
}

// ---------------------------------------------------------------------------
// Request and response sections of the text view
// ---------------------------------------------------------------------------

/// A name-value line: the name padded to 20 characters.
pub open spec fn field_line(name: Seq<char>, value: Seq<char>) -> Seq<char> {
    "  "@ + padded(name, 20) + " "@ + value + "\n"@
}

/// A cookie line: `name = value`.
pub open spec fn cookie_line(name: Seq<char>, value: Seq<char>) -> Seq<char> {
    "  "@ + name + " = "@ + value + "\n"@
}

/// One line per header.
pub open spec fn header_lines(hs: Seq<Header>) -> Seq<char>
    decreases hs.len(),
{
    if hs.len() == 0 {
        Seq::empty()
    } else {
        header_lines(hs.drop_last()) + field_line(hs.last().name@, hs.last().value@)
    }
}

/// One line per query parameter.
pub open spec fn query_lines(qs: Seq<QueryParam>) -> Seq<char>
    decreases qs.len(),
{
    if qs.len() == 0 {
        Seq::empty()
    } else {
        query_lines(qs.drop_last()) + field_line(qs.last().name@, qs.last().value@)
    }
}

/// One line per cookie.
pub open spec fn cookie_lines(cs: Seq<Cookie>) -> Seq<char>
    decreases cs.len(),
{
    if cs.len() == 0 {
        Seq::empty()
    } else {
        cookie_lines(cs.drop_last()) + cookie_line(cs.last().name@, cs.last().value@)
    }
}

/// A titled list, followed by a blank line; nothing when the list is
/// empty.
pub open spec fn titled(title: Seq<char>, count: nat, lines: Seq<char>) -> Seq<char> {
    if count > 0 {
        title + lines + "\n"@
    } else {
        Seq::empty()
    }
}

/// The request section of the text view of `e`: the request line, the
/// headers, cookies and query parameters, and the start of the body.
pub open spec fn request_text(e: Entry) -> Seq<char> {
    let r = e.request;
    "\u{2500}\u{2500} Request \u{2500}\u{2500}\n"@ + r.method@ + " "@ + r.url@ + " "@ + r.http_version@ + "\n\n"@
        + titled("Headers:\n"@, r.headers@.len(), header_lines(r.headers@))
        + titled("Cookies:\n"@, r.cookies@.len(), cookie_lines(r.cookies@))
        + titled("Query String:\n"@, r.query_string@.len(), query_lines(r.query_string@))
        + post_text(r.post_data)
}

/// The response section of the text view of `e`: the status line, the
/// headers and cookies, the content size and type, the start of the
/// body and the redirect target.
pub open spec fn response_text(e: Entry) -> Seq<char> {
    let r = e.response;
    "\u{2500}\u{2500} Response \u{2500}\u{2500}\n"@ + decimal(r.status as nat) + " "@ + r.status_text@ + " "@
        + r.http_version@ + "\n\n"@
        + titled("Headers:\n"@, r.headers@.len(), header_lines(r.headers@))
        + titled("Cookies:\n"@, r.cookies@.len(), cookie_lines(r.cookies@))
        + "Content: "@ + bytes_text(r.content.size) + "  "@ + r.content.mime_type@ + "\n"@
        + match r.content.text {
        Some(t) => "Body preview: "@ + truncated(t@, 300) + "\n"@,
        None => Seq::empty(),
    } + if r.redirect_url@.len() > 0 {
        "Redirect \u{2192} "@ + r.redirect_url@ + "\n"@
    } else {
        Seq::empty()
    } + "\n"@
}

fn push_header_lines(out: &mut String, hs: &Vec<Header>)
    ensures
        final(out)@ == old(out)@ + header_lines(hs@),
{
    let mut i: usize = 0;
    while i < hs.len()
        invariant
            i <= hs@.len(),
            out@ == old(out)@ + header_lines(hs@.take(i as int)),
        decreases hs@.len() - i,
    {
        let ghost before = out@;
        append_str(out, "  ");
        push_padded(out, hs[i].name.as_str(), 20);
        append_str(out, " ");
        append_str(out, hs[i].value.as_str());
        append_str(out, "\n");
        proof {
            let pre = hs@.take(i + 1);
            assert(pre.drop_last() =~= hs@.take(i as int));
            assert(pre.last() == hs@[i as int]);
            assert(out@ =~= before + field_line(hs@[i as int].name@, hs@[i as int].value@));
            assert(out@ =~= old(out)@ + header_lines(pre));
        }
        i += 1;
    }
    assert(hs@.take(hs@.len() as int) =~= hs@);
}

fn push_query_lines(out: &mut String, qs: &Vec<QueryParam>)
    ensures
        final(out)@ == old(out)@ + query_lines(qs@),
{
    let mut i: usize = 0;
    while i < qs.len()
        invariant
            i <= qs@.len(),
            out@ == old(out)@ + query_lines(qs@.take(i as int)),
        decreases qs@.len() - i,
    {
        let ghost before = out@;
        append_str(out, "  ");
        push_padded(out, qs[i].name.as_str(), 20);
        append_str(out, " ");
        append_str(out, qs[i].value.as_str());
        append_str(out, "\n");
        proof {
            let pre = qs@.take(i + 1);
            assert(pre.drop_last() =~= qs@.take(i as int));
            assert(pre.last() == qs@[i as int]);
            assert(out@ =~= before + field_line(qs@[i as int].name@, qs@[i as int].value@));
            assert(out@ =~= old(out)@ + query_lines(pre));
        }
        i += 1;
    }
    assert(qs@.take(qs@.len() as int) =~= qs@);
}

fn push_cookie_lines(out: &mut String, cs: &Vec<Cookie>)
    ensures
        final(out)@ == old(out)@ + cookie_lines(cs@),
{
    let mut i: usize = 0;
    while i < cs.len()
        invariant
            i <= cs@.len(),
            out@ == old(out)@ + cookie_lines(cs@.take(i as int)),
        decreases cs@.len() - i,
    {
        let ghost before = out@;
        append_str(out, "  ");
        append_str(out, cs[i].name.as_str());
        append_str(out, " = ");
        append_str(out, cs[i].value.as_str());
        append_str(out, "\n");
        proof {
            let pre = cs@.take(i + 1);
            assert(pre.drop_last() =~= cs@.take(i as int));
            assert(pre.last() == cs@[i as int]);
            assert(out@ =~= before + cookie_line(cs@[i as int].name@, cs@[i as int].value@));
            assert(out@ =~= old(out)@ + cookie_lines(pre));
        }
        i += 1;
    }
    assert(cs@.take(cs@.len() as int) =~= cs@);
}

fn push_headers_block(out: &mut String, hs: &Vec<Header>)
    ensures
        final(out)@ == old(out)@ + titled("Headers:\n"@, hs@.len(), header_lines(hs@)),
{
    if hs.len() > 0 {
        append_str(out, "Headers:\n");
        push_header_lines(out, hs);
        append_str(out, "\n");
    }
    assert(out@ =~= old(out)@ + titled("Headers:\n"@, hs@.len(), header_lines(hs@)));
}

fn push_cookies_block(out: &mut String, cs: &Vec<Cookie>)
    ensures
        final(out)@ == old(out)@ + titled("Cookies:\n"@, cs@.len(), cookie_lines(cs@)),
{
    if cs.len() > 0 {
        append_str(out, "Cookies:\n");
        push_cookie_lines(out, cs);
        append_str(out, "\n");
    }
    assert(out@ =~= old(out)@ + titled("Cookies:\n"@, cs@.len(), cookie_lines(cs@)));
}

fn push_query_block(out: &mut String, qs: &Vec<QueryParam>)
    ensures
        final(out)@ == old(out)@ + titled("Query String:\n"@, qs@.len(), query_lines(qs@)),
{
    if qs.len() > 0 {
        append_str(out, "Query String:\n");
        push_query_lines(out, qs);
        append_str(out, "\n");
    }
    assert(out@ =~= old(out)@ + titled("Query String:\n"@, qs@.len(), query_lines(qs@)));
}

/// The body line of a request's POST data, if any.
pub open spec fn post_text(post: Option<PostData>) -> Seq<char> {
    match post {
        Some(p) => "Body: "@ + p.mime_type@ + " "@ + truncated(p.text@, 500) + "\n\n"@,
        None => Seq::empty(),
    }
}

fn push_post_block(out: &mut String, post: &Option<PostData>)
    ensures
        final(out)@ == old(out)@ + post_text(*post),
{
    if let Some(p) = post {
        append_str(out, "Body: ");
        append_str(out, p.mime_type.as_str());
        append_str(out, " ");
        let body = truncate(p.text.as_str(), 500);
        append_str(out, body.as_str());
        append_str(out, "\n\n");
    }
    assert(out@ =~= old(out)@ + post_text(*post));
}

/// Render the request section: method, URL, headers, cookies, query, body.
pub fn request_section(entry: &Entry) -> (out: String)
    ensures
        out@ == request_text(*entry),
{
    let r = &entry.request;
    let mut out = copy_str("\u{2500}\u{2500} Request \u{2500}\u{2500}\n");
    append_str(&mut out, r.method.as_str());
    append_str(&mut out, " ");
    append_str(&mut out, r.url.as_str());
    append_str(&mut out, " ");
    append_str(&mut out, r.http_version.as_str());
    append_str(&mut out, "\n\n");
    push_headers_block(&mut out, &r.headers);
    push_cookies_block(&mut out, &r.cookies);
    push_query_block(&mut out, &r.query_string);
    push_post_block(&mut out, &r.post_data);
    assert(out@ =~= request_text(*entry));
    out
}

/// Render the response section: status, headers, cookies, content, body
/// preview, redirect.
pub fn response_section(entry: &Entry) -> (out: String)
    ensures
        out@ == response_text(*entry),
{
    let r = &entry.response;
    let mut out = copy_str("\u{2500}\u{2500} Response \u{2500}\u{2500}\n");
    push_decimal(&mut out, r.status as u128);
    append_str(&mut out, " ");
    append_str(&mut out, r.status_text.as_str());
    append_str(&mut out, " ");
    append_str(&mut out, r.http_version.as_str());
    append_str(&mut out, "\n\n");
    push_headers_block(&mut out, &r.headers);
    push_cookies_block(&mut out, &r.cookies);
    append_str(&mut out, "Content: ");
    let size = format_bytes(r.content.size);
    append_str(&mut out, size.as_str());
    append_str(&mut out, "  ");
    append_str(&mut out, r.content.mime_type.as_str());
    append_str(&mut out, "\n");
    if let Some(text) = &r.content.text {
        append_str(&mut out, "Body preview: ");
        let preview = truncate(text.as_str(), 300);
        append_str(&mut out, preview.as_str());
        append_str(&mut out, "\n");
    }
    if !r.redirect_url.as_str().is_empty() {
        append_str(&mut out, "Redirect \u{2192} ");
        append_str(&mut out, r.redirect_url.as_str());
        append_str(&mut out, "\n");
    }
    append_str(&mut out, "\n");
    assert(out@ =~= response_text(*entry));
    out
}

} // verus!

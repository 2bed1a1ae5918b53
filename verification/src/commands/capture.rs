//! `capture`: pairing of live browser network events into entries.
//!
//! Talking to the browser (launching or connecting, navigating, reading
//! the event streams, fetching bodies) is the caller's part.  The library
//! decides how the browser is to be started, which events are kept, and
//! how responses are paired with their requests.
use vstd::prelude::*;

use crate::text::{append_str, copy_str, decimal, push_decimal, shorten, shortened, utf8_len};
use crate::wrappers::{regex_compiles, regex_finds, regex_is_match, regex_new};

verus! {

/// Arguments of the `capture` command.
#[derive(Debug, Clone)]
pub struct CaptureArgs {
    /// Target URL to capture network traffic from.
    pub url: Option<String>,
    /// Maximum capture duration in seconds.
    pub timeout: u64,
    /// Show the browser window instead of running headless.
    pub no_headless: bool,
    /// Only capture requests whose URL matches this regex.
    pub filter_url: Option<String>,
    /// Fetch and include response body text in output.
    pub include_body: bool,
    /// Path to the browser executable.
    pub chrome: Option<String>,
    /// Path to a browser user data directory.
    pub user_data_dir: Option<String>,
    /// Name of a browser profile to use.
    pub profile: Option<String>,
    /// Keep capturing until interrupted.
    pub watch: bool,
    /// Remote debugging URL of an already-running browser.
    pub connect: Option<String>,
    /// Remote debugging port to start the browser with.
    pub debugging_port: Option<u16>,
}

// ---------------------------------------------------------------------------
// How to start
// ---------------------------------------------------------------------------

/// How the browser is to be started when the command launches one.
#[derive(Debug, Clone)]
pub struct LaunchPlan {
    /// Run without a window.
    pub headless: bool,
    /// Browser executable to run, if not auto-detected.
    pub chrome: Option<String>,
    /// User data directory to use.
    pub user_data_dir: Option<String>,
    /// Profile name whose user data directory is to be discovered.
    pub profile: Option<String>,
    /// Extra command-line argument for the browser.
    pub extra_arg: Option<String>,
    /// Window width in pixels.
    pub window_width: u32,
    /// Window height in pixels.
    pub window_height: u32,
}

/// Where the captured traffic comes from.
#[derive(Debug, Clone)]
pub enum CaptureSource {
    /// Attach to the already-running browser at this debugging URL.
    Connect(String),
    /// Launch a browser as planned.
    Launch(LaunchPlan),
}

/// The browser argument that opens remote debugging on `port`.
pub open spec fn debugging_arg(port: u16) -> Seq<char> {
    "--remote-debugging-port="@ + decimal(port as nat)
}

/// Format the remote debugging argument for `port`.
pub fn debugging_port_arg(port: u16) -> (r: String)
    ensures
        r@ == debugging_arg(port),
{
    let mut r = copy_str("--remote-debugging-port=");
    push_decimal(&mut r, port as u128);
    r
}

/// Decide where the traffic comes from: the browser at `--connect` if
/// given, else a browser launched with the requested options.
pub fn capture_source(args: &CaptureArgs) -> (r: CaptureSource)
    ensures
        match args.connect {
            Some(ws) => r matches CaptureSource::Connect(u) && u@ == ws@,
            None => r matches CaptureSource::Launch(plan) && {
                &&& plan.headless == !args.no_headless
                &&& plan.chrome.deep_view() == args.chrome.deep_view()
                &&& plan.user_data_dir.deep_view() == args.user_data_dir.deep_view()
                &&& plan.profile.deep_view() == args.profile.deep_view()
                &&& plan.extra_arg.deep_view() == match args.debugging_port {
                    Some(p) => Some(debugging_arg(p)),
                    None => None,
                }
                &&& plan.window_width == 1280
                &&& plan.window_height == 900
            },
        },
{
    match &args.connect {
        Some(ws) => CaptureSource::Connect(copy_str(ws.as_str())),
        None => {
            let chrome = match &args.chrome {
                Some(c) => Some(copy_str(c.as_str())),
                None => None,
            };
            let user_data_dir = match &args.user_data_dir {
                Some(d) => Some(copy_str(d.as_str())),
                None => None,
            };
            let profile = match &args.profile {
                Some(p) => Some(copy_str(p.as_str())),
                None => None,
            };
            let extra_arg = match args.debugging_port {
                Some(p) => Some(debugging_port_arg(p)),
                None => None,
            };
            CaptureSource::Launch(LaunchPlan {
                headless: !args.no_headless,
                chrome,
                user_data_dir,
                profile,
                extra_arg,
                window_width: 1280,
                window_height: 900,
            })
        },
    }
}

/// The URL a launched browser is to open.
///
/// # Errors
///
/// `--url is required in launch mode` when none was given.
pub fn launch_url(url: &Option<String>) -> (r: Result<String, String>)
    ensures
        r is Ok <==> url is Some,
        r matches Ok(u) ==> url matches Some(v) && u@ == v@,
        r matches Err(m) ==> m@ == "--url is required in launch mode"@,
{
    match url {
        Some(u) => Ok(copy_str(u.as_str())),
        None => Err(copy_str("--url is required in launch mode")),
    }
}

/// The operating systems whose browser profile locations are known.
#[derive(Debug, Clone, Copy, PartialEq, Eq, Structural)]
pub enum ProfilePlatform {
    /// macOS.
    MacOs,
    /// Linux.
    Linux,
    /// Any other system: no locations are known.
    Other,
}

/// Where Chrome, Chromium and Helium keep their user data on `platform`,
/// relative to the home directory, in order of preference.
pub open spec fn profile_dirs_of(platform: ProfilePlatform) -> Seq<Seq<char>> {
    match platform {
        ProfilePlatform::MacOs => seq![
            "Library/Application Support/Google/Chrome"@,
            "Library/Application Support/Chromium"@,
            "Library/Application Support/net.imput.helium"@,
        ],
        ProfilePlatform::Linux => seq![".config/google-chrome"@, ".config/chromium"@, ".config/helium"@],
        ProfilePlatform::Other => seq![],
    }
}

/// The user data directories to look for on `platform`, relative to the
/// home directory, most preferred first; the first that exists is used.
pub fn chrome_profile_dirs(platform: ProfilePlatform) -> (dirs: Vec<String>)
    ensures
        dirs@.len() == profile_dirs_of(platform).len(),
        forall|i: int| 0 <= i < dirs@.len() ==> (#[trigger] dirs@[i])@ == profile_dirs_of(platform)[i],
{
    let mut dirs: Vec<String> = Vec::new();
    match platform {
        ProfilePlatform::MacOs => {
            dirs.push(copy_str("Library/Application Support/Google/Chrome"));
            dirs.push(copy_str("Library/Application Support/Chromium"));
            dirs.push(copy_str("Library/Application Support/net.imput.helium"));
        },
        ProfilePlatform::Linux => {
            dirs.push(copy_str(".config/google-chrome"));
            dirs.push(copy_str(".config/chromium"));
            dirs.push(copy_str(".config/helium"));
        },
        ProfilePlatform::Other => {},
    }
    dirs
}

// ---------------------------------------------------------------------------
// Which events are kept
// ---------------------------------------------------------------------------

/// An event for `url` is kept when there is no filter or the filter
/// matches the URL.
pub open spec fn kept(filter: Option<Seq<char>>, url: Seq<char>) -> bool {
    match filter {
        Some(p) => regex_finds(p, url),
        None => true,
    }
}

/// The `--filter-url` pattern, once it is known to compile.
#[derive(Debug)]
pub struct UrlFilter {
    pattern: Option<String>,
}

impl View for UrlFilter {
    type V = Option<Seq<char>>;

    closed spec fn view(&self) -> Option<Seq<char>> {
        self.pattern.deep_view()
    }
}

impl UrlFilter {
    /// A filter is only ever made from a pattern that compiles.
    #[verifier::type_invariant]
    closed spec fn pattern_compiles(self) -> bool {
        self.pattern matches Some(p) ==> regex_compiles(p@)
    }

    /// Whether an event for `url` passes the filter.
    pub fn passes(&self, url: &str) -> (b: bool)
        ensures
            b == kept(self@, url@),
    {
        proof {
            use_type_invariant(self);
        }
        match &self.pattern {
            Some(p) => regex_is_match(p.as_str(), url),
            None => true,
        }
    }
}

/// Check the `--filter-url` pattern, if any.
///
/// # Errors
///
/// The regex error when the pattern does not compile.
pub fn url_filter(args: &CaptureArgs) -> (r: Result<UrlFilter, regex::Error>)
    ensures
        r is Ok <==> (args.filter_url matches Some(p) ==> regex_compiles(p@)),
        r matches Ok(f) ==> f@ == args.filter_url.deep_view(),
{
    match &args.filter_url {
        Some(p) => match regex_new(p.as_str()) {
            Ok(()) => Ok(UrlFilter { pattern: Some(copy_str(p.as_str())) }),
            Err(e) => Err(e),
        },
        None => Ok(UrlFilter { pattern: None }),
    }
}

// ---------------------------------------------------------------------------
// Pairing
// ---------------------------------------------------------------------------

/// A request event, as staged until its response arrives.
#[derive(Debug, Clone)]
pub struct StagedRequest {
    /// The browser's id of the request.
    pub request_id: String,
    /// The HTTP method.
    pub method: String,
    /// The request headers, name and value.
    pub request_headers: Vec<(String, String)>,
}

/// A response event.
#[derive(Debug, Clone)]
pub struct StagedResponse {
    /// The browser's id of the request answered.
    pub request_id: String,
    /// The response URL.
    pub url: String,
    /// The HTTP status code.
    pub status: u16,
    /// The HTTP status text.
    pub status_text: String,
    /// The response headers, name and value.
    pub response_headers: Vec<(String, String)>,
    /// The response MIME type.
    pub mime_type: String,
    /// Bytes received, as the bit pattern of the double the browser sent.
    pub encoded_data_length_bits: u64,
}

/// Everything seen during a capture, in arrival order.
#[derive(Debug, Clone)]
pub struct CaptureLog {
    /// The kept request events.
    pub requests: Vec<StagedRequest>,
    /// The kept response events.
    pub responses: Vec<StagedResponse>,
    /// The ids of the requests whose loading finished.
    pub finished: Vec<String>,
}

impl CaptureLog {
    /// An empty log.
    pub fn new() -> (log: Self)
        ensures
            log.requests@.len() == 0,
            log.responses@.len() == 0,
            log.finished@.len() == 0,
    {
        CaptureLog { requests: Vec::new(), responses: Vec::new(), finished: Vec::new() }
    }

    /// Record a request event.
    pub fn record_request(&mut self, r: StagedRequest)
        ensures
            final(self).requests@ == old(self).requests@.push(r),
            final(self).responses@ == old(self).responses@,
            final(self).finished@ == old(self).finished@,
    {
        self.requests.push(r);
    }

    /// Record a response event.
    pub fn record_response(&mut self, r: StagedResponse)
        ensures
            final(self).requests@ == old(self).requests@,
            final(self).responses@ == old(self).responses@.push(r),
            final(self).finished@ == old(self).finished@,
    {
        self.responses.push(r);
    }

    /// Record that loading of request `id` finished.
    pub fn record_finished(&mut self, id: String)
        ensures
            final(self).requests@ == old(self).requests@,
            final(self).responses@ == old(self).responses@,
            final(self).finished@ == old(self).finished@.push(id),
    {
        self.finished.push(id);
    }
}

/// A response paired with its request, ready for output.
#[derive(Debug, Clone)]
pub struct CapturedEntry {
    /// The browser's id of the request answered.
    pub request_id: String,
    /// The response URL.
    pub url: String,
    /// The request method, or `UNKNOWN` when the request was not seen.
    pub method: String,
    /// The HTTP status code.
    pub status: u16,
    /// The HTTP status text.
    pub status_text: String,
    /// The response MIME type.
    pub mime_type: String,
    /// Bytes received, as the bit pattern of a double.
    pub size_bits: u64,
    /// The request headers (none when the request was not seen).
    pub request_headers: Vec<(String, String)>,
    /// The response headers.
    pub response_headers: Vec<(String, String)>,
    /// The response body is to be fetched: bodies were asked for and the
    /// request finished loading.
    pub fetch_body: bool,
}

/// The text of a header list.
pub open spec fn header_texts(hs: Seq<(String, String)>) -> Seq<(Seq<char>, Seq<char>)> {
    hs.map_values(|h: (String, String)| (h.0@, h.1@))
}

/// The position of the last request with id `id`, if any (a later
/// request with the same id replaces an earlier one).
pub open spec fn last_request_with(requests: Seq<StagedRequest>, id: Seq<char>) -> Option<int>
    decreases requests.len(),
{
    if requests.len() == 0 {
        None
    } else if requests.last().request_id@ == id {
        Some(requests.len() - 1)
    } else {
        last_request_with(requests.drop_last(), id)
    }
}

/// `e` pairs response `resp` with the requests seen.
pub open spec fn pairs_with(
    e: CapturedEntry,
    resp: StagedResponse,
    requests: Seq<StagedRequest>,
    finished: Seq<String>,
    include_body: bool,
) -> bool {
    &&& e.request_id@ == resp.request_id@
    &&& e.url@ == resp.url@
    &&& e.status == resp.status
    &&& e.status_text@ == resp.status_text@
    &&& e.mime_type@ == resp.mime_type@
    &&& e.size_bits == resp.encoded_data_length_bits
    &&& header_texts(e.response_headers@) == header_texts(resp.response_headers@)
    &&& match last_request_with(requests, resp.request_id@) {
        Some(k) => e.method@ == requests[k].method@ && header_texts(e.request_headers@)
            == header_texts(requests[k].request_headers@),
        None => e.method@ == "UNKNOWN"@ && e.request_headers@.len() == 0,
    }
    &&& e.fetch_body == (include_body && exists|f: int|
        0 <= f < finished.len() && (#[trigger] finished[f])@ == resp.request_id@)
}

fn copy_headers(hs: &Vec<(String, String)>) -> (r: Vec<(String, String)>)
    ensures
        header_texts(r@) == header_texts(hs@),
{
    let mut r: Vec<(String, String)> = Vec::new();
    let mut i: usize = 0;
    while i < hs.len()
        invariant
            i <= hs@.len(),
            r@.len() == i,
            forall|k: int| 0 <= k < i ==> (#[trigger] r@[k]).0@ == hs@[k].0@ && r@[k].1@ == hs@[k].1@,
        decreases hs@.len() - i,
    {
        let name = copy_str(hs[i].0.as_str());
        let value = copy_str(hs[i].1.as_str());
        r.push((name, value));
        i += 1;
    }
    assert(header_texts(r@) =~= header_texts(hs@));
    r
}

/// The position of the last request with id `id`.
fn find_request(requests: &Vec<StagedRequest>, id: &str) -> (r: Option<usize>)
    ensures
        match r {
            Some(k) => k < requests@.len() && last_request_with(requests@, id@) == Some(k as int),
            None => last_request_with(requests@, id@) is None,
        },
{
    let mut i: usize = requests.len();
    assert(requests@.take(i as int) =~= requests@);
    while i > 0
        invariant
            i <= requests@.len(),
            last_request_with(requests@, id@) == last_request_with(requests@.take(i as int), id@),
        decreases i,
    {
        assert(requests@.take(i as int).last() == requests@[i - 1]);
        assert(requests@.take(i as int).drop_last() =~= requests@.take(i - 1));
        if crate::text::str_eq(requests[i - 1].request_id.as_str(), id) {
            return Some(i - 1);
        }
        i -= 1;
    }
    None
}

/// Whether `id` is among the finished request ids.
fn has_finished(finished: &Vec<String>, id: &str) -> (b: bool)
    ensures
        b == exists|f: int| 0 <= f < finished@.len() && (#[trigger] finished@[f])@ == id@,
{
    let mut i: usize = 0;
    while i < finished.len()
        invariant
            i <= finished@.len(),
            forall|f: int| 0 <= f < i ==> (#[trigger] finished@[f])@ != id@,
        decreases finished@.len() - i,
    {
        if crate::text::str_eq(finished[i].as_str(), id) {
            return true;
        }
        i += 1;
    }
    false
}

/// Pair each response, in arrival order, with the last request of the
/// same id.
pub fn build_entries(log: &CaptureLog, include_body: bool) -> (entries: Vec<CapturedEntry>)
    ensures
        entries@.len() == log.responses@.len(),
        forall|i: int|
            0 <= i < entries@.len() ==> pairs_with(
                #[trigger] entries@[i],
                log.responses@[i],
                log.requests@,
                log.finished@,
                include_body,
            ),
{
    let mut entries: Vec<CapturedEntry> = Vec::new();
    let mut i: usize = 0;
    while i < log.responses.len()
        invariant
            i <= log.responses@.len(),
            entries@.len() == i,
            forall|k: int|
                0 <= k < i ==> pairs_with(
                    #[trigger] entries@[k],
                    log.responses@[k],
                    log.requests@,
                    log.finished@,
                    include_body,
                ),
        decreases log.responses@.len() - i,
    {
        let resp = &log.responses[i];
        let (method, request_headers) = match find_request(&log.requests, resp.request_id.as_str()) {
            Some(k) => (copy_str(log.requests[k].method.as_str()), copy_headers(&log.requests[k].request_headers)),
            None => (copy_str("UNKNOWN"), Vec::new()),
        };
        let fetch_body = include_body && has_finished(&log.finished, resp.request_id.as_str());
        let e = CapturedEntry {
            request_id: copy_str(resp.request_id.as_str()),
            url: copy_str(resp.url.as_str()),
            method,
            status: resp.status,
            status_text: copy_str(resp.status_text.as_str()),
            mime_type: copy_str(resp.mime_type.as_str()),
            size_bits: resp.encoded_data_length_bits,
            request_headers,
            response_headers: copy_headers(&resp.response_headers),
            fetch_body,
        };
        entries.push(e);
        i += 1;
    }
    entries
}

/// Why a capture produced nothing to show.
#[derive(Debug)]
pub enum CaptureError {
    /// No response matching the filters was captured.
    NoResults,
}

/// The entries of a finished capture.
///
/// # Errors
///
/// `NoResults` when no response was kept.
pub fn captured_entries(log: &CaptureLog, include_body: bool) -> (r: Result<Vec<CapturedEntry>, CaptureError>)
    ensures
        r is Err <==> log.responses@.len() == 0,
        r matches Ok(entries) ==> {
            &&& entries@.len() == log.responses@.len()
            &&& forall|i: int|
                0 <= i < entries@.len() ==> pairs_with(
                    #[trigger] entries@[i],
                    log.responses@[i],
                    log.requests@,
                    log.finished@,
                    include_body,
                )
        },
{
    let entries = build_entries(log, include_body);
    if entries.len() == 0 {
        Err(CaptureError::NoResults)
    } else {
        Ok(entries)
    }
}

/// The body text shown for a fetched response body: the body itself, or
/// `[base64: N bytes]` when the browser sent it base64-encoded.
pub open spec fn body_shown(base64_encoded: bool, body: Seq<char>) -> Seq<char> {
    if base64_encoded {
        "[base64: "@ + decimal(utf8_len(body)) + " bytes]"@
    } else {
        body
    }
}

/// Format a fetched response body for output.
pub fn body_text(base64_encoded: bool, body: &str) -> (r: String)
    ensures
        r@ == body_shown(base64_encoded, body@),
{
    if base64_encoded {
        let n = crate::text::utf8_length(body);
        let mut r = copy_str("[base64: ");
        push_decimal(&mut r, n);
        append_str(&mut r, " bytes]");
        r
    } else {
        copy_str(body)
    }
}

// ---------------------------------------------------------------------------
// Display
// ---------------------------------------------------------------------------

/// Shorten a URL to at most `max_len` bytes for the table, ending in `…`
/// when cut.  `max_len` must be positive unless the URL already fits.
pub fn truncate_url(url: &str, max_len: usize) -> (r: String)
    requires
        max_len >= 1 || utf8_len(url@) <= max_len,
    ensures
        r@ == shortened(url@, max_len as nat, if max_len >= 1 { (max_len - 1) as nat } else { 0 }),
{
    let keep: usize = if max_len >= 1 { max_len - 1 } else { 0 };
    shorten(url, max_len, keep)
}

} // verus!

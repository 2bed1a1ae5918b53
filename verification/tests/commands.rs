//! The commands over a loaded log: listing, per-domain and per-endpoint
//! summaries, time range.

use harvey::cli::GlobalArgs;
use harvey::commands::analyze::{self, time_range, AnalyzeArgs};
use harvey::commands::domains::{self, build_summaries, order_summaries, DomainSortBy, DomainsArgs};
use harvey::commands::endpoints::{self, build_endpoints, strip_query, EndpointsArgs};
use harvey::commands::entries::{
    self, entry_computed, extract_path, format_status, sort_entries, EntriesArgs, EntriesError, SortBy, SortDir,
};
use harvey::har::types::{Cache, Content, Creator, Entry, Har, Log, Millis, Request, Response, Timings};
use harvey::output::OutputMode;

fn ms(x: f64) -> Millis {
    Millis { bits: x.to_bits() }
}

fn value(m: Millis) -> f64 {
    f64::from_bits(m.bits)
}

fn entry(started: &str, time: f64, method: &str, url: &str, status: u16, mime: &str, body: i64) -> Entry {
    Entry {
        started_date_time: started.into(),
        time: ms(time),
        request: Request {
            method: method.into(),
            url: url.into(),
            http_version: "HTTP/2.0".into(),
            cookies: vec![],
            headers: vec![],
            query_string: vec![],
            post_data: None,
            headers_size: 10,
            body_size: 0,
            comment: None,
        },
        response: Response {
            status,
            status_text: "".into(),
            http_version: "HTTP/2.0".into(),
            cookies: vec![],
            headers: vec![],
            content: Content {
                size: if body > 0 { body as u64 } else { 0 },
                compression: None,
                mime_type: mime.into(),
                text: None,
                encoding: None,
                comment: None,
            },
            redirect_url: String::new(),
            headers_size: 20,
            body_size: body,
            comment: None,
        },
        cache: Cache { before_request: None, after_request: None, comment: None },
        timings: Timings {
            blocked: None,
            dns: None,
            connect: None,
            send: ms(1.0),
            wait: ms(1.0),
            receive: ms(1.0),
            ssl: None,
            comment: None,
        },
        server_ip_address: None,
        connection: None,
        pageref: None,
        comment: None,
    }
}

fn har(entries: Vec<Entry>) -> Har {
    Har {
        log: Log {
            version: "1.2".into(),
            creator: Creator { name: "t".into(), version: "1".into(), comment: None },
            browser: None,
            pages: None,
            entries,
            comment: None,
        },
    }
}

fn global(json: bool) -> GlobalArgs {
    GlobalArgs { verbose: 0, quiet: false, json, no_color: false }
}

fn sample() -> Har {
    har(vec![
        entry("2024-01-01T00:00:03Z", 30.0, "GET", "https://api.example.com/v1/users?page=1", 200, "application/json", 100),
        entry("2024-01-01T00:00:01Z", 10.0, "GET", "https://api.example.com/v1/users?page=2", 200, "application/json", 300),
        entry("2024-01-01T00:00:05Z", 50.0, "POST", "https://api.example.com/v1/users", 201, "application/json", 5),
        entry("2024-01-01T00:00:02Z", 20.0, "GET", "https://cdn.example.com/app.js", 200, "text/javascript", 1000),
        entry("2024-01-01T00:00:04Z", 40.0, "GET", "https://CDN.example.com/app.css", 404, "text/css", 1),
    ])
}

fn entries_args(limit: usize, by: SortBy, dir: SortDir) -> EntriesArgs {
    EntriesArgs {
        file: "x.har".into(),
        filter_url: None,
        filter_status: None,
        filter_method: None,
        filter_mime: None,
        filter_domain: None,
        sort_by: by,
        sort_dir: dir,
        limit,
        include_body: false,
    }
}

// ---------------------------------------------------------------------------
// entries
// ---------------------------------------------------------------------------

#[test]
fn entries_sorted_by_time_descending_and_limited() {
    let h = sample();
    let report = entries::run(&entries_args(3, SortBy::Time, SortDir::Desc), &global(false), &h).expect("entries");
    let times: Vec<f64> = report.entries.iter().map(|e| value(e.time)).collect();
    assert_eq!(times, vec![50.0, 40.0, 30.0]);
    assert_eq!(report.total, 5);
    assert_eq!(report.mode, OutputMode::Human);
}

#[test]
fn entries_sorted_by_size_ascending() {
    let h = sample();
    let report = entries::run(&entries_args(100, SortBy::Size, SortDir::Asc), &global(true), &h).expect("entries");
    let bodies: Vec<i64> = report.entries.iter().map(|e| e.response.body_size).collect();
    assert_eq!(bodies, vec![1, 5, 100, 300, 1000]);
    assert_eq!(report.mode, OutputMode::Json);
}

#[test]
fn equal_keys_keep_their_order_in_both_directions() {
    let h = sample();
    let original: Vec<&str> = h.log.entries.iter().map(|e| e.request.url.as_str()).collect();
    for dir in [SortDir::Asc, SortDir::Desc] {
        let mut refs: Vec<&Entry> = h.log.entries.iter().collect();
        sort_entries(&mut refs, SortBy::Status, dir);
        for w in refs.windows(2) {
            if w[0].response.status == w[1].response.status {
                let a = original.iter().position(|u| *u == w[0].request.url).unwrap();
                let b = original.iter().position(|u| *u == w[1].request.url).unwrap();
                assert!(a < b);
            }
        }
        let mut again: Vec<&Entry> = h.log.entries.iter().collect();
        sort_entries(&mut again, SortBy::Status, dir);
        let first: Vec<&str> = refs.iter().map(|e| e.request.url.as_str()).collect();
        let second: Vec<&str> = again.iter().map(|e| e.request.url.as_str()).collect();
        assert_eq!(first, second);
    }
}

#[test]
fn entries_sorted_by_status_and_url() {
    let h = sample();
    let mut refs: Vec<&Entry> = h.log.entries.iter().collect();
    sort_entries(&mut refs, SortBy::Status, SortDir::Desc);
    assert_eq!(refs[0].response.status, 404);
    assert_eq!(refs[1].response.status, 201);
    let mut refs: Vec<&Entry> = h.log.entries.iter().collect();
    sort_entries(&mut refs, SortBy::Url, SortDir::Asc);
    let urls: Vec<&str> = refs.iter().map(|e| e.request.url.as_str()).collect();
    assert_eq!(
        urls,
        vec![
            "https://CDN.example.com/app.css",
            "https://api.example.com/v1/users",
            "https://api.example.com/v1/users?page=1",
            "https://api.example.com/v1/users?page=2",
            "https://cdn.example.com/app.js",
        ]
    );
}

#[test]
fn entries_filters_and_errors() {
    let h = sample();
    let mut args = entries_args(100, SortBy::Time, SortDir::Asc);
    args.filter_domain = Some("cdn.example.com".into());
    let report = entries::run(&args, &global(false), &h).expect("two cdn entries");
    assert_eq!(report.entries.len(), 2);
    args.filter_status = Some(500);
    assert!(matches!(entries::run(&args, &global(false), &h), Err(EntriesError::NoResults)));
    let mut bad = entries_args(100, SortBy::Time, SortDir::Asc);
    bad.filter_url = Some("(".into());
    assert!(matches!(entries::run(&bad, &global(false), &h), Err(EntriesError::InvalidUrlPattern(_))));
}

#[test]
fn entries_display_helpers() {
    assert_eq!(extract_path("https://a.example/x/y?q=1&r=2"), "/x/y?q=1&r=2");
    assert_eq!(extract_path("https://a.example/x/y"), "/x/y");
    assert_eq!(extract_path("https://a.example"), "/");
    assert_eq!(extract_path("relative/path"), "relative/path");
    assert_eq!(format_status(200), "\u{2713} 200");
    assert_eq!(format_status(302), "\u{2192} 302");
    assert_eq!(format_status(404), "\u{2717} 404");
    assert_eq!(format_status(503), "! 503");
    assert_eq!(format_status(101), "! 101");
    let h = sample();
    let c = entry_computed(&h.log.entries[3]);
    assert_eq!(c.total_bytes, 1030);
    assert_eq!(c.domain, "cdn.example.com");
    assert_eq!(c.content_type, "text/javascript");
}

// ---------------------------------------------------------------------------
// domains
// ---------------------------------------------------------------------------

#[test]
fn domains_grouped_ascending() {
    let h = sample();
    let s = build_summaries(&h.log.entries);
    let names: Vec<&str> = s.iter().map(|d| d.domain.as_str()).collect();
    // The URL parser lower-cases hosts, so both CDN entries share a domain.
    assert_eq!(names, vec!["api.example.com", "cdn.example.com"]);
    assert_eq!(s[0].request_count, 3);
    assert_eq!(s[0].total_bytes, 495);
    assert_eq!(s[1].request_count, 2);
    let times: Vec<f64> = s[0].times.iter().map(|m| value(*m)).collect();
    assert_eq!(times, vec![30.0, 10.0, 50.0]);
    let codes: Vec<(u16, usize)> = s[1].status_summary.iter().map(|c| (c.status, c.count)).collect();
    assert_eq!(codes, vec![(200, 1), (404, 1)]);
    // The request counts add up to the number of entries.
    assert_eq!(s.iter().map(|d| d.request_count).sum::<usize>(), 5);
}

#[test]
fn domains_display_order() {
    let h = sample();
    let s = build_summaries(&h.log.entries);
    let avg: Vec<Millis> = vec![ms(30.0), ms(30.0)];
    assert_eq!(order_summaries(&s, DomainSortBy::Requests, &avg), vec![0, 1]);
    assert_eq!(order_summaries(&s, DomainSortBy::Bytes, &avg), vec![1, 0]);
    // Equal averages keep the domain order.
    assert_eq!(order_summaries(&s, DomainSortBy::AvgTime, &avg), vec![0, 1]);
    let avg2: Vec<Millis> = vec![ms(1.0), ms(2.0)];
    assert_eq!(order_summaries(&s, DomainSortBy::AvgTime, &avg2), vec![1, 0]);
    let report = domains::run(&DomainsArgs { file: "x".into(), sort_by: DomainSortBy::Bytes }, &global(true), &h);
    assert_eq!(report.summaries.len(), 2);
    assert_eq!(report.sort_by, DomainSortBy::Bytes);
    assert_eq!(report.mode, OutputMode::Json);
}

// ---------------------------------------------------------------------------
// endpoints
// ---------------------------------------------------------------------------

#[test]
fn endpoints_strip_query_and_rank() {
    let h = sample();
    let refs: Vec<&Entry> = h.log.entries.iter().collect();
    let s = build_endpoints(&refs);
    let keys: Vec<(&str, &str, usize)> = s.iter().map(|e| (e.method.as_str(), e.path.as_str(), e.count)).collect();
    assert_eq!(
        keys,
        vec![("GET", "/v1/users", 2), ("GET", "/app.css", 1), ("GET", "/app.js", 1), ("POST", "/v1/users", 1)]
    );
    assert_eq!(s[0].domains, vec!["api.example.com".to_string()]);
    let codes: Vec<(u16, usize)> = s[0].status_codes.iter().map(|c| (c.status, c.count)).collect();
    assert_eq!(codes, vec![(200, 2)]);
    assert_eq!(strip_query("https://x.example/a/b?c=d"), "/a/b");
    assert_eq!(strip_query("no url here"), "no url here");
}

#[test]
fn endpoints_domain_filter_ignores_case() {
    let h = sample();
    let args = EndpointsArgs { file: "x".into(), filter_domain: Some("CDN.EXAMPLE.COM".into()) };
    let report = endpoints::run(&args, &global(false), &h);
    assert_eq!(report.requests, 2);
    assert_eq!(report.summaries.len(), 2);
    let none = EndpointsArgs { file: "x".into(), filter_domain: None };
    let all = endpoints::run(&none, &global(false), &h);
    assert_eq!(all.requests, 5);
    assert_eq!(all.summaries.iter().map(|e| e.count).sum::<usize>(), 5);
}

// ---------------------------------------------------------------------------
// analyze
// ---------------------------------------------------------------------------

#[test]
fn analyze_time_range_and_stats() {
    let h = sample();
    let (first, last) = time_range(&h.log.entries);
    assert_eq!(first.as_deref(), Some("2024-01-01T00:00:01Z"));
    assert_eq!(last.as_deref(), Some("2024-01-01T00:00:05Z"));
    let mut zoned = sample();
    zoned.log.entries[0].started_date_time = "2024-01-01T06:00:00Z".into();
    zoned.log.entries[1].started_date_time = "2024-01-01T10:00:00+05:00".into();
    zoned.log.entries[2].started_date_time = "2024-01-01T10:30:00.5+05:00".into();
    zoned.log.entries[3].started_date_time = "not a time".into();
    zoned.log.entries[4].started_date_time = "2024-01-01T05:30:00.25Z".into();
    let (first, last) = time_range(&zoned.log.entries);
    // 10:00+05:00 is 05:00Z, the earliest instant; 06:00Z is the latest.
    assert_eq!(first.as_deref(), Some("2024-01-01T10:00:00+05:00"));
    assert_eq!(last.as_deref(), Some("2024-01-01T06:00:00Z"));
    let mut texts = sample();
    for (i, e) in texts.log.entries.iter_mut().enumerate() {
        e.started_date_time = format!("t{}", 5 - i);
    }
    let (first, last) = time_range(&texts.log.entries);
    assert_eq!(first.as_deref(), Some("t1"));
    assert_eq!(last.as_deref(), Some("t5"));
    let (none_a, none_b) = time_range(&[]);
    assert!(none_a.is_none() && none_b.is_none());
    let report = analyze::run(&AnalyzeArgs { file: "x".into() }, &global(false), &h);
    assert_eq!(report.stats.total_entries, 5);
    assert_eq!(report.stats.total_bytes, 1406);
    assert_eq!(report.time_start.as_deref(), Some("2024-01-01T00:00:01Z"));
}

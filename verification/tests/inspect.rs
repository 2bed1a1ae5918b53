//! The `inspect` command: slowest phase, truncation, entry selection.

use harvey::cli::GlobalArgs;
use harvey::commands::inspect::{
    computed_fields, request_section, response_section, run, timing_bottleneck, truncate, InspectArgs, InspectError,
};
use harvey::har::types::{
    Cache, Content, Cookie, Creator, Entry, Har, Header, Log, Millis, PostData, QueryParam, Request, Response, Timings,
};
use harvey::output::OutputMode;

fn ms(x: f64) -> Millis {
    Millis { bits: x.to_bits() }
}

fn timings(
    blocked: Option<f64>,
    dns: Option<f64>,
    connect: Option<f64>,
    send: f64,
    wait: f64,
    receive: f64,
    ssl: Option<f64>,
) -> Timings {
    Timings {
        blocked: blocked.map(ms),
        dns: dns.map(ms),
        connect: connect.map(ms),
        send: ms(send),
        wait: ms(wait),
        receive: ms(receive),
        ssl: ssl.map(ms),
        comment: None,
    }
}

#[test]
fn bottleneck_identifies_wait_phase() {
    let t = timings(Some(1.0), Some(2.0), Some(3.0), 0.5, 150.0, 10.0, Some(1.0));
    assert_eq!(timing_bottleneck(&t), "wait");
}

#[test]
fn bottleneck_ignores_negative_values() {
    let t = timings(Some(-1.0), Some(5.0), None, 1.0, 2.0, 3.0, None);
    assert_eq!(timing_bottleneck(&t), "dns");
}

#[test]
fn bottleneck_all_negative_returns_unknown() {
    let t = timings(Some(-1.0), Some(-2.0), Some(-3.0), -1.0, -2.0, -3.0, Some(-1.0));
    assert_eq!(timing_bottleneck(&t), "unknown");
}

#[test]
fn bottleneck_ties_go_to_the_later_phase() {
    let t = timings(Some(7.0), None, None, 7.0, 1.0, 7.0, None);
    assert_eq!(timing_bottleneck(&t), "receive");
}

#[test]
fn bottleneck_skips_nan_and_counts_negative_zero() {
    let t = timings(Some(f64::NAN), None, None, -0.0, -1.0, -5.0, None);
    assert_eq!(timing_bottleneck(&t), "send");
}

#[test]
fn truncate_keeps_short_text() {
    assert_eq!(truncate("hello", 5), "hello");
    assert_eq!(truncate("", 0), "");
}

#[test]
fn truncate_counts_characters() {
    assert_eq!(truncate("hello world", 5), "hello\u{2026}");
    assert_eq!(truncate("a\u{e9}bc", 2), "a\u{e9}\u{2026}");
    assert_eq!(truncate("a\u{e9}bc", 3), "a\u{e9}b\u{2026}");
    assert_eq!(truncate("\u{e9}\u{e9}\u{e9}", 4), "\u{e9}\u{e9}\u{e9}");
}

fn make_entry(url: &str, status: u16) -> Entry {
    Entry {
        started_date_time: "2024-01-01T00:00:00Z".into(),
        time: ms(12.0),
        request: Request {
            method: "GET".into(),
            url: url.into(),
            http_version: "HTTP/2.0".into(),
            cookies: vec![],
            headers: vec![],
            query_string: vec![],
            post_data: None,
            headers_size: 10,
            body_size: -1,
            comment: None,
        },
        response: Response {
            status,
            status_text: "OK".into(),
            http_version: "HTTP/2.0".into(),
            cookies: vec![],
            headers: vec![],
            content: Content {
                size: 30,
                compression: None,
                mime_type: "text/plain".into(),
                text: None,
                encoding: None,
                comment: None,
            },
            redirect_url: String::new(),
            headers_size: 20,
            body_size: -1,
            comment: None,
        },
        cache: Cache { before_request: None, after_request: None, comment: None },
        timings: timings(None, None, None, 1.0, 10.0, 1.0, None),
        server_ip_address: None,
        connection: None,
        pageref: None,
        comment: None,
    }
}

fn make_har(entries: Vec<Entry>) -> Har {
    Har {
        log: Log {
            version: "1.2".into(),
            creator: Creator { name: "test".into(), version: "1.0".into(), comment: None },
            browser: None,
            pages: None,
            entries,
            comment: None,
        },
    }
}

fn global(json: bool) -> GlobalArgs {
    GlobalArgs { verbose: 0, quiet: false, json, no_color: false }
}

fn args(entry: usize, filter_url: Option<&str>, all: bool) -> InspectArgs {
    InspectArgs { file: "x.har".into(), entry, filter_url: filter_url.map(|s| s.to_string()), all }
}

fn sample() -> Har {
    make_har(vec![
        make_entry("https://a.example/one", 200),
        make_entry("https://b.example/api/two", 404),
        make_entry("https://c.example/api/three", 500),
    ])
}

#[test]
fn inspect_by_index_is_one_based() {
    let har = sample();
    let report = run(&args(2, None, false), &global(true), &har).expect("index in range");
    assert_eq!(report.mode, OutputMode::Json);
    assert_eq!(report.total, 3);
    assert_eq!(report.selected.len(), 1);
    assert_eq!(report.selected[0].index, 2);
    assert_eq!(report.selected[0].entry.request.url, "https://b.example/api/two");
}

#[test]
fn inspect_index_out_of_range() {
    let har = sample();
    for idx in [0usize, 4] {
        match run(&args(idx, None, false), &global(false), &har) {
            Err(InspectError::IndexOutOfRange { index, count }) => {
                assert_eq!(index, idx);
                assert_eq!(count, 3);
            },
            _ => panic!("expected IndexOutOfRange"),
        }
    }
}

#[test]
fn inspect_by_pattern_first_or_all() {
    let har = sample();
    let first = run(&args(1, Some("/api/"), false), &global(false), &har).expect("matches");
    assert_eq!(first.mode, OutputMode::Human);
    assert_eq!(first.total, 2);
    assert_eq!(first.selected.len(), 1);
    assert_eq!(first.selected[0].index, 2);
    let all = run(&args(1, Some("/api/"), true), &global(false), &har).expect("matches");
    let idx: Vec<usize> = all.selected.iter().map(|s| s.index).collect();
    assert_eq!(idx, vec![2, 3]);
    assert_eq!(all.total, 2);
}

#[test]
fn inspect_pattern_errors() {
    let har = sample();
    assert!(matches!(run(&args(1, Some("nomatch"), false), &global(false), &har), Err(InspectError::NoMatch)));
    assert!(matches!(
        run(&args(1, Some("[invalid"), false), &global(false), &har),
        Err(InspectError::InvalidUrlPattern(_))
    ));
}

#[test]
fn inspect_computed_fields() {
    let e = make_entry("https://b.example/api/two", 404);
    let c = computed_fields(&e);
    // content.size 30 (bodySize unknown) + 20 response headers + 10 request headers
    assert_eq!(c.total_bytes, 60);
    assert_eq!(c.domain, "b.example");
    assert_eq!(c.content_type, "text/plain");
    assert_eq!(c.bottleneck, "wait");
}

#[test]
fn request_section_lists_fields() {
    let mut e = make_entry("https://b.example/api?q=rust", 200);
    e.request.headers = vec![Header { name: "accept".into(), value: "*/*".into(), comment: None }];
    e.request.cookies = vec![Cookie {
        name: "sid".into(),
        value: "1".into(),
        path: None,
        domain: None,
        expires: None,
        http_only: None,
        secure: None,
        comment: None,
    }];
    e.request.query_string = vec![QueryParam { name: "q".into(), value: "rust".into(), comment: None }];
    e.request.post_data =
        Some(PostData { mime_type: "text/plain".into(), text: "hello".into(), params: None, comment: None });
    let expected = format!(
        "\u{2500}\u{2500} Request \u{2500}\u{2500}\nGET https://b.example/api?q=rust HTTP/2.0\n\n\
         Headers:\n  {:<20} */*\n\n\
         Cookies:\n  sid = 1\n\n\
         Query String:\n  {:<20} rust\n\n\
         Body: text/plain hello\n\n",
        "accept", "q"
    );
    assert_eq!(request_section(&e), expected);
}

#[test]
fn request_section_without_extras() {
    let e = make_entry("https://b.example/", 200);
    assert_eq!(request_section(&e), "\u{2500}\u{2500} Request \u{2500}\u{2500}\nGET https://b.example/ HTTP/2.0\n\n");
}

#[test]
fn response_section_shows_content_and_redirect() {
    let mut e = make_entry("https://b.example/", 301);
    e.response.status_text = "Moved".into();
    e.response.redirect_url = "https://c.example/".into();
    e.response.content.text = Some("x".repeat(400));
    e.response.content.size = 2048;
    let expected = format!(
        "\u{2500}\u{2500} Response \u{2500}\u{2500}\n301 Moved HTTP/2.0\n\n\
         Content: 2.0 KB  text/plain\n\
         Body preview: {}\u{2026}\n\
         Redirect \u{2192} https://c.example/\n\n",
        "x".repeat(300)
    );
    assert_eq!(response_section(&e), expected);
}

#[test]
fn header_names_longer_than_the_column_are_not_cut() {
    let mut e = make_entry("https://b.example/", 200);
    e.response.headers = vec![Header { name: "x-a-very-long-header-name".into(), value: "v".into(), comment: None }];
    let text = response_section(&e);
    assert!(text.contains("Headers:\n  x-a-very-long-header-name v\n\n"));
}

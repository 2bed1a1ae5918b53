//! Statistics and filtering over a small sample capture: eight requests
//! to four hosts (a page, its API calls, two static assets and an
//! analytics beacon).

use harvey::har::filter::{filter_entries, EntryPredicate};
use harvey::har::stats::{compute, extract_domain, response_size, NameCount, StatusCount};
use harvey::har::types::{Cache, Content, Creator, Entry, Har, Log, Millis, Request, Response, Timings};

fn ms(x: f64) -> Millis {
    Millis { bits: x.to_bits() }
}

fn value(m: Millis) -> f64 {
    f64::from_bits(m.bits)
}

#[allow(clippy::too_many_arguments)]
fn entry(
    started: &str,
    time: f64,
    method: &str,
    url: &str,
    status: u16,
    mime: &str,
    req_headers: i64,
    req_body: i64,
    resp_headers: i64,
    resp_body: i64,
) -> Entry {
    Entry {
        started_date_time: started.into(),
        time: ms(time),
        request: Request {
            method: method.into(),
            url: url.into(),
            http_version: "HTTP/2.0".into(),
            cookies: vec![],
            headers: vec![],
            query_string: vec![],
            post_data: None,
            headers_size: req_headers,
            body_size: req_body,
            comment: None,
        },
        response: Response {
            status,
            status_text: "".into(),
            http_version: "HTTP/2.0".into(),
            cookies: vec![],
            headers: vec![],
            content: Content {
                size: if resp_body > 0 { resp_body as u64 } else { 0 },
                compression: None,
                mime_type: mime.into(),
                text: None,
                encoding: None,
                comment: None,
            },
            redirect_url: String::new(),
            headers_size: resp_headers,
            body_size: resp_body,
            comment: None,
        },
        cache: Cache { before_request: None, after_request: None, comment: None },
        timings: Timings {
            blocked: Some(ms(1.0)),
            dns: Some(ms(-1.0)),
            connect: Some(ms(-1.0)),
            send: ms(0.5),
            wait: ms(time - 2.0),
            receive: ms(0.5),
            ssl: Some(ms(-1.0)),
            comment: None,
        },
        server_ip_address: None,
        connection: None,
        pageref: Some("page_1".into()),
        comment: None,
    }
}

/// The sample capture.
fn fixture() -> Har {
    let entries = vec![
        entry("2024-03-15T10:00:00.000Z", 245.0, "GET", "https://www.example.com/", 200, "text/html", 320, 0, 280, 12456),
        entry("2024-03-15T10:00:00.300Z", 120.0, "GET", "https://api.example.com/v1/users?page=1", 200, "application/json", 410, 0, 350, 2048),
        entry("2024-03-15T10:00:00.450Z", 98.0, "POST", "https://api.example.com/v1/events", 201, "application/json", 450, 128, 300, 64),
        entry("2024-03-15T10:00:00.100Z", 35.0, "GET", "https://cdn.example.com/static/app.css", 200, "text/css", 300, 0, 250, 8192),
        entry("2024-03-15T10:00:00.120Z", 52.0, "GET", "https://cdn.example.com/static/app.js", 200, "application/javascript", 300, 0, 250, 45000),
        entry("2024-03-15T10:00:00.900Z", 40.0, "POST", "https://analytics.example.com/collect", 204, "text/plain", 380, 256, 180, 0),
        entry("2024-03-15T10:00:01.000Z", 60.0, "GET", "https://api.example.com/v1/products/nonexistent", 404, "application/json", 400, 0, 300, 96),
        entry("2024-03-15T10:00:01.200Z", 2300.0, "GET", "https://api.example.com/v1/reports/slow-endpoint", 500, "application/json", 420, 0, 310, 128),
    ];
    Har {
        log: Log {
            version: "1.2".into(),
            creator: Creator { name: "test".into(), version: "1.0".into(), comment: None },
            browser: None,
            pages: None,
            entries,
            comment: None,
        },
    }
}

fn status_count(d: &[StatusCount], code: u16) -> Option<usize> {
    d.iter().find(|c| c.status == code).map(|c| c.count)
}

fn name_count(d: &[NameCount], name: &str) -> Option<usize> {
    d.iter().find(|c| c.name == name).map(|c| c.count)
}

fn percentile(sorted: &[f64], p: f64) -> f64 {
    if sorted.is_empty() {
        return 0.0;
    }
    let idx = (p / 100.0) * (sorted.len() - 1) as f64;
    let lo = idx.floor() as usize;
    let hi = idx.ceil() as usize;
    let w = idx - lo as f64;
    sorted[lo] * (1.0 - w) + sorted[hi] * w
}

#[test]
fn stats_total_entries() {
    let har = fixture();
    let stats = compute(&har.log);
    assert_eq!(stats.total_entries, 8);
}

#[test]
fn stats_total_bytes_is_positive() {
    let har = fixture();
    let stats = compute(&har.log);
    assert!(stats.total_bytes > 0);
}

#[test]
fn stats_status_distribution() {
    let har = fixture();
    let stats = compute(&har.log);
    // Fixture has: 200×4, 201×1, 204×1, 404×1, 500×1
    assert_eq!(status_count(&stats.status_distribution, 200), Some(4));
    assert_eq!(status_count(&stats.status_distribution, 201), Some(1));
    assert_eq!(status_count(&stats.status_distribution, 204), Some(1));
    assert_eq!(status_count(&stats.status_distribution, 404), Some(1));
    assert_eq!(status_count(&stats.status_distribution, 500), Some(1));
}

#[test]
fn stats_method_distribution() {
    let har = fixture();
    let stats = compute(&har.log);
    assert_eq!(name_count(&stats.method_distribution, "GET"), Some(6));
    assert_eq!(name_count(&stats.method_distribution, "POST"), Some(2));
}

#[test]
fn stats_unique_domains() {
    let har = fixture();
    let stats = compute(&har.log);
    // www.example.com, api.example.com, cdn.example.com, analytics.example.com
    assert_eq!(stats.unique_domains, 4);
}

#[test]
fn stats_percentile_ordering() {
    let har = fixture();
    let stats = compute(&har.log);
    let times: Vec<f64> = stats.sorted_times.iter().map(|m| value(*m)).collect();
    let (p50, p95, p99) = (percentile(&times, 50.0), percentile(&times, 95.0), percentile(&times, 99.0));
    // Percentiles should be ordered
    assert!(value(stats.min_time_ms) <= p50);
    assert!(p50 <= p95);
    assert!(p95 <= p99);
    assert!(p99 <= value(stats.max_time_ms));
}

#[test]
fn stats_empty_log() {
    let log = Log {
        version: "1.2".into(),
        creator: Creator { name: "test".into(), version: "1.0".into(), comment: None },
        browser: None,
        pages: None,
        entries: vec![],
        comment: None,
    };
    let stats = compute(&log);
    assert_eq!(stats.total_entries, 0);
    assert_eq!(stats.total_bytes, 0);
}

#[test]
fn response_size_computation() {
    let har = fixture();
    let entry = &har.log.entries[0]; // www.example.com HTML page
    let size = response_size(entry);
    // headersSize: 320 + 280, bodySize: 0 + 12456 = 13056
    assert_eq!(size, 13056);
}

#[test]
fn extract_domain_known() {
    let har = fixture();
    let entry = &har.log.entries[0];
    assert_eq!(extract_domain(entry), "www.example.com");
}

#[test]
fn filter_by_status_500() {
    let har = fixture();
    let predicate = EntryPredicate::new().with_status(500);
    let matched = filter_entries(&har.log.entries, &predicate);
    assert_eq!(matched.len(), 1);
    assert_eq!(matched[0].response.status, 500);
}

#[test]
fn filter_by_status_200() {
    let har = fixture();
    let predicate = EntryPredicate::new().with_status(200);
    let matched = filter_entries(&har.log.entries, &predicate);
    assert_eq!(matched.len(), 4);
}

#[test]
fn filter_by_method_post() {
    let har = fixture();
    let predicate = EntryPredicate::new().with_method("POST");
    let matched = filter_entries(&har.log.entries, &predicate);
    assert_eq!(matched.len(), 2);
}

#[test]
fn filter_by_mime_json() {
    let har = fixture();
    let predicate = EntryPredicate::new().with_mime_type("application/json");
    let matched = filter_entries(&har.log.entries, &predicate);
    assert_eq!(matched.len(), 4);
}

#[test]
fn filter_by_domain_cdn() {
    let har = fixture();
    let predicate = EntryPredicate::new().with_domain("cdn.example.com");
    let matched = filter_entries(&har.log.entries, &predicate);
    assert_eq!(matched.len(), 2);
}

#[test]
fn filter_by_url_regex() {
    let har = fixture();
    let predicate = EntryPredicate::new().with_url_pattern(r"/v1/").expect("valid regex");
    let matched = filter_entries(&har.log.entries, &predicate);
    assert_eq!(matched.len(), 4); // /v1/users, /v1/events, /v1/products/nonexistent, /v1/reports/slow-endpoint
}

#[test]
fn filter_combined_predicates() {
    let har = fixture();
    let predicate = EntryPredicate::new().with_status(200).with_mime_type("application/json");
    let matched = filter_entries(&har.log.entries, &predicate);
    // Only api.example.com/v1/users is both 200 and application/json.
    assert_eq!(matched.len(), 1);
}

#[test]
fn filter_bad_regex() {
    let result = EntryPredicate::new().with_url_pattern("[invalid");
    assert!(result.is_err());
}

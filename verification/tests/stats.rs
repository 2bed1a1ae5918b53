//! Aggregate statistics of a log.

use harvey::har::stats::{compute, extract_domain, response_size, NameCount, StatusCount};
use harvey::har::types::{Cache, Content, Creator, Entry, Log, Millis, Request, Response, Timings};

fn ms(x: f64) -> Millis {
    Millis { bits: x.to_bits() }
}

fn value(m: Millis) -> f64 {
    f64::from_bits(m.bits)
}

/// Build a minimal `Entry` for stats testing.
fn make_entry(status: u16, size: u64, mime: &str, time: f64, method: &str, url: &str) -> Entry {
    Entry {
        started_date_time: "2024-01-01T00:00:00Z".into(),
        time: ms(time),
        request: Request {
            method: method.into(),
            url: url.into(),
            http_version: "HTTP/2.0".into(),
            cookies: vec![],
            headers: vec![],
            query_string: vec![],
            post_data: None,
            headers_size: 100,
            body_size: 0,
            comment: None,
        },
        response: Response {
            status,
            status_text: "OK".into(),
            http_version: "HTTP/2.0".into(),
            cookies: vec![],
            headers: vec![],
            content: Content {
                size,
                compression: None,
                mime_type: mime.into(),
                text: None,
                encoding: None,
                comment: None,
            },
            redirect_url: String::new(),
            headers_size: 200,
            body_size: size as i64,
            comment: None,
        },
        cache: Cache { before_request: None, after_request: None, comment: None },
        timings: Timings {
            blocked: None,
            dns: None,
            connect: None,
            send: ms(1.0),
            wait: ms(time - 2.0),
            receive: ms(1.0),
            ssl: None,
            comment: None,
        },
        server_ip_address: None,
        connection: None,
        pageref: None,
        comment: None,
    }
}

/// Build a `Log` from a list of entries.
fn make_log(entries: Vec<Entry>) -> Log {
    Log {
        version: "1.2".into(),
        creator: Creator { name: "test".into(), version: "1.0".into(), comment: None },
        browser: None,
        pages: None,
        entries,
        comment: None,
    }
}

fn status_count(d: &[StatusCount], code: u16) -> Option<usize> {
    d.iter().find(|c| c.status == code).map(|c| c.count)
}

fn name_count(d: &[NameCount], name: &str) -> Option<usize> {
    d.iter().find(|c| c.name == name).map(|c| c.count)
}

/// The linear-interpolation percentile of ascending values.
fn percentile(sorted: &[f64], p: f64) -> f64 {
    if sorted.is_empty() {
        return 0.0;
    }
    let idx = (p / 100.0) * (sorted.len() - 1) as f64;
    let lo = idx.floor() as usize;
    let hi = idx.ceil() as usize;
    let w = idx - lo as f64;
    sorted[lo] * (1.0 - w) + sorted[hi] * w
}

#[test]
fn compute_empty_log() {
    let log = make_log(vec![]);
    let stats = compute(&log);
    assert_eq!(stats.total_entries, 0);
    assert_eq!(stats.total_bytes, 0);
}

#[test]
fn compute_single_entry() {
    let log = make_log(vec![make_entry(200, 500, "text/html", 100.0, "GET", "https://example.com/")]);
    let stats = compute(&log);
    assert_eq!(stats.total_entries, 1);
    // req: 100h + 0b, resp: 200h + 500b
    assert_eq!(response_size(&log.entries[0]), 800);
    assert_eq!(status_count(&stats.status_distribution, 200), Some(1));
}

#[test]
fn compute_status_distribution() {
    let entries = vec![
        make_entry(200, 100, "text/html", 50.0, "GET", "https://a.com/"),
        make_entry(200, 200, "text/html", 60.0, "GET", "https://a.com/"),
        make_entry(404, 50, "application/json", 30.0, "GET", "https://a.com/api"),
    ];
    let log = make_log(entries);
    let stats = compute(&log);
    assert_eq!(status_count(&stats.status_distribution, 200), Some(2));
    assert_eq!(status_count(&stats.status_distribution, 404), Some(1));
}

#[test]
fn compute_percentile_ordering() {
    let entries = vec![
        make_entry(200, 100, "text/html", 10.0, "GET", "https://a.com/"),
        make_entry(200, 100, "text/html", 50.0, "GET", "https://a.com/"),
        make_entry(200, 100, "text/html", 90.0, "GET", "https://a.com/"),
    ];
    let log = make_log(entries);
    let stats = compute(&log);
    let times: Vec<f64> = stats.sorted_times.iter().map(|m| value(*m)).collect();
    let p50 = percentile(&times, 50.0);
    let p95 = percentile(&times, 95.0);
    assert!(value(stats.min_time_ms) <= p50);
    assert!(p50 <= p95);
    assert!(p95 <= value(stats.max_time_ms));
}

#[test]
fn response_size_with_negative_headers_size() {
    // HAR uses -1 as "unknown" sentinel — should fall back to content.size
    let mut entry = make_entry(200, 500, "text/html", 100.0, "GET", "https://example.com/");
    entry.response.headers_size = -1;
    entry.response.body_size = -1;
    let size = response_size(&entry);
    // Only content.size (500) + req headers (100) = 600
    assert_eq!(size, 600);
}

#[test]
fn extract_domain_from_url() {
    let entry = make_entry(200, 100, "text/html", 50.0, "GET", "https://api.example.com/v1/users?page=1");
    assert_eq!(extract_domain(&entry), "api.example.com");
}

#[test]
fn extract_domain_from_bad_url() {
    let entry = make_entry(200, 100, "text/html", 50.0, "GET", "not-a-url");
    assert_eq!(extract_domain(&entry), "unknown");
}

// ---------------------------------------------------------------------------
// Further cases
// ---------------------------------------------------------------------------

#[test]
fn compute_sorts_times_and_bounds_them() {
    let entries = vec![
        make_entry(200, 1, "a", 70.0, "GET", "https://a.com/"),
        make_entry(200, 1, "a", 5.5, "GET", "https://b.com/"),
        make_entry(200, 1, "a", 30.0, "GET", "https://a.com/"),
    ];
    let stats = compute(&make_log(entries));
    let times: Vec<f64> = stats.sorted_times.iter().map(|m| value(*m)).collect();
    assert_eq!(times, vec![5.5, 30.0, 70.0]);
    assert_eq!(value(stats.min_time_ms), 5.5);
    assert_eq!(value(stats.max_time_ms), 70.0);
}

#[test]
fn compute_empty_log_has_zero_times() {
    let stats = compute(&make_log(vec![]));
    assert_eq!(stats.min_time_ms.bits, 0);
    assert_eq!(stats.max_time_ms.bits, 0);
    assert!(stats.sorted_times.is_empty());
    assert_eq!(stats.unique_domains, 0);
}

#[test]
fn compute_distributions_are_ascending_and_complete() {
    let entries = vec![
        make_entry(500, 1, "text/html", 1.0, "POST", "https://b.com/"),
        make_entry(200, 1, "application/json", 1.0, "GET", "https://a.com/"),
        make_entry(200, 1, "text/html", 1.0, "GET", "https://a.com/x"),
        make_entry(301, 1, "text/html", 1.0, "GET", "nonsense"),
    ];
    let stats = compute(&make_log(entries));
    let codes: Vec<(u16, usize)> = stats.status_distribution.iter().map(|c| (c.status, c.count)).collect();
    assert_eq!(codes, vec![(200, 2), (301, 1), (500, 1)]);
    let mimes: Vec<(String, usize)> =
        stats.content_type_distribution.iter().map(|c| (c.name.clone(), c.count)).collect();
    assert_eq!(mimes, vec![("application/json".to_string(), 1), ("text/html".to_string(), 3)]);
    assert_eq!(name_count(&stats.method_distribution, "GET"), Some(3));
    assert_eq!(name_count(&stats.method_distribution, "POST"), Some(1));
    // a.com, b.com and "unknown"
    assert_eq!(stats.unique_domains, 3);
    // the total is of response content sizes: 4 entries × 1
    assert_eq!(stats.total_bytes, 4);
}

#[test]
fn response_size_uses_content_size() {
    let mut entry = make_entry(200, 500, "text/html", 1.0, "GET", "https://example.com/");
    entry.response.body_size = 40;
    entry.request.body_size = 7;
    entry.request.headers_size = -1;
    // 500 content + 200 response headers + 0 request headers + 7 request body
    assert_eq!(response_size(&entry), 707);
}

#[test]
fn response_size_prefers_content_size_to_body_size() {
    let mut entry = make_entry(200, 1000, "text/html", 1.0, "GET", "https://example.com/");
    entry.response.body_size = 300;
    // 1000 content + 200 response headers + 100 request headers + 0 request body
    assert_eq!(response_size(&entry), 1300);
}

#[test]
fn total_bytes_sums_content_sizes() {
    let log = make_log(vec![make_entry(200, 500, "text/html", 100.0, "GET", "https://example.com/")]);
    assert_eq!(compute(&log).total_bytes, 500);
}

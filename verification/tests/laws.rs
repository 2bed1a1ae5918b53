//! The library-wide properties, checked on concrete logs.

use harvey::cli::GlobalArgs;
use harvey::commands::domains::build_summaries;
use harvey::commands::endpoints::build_endpoints;
use harvey::commands::entries::{self, EntriesArgs, SortBy, SortDir};
use harvey::commands::inspect::{timing_bottleneck, truncate};
use harvey::har::filter::{filter_entries, EntryPredicate};
use harvey::har::stats::{compute, response_size};
use harvey::har::types::{Cache, Content, Creator, Entry, Har, Log, Millis, Request, Response, Timings};

fn ms(x: f64) -> Millis {
    Millis { bits: x.to_bits() }
}

fn value(m: Millis) -> f64 {
    f64::from_bits(m.bits)
}

fn entry(time: f64, method: &str, url: &str, status: u16, mime: &str, body: i64) -> Entry {
    Entry {
        started_date_time: "2024-01-01T00:00:00Z".into(),
        time: ms(time),
        request: Request {
            method: method.into(),
            url: url.into(),
            http_version: "HTTP/1.1".into(),
            cookies: vec![],
            headers: vec![],
            query_string: vec![],
            post_data: None,
            headers_size: 50,
            body_size: -1,
            comment: None,
        },
        response: Response {
            status,
            status_text: "".into(),
            http_version: "HTTP/1.1".into(),
            cookies: vec![],
            headers: vec![],
            content: Content {
                size: 7,
                compression: None,
                mime_type: mime.into(),
                text: None,
                encoding: None,
                comment: None,
            },
            redirect_url: String::new(),
            headers_size: -1,
            body_size: body,
            comment: None,
        },
        cache: Cache { before_request: None, after_request: None, comment: None },
        timings: Timings {
            blocked: None,
            dns: None,
            connect: None,
            send: ms(-1.0),
            wait: ms(-1.0),
            receive: ms(-1.0),
            ssl: None,
            comment: None,
        },
        server_ip_address: None,
        connection: None,
        pageref: None,
        comment: None,
    }
}

fn sample() -> Vec<Entry> {
    vec![
        entry(12.0, "GET", "https://a.example/x?1", 200, "text/html", 10),
        entry(3.5, "GET", "https://b.example/y", 404, "text/html", -1),
        entry(99.0, "POST", "https://a.example/x", 200, "application/json", 0),
        entry(7.25, "GET", "https://c.example/z", 500, "text/plain", 1000),
        entry(12.0, "DELETE", "bad url", 204, "", 3),
        entry(0.0, "GET", "https://a.example/x?2", 200, "text/html", 4),
    ]
}

fn log(entries: Vec<Entry>) -> Log {
    Log {
        version: "1.2".into(),
        creator: Creator { name: "t".into(), version: "1".into(), comment: None },
        browser: None,
        pages: None,
        entries,
        comment: None,
    }
}

#[test]
fn distributions_account_for_every_entry() {
    let l = log(sample());
    let stats = compute(&l);
    let statuses: usize = stats.status_distribution.iter().map(|c| c.count).sum();
    let mimes: usize = stats.content_type_distribution.iter().map(|c| c.count).sum();
    let methods: usize = stats.method_distribution.iter().map(|c| c.count).sum();
    assert_eq!(statuses, stats.total_entries);
    assert_eq!(mimes, stats.total_entries);
    assert_eq!(methods, stats.total_entries);
    assert!(stats.unique_domains <= stats.total_entries);
    assert_eq!(stats.unique_domains, 4);
}

#[test]
fn time_bounds_hold_for_every_entry() {
    let l = log(sample());
    let stats = compute(&l);
    for e in &l.entries {
        assert!(value(stats.min_time_ms) <= value(e.time));
        assert!(value(e.time) <= value(stats.max_time_ms));
    }
    assert_eq!(value(stats.min_time_ms), 0.0);
    assert_eq!(value(stats.max_time_ms), 99.0);
}

#[test]
fn stats_do_not_depend_on_entry_order() {
    let forward = compute(&log(sample()));
    let mut reversed_entries = sample();
    reversed_entries.reverse();
    reversed_entries.swap(1, 4);
    let backward = compute(&log(reversed_entries));
    assert_eq!(forward.total_entries, backward.total_entries);
    assert_eq!(forward.total_bytes, backward.total_bytes);
    assert_eq!(forward.unique_domains, backward.unique_domains);
    let bits = |s: &harvey::har::stats::Stats| s.sorted_times.iter().map(|m| m.bits).collect::<Vec<u64>>();
    assert_eq!(bits(&forward), bits(&backward));
    assert_eq!(forward.min_time_ms.bits, backward.min_time_ms.bits);
    assert_eq!(forward.max_time_ms.bits, backward.max_time_ms.bits);
    let statuses = |s: &harvey::har::stats::Stats| s.status_distribution.iter().map(|c| (c.status, c.count)).collect::<Vec<_>>();
    assert_eq!(statuses(&forward), statuses(&backward));
    assert_eq!(statuses(&forward), vec![(200, 3), (204, 1), (404, 1), (500, 1)]);
    let names = |d: &Vec<harvey::har::stats::NameCount>| d.iter().map(|c| (c.name.clone(), c.count)).collect::<Vec<_>>();
    assert_eq!(names(&forward.content_type_distribution), names(&backward.content_type_distribution));
    assert_eq!(names(&forward.method_distribution), names(&backward.method_distribution));
}

#[test]
fn domain_breakdown_agrees_with_stats() {
    let l = log(sample());
    let stats = compute(&l);
    let s = build_summaries(&l.entries);
    assert_eq!(s.iter().map(|d| d.request_count).sum::<usize>(), stats.total_entries);
    let transfer: u64 = l.entries.iter().map(response_size).sum();
    assert_eq!(s.iter().map(|d| d.total_bytes).sum::<u64>(), transfer);
    // each entry: 7 content + 50 request headers (the other sizes are unknown)
    assert_eq!(transfer, 342);
    // content sizes only
    assert_eq!(stats.total_bytes, 42);
}

#[test]
fn endpoint_listing_accounts_for_every_request() {
    let l = log(sample());
    let refs: Vec<&Entry> = l.entries.iter().collect();
    let s = build_endpoints(&refs);
    assert_eq!(s.iter().map(|e| e.count).sum::<usize>(), 6);
    assert_eq!((s[0].method.as_str(), s[0].path.as_str(), s[0].count), ("GET", "/x", 2));
}

#[test]
fn filters_keep_passing_entries_only_and_are_stable() {
    let l = log(sample());
    let p = EntryPredicate::new().with_status(200).with_method("get");
    let kept = filter_entries(&l.entries, &p);
    assert!(kept.iter().all(|e| p.matches(e)));
    let again: Vec<Entry> = kept.iter().map(|e| (*e).clone()).collect();
    assert_eq!(filter_entries(&again, &p).len(), kept.len());
    assert_eq!(filter_entries(&l.entries, &EntryPredicate::new()).len(), l.entries.len());
}

#[test]
fn listings_are_limited_and_filtered() {
    let h = Har { log: log(sample()) };
    let g = GlobalArgs { verbose: 0, quiet: false, json: false, no_color: false };
    let mut args = EntriesArgs {
        file: "x".into(),
        filter_url: Some("a\\.example".into()),
        filter_status: None,
        filter_method: None,
        filter_mime: None,
        filter_domain: None,
        sort_by: SortBy::Time,
        sort_dir: SortDir::Asc,
        limit: 2,
        include_body: false,
    };
    let report = entries::run(&args, &g, &h).expect("three match");
    assert_eq!(report.entries.len(), 2);
    assert!(report.entries.iter().all(|e| e.request.url.contains("a.example")));
    args.limit = 10;
    let report = entries::run(&args, &g, &h).expect("three match");
    assert_eq!(report.entries.len(), 3);
    let times: Vec<f64> = report.entries.iter().map(|e| value(e.time)).collect();
    assert_eq!(times, vec![0.0, 12.0, 99.0]);
}

#[test]
fn truncated_text_fits_its_budget() {
    for (s, limit) in [("", 0usize), ("abc", 3), ("abcdef", 3), ("\u{e9}\u{e9}\u{e9}", 2), ("\u{1f600}x", 1)] {
        let r = truncate(s, limit);
        if s.chars().count() <= limit {
            assert_eq!(r, s);
        } else {
            assert!(r.ends_with('\u{2026}'));
            let prefix = &r[..r.len() - '\u{2026}'.len_utf8()];
            assert!(s.starts_with(prefix));
            assert_eq!(prefix.chars().count(), limit);
        }
    }
}

#[test]
fn bottleneck_is_unknown_only_without_phases() {
    let e = entry(1.0, "GET", "https://a/", 200, "", 0);
    assert_eq!(timing_bottleneck(&e.timings), "unknown");
    let mut t = e.timings.clone();
    t.dns = Some(ms(0.0));
    assert_eq!(timing_bottleneck(&t), "dns");
}

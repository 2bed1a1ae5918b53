//! Capture pairing, validators, exit statuses and display helpers.

use harvey::cli::GlobalArgs;
use harvey::commands::capture::{
    body_text, build_entries, capture_source, captured_entries, chrome_profile_dirs, debugging_port_arg, launch_url,
    truncate_url, url_filter, CaptureArgs, CaptureError, CaptureLog, CaptureSource, ProfilePlatform, StagedRequest,
    StagedResponse,
};
use harvey::har::parser::{check_entries, ParseError};
use harvey::har::types::{Creator, Har, Log};
use harvey::outcome::{exit_code, log_filter, use_ansi, Failure};
use harvey::sizes::{format_bytes, format_size};
use harvey::validators::{dir_outcome, existing_dir, existing_file, file_outcome, valid_url};

fn capture_args() -> CaptureArgs {
    CaptureArgs {
        url: Some("https://example.com".into()),
        timeout: 30,
        no_headless: false,
        filter_url: None,
        include_body: false,
        chrome: None,
        user_data_dir: None,
        profile: None,
        watch: false,
        connect: None,
        debugging_port: None,
    }
}

fn request(id: &str, method: &str) -> StagedRequest {
    StagedRequest {
        request_id: id.into(),
        method: method.into(),
        request_headers: vec![("accept".into(), method.to_lowercase())],
    }
}

fn response(id: &str, url: &str) -> StagedResponse {
    StagedResponse {
        request_id: id.into(),
        url: url.into(),
        status: 200,
        status_text: "OK".into(),
        response_headers: vec![("content-type".into(), "text/html".into())],
        mime_type: "text/html".into(),
        encoded_data_length_bits: 1234.0f64.to_bits(),
    }
}

// ---------------------------------------------------------------------------
// capture
// ---------------------------------------------------------------------------

#[test]
fn capture_pairs_responses_with_latest_request() {
    let mut log = CaptureLog::new();
    log.record_request(request("1", "GET"));
    log.record_request(request("2", "POST"));
    log.record_request(request("1", "PUT"));
    log.record_response(response("1", "https://a.example/"));
    log.record_response(response("9", "https://b.example/"));
    log.record_response(response("2", "https://c.example/"));
    log.record_finished("2".into());
    let entries = build_entries(&log, true);
    assert_eq!(entries.len(), 3);
    assert_eq!(entries[0].method, "PUT");
    assert_eq!(entries[0].request_headers, vec![("accept".to_string(), "put".to_string())]);
    assert!(!entries[0].fetch_body);
    assert_eq!(entries[1].method, "UNKNOWN");
    assert!(entries[1].request_headers.is_empty());
    assert_eq!(entries[2].method, "POST");
    assert!(entries[2].fetch_body);
    assert_eq!(entries[2].url, "https://c.example/");
    assert_eq!(f64::from_bits(entries[2].size_bits), 1234.0);
    // Bodies are only fetched when asked for.
    assert!(!build_entries(&log, false)[2].fetch_body);
}

#[test]
fn capture_with_no_responses_has_no_results() {
    let mut log = CaptureLog::new();
    log.record_request(request("1", "GET"));
    assert!(matches!(captured_entries(&log, false), Err(CaptureError::NoResults)));
    log.record_response(response("1", "https://a.example/"));
    assert_eq!(captured_entries(&log, false).expect("one").len(), 1);
}

#[test]
fn capture_source_and_launch_plan() {
    let mut args = capture_args();
    args.no_headless = true;
    args.debugging_port = Some(9222);
    args.chrome = Some("/usr/bin/chromium".into());
    match capture_source(&args) {
        CaptureSource::Launch(plan) => {
            assert!(!plan.headless);
            assert_eq!(plan.extra_arg.as_deref(), Some("--remote-debugging-port=9222"));
            assert_eq!(plan.chrome.as_deref(), Some("/usr/bin/chromium"));
            assert_eq!((plan.window_width, plan.window_height), (1280, 900));
        },
        CaptureSource::Connect(_) => panic!("expected a launch"),
    }
    args.connect = Some("http://127.0.0.1:9222".into());
    assert!(matches!(capture_source(&args), CaptureSource::Connect(u) if u == "http://127.0.0.1:9222"));
    assert_eq!(debugging_port_arg(0), "--remote-debugging-port=0");
    assert_eq!(launch_url(&None).unwrap_err(), "--url is required in launch mode");
    assert_eq!(launch_url(&Some("https://x".into())).unwrap(), "https://x");
}

#[test]
fn capture_url_filter() {
    let mut args = capture_args();
    let none = url_filter(&args).expect("no filter");
    assert!(none.passes("anything"));
    args.filter_url = Some("api\\.".into());
    let f = url_filter(&args).expect("valid");
    assert!(f.passes("https://api.example.com/"));
    assert!(!f.passes("https://www.example.com/"));
    args.filter_url = Some("(".into());
    assert!(url_filter(&args).is_err());
}

#[test]
fn capture_profile_locations() {
    assert_eq!(
        chrome_profile_dirs(ProfilePlatform::Linux),
        vec![".config/google-chrome", ".config/chromium", ".config/helium"]
    );
    assert_eq!(
        chrome_profile_dirs(ProfilePlatform::MacOs),
        vec![
            "Library/Application Support/Google/Chrome",
            "Library/Application Support/Chromium",
            "Library/Application Support/net.imput.helium",
        ]
    );
    assert!(chrome_profile_dirs(ProfilePlatform::Other).is_empty());
}

#[test]
fn capture_display_helpers() {
    assert_eq!(truncate_url("https://example.com/", 80), "https://example.com/");
    assert_eq!(truncate_url("abcdefghij", 5), "abcd\u{2026}");
    assert_eq!(truncate_url("ab\u{e9}cd", 4), "ab\u{2026}");
    assert_eq!(body_text(false, "hello"), "hello");
    assert_eq!(body_text(true, "aGVsbG8="), "[base64: 8 bytes]");
    assert_eq!(body_text(true, "\u{e9}"), "[base64: 2 bytes]");
}

// ---------------------------------------------------------------------------
// validators
// ---------------------------------------------------------------------------

#[test]
fn validators_report_missing_paths() {
    assert_eq!(existing_file("/proc/self/exe").expect("the running program is a file"), "/proc/self/exe");
    assert_eq!(existing_file("/").unwrap_err(), "file not found: /");
    assert_eq!(existing_file("definitely/not/here.har").unwrap_err(), "file not found: definitely/not/here.har");
    assert_eq!(existing_dir("/").expect("the root exists"), "/");
    assert_eq!(existing_dir("/dev/null").unwrap_err(), "directory not found: /dev/null");
    assert_eq!(file_outcome("a", false).unwrap_err(), "file not found: a");
    assert_eq!(dir_outcome("b", true).unwrap(), "b");
}

#[test]
fn validators_check_urls() {
    assert_eq!(valid_url("https://example.com/x").unwrap(), "https://example.com/x");
    let err = valid_url("not a url").unwrap_err();
    assert!(err.starts_with("invalid URL: "));
    assert_eq!(err, format!("invalid URL: {}", url::Url::parse("not a url").unwrap_err()));
}

// ---------------------------------------------------------------------------
// outcome
// ---------------------------------------------------------------------------

fn empty_har() -> Har {
    Har {
        log: Log {
            version: "1.2".into(),
            creator: Creator { name: "t".into(), version: "1".into(), comment: None },
            browser: None,
            pages: None,
            entries: vec![],
            comment: None,
        },
    }
}

#[test]
fn exit_codes_follow_the_table() {
    let io = std::io::Error::new(std::io::ErrorKind::Other, "disk on fire");
    let json = serde_json::from_str::<serde_json::Value>("not json").unwrap_err();
    assert_eq!(exit_code(&Failure::Load(ParseError::FileNotFound("x".into()))), 2);
    assert_eq!(exit_code(&Failure::Load(ParseError::InvalidJson { path: "x".into(), source: json })), 3);
    assert_eq!(exit_code(&Failure::Load(ParseError::MissingLog { path: "x".into() })), 3);
    assert_eq!(exit_code(&Failure::Load(ParseError::NoEntries { path: "x".into() })), 0);
    assert_eq!(exit_code(&Failure::Load(ParseError::Io { path: "x".into(), source: io })), 1);
    assert_eq!(exit_code(&Failure::Other("NO_RESULTS".into())), 4);
    assert_eq!(exit_code(&Failure::Other("capture: NO_RESULTS".into())), 4);
    assert_eq!(exit_code(&Failure::Other("NO_MATCH".into())), 1);
    assert_eq!(exit_code(&Failure::Other(String::new())), 1);
}

#[test]
fn parse_errors_have_messages() {
    assert_eq!(ParseError::FileNotFound("a.har".into()).message(), "file not found: a.har");
    assert_eq!(
        ParseError::MissingLog { path: "a.har".into() }.message(),
        "invalid HAR structure in a.har: missing 'log' field"
    );
    assert_eq!(ParseError::NoEntries { path: "a.har".into() }.message(), "HAR file a.har contains no entries");
    let io = std::io::Error::new(std::io::ErrorKind::Other, "boom");
    assert_eq!(ParseError::Io { path: "a.har".into(), source: io }.message(), "failed to read file a.har: boom");
    let json = serde_json::from_str::<serde_json::Value>("{").unwrap_err();
    let expected = format!("invalid JSON in a.har: {json}");
    assert_eq!(ParseError::InvalidJson { path: "a.har".into(), source: json }.message(), expected);
    match check_entries(empty_har(), "e.har") {
        Err(ParseError::NoEntries { path }) => assert_eq!(path, "e.har"),
        _ => panic!("expected NoEntries"),
    }
}

#[test]
fn logging_setup() {
    let mut g = GlobalArgs { verbose: 0, quiet: false, json: false, no_color: false };
    assert_eq!(log_filter(&g, None), "harvey=info");
    assert_eq!(log_filter(&g, Some("warn".into())), "warn");
    g.verbose = 1;
    assert_eq!(log_filter(&g, Some("warn".into())), "harvey=debug");
    g.verbose = 3;
    assert_eq!(log_filter(&g, None), "harvey=trace");
    g.quiet = true;
    assert_eq!(log_filter(&g, None), "harvey=error");
    assert!(use_ansi(&g, false));
    assert!(!use_ansi(&g, true));
    g.no_color = true;
    assert!(!use_ansi(&g, false));
}

// ---------------------------------------------------------------------------
// sizes
// ---------------------------------------------------------------------------

fn reference_bytes(bytes: u64) -> String {
    const KB: u64 = 1024;
    const MB: u64 = KB * 1024;
    if bytes >= MB {
        format!("{:.1} MB", bytes as f64 / MB as f64)
    } else if bytes >= KB {
        format!("{:.1} KB", bytes as f64 / KB as f64)
    } else {
        format!("{bytes} B")
    }
}

fn reference_size(bytes: u64) -> String {
    const KB: u64 = 1024;
    const MB: u64 = KB * 1024;
    if bytes >= MB {
        format!("{:.1}M", bytes as f64 / MB as f64)
    } else if bytes >= KB {
        format!("{:.1}K", bytes as f64 / KB as f64)
    } else {
        format!("{bytes}B")
    }
}

#[test]
fn sizes_examples() {
    assert_eq!(format_bytes(0), "0 B");
    assert_eq!(format_bytes(1023), "1023 B");
    assert_eq!(format_bytes(1024), "1.0 KB");
    assert_eq!(format_bytes(1536), "1.5 KB");
    assert_eq!(format_bytes(13056), "12.8 KB");
    assert_eq!(format_bytes(1048576), "1.0 MB");
    assert_eq!(format_size(512), "512B");
    assert_eq!(format_size(2048), "2.0K");
    assert_eq!(format_size(5 * 1048576), "5.0M");
}

#[test]
fn sizes_agree_with_float_formatting() {
    let mut samples: Vec<u64> = Vec::new();
    for b in 0..5000u64 {
        samples.push(b);
    }
    for k in 0..4000u64 {
        samples.push(k * 256 + 1024);
        samples.push(k * 104857 + 1048576);
        samples.push(k * 52428 + 1048576 - 3);
    }
    for shift in 50..64u32 {
        let base = 1u64 << shift;
        for d in 0..40u64 {
            samples.push(base.wrapping_add(d));
            samples.push(base.wrapping_sub(d));
            samples.push(base.wrapping_add(d * 977));
        }
    }
    samples.push(u64::MAX);
    samples.push(u64::MAX - 1024);
    samples.push((1u64 << 53) + 1);
    samples.push((1u64 << 53) + 3);
    for b in samples {
        assert_eq!(format_bytes(b), reference_bytes(b), "bytes {b}");
        assert_eq!(format_size(b), reference_size(b), "bytes {b}");
    }
}

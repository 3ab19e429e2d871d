use dns_blocklist_compiler::config::{SourceEntry, SourcesConfig};
use dns_blocklist_compiler::downloader::{
    check_response_size, compute_backoff_ms, join_url, random_jitter_bps, retry_step, source_url, AttemptEvent,
    DownloadOutcome, DownloadResult, RetryAction, RetryState, MAX_RESPONSE_BYTES, RETRY_ATTEMPTS,
};
use dns_blocklist_compiler::validator::ValidationError;
use std::collections::HashMap;

fn make_source(category: &str, cat_idx: u8, file: &str, base_url: &str) -> SourceEntry {
    SourceEntry {
        category: category.to_string(),
        category_index: cat_idx,
        file: file.to_string(),
        base_url: base_url.to_string(),
        format: "domains".to_string(),
        display_name: format!("Test {}", category),
        min_size_bytes: None,
        min_parsed_entries: None,
        min_trie_entries: None,
    }
}

#[test]
fn test_download_outcome_ok() {
    let outcome = DownloadOutcome::Downloaded("example.com\n".into());
    assert!(outcome.is_ok());
    assert_eq!(outcome.content(), Some("example.com\n"));
}

#[test]
fn test_download_outcome_rejected_has_no_content() {
    let outcome = DownloadOutcome::Rejected(ValidationError::HttpStatus { source: "X".into(), status: 404 });
    assert!(!outcome.is_ok());
    assert_eq!(outcome.content(), None);
}

#[test]
fn test_download_result_with_content() {
    let source = make_source("ads", 0, "test.txt", "domains");
    let result = DownloadResult { source, outcome: DownloadOutcome::Downloaded("example.com\ntest.org\n".to_string()) };
    assert!(result.outcome.is_ok());
    assert_eq!(result.source.category, "ads");
    assert_eq!(result.source.category_index, 0);
    let body = result.outcome.content().unwrap();
    assert!(body.contains("example.com"));
}

#[test]
fn test_download_result_without_content() {
    let source = make_source("trackers", 1, "missing.txt", "domains");
    let result = DownloadResult { source, outcome: DownloadOutcome::NetworkError("dns failure".into()) };
    assert!(!result.outcome.is_ok());
    assert_eq!(result.source.file, "missing.txt");
}

#[test]
fn test_url_resolution() {
    let mut base_urls = HashMap::new();
    base_urls.insert(
        "domains".to_string(),
        "https://cdn.jsdelivr.net/gh/hagezi/dns-blocklists@latest/domains".to_string(),
    );
    let source = make_source("ads", 0, "light.txt", "domains");

    let base_url = base_urls.get(&source.base_url).unwrap();
    let url = join_url(base_url, &source.file);
    assert_eq!(url, "https://cdn.jsdelivr.net/gh/hagezi/dns-blocklists@latest/domains/light.txt");

    let config = SourcesConfig {
        version: 1,
        description: "t".into(),
        base_urls: base_urls.into_iter().collect(),
        sources: vec![source.clone()],
    };
    assert_eq!(source_url(&config, &source).unwrap(), url);
}

#[test]
fn compute_backoff_ms_min_is_negative_20_percent() {
    assert_eq!(compute_backoff_ms(0, 0), 800);
}

#[test]
fn compute_backoff_ms_max_is_positive_20_percent() {
    assert_eq!(compute_backoff_ms(0, 10_000), 1200);
}

#[test]
fn compute_backoff_ms_doubles_per_attempt() {
    assert_eq!(compute_backoff_ms(0, 5_000), 1000);
    assert_eq!(compute_backoff_ms(1, 5_000), 2000);
    assert_eq!(compute_backoff_ms(2, 5_000), 4000);
}

#[test]
fn backoff_caps_jitter_and_stays_in_span() {
    assert_eq!(compute_backoff_ms(1, 60_000), 2400);
    assert_eq!(compute_backoff_ms(2, 2_500), 3600);
    assert_eq!(compute_backoff_ms(42, 0), 800 * (1u64 << 42));
    for j in [0u32, 1, 4_999, 9_999, 10_000] {
        let b = compute_backoff_ms(3, j);
        assert!((6400..=9600).contains(&b));
    }
    assert!(random_jitter_bps() < 10_000);
}

#[test]
fn unknown_base_url_is_an_error() {
    let config = SourcesConfig { version: 1, description: String::new(), base_urls: Vec::new(), sources: vec![] };
    let source = make_source("ads", 0, "light.txt", "nowhere");
    assert_eq!(source_url(&config, &source).unwrap_err(), "unknown baseUrl 'nowhere'");
}

#[test]
fn response_cap() {
    assert!(check_response_size(MAX_RESPONSE_BYTES - 1).is_ok());
    assert_eq!(check_response_size(MAX_RESPONSE_BYTES).unwrap_err(), "response exceeded 100 MB cap");
}

fn response(status: u16, body: &str) -> AttemptEvent {
    AttemptEvent::Response { status, content_type: Some("text/plain".into()), body: body.into() }
}

#[test]
fn retry_finishes_on_a_good_response() {
    let src = make_source("ads", 0, "a.txt", "domains");
    let (state, action) = retry_step(RetryState::new(), response(200, "example.com\n"), &src, 0);
    assert_eq!(state.attempt, 1);
    match action {
        RetryAction::Finish(DownloadOutcome::Downloaded(body)) => assert_eq!(body, "example.com\n"),
        _ => panic!("expected a finished download"),
    }
    let (_, action) = retry_step(RetryState::new(), response(404, "x"), &src, 0);
    assert!(matches!(action, RetryAction::Finish(DownloadOutcome::Rejected(ValidationError::HttpStatus { status: 404, .. }))));
}

#[test]
fn retry_backs_off_then_gives_up_with_last_failure() {
    let src = make_source("ads", 0, "a.txt", "domains");
    let (s1, a1) = retry_step(RetryState::new(), AttemptEvent::Network("timeout".into()), &src, 5_000);
    assert!(matches!(a1, RetryAction::Retry { backoff_ms: 1000 }));
    let (s2, a2) = retry_step(s1, response(503, ""), &src, 0);
    assert!(matches!(a2, RetryAction::Retry { backoff_ms: 1600 }));
    assert_eq!(s2.attempt, 2);
    let (s3, a3) = retry_step(s2, AttemptEvent::Network("reset".into()), &src, 10_000);
    assert!(matches!(a3, RetryAction::Retry { backoff_ms: 4800 }));
    assert_eq!(s3.attempt, 3);
    let (s4, a4) = retry_step(s3, AttemptEvent::Network("reset".into()), &src, 0);
    assert_eq!(s4.attempt, RETRY_ATTEMPTS);
    assert_eq!(RETRY_ATTEMPTS, 4);
    // A 5xx seen earlier wins over the last network error.
    assert!(matches!(a4, RetryAction::Finish(DownloadOutcome::Rejected(ValidationError::HttpStatus { status: 503, .. }))));

    let mut state = RetryState::new();
    let mut last = None;
    for i in 0..RETRY_ATTEMPTS {
        let (s, a) = retry_step(state, AttemptEvent::Network(format!("e{i}")), &src, 0);
        state = s;
        last = Some(a);
    }
    match last.unwrap() {
        RetryAction::Finish(DownloadOutcome::NetworkError(msg)) => assert_eq!(msg, "e3"),
        _ => panic!("expected a network error"),
    }
}

#[test]
fn url_resolution_picks_the_named_base() {
    let config = SourcesConfig {
        version: 1,
        description: String::new(),
        base_urls: vec![
            ("domains".to_string(), "https://a.example/domains".to_string()),
            ("adblock".to_string(), "https://a.example/adblock".to_string()),
        ],
        sources: vec![],
    };
    let source = make_source("ads", 0, "pro.txt", "adblock");
    assert_eq!(source_url(&config, &source).unwrap(), "https://a.example/adblock/pro.txt");
}

#[test]
fn backoff_follows_the_shifted_base() {
    assert_eq!(compute_backoff_ms(50, 0), 900_719_925_474_099_200);
    assert_eq!(compute_backoff_ms(61, 10_000), 0);
}

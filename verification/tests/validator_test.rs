use dns_blocklist_compiler::config::SourceEntry;
use dns_blocklist_compiler::validator::{failure_threshold, output_error_aborts, source_failure_decision, SourceFailureDecision, Strictness};
use dns_blocklist_compiler::validator::{
    check_failure_threshold, looks_like_list, validate_download, validate_output_canary, validate_parse, ValidationError,
};

fn fixture_source() -> SourceEntry {
    SourceEntry {
        category: "test".into(),
        category_index: 0,
        file: "test.txt".into(),
        base_url: "domains".into(),
        format: "domains".into(),
        display_name: "Test Source".into(),
        min_size_bytes: None,
        min_parsed_entries: None,
        min_trie_entries: None,
    }
}

#[test]
fn rejects_non_2xx_status() {
    let src = fixture_source();
    let err = validate_download(404, Some("text/plain"), "anything", &src).unwrap_err();
    assert!(matches!(err, ValidationError::HttpStatus { status: 404, .. }));
}

#[test]
fn rejects_empty_body() {
    let src = fixture_source();
    let err = validate_download(200, Some("text/plain"), "", &src).unwrap_err();
    assert!(matches!(err, ValidationError::TooSmall { actual: 0, .. }));
}

#[test]
fn accepts_healthy_download() {
    let src = fixture_source();
    validate_download(200, Some("text/plain"), "example.com\n", &src).unwrap();
}

#[test]
fn rejects_zero_parse_count() {
    let src = fixture_source();
    let err = validate_parse(0, None, &src).unwrap_err();
    assert!(matches!(err, ValidationError::BelowFloor { parsed: 0, .. }));
}

#[test]
fn accepts_nonzero_parse_count() {
    let src = fixture_source();
    validate_parse(1, None, &src).unwrap();
    validate_parse(657403, Some(657403), &src).unwrap();
}

#[test]
fn canary_missing_when_required_bits_absent() {
    let err = validate_output_canary("doubleclick.net", 0b11000, Some(0b01000)).unwrap_err();
    match err {
        ValidationError::CanaryMissing { domain, want, got } => {
            assert_eq!(domain, "doubleclick.net");
            assert_eq!(want, 0b11000);
            assert_eq!(got, 0b01000);
        }
        _ => panic!("wrong variant"),
    }
}

#[test]
fn canary_missing_when_domain_not_in_trie() {
    let err = validate_output_canary("doubleclick.net", 0b11000, None).unwrap_err();
    assert!(matches!(err, ValidationError::CanaryMissing { got: 0, .. }));
}

#[test]
fn canary_ok_when_all_required_bits_present() {
    validate_output_canary("doubleclick.net", 0b11000, Some(0b11000)).unwrap();
    validate_output_canary("doubleclick.net", 0b11000, Some(0b11111)).unwrap();
}

#[test]
fn validation_error_display_formats() {
    let e = ValidationError::HttpStatus { source: "X".into(), status: 404 };
    assert!(e.to_string().contains("404"));

    let e = ValidationError::CountRegression { source: "Ultimate".into(), parsed: 1, expected: 657403 };
    let s = e.to_string();
    assert!(s.contains("657403"));
    assert!(s.contains("Ultimate"));
}

#[test]
fn every_error_message() {
    let cases: Vec<(ValidationError, &str)> = vec![
        (ValidationError::HttpStatus { source: "S".into(), status: 503 }, "S: HTTP status 503 is not 2xx"),
        (ValidationError::TooSmall { source: "S".into(), actual: 5, min: 10 }, "S: body size 5 below floor 10"),
        (
            ValidationError::BadContentType { source: "S".into(), content_type: "text/html".into() },
            "S: rejected Content-Type \"text/html\"",
        ),
        (
            ValidationError::NotADomainList { source: "S".into(), sampled: 30 },
            "S: none of the first 30 non-comment lines parsed as a valid domain",
        ),
        (
            ValidationError::CountRegression { source: "S".into(), parsed: 1, expected: 3 },
            "S: parsed 1 entries, upstream header declared 3 (ratio 33.33% below 90% floor)",
        ),
        (
            ValidationError::BelowFloor { source: "S".into(), parsed: 2, min: 7 },
            "S: parsed 2 below min_parsed_entries 7",
        ),
        (
            ValidationError::CanaryMissing { domain: "d.com".into(), want: 0b11000, got: 0b1000 },
            "canary d.com: expected bits 0b00011000 present, got 0b00001000",
        ),
        (
            ValidationError::TrieEntriesBelowFloor { source: "S".into(), bit: 4, count: 1, min: 100 },
            "S: trie has 1 entries with bit 4 set, below floor 100",
        ),
        (
            ValidationError::AggregateFailures { count: 3, threshold: 2 },
            "3 source(s) failed validation, exceeds threshold of 2",
        ),
        (
            ValidationError::RoundTripMismatch { domain: "d.com".into(), want: 1, got: 0 },
            "round trip d.com: expected bitmap 0b00000001, read back 0b00000000",
        ),
    ];
    for (e, text) in cases {
        assert_eq!(e.to_string(), text);
    }
}

#[test]
fn count_regression_ratio_rounds_like_two_decimals() {
    let e = ValidationError::CountRegression { source: "S".into(), parsed: 2, expected: 3 };
    assert!(e.to_string().contains("(ratio 66.67% below"));
    let e = ValidationError::CountRegression { source: "S".into(), parsed: 89_999, expected: 100_000 };
    assert!(e.to_string().contains("(ratio 90.00% below"));
}

#[test]
fn content_type_rules() {
    let src = fixture_source();
    let body = "example.com\n";
    assert!(validate_download(200, Some("TEXT/PLAIN"), body, &src).is_ok());
    assert!(validate_download(200, Some("text/csv"), body, &src).is_ok());
    assert!(matches!(
        validate_download(200, Some("application/octet-stream"), body, &src),
        Err(ValidationError::BadContentType { .. })
    ));
    assert!(matches!(
        validate_download(200, Some("text/xml; application/xml"), body, &src),
        Err(ValidationError::BadContentType { .. })
    ));
    assert!(matches!(validate_download(199, None, body, &src), Err(ValidationError::HttpStatus { status: 199, .. })));
    assert!(validate_download(299, None, body, &src).is_ok());
}

#[test]
fn smell_test_looks_only_at_first_thirty_lines() {
    let mut body = String::new();
    for _ in 0..30 {
        body.push_str("not a domain\n");
    }
    body.push_str("example.com\n");
    assert!(!looks_like_list(&body, "domains"));
    let mut body2 = String::from("# header\n\n! more\n");
    for _ in 0..29 {
        body2.push_str("not a domain\n");
    }
    body2.push_str("example.com");
    assert!(looks_like_list(&body2, "domains"));
}

#[test]
fn aggregate_failure_threshold() {
    assert!(check_failure_threshold(0, 0).is_ok());
    assert!(check_failure_threshold(2, 2).is_ok());
    assert_eq!(
        check_failure_threshold(3, 2).unwrap_err(),
        ValidationError::AggregateFailures { count: 3, threshold: 2 }
    );
}

#[test]
fn strictness_rules() {
    assert_eq!(failure_threshold(Strictness::Strict), 0);
    assert_eq!(failure_threshold(Strictness::BestEffort), 2);
    let floor = ValidationError::TrieEntriesBelowFloor { source: "S".into(), bit: 1, count: 0, min: 1 };
    let canary = ValidationError::CanaryMissing { domain: "d".into(), want: 1, got: 0 };
    let trip = ValidationError::RoundTripMismatch { domain: "d".into(), want: 1, got: 0 };
    assert!(output_error_aborts(&floor, Strictness::Strict));
    assert!(!output_error_aborts(&floor, Strictness::BestEffort));
    assert!(output_error_aborts(&canary, Strictness::BestEffort));
    assert!(output_error_aborts(&trip, Strictness::BestEffort));
}

#[test]
fn zero_floor_still_rejects_an_empty_parse() {
    let mut src = fixture_source();
    src.min_parsed_entries = Some(0);
    let err = validate_parse(0, None, &src).unwrap_err();
    assert!(matches!(err, ValidationError::BelowFloor { parsed: 0, min: 1, .. }));
    let err = validate_parse(0, Some(0), &src).unwrap_err();
    assert!(matches!(err, ValidationError::BelowFloor { parsed: 0, min: 1, .. }));
    validate_parse(1, None, &src).unwrap();
}

#[test]
fn count_regression_ratio_rounds_exact_halves_to_even() {
    let e = ValidationError::CountRegression { source: "S".into(), parsed: 1, expected: 32 };
    assert!(e.to_string().contains("(ratio 3.12% below"));
    let e = ValidationError::CountRegression { source: "S".into(), parsed: 3, expected: 32 };
    assert!(e.to_string().contains("(ratio 9.38% below"));
}

#[test]
fn strict_aborts_on_any_failed_download_then_on_failed_parses() {
    assert!(matches!(
        source_failure_decision(Strictness::Strict, 1, 3),
        SourceFailureDecision::DownloadFailures { failed: 1, threshold: 0 }
    ));
    assert!(matches!(source_failure_decision(Strictness::Strict, 0, 2), SourceFailureDecision::ParseFailures { count: 2 }));
    assert!(matches!(source_failure_decision(Strictness::Strict, 0, 0), SourceFailureDecision::Proceed));
}

#[test]
fn best_effort_tolerates_two_failed_sources_in_all() {
    assert!(matches!(source_failure_decision(Strictness::BestEffort, 1, 1), SourceFailureDecision::Proceed));
    match source_failure_decision(Strictness::BestEffort, 2, 1) {
        SourceFailureDecision::TooManyFailures(ValidationError::AggregateFailures { count: 3, threshold: 2 }) => {}
        _ => panic!("expected an aggregate failure"),
    }
}

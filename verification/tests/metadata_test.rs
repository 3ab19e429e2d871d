use dns_blocklist_compiler::metadata::{
    base36_encode, date_version_at, generate_build_id, generate_metadata, render_metadata, timestamp_at, unix_to_date,
};

#[test]
fn test_base36_encode() {
    assert_eq!(base36_encode(0), "0");
    assert_eq!(base36_encode(35), "z");
    assert_eq!(base36_encode(36), "10");
    assert_eq!(base36_encode(1234567890), "kf12oi");
}

#[test]
fn test_unix_to_date_epoch() {
    let (y, m, d) = unix_to_date(0);
    assert_eq!((y, m, d), (1970, 1, 1));
}

#[test]
fn test_unix_to_date_known() {
    // 2024-01-15 00:00:00 UTC = 1705276800
    let (y, m, d) = unix_to_date(1705276800);
    assert_eq!((y, m, d), (2024, 1, 15));
}

#[test]
fn test_generate_build_id_not_empty() {
    let id = generate_build_id();
    assert!(!id.is_empty());
}

#[test]
fn test_generate_metadata_structure() {
    let meta = generate_metadata(
        "test123",
        1000,
        "abc123",
        500,
        100,
        &["cat1".to_string(), "cat2".to_string()],
        &[("cat1".to_string(), 400, 50), ("cat2".to_string(), 100, 50)],
    );
    assert!(meta.contains("\"version\""));
    assert!(meta.contains("\"filename\": \"blocklist-test123.bin.gz\""));
    assert!(meta.contains("\"size\": 1000"));
    assert!(meta.contains("\"sha256\": \"abc123\""));
    assert!(meta.contains("\"domainCount\": 600"));
    assert!(meta.contains("\"exactCount\": 500"));
    assert!(meta.contains("\"wildcardCount\": 100"));
}

#[test]
fn unix_to_date_leap_days_and_century_rules() {
    // 2000-02-29 (a leap day in a year divisible by 400)
    assert_eq!(unix_to_date(951782400), (2000, 2, 29));
    // 2000-03-01
    assert_eq!(unix_to_date(951868800), (2000, 3, 1));
    // 2100-03-01: 2100 is not a leap year, so Feb 28 is followed by Mar 1
    assert_eq!(unix_to_date(4107542399), (2100, 2, 28));
    assert_eq!(unix_to_date(4107542400), (2100, 3, 1));
    // last second of 1999
    assert_eq!(unix_to_date(946684799), (1999, 12, 31));
    // the largest timestamp gives a date without overflow
    let (y, m, d) = unix_to_date(u64::MAX);
    assert!(y > 1970 && (1..=12).contains(&m) && (1..=31).contains(&d));
}

#[test]
fn version_and_timestamp_formats() {
    assert_eq!(date_version_at(1705276800), "2024.01.15");
    assert_eq!(timestamp_at(1705276800 + 3 * 3600 + 4 * 60 + 5), "2024-01-15T03:04:05Z");
    assert_eq!(timestamp_at(0), "1970-01-01T00:00:00Z");
    assert_eq!(date_version_at(951868800), "2000.03.01");
}

#[test]
fn render_metadata_exact_document() {
    let meta = render_metadata(
        "2024.01.15",
        "2024-01-15T00:00:00Z",
        "abc",
        10,
        "ff",
        2,
        1,
        &["a".to_string(), "b".to_string()],
        &[("a".to_string(), 2, 0), ("b".to_string(), 0, 1)],
    );
    let expected = "{\n  \"version\": \"2024.01.15\",\n  \"filename\": \"blocklist-abc.bin.gz\",\n  \"size\": 10,\n  \"sha256\": \"ff\",\n  \"domainCount\": 3,\n  \"exactCount\": 2,\n  \"wildcardCount\": 1,\n  \"categories\": [\"a\", \"b\"],\n  \"categoryCount\": 2,\n  \"published\": \"2024-01-15T00:00:00Z\",\n  \"minAppVersion\": \"1.0.0\",\n  \"categoryStats\": {\n      \"a\": {\"exact\": 2, \"wildcard\": 0},\n      \"b\": {\"exact\": 0, \"wildcard\": 1}\n    }\n}";
    assert_eq!(meta, expected);
}

#[test]
fn render_metadata_empty_lists_and_wide_sum() {
    let meta = render_metadata("v", "p", "id", 0, "", usize::MAX, 1, &[], &[]);
    assert!(meta.contains("\"categories\": [],"));
    assert!(meta.contains("\"categoryStats\": {\n\n    }"));
    assert!(meta.contains(&format!("\"domainCount\": {}", usize::MAX as u128 + 1)));
}

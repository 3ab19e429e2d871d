use dns_blocklist_compiler::binary::compile;
use dns_blocklist_compiler::config::SourceEntry;
use dns_blocklist_compiler::parser::DomainStore;
use dns_blocklist_compiler::pipeline::{build_artifacts, ingest_source, sha256_hex};
use dns_blocklist_compiler::validator::ValidationError;
use flate2::read::GzDecoder;
use std::io::Read;

fn source(format: &str, index: u8, min_parsed: Option<usize>) -> SourceEntry {
    SourceEntry {
        category: "c".into(),
        category_index: index,
        file: "f.txt".into(),
        base_url: "b".into(),
        format: format.into(),
        display_name: "Src".into(),
        min_size_bytes: None,
        min_parsed_entries: min_parsed,
        min_trie_entries: None,
    }
}

#[test]
fn sha256_hex_known_digests() {
    assert_eq!(sha256_hex(b""), "e3b0c44298fc1c149afbf4c8996fb92427ae41e4649b934ca495991b7852b855");
    assert_eq!(sha256_hex(b"abc"), "ba7816bf8f01cfea414140de5dae2223b00361a396177a9cb410ff61f20015ad");
}

#[test]
fn build_artifacts_hash_and_gzip_describe_the_image() {
    let mut store = DomainStore::new();
    store.add_exact("a.example.com", 0);
    store.add_wildcard(".b.example.com", 1);
    let cats = vec![("ads".to_string(), 0u8)];
    let a = build_artifacts(&store, &cats).unwrap();
    assert_eq!(a.binary, compile(&store, &cats));
    assert_eq!(a.sha256, sha256_hex(&a.binary));
    assert_eq!(a.sha256.len(), 64);
    let gz = a.compressed.unwrap();
    assert_eq!(&gz[0..3], &[0x1f, 0x8b, 0x08]);
    let mut out = Vec::new();
    GzDecoder::new(&gz[..]).read_to_end(&mut out).unwrap();
    assert_eq!(out, a.binary);
    assert!(build_artifacts(&store, &[("x".repeat(300), 0u8)]).is_none());
}

#[test]
fn ingest_counts_and_checks_against_header() {
    let mut store = DomainStore::new();
    let content = "# Number of entries: 3\na.example.com\n*.w.example.com\nbad\n";
    let report = ingest_source(content, &source("domains", 2, None), &mut store);
    assert_eq!(report.expected, Some(3));
    assert_eq!((report.exact, report.wildcard), (1, 1));
    // 2 of 3 declared is below 90%.
    assert_eq!(
        report.verdict.unwrap_err(),
        ValidationError::CountRegression { source: "Src".into(), parsed: 2, expected: 3 }
    );
    assert_eq!(store.exact_domains.get("a.example.com"), Some(1 << 2));
    assert_eq!(store.wildcard_suffixes.get(".w.example.com"), Some(1 << 2));

    let report = ingest_source("x.example.org\n", &source("domains", 3, Some(1)), &mut store);
    assert_eq!(report.expected, None);
    assert!(report.verdict.is_ok());
    assert_eq!(store.exact_domains.len(), 2);
}

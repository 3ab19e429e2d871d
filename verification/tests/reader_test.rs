use dns_blocklist_compiler::binary;
use dns_blocklist_compiler::parser::DomainStore;
use dns_blocklist_compiler::reader::{
    count_entries_per_bit, lookup_exact, lookup_wildcard, parse_categories, parse_header, walk_terminals,
};
use std::collections::BTreeMap;

fn build_small_store() -> DomainStore {
    let mut s = DomainStore::new();
    s.add_exact("doubleclick.net", 3);
    s.add_exact("doubleclick.net", 4);
    s.add_exact("www.doubleclick.net", 3);
    s.add_exact("www.doubleclick.net", 4);
    s.add_exact("phishing.example.com", 8);
    s.add_wildcard(".ads.example.com", 0);
    s
}

#[test]
fn round_trips_exact_lookups() {
    let store = build_small_store();
    let cats = vec![
        ("adsTrackersProPlus".into(), 3u8),
        ("adsTrackersUltimate".into(), 4u8),
        ("malwarePhishing".into(), 8u8),
        ("adsTrackersLight".into(), 0u8),
    ];
    let data = binary::compile(&store, &cats);
    let header = parse_header(&data).unwrap();

    assert_eq!(lookup_exact(&data, &header, "doubleclick.net"), Some((1u32 << 3) | (1u32 << 4)));
    assert_eq!(lookup_exact(&data, &header, "phishing.example.com"), Some(1u32 << 8));
    assert_eq!(lookup_exact(&data, &header, "not-in-list.com"), None);
}

#[test]
fn round_trips_wildcard_lookups() {
    let store = build_small_store();
    let cats = vec![("adsTrackersLight".into(), 0u8)];
    let data = binary::compile(&store, &cats);
    let header = parse_header(&data).unwrap();

    assert_eq!(lookup_wildcard(&data, &header, ".ads.example.com"), Some(1u32 << 0));
    assert_eq!(lookup_wildcard(&data, &header, ".missing.com"), None);
}

#[test]
fn walk_terminals_visits_every_exact_entry_once() {
    let store = build_small_store();
    let cats = vec![("adsTrackersLight".into(), 0u8)];
    let data = binary::compile(&store, &cats);
    let header = parse_header(&data).unwrap();

    let found: Vec<(String, u32)> = walk_terminals(&data, header.exact_trie_offset as usize)
        .into_iter()
        .map(|(key, bitmap)| (String::from_utf8_lossy(&key).into_owned(), bitmap))
        .collect();

    assert_eq!(found.len(), 3);
    let by_key: BTreeMap<_, _> = found.into_iter().collect();
    assert_eq!(by_key["doubleclick.net"], (1u32 << 3) | (1u32 << 4));
    assert_eq!(by_key["phishing.example.com"], 1u32 << 8);
}

#[test]
fn count_entries_per_bit_matches_store() {
    let store = build_small_store();
    let cats = vec![("adsTrackersLight".into(), 0u8)];
    let data = binary::compile(&store, &cats);
    let header = parse_header(&data).unwrap();

    let exact_counts = count_entries_per_bit(&data, header.exact_trie_offset as usize);
    assert_eq!(exact_counts[3], 2);
    assert_eq!(exact_counts[4], 2);
    assert_eq!(exact_counts[8], 1);
    assert_eq!(exact_counts[0], 0);

    let wild_counts = count_entries_per_bit(&data, header.wildcard_trie_offset as usize);
    assert_eq!(wild_counts[0], 1);
    assert_eq!(wild_counts[3], 0);
}

#[test]
fn parse_header_error_messages() {
    let err = parse_header(&[0u8; 10]).unwrap_err();
    assert_eq!(err, "Data too small for header: 10 < 48");
    let mut data = vec![0u8; 48];
    data[0..4].copy_from_slice(&0x12345678u32.to_le_bytes());
    assert_eq!(parse_header(&data).unwrap_err(), "Bad magic: 0x12345678 != 0x5344424C");
    data[0..4].copy_from_slice(&0x5344424Cu32.to_le_bytes());
    data[4..8].copy_from_slice(&7u32.to_le_bytes());
    assert_eq!(parse_header(&data).unwrap_err(), "Bad version: 7 != 3");
}

#[test]
fn walk_terminals_in_key_order() {
    let store = build_small_store();
    let data = binary::compile(&store, &[]);
    let header = parse_header(&data).unwrap();
    let keys: Vec<Vec<u8>> = walk_terminals(&data, header.exact_trie_offset as usize).into_iter().map(|(k, _)| k).collect();
    assert_eq!(
        keys,
        vec![b"doubleclick.net".to_vec(), b"phishing.example.com".to_vec(), b"www.doubleclick.net".to_vec()]
    );
    // The wildcard trie stores suffixes reversed.
    let wild: Vec<Vec<u8>> = walk_terminals(&data, header.wildcard_trie_offset as usize).into_iter().map(|(k, _)| k).collect();
    assert_eq!(wild, vec![b"moc.elpmaxe.sda.".to_vec()]);
}

#[test]
fn category_names_read_back_in_order() {
    let store = DomainStore::new();
    let cats = vec![("b".to_string(), 9u8), ("a".to_string(), 2u8), ("b".to_string(), 9u8)];
    let data = binary::compile(&store, &cats);
    let header = parse_header(&data).unwrap();
    let read = parse_categories(&data, &header);
    assert_eq!(read.len(), 2);
    assert_eq!((read[0].index, read[0].name.as_str()), (9, "b"));
    assert_eq!((read[1].index, read[1].name.as_str()), (2, "a"));
}

use dns_blocklist_compiler::binary::{compile, try_compile};
use dns_blocklist_compiler::parser::DomainStore;

const MAGIC: u32 = 0x5344424C;
const VERSION: u32 = 3;

fn read_u32(data: &[u8], at: usize) -> u32 {
    u32::from_le_bytes(data[at..at + 4].try_into().unwrap())
}

#[test]
fn test_compile_header() {
    let mut store = DomainStore::new();
    store.add_exact("example.com", 0);
    store.add_wildcard(".wild.com", 1);

    let categories = vec![("cat0".to_string(), 0u8), ("cat1".to_string(), 1u8)];

    let data = compile(&store, &categories);

    assert_eq!(&data[0..4], &MAGIC.to_le_bytes());
    assert_eq!(&data[4..8], &VERSION.to_le_bytes());
    assert_eq!(read_u32(&data, 8), 0x03);
    assert_eq!(read_u32(&data, 12), 2);
    assert_eq!(read_u32(&data, 16), 1);
    assert_eq!(read_u32(&data, 20), 1);
    assert_eq!(u64::from_le_bytes(data[40..48].try_into().unwrap()), data.len() as u64);
}

#[test]
fn test_compile_starts_with_sdbl_magic() {
    let store = DomainStore::new();
    let data = compile(&store, &[]);
    assert_eq!(&data[0..4], &MAGIC.to_le_bytes());
}

#[test]
fn test_compile_deduplicates_categories() {
    let mut store = DomainStore::new();
    store.add_exact("example.com", 0);

    let categories = vec![
        ("ads".to_string(), 0u8),
        ("ads".to_string(), 0u8),
        ("trackers".to_string(), 1u8),
    ];

    let data = compile(&store, &categories);
    let cat_count = read_u32(&data, 12);
    assert_eq!(cat_count, 2, "duplicate categories should be deduplicated");
}

#[test]
fn compile_empty_store_layout() {
    let store = DomainStore::new();
    let data = compile(&store, &[("ads".to_string(), 0u8)]);
    // Header, one record "\0\x03ads", then two empty root nodes.
    assert_eq!(data.len(), 48 + 5 + 1 + 1);
    assert_eq!(read_u32(&data, 8), 0);
    assert_eq!(&data[48..53], &[0, 3, b'a', b'd', b's']);
    assert_eq!(u64::from_le_bytes(data[24..32].try_into().unwrap()), 53);
    assert_eq!(u64::from_le_bytes(data[32..40].try_into().unwrap()), 54);
    assert_eq!(data[53], 0);
    assert_eq!(data[54], 0);
}

#[test]
fn try_compile_refuses_long_category_name() {
    let store = DomainStore::new();
    let long = "x".repeat(256);
    assert!(try_compile(&store, &[(long, 0u8)]).is_none());
    let ok = "x".repeat(255);
    let data = try_compile(&store, &[(ok.clone(), 0u8)]).unwrap();
    assert_eq!(data, compile(&store, &[(ok, 0u8)]));
}

#[test]
fn try_compile_refuses_suffix_whose_reversed_bytes_are_not_utf8() {
    let mut store = DomainStore::new();
    store.add_wildcard(".caf\u{e9}.com", 0);
    assert!(try_compile(&store, &[]).is_none());
    let mut ascii = DomainStore::new();
    ascii.add_wildcard(".cafe.com", 0);
    assert!(try_compile(&ascii, &[]).is_some());
}

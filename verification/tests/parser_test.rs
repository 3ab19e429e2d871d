use dns_blocklist_compiler::parser::{extract_expected_entry_count, parse_blocklist, DomainStore};

#[test]
fn test_parse_domains_format() {
    let content = "example.com\n*.wild.com\n.suffix.com\n# comment\n\nlocalhost\n";
    let mut store = DomainStore::new();
    let (exact, wildcard) = parse_blocklist(content, "domains", 0, &mut store);
    assert_eq!(exact, 1);
    assert_eq!(wildcard, 2);
    assert!(store.exact_domains.contains_key("example.com"));
    assert!(store.wildcard_suffixes.contains_key(".wild.com"));
    assert!(store.wildcard_suffixes.contains_key(".suffix.com"));
}

#[test]
fn test_parse_hosts_format() {
    let content = "0.0.0.0 ads.example.com\n127.0.0.1 tracker.example.com\n192.168.1.1 skip.com\n";
    let mut store = DomainStore::new();
    let (exact, wildcard) = parse_blocklist(content, "hosts", 1, &mut store);
    assert_eq!(exact, 2);
    assert_eq!(wildcard, 0);
    assert_eq!(store.exact_domains.get("ads.example.com"), Some(1 << 1));
    assert_eq!(store.exact_domains.get("tracker.example.com"), Some(1 << 1));
}

#[test]
fn test_parse_adblock_format() {
    let content = "||example.com^\n||skip.com^$third-party\n||also.com/path\n! comment\n||valid.org^\n";
    let mut store = DomainStore::new();
    let (exact, wildcard) = parse_blocklist(content, "adblock", 2, &mut store);
    assert_eq!(exact, 2);
    assert_eq!(wildcard, 0);
    assert!(store.exact_domains.contains_key("example.com"));
    assert!(store.exact_domains.contains_key("valid.org"));
}

#[test]
fn test_skip_ip_addresses() {
    let content = "192.168.1.1\nexample.com\n";
    let mut store = DomainStore::new();
    let (exact, _) = parse_blocklist(content, "domains", 0, &mut store);
    assert_eq!(exact, 1);
    assert!(!store.exact_domains.contains_key("192.168.1.1"));
}

#[test]
fn test_category_bitmap_merging() {
    let mut store = DomainStore::new();
    store.add_exact("example.com", 0);
    store.add_exact("example.com", 3);
    assert_eq!(store.exact_domains.get("example.com"), Some((1 << 0) | (1 << 3)));
}

#[test]
fn test_skip_localhost_variants() {
    let content = "localhost\nlocalhost.localdomain\nlocal\nbroadcasthost\n";
    let mut store = DomainStore::new();
    let (exact, wildcard) = parse_blocklist(content, "domains", 0, &mut store);
    assert_eq!(exact, 0);
    assert_eq!(wildcard, 0);
}

#[test]
fn test_parse_case_insensitive() {
    let content = "EXAMPLE.COM\nexample.com\nExample.Com\n";
    let mut store = DomainStore::new();
    let (exact, _) = parse_blocklist(content, "domains", 0, &mut store);
    // All three lines merge into one entry (lowercased); the count is of lines accepted.
    assert_eq!(exact, 3);
    assert_eq!(store.exact_domains.len(), 1);
    assert!(store.exact_domains.contains_key("example.com"));
}

#[test]
fn test_parse_empty_and_comment_only() {
    let content = "";
    let mut store = DomainStore::new();
    let (exact, wildcard) = parse_blocklist(content, "domains", 0, &mut store);
    assert_eq!(exact, 0);
    assert_eq!(wildcard, 0);

    let comment_only = "# this is a comment\n! also a comment\n   \n";
    let (exact2, wildcard2) = parse_blocklist(comment_only, "domains", 0, &mut store);
    assert_eq!(exact2, 0);
    assert_eq!(wildcard2, 0);
    assert!(store.exact_domains.is_empty());
}

#[test]
fn test_parse_domain_too_long() {
    // 254 chars total (over the 253 limit)
    let long_label = "a".repeat(245);
    let long_domain = format!("{}.example.com", long_label);
    assert!(long_domain.len() > 253);

    let mut store = DomainStore::new();
    let (exact, _) = parse_blocklist(&long_domain, "domains", 0, &mut store);
    assert_eq!(exact, 0, "domain over 253 chars should be rejected");
    assert!(store.exact_domains.is_empty());
}

#[test]
fn test_hosts_format_with_comments_and_tabs() {
    let content = "\
0.0.0.0\tads.example.com\n\
127.0.0.1\ttracker.example.com\t# inline comment\n\
0.0.0.0 tabbed.example.com # another comment\n\
::1 ipv6only.example.com\n\
# full line comment\n\
0.0.0.0 valid.example.org\n";

    let mut store = DomainStore::new();
    let (exact, wildcard) = parse_blocklist(content, "hosts", 5, &mut store);

    assert_eq!(wildcard, 0);
    assert!(store.exact_domains.contains_key("ads.example.com"));
    assert!(store.exact_domains.contains_key("tracker.example.com"));
    assert!(store.exact_domains.contains_key("tabbed.example.com"));
    assert!(store.exact_domains.contains_key("valid.example.org"));
    assert!(!store.exact_domains.contains_key("ipv6only.example.com"));
    assert!(!store.exact_domains.contains_key("#"));
    assert_eq!(exact, 4);
}

#[test]
fn test_hosts_format_inline_comment_glued() {
    let content = "0.0.0.0 tracker.example.com#comment\n";
    let mut store = DomainStore::new();
    let (exact, _) = parse_blocklist(content, "hosts", 0, &mut store);
    assert_eq!(exact, 1);
    assert!(store.exact_domains.contains_key("tracker.example.com"));
    assert!(!store.exact_domains.contains_key("tracker.example.com#comment"));
}

#[test]
fn test_adblock_skip_complex_rules() {
    let content = "||valid.example.com^\n||has-dollar.com^$third-party\n||has-slash.com/path\n||has-star.com*wild\n||also-valid.org^\n";
    let mut store = DomainStore::new();
    let (exact, _) = parse_blocklist(content, "adblock", 0, &mut store);
    assert_eq!(exact, 2);
    assert!(store.exact_domains.contains_key("valid.example.com"));
    assert!(store.exact_domains.contains_key("also-valid.org"));
    assert!(!store.exact_domains.contains_key("has-dollar.com"));
    assert!(!store.exact_domains.contains_key("has-slash.com"));
    assert!(!store.exact_domains.contains_key("has-star.com"));
}

#[test]
fn test_reject_domains_with_invalid_chars() {
    let content = "valid.example.com\ninvalid@domain.com\nbad[bracket.com\nok-hyphen.example.org\n";
    let mut store = DomainStore::new();
    let (exact, _) = parse_blocklist(content, "domains", 0, &mut store);
    assert_eq!(exact, 2);
    assert!(store.exact_domains.contains_key("valid.example.com"));
    assert!(store.exact_domains.contains_key("ok-hyphen.example.org"));
    assert!(!store.exact_domains.contains_key("invalid@domain.com"));
    assert!(!store.exact_domains.contains_key("bad[bracket.com"));
}

#[test]
fn parse_accepts_underscores_and_crlf() {
    let content = "under_score.example.com\r\nlast.example.net";
    let mut store = DomainStore::new();
    let (exact, wildcard) = parse_blocklist(content, "domains", 7, &mut store);
    assert_eq!((exact, wildcard), (2, 0));
    assert_eq!(store.exact_domains.get("under_score.example.com"), Some(1 << 7));
    assert!(store.exact_domains.contains_key("last.example.net"));
}

#[test]
fn parse_rejects_label_and_shape_errors() {
    let content = "a..b.com\n-ok.com\nnodot\n1.2.3.4\n*.x.io\n";
    let mut store = DomainStore::new();
    let (exact, wildcard) = parse_blocklist(content, "domains", 0, &mut store);
    // An empty label, a bare word and an IPv4 literal are refused; a leading hyphen is not checked.
    assert_eq!(wildcard, 1);
    assert_eq!(exact, 1);
    assert!(store.exact_domains.contains_key("-ok.com"));
    assert!(store.wildcard_suffixes.contains_key(".x.io"));
    assert!(!store.exact_domains.contains_key("a..b.com"));
    assert!(!store.exact_domains.contains_key("nodot"));
    assert!(!store.exact_domains.contains_key("1.2.3.4"));
    assert_eq!(exact, store.exact_domains.len());
}

#[test]
fn expected_entry_count_takes_first_header() {
    let content = "# Number of entries: 12\n# Number of entries: 99\nexample.com\n";
    assert_eq!(extract_expected_entry_count(content), Some(12));
    assert_eq!(extract_expected_entry_count("! Number of entries: 3\n"), Some(3));
    assert_eq!(extract_expected_entry_count("example.com\n"), None);
}

#[test]
fn add_wildcard_merges_bits() {
    let mut store = DomainStore::default();
    store.add_wildcard(".ads.example.com", 1);
    store.add_wildcard(".ads.example.com", 31);
    assert_eq!(store.wildcard_suffixes.get(".ads.example.com"), Some((1 << 1) | (1 << 31)));
    assert!(store.exact_domains.is_empty());
}

#[test]
fn parsing_a_list_twice_or_reordered_changes_nothing() {
    let list = "b.example.com\na.example.com\n*.w.example.com\nb.example.com\n";
    let reordered = "*.w.example.com\na.example.com\nb.example.com\n";
    let mut once = DomainStore::new();
    parse_blocklist(list, "domains", 4, &mut once);
    let mut twice = DomainStore::new();
    parse_blocklist(list, "domains", 4, &mut twice);
    parse_blocklist(list, "domains", 4, &mut twice);
    let mut other = DomainStore::new();
    parse_blocklist(reordered, "domains", 4, &mut other);
    for store in [&twice, &other] {
        assert_eq!(store.exact_domains.entries(), once.exact_domains.entries());
        assert_eq!(store.wildcard_suffixes.entries(), once.wildcard_suffixes.entries());
    }
    assert_eq!(once.exact_domains.get("b.example.com"), Some(1 << 4));
}

#[test]
fn adblock_uses_only_full_rules() {
    let content = "example.com\n||prefix-only.com\nsuffix-only.com^\n||kept.example.org^\n";
    let mut store = DomainStore::new();
    let (exact, wildcard) = parse_blocklist(content, "adblock", 0, &mut store);
    assert_eq!((exact, wildcard), (1, 0));
    assert!(store.exact_domains.contains_key("kept.example.org"));
    assert!(!store.exact_domains.contains_key("example.com"));
    assert!(!store.exact_domains.contains_key("prefix-only.com"));
    assert!(!store.exact_domains.contains_key("suffix-only.com"));
}

#[test]
fn mixed_case_lines_are_lowered() {
    let content = "Ads.EXAMPLE.com\n";
    let mut store = DomainStore::new();
    assert_eq!(parse_blocklist(content, "domains", 0, &mut store), (1, 0));
    assert!(store.exact_domains.contains_key("ads.example.com"));
}

#[test]
fn parsing_joined_lists_is_parsing_one_then_the_other() {
    let a = "example.com\n*.wild.com";
    let b = "# c\nother.org\nexample.com";
    let mut joined = DomainStore::new();
    let counts = parse_blocklist(&format!("{a}\n{b}"), "domains", 3, &mut joined);
    let mut seq = DomainStore::new();
    let (ea, wa) = parse_blocklist(a, "domains", 3, &mut seq);
    let (eb, wb) = parse_blocklist(b, "domains", 3, &mut seq);
    assert_eq!(counts, (ea + eb, wa + wb));
    assert_eq!(counts, (3, 1));
    assert_eq!(joined.exact_domains.entries(), seq.exact_domains.entries());
    assert_eq!(joined.wildcard_suffixes.entries(), seq.wildcard_suffixes.entries());
}

use dns_blocklist_compiler::trie::Trie;

#[test]
fn test_insert_and_count() {
    let mut trie = Trie::new();
    trie.insert("abc", 1);
    trie.insert("abd", 2);
    trie.insert("abc", 4); // re-insert, should not increment count
    assert_eq!(trie.count, 2);
    // bitmap should be OR'd
    let mut node = &trie.root;
    for b in "abc".bytes() {
        node = node.child(b).unwrap();
    }
    assert!(node.is_terminal);
    assert_eq!(node.category_bitmap, 1 | 4);
}

#[test]
fn test_serialize_single_entry() {
    let mut trie = Trie::new();
    trie.insert("a", 0x01);
    let mut buf = Vec::new();
    trie.serialize(&mut buf);

    // Root: flags = (1 child << 1) | 0 = 0x02
    assert_eq!(buf[0], 0x02);
    // Child byte = 'a'
    assert_eq!(buf[1], b'a');
    // Child node: flags = (0 children << 1) | 1 = 0x01
    assert_eq!(buf[6], 0x01);
    // Bitmap: 0x01000000 in LE = [0x01, 0x00, 0x00, 0x00]
    assert_eq!(&buf[7..11], &[0x01, 0x00, 0x00, 0x00]);
}

#[test]
fn test_serialize_empty_trie() {
    let trie = Trie::new();
    let mut buf = Vec::new();
    trie.serialize(&mut buf);
    // Root: no children, not terminal -> flags = 0x00
    assert_eq!(buf.len(), 1);
    assert_eq!(buf[0], 0x00);
}

#[test]
fn test_shared_prefix_count() {
    let mut trie = Trie::new();
    trie.insert("example.com", 1);
    trie.insert("example.org", 2);
    trie.insert("example.net", 4);
    assert_eq!(trie.count, 3);

    let mut node = &trie.root;
    for b in "example.".bytes() {
        node = node.child(b).unwrap();
    }
    // After "example." we should have 3 children: 'c', 'n', 'o'
    assert_eq!(node.children.len(), 3);
    assert!(!node.is_terminal);
}

#[test]
fn test_single_char_keys() {
    let mut trie = Trie::new();
    trie.insert("a", 0x01);
    trie.insert("b", 0x02);
    trie.insert("c", 0x04);

    assert_eq!(trie.count, 3);

    let mut buf = Vec::new();
    trie.serialize(&mut buf);

    // Root should have 3 children, not terminal
    assert_eq!(buf[0] >> 1, 3);
    assert_eq!(buf[0] & 0x01, 0);
    // 1 + 15 + 3*(1+4) = 31 bytes
    assert_eq!(buf.len(), 31);
}

#[test]
fn trie_children_are_sorted_and_offsets_relative() {
    let mut trie = Trie::new();
    trie.insert("b", 2);
    trie.insert("a", 1);
    let mut buf = Vec::new();
    trie.serialize(&mut buf);
    // Root: two children, edges in byte order.
    assert_eq!(buf[0], 0x04);
    assert_eq!(buf[1], b'a');
    assert_eq!(buf[6], b'b');
    // The offset field of 'a' (at 2) points 9 bytes ahead, to the node at 11.
    assert_eq!(u32::from_le_bytes([buf[2], buf[3], buf[4], buf[5]]), 9);
    assert_eq!(buf[11], 0x01);
    assert_eq!(&buf[12..16], &[1, 0, 0, 0]);
    assert_eq!(buf.len(), 21);
}

#[test]
fn trie_serialization_ignores_insertion_order() {
    let mut a = Trie::new();
    let mut b = Trie::new();
    for k in ["alpha.com", "beta.org", "alp.net", "gamma.io"] {
        a.insert(k, 1);
    }
    for k in ["gamma.io", "alp.net", "beta.org", "alpha.com"] {
        b.insert(k, 1);
    }
    let mut ba = Vec::new();
    let mut bb = Vec::new();
    a.serialize(&mut ba);
    b.serialize(&mut bb);
    assert_eq!(ba, bb);
}

#[test]
fn trie_get_and_entries() {
    let mut trie = Trie::new();
    trie.insert("abd", 2);
    trie.insert("abc", 1);
    trie.insert("abc", 8);
    assert_eq!(trie.get("abc"), Some(9));
    assert_eq!(trie.get("ab"), None);
    assert!(trie.contains_key("abd"));
    assert_eq!(trie.len(), 2);
    assert!(!trie.is_empty());
    let entries = trie.entries();
    assert_eq!(entries, vec![(b"abc".to_vec(), 9), (b"abd".to_vec(), 2)]);
}

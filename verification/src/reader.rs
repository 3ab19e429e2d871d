use vstd::prelude::*;
use vstd::string::StringExecFns;
use crate::bytes::{copy_bytes, get_le_u32, get_le_u64, le_u32, lemma_le_u32_roundtrip, lemma_read_le_u32_window, read_le_u32, read_le_u64};
use crate::trie::{distinct_keys, entry_views, lemma_with_prefix_concat, lemma_with_prefix_push, with_prefix, child_index, child_offset, concat_all, lemma_child_index_at, lemma_concat_prefix, lemma_ser_child, lemma_ser_entry, lemma_ser_layout, node_header, sorted_children, Node};
use crate::text::{decimal, hex_fixed, push_char, push_decimal, push_hex_fixed, str_chars};
use vstd::slice::slice_subrange;
use vstd::string::StringSliceAdditionalSpecFns;
use vstd::utf8::{decode_utf8, encode_utf8, valid_utf8};

verus! {

pub const MAGIC: u32 = 0x5344424C;
pub const VERSION: u32 = 3;
pub const HEADER_SIZE: usize = 48;

/// The fixed 48-byte header of an SDBL v3 image.
#[derive(Debug)]
pub struct SdblHeader {
    pub magic: u32,
    pub version: u32,
    pub flags: u32,
    pub category_count: u32,
    pub exact_count: u32,
    pub wildcard_count: u32,
    pub exact_trie_offset: u64,
    pub wildcard_trie_offset: u64,
    pub total_size: u64,
}

/// One entry of the category table.
#[derive(Debug)]
pub struct Category {
    pub index: u8,
    pub name: String,
}

/// The header fields as read from the first 48 bytes of `d`.
pub open spec fn header_of(d: Seq<u8>) -> SdblHeader {
    SdblHeader {
        magic: read_le_u32(d, 0),
        version: read_le_u32(d, 4),
        flags: read_le_u32(d, 8),
        category_count: read_le_u32(d, 12),
        exact_count: read_le_u32(d, 16),
        wildcard_count: read_le_u32(d, 20),
        exact_trie_offset: read_le_u64(d, 24),
        wildcard_trie_offset: read_le_u64(d, 32),
        total_size: read_le_u64(d, 40),
    }
}

/// The message with which a header is refused, or `None` when it is accepted.
pub open spec fn header_error(d: Seq<u8>) -> Option<Seq<char>> {
    if d.len() < 48 {
        Some("Data too small for header: "@ + decimal(d.len()) + " < "@ + decimal(48))
    } else if read_le_u32(d, 0) != MAGIC {
        Some("Bad magic: 0x"@ + hex_fixed(read_le_u32(d, 0) as nat, 8, true) + " != 0x"@ + hex_fixed(MAGIC as nat, 8, true))
    } else if read_le_u32(d, 4) != VERSION {
        Some("Bad version: "@ + decimal(read_le_u32(d, 4) as nat) + " != "@ + decimal(VERSION as nat))
    } else {
        None
    }
}

/// Parses and checks the header: the data must hold 48 bytes, the magic `SDBL` and version 3.
pub fn parse_header(data: &[u8]) -> (r: Result<SdblHeader, String>)
    ensures
        match r {
            Ok(h) => header_error(data@) is None && h == header_of(data@),
            Err(e) => header_error(data@) == Some(e@),
        },
{
    if data.len() < HEADER_SIZE {
        let mut msg = String::from_str("Data too small for header: ");
        push_decimal(&mut msg, data.len() as u64);
        msg.append(" < ");
        push_decimal(&mut msg, HEADER_SIZE as u64);
        return Err(msg);
    }
    let magic = get_le_u32(data, 0);
    if magic != MAGIC {
        let mut msg = String::from_str("Bad magic: 0x");
        push_hex_fixed(&mut msg, magic as u64, 8, true);
        msg.append(" != 0x");
        push_hex_fixed(&mut msg, MAGIC as u64, 8, true);
        return Err(msg);
    }
    let version = get_le_u32(data, 4);
    if version != VERSION {
        let mut msg = String::from_str("Bad version: ");
        push_decimal(&mut msg, version as u64);
        msg.append(" != ");
        push_decimal(&mut msg, VERSION as u64);
        return Err(msg);
    }
    Ok(SdblHeader {
        magic,
        version,
        flags: get_le_u32(data, 8),
        category_count: get_le_u32(data, 12),
        exact_count: get_le_u32(data, 16),
        wildcard_count: get_le_u32(data, 20),
        exact_trie_offset: get_le_u64(data, 24),
        wildcard_trie_offset: get_le_u64(data, 32),
        total_size: get_le_u64(data, 40),
    })
}

} // verus!

verus! {

/// Number of children encoded in a node's flag byte.
pub open spec fn flag_children(f: u8) -> int {
    (f >> 1u8) as int
}

/// Whether a node's flag byte marks it terminal.
pub open spec fn flag_terminal(f: u8) -> bool {
    f & 1u8 != 0
}

/// Position of the first child entry of the node at `pos`.
pub open spec fn children_start(d: Seq<u8>, pos: int) -> int {
    if flag_terminal(d[pos]) { pos + 5 } else { pos + 1 }
}

/// Position of the node that child entry `i` of the node at `pos` points to.
pub open spec fn entry_target(d: Seq<u8>, pos: int, i: int) -> int {
    let f = children_start(d, pos) + 5 * i + 1;
    f + read_le_u32(d, f)
}

/// The first child entry in `i..n` whose edge byte is `b`.
pub open spec fn first_match_from(d: Seq<u8>, cstart: int, n: int, b: u8, i: int) -> Option<int>
    decreases n - i,
{
    if i >= n {
        None
    } else if d[cstart + 5 * i] == b {
        Some(i)
    } else {
        first_match_from(d, cstart, n, b, i + 1)
    }
}

pub open spec fn first_match(d: Seq<u8>, pos: int, b: u8) -> Option<int> {
    first_match_from(d, children_start(d, pos), flag_children(d[pos]), b, 0)
}

/// The bitmap found by walking `key` from the node at `pos`.
pub open spec fn walk(d: Seq<u8>, pos: int, key: Seq<u8>) -> Option<u32>
    decreases key.len(),
{
    if pos < 0 || pos >= d.len() {
        None
    } else if key.len() == 0 {
        if flag_terminal(d[pos]) { Some(read_le_u32(d, pos + 1)) } else { None }
    } else {
        match first_match(d, pos, key[0]) {
            Some(i) => walk(d, entry_target(d, pos, i), key.drop_first()),
            None => None,
        }
    }
}

/// The walk of `key` from `pos` reads only bytes inside `d` and computes no position past `usize::MAX`.
pub open spec fn walk_safe(d: Seq<u8>, pos: int, key: Seq<u8>) -> bool
    decreases key.len(),
{
    pos < 0 || pos >= d.len() || {
        &&& (flag_terminal(d[pos]) ==> pos + 5 <= d.len())
        &&& (key.len() > 0 ==> {
            let fm = first_match(d, pos, key[0]);
            let scanned = match fm {
                Some(i) => i + 1,
                None => flag_children(d[pos]),
            };
            &&& children_start(d, pos) + 5 * scanned <= d.len()
            &&& match fm {
                Some(i) => {
                    &&& entry_target(d, pos, i) <= usize::MAX
                    &&& walk_safe(d, entry_target(d, pos, i), key.drop_first())
                },
                None => true,
            }
        })
    }
}

pub proof fn lemma_first_match_from_step(d: Seq<u8>, cstart: int, n: int, b: u8, i: int)
    requires
        0 <= i < n,
        d[cstart + 5 * i] != b,
    ensures
        first_match_from(d, cstart, n, b, i) == first_match_from(d, cstart, n, b, i + 1),
{
}

pub proof fn lemma_first_match_range(d: Seq<u8>, cstart: int, n: int, b: u8, i: int)
    ensures
        first_match_from(d, cstart, n, b, i) matches Some(k) ==> i <= k < n && d[cstart + 5 * k] == b,
    decreases n - i,
{
    if i < n && d[cstart + 5 * i] != b {
        lemma_first_match_range(d, cstart, n, b, i + 1);
    }
}

/// Walks the serialized trie at `start_offset` along `key`; the bitmap of the node reached, if terminal.
#[verifier::spinoff_prover]
pub(crate) fn walk_trie(data: &[u8], start_offset: usize, key: &[u8]) -> (r: Option<u32>)
    requires
        walk_safe(data@, start_offset as int, key@),
    ensures
        r == walk(data@, start_offset as int, key@),
{
    let mut pos = start_offset;
    let mut key_idx: usize = 0;
    assert(key@.skip(0) =~= key@);
    loop
        invariant
            key_idx <= key@.len(),
            walk(data@, pos as int, key@.skip(key_idx as int)) == walk(data@, start_offset as int, key@),
            walk_safe(data@, pos as int, key@.skip(key_idx as int)),
        decreases key@.len() - key_idx,
    {
        if pos >= data.len() {
            return None;
        }
        let ghost d = data@;
        let ghost node = pos as int;
        let ghost rest = key@.skip(key_idx as int);
        let flags = data[pos];
        let child_count = (flags >> 1) as usize;
        let is_terminal = (flags & 0x01) != 0;
        pos = pos + 1;
        let bitmap = if is_terminal {
            let b = get_le_u32(data, pos);
            pos = pos + 4;
            Some(b)
        } else {
            None
        };
        if key_idx >= key.len() {
            assert(rest.len() == 0);
            return bitmap;
        }
        let target = key[key_idx];
        assert(rest[0] == target);
        let children_start = pos;
        assert(children_start == self::children_start(d, node));
        let mut found = false;
        let mut i: usize = 0;
        while i < child_count
            invariant_except_break
                d == data@,
                d.len() == data.len(),
                0 <= node < d.len(),
                child_count == flag_children(d[node]),
                children_start == self::children_start(d, node),
                rest.len() > 0,
                rest[0] == target,
                walk_safe(d, node, rest),
                i <= child_count,
                first_match(d, node, target) == first_match_from(d, children_start as int, child_count as int, target, i as int),
                !found,
            ensures
                found ==> first_match(d, node, target) == Some(i as int) && pos == entry_target(d, node, i as int),
                !found ==> first_match(d, node, target) is None,
            decreases child_count - i,
        {
            proof {
                lemma_first_match_range(d, children_start as int, child_count as int, target, i as int);
            }
            let entry_pos = children_start + i * 5;
            let child_byte = data[entry_pos];
            let offset_field_pos = entry_pos + 1;
            let relative_offset = get_le_u32(data, offset_field_pos);
            if child_byte == target {
                pos = offset_field_pos + relative_offset as usize;
                found = true;
                break;
            }
            proof {
                lemma_first_match_from_step(d, children_start as int, child_count as int, target, i as int);
            }
            i = i + 1;
        }
        if !found {
            return None;
        }
        key_idx = key_idx + 1;
        assert(rest.drop_first() =~= key@.skip(key_idx as int));
    }
}

} // verus!

verus! {

pub proof fn lemma_first_match_sorted(d: Seq<u8>, cstart: int, cs: Seq<(u8, Node)>, b: u8, i: int)
    requires
        sorted_children(cs),
        0 <= i <= cs.len(),
        forall|j: int| 0 <= j < cs.len() ==> #[trigger] d[cstart + 5 * j] == cs[j].0,
    ensures
        first_match_from(d, cstart, cs.len() as int, b, i) == (match child_index(cs, b) {
            Some(j) => if j >= i { Some(j) } else { None },
            None => None,
        }),
    decreases cs.len() - i,
{
    if i < cs.len() {
        lemma_first_match_sorted(d, cstart, cs, b, i + 1);
        if d[cstart + 5 * i] == b {
            lemma_child_index_at(cs, i);
        } else {
            match child_index(cs, b) {
                Some(j) => {
                    lemma_child_index_at(cs, j);
                    assert(cs[j].0 == b);
                },
                None => {},
            }
        }
    } else {
        match child_index(cs, b) {
            Some(j) => {
                lemma_child_index_at(cs, j);
                assert(cs[j].0 == b);
            },
            None => {},
        }
    }
}

/// The flag byte and bitmap of a serialized node read back correctly.
pub proof fn lemma_read_node_header(d: Seq<u8>, base: int, node: Node)
    requires
        node.fanout_ok(),
        0 <= base,
        base + node.ser().len() <= d.len(),
        d.subrange(base, base + node.ser().len()) == node.ser(),
    ensures
        flag_children(d[base]) == node.children@.len(),
        flag_terminal(d[base]) == node.is_terminal,
        children_start(d, base) == base + node_header(node).len(),
        node.is_terminal ==> read_le_u32(d, base + 1) == node.category_bitmap,
        node.is_terminal ==> base + 5 <= d.len(),
{
    let s = node.ser();
    lemma_ser_layout(node);
    assert(d[base] == s[0]);
    if node.is_terminal {
        assert(d.subrange(base + 1, base + 5) =~= s.subrange(1, 5));
        lemma_le_u32_roundtrip(node.category_bitmap);
        assert(le_u32(node.category_bitmap).subrange(0, 4) =~= le_u32(node.category_bitmap));
        lemma_read_le_u32_window(d, base + 1, le_u32(node.category_bitmap), 0);
    }
}

/// Child entry `i` of a serialized node points at the child's own serialization.
pub proof fn lemma_read_child_entry(d: Seq<u8>, base: int, node: Node, i: int)
    requires
        node.fanout_ok(),
        node.ser().len() <= u32::MAX,
        0 <= base,
        0 <= i < node.children@.len(),
        base + node.ser().len() <= d.len(),
        d.subrange(base, base + node.ser().len()) == node.ser(),
    ensures
        ({
            let child = node.children@[i].1;
            let t = entry_target(d, base, i);
            &&& children_start(d, base) + 5 * (i + 1) <= base + node.ser().len()
            &&& base < t
            &&& t + child.ser().len() <= base + node.ser().len()
            &&& d.subrange(t, t + child.ser().len()) == child.ser()
        }),
{
    let s = node.ser();
    let cs = node.children@;
    let n = cs.len() as int;
    let sub = Node::sers(cs);
    crate::trie::lemma_sers(cs);
    lemma_ser_layout(node);
    lemma_read_node_header(d, base, node);
    let h = node_header(node).len() as int;
    let off = child_offset(cs, sub, i);
    assert(sub.len() == n);
    let f = base + h + 5 * i + 1;
    assert(read_le_u32(d, f) == off) by {
        lemma_ser_entry(node, i);
        lemma_le_u32_roundtrip(off);
        assert(s.subrange(h + 5 * i + 1, h + 5 * i + 5) == le_u32(off));
        assert(d.subrange(f, f + 4) =~= s.subrange(h + 5 * i + 1, h + 5 * i + 5));
        assert(le_u32(off).subrange(0, 4) =~= le_u32(off));
        lemma_read_le_u32_window(d, f, le_u32(off), 0);
    }
    let ct = concat_all(sub.take(i));
    let c = h + 5 * n + ct.len();
    assert(off as int == 5 * (n - i) - 1 + ct.len()) by {
        lemma_concat_prefix(sub, i);
        assert(5 * (n - i) - 1 + ct.len() < s.len());
    }
    assert(entry_target(d, base, i) == base + c);
    lemma_ser_child(node, i);
    assert(d.subrange(base + c, base + c + cs[i].1.ser().len()) =~= s.subrange(c, c + cs[i].1.ser().len()));
}

/// Reading back a serialized node: walking any key from where `node.ser()` is placed in `d`
/// gives the node's own lookup of that key, and reads nothing outside `d`.
#[verifier::spinoff_prover]
pub proof fn lemma_walk_ser(d: Seq<u8>, base: int, node: Node, key: Seq<u8>)
    requires
        node.wf(),
        node.fanout_ok(),
        node.ser().len() <= u32::MAX,
        0 <= base,
        base + node.ser().len() <= d.len(),
        d.len() <= usize::MAX,
        d.subrange(base, base + node.ser().len()) == node.ser(),
    ensures
        walk(d, base, key) == node.lookup(key),
        walk_safe(d, base, key),
    decreases key.len(),
{
    let s = node.ser();
    let cs = node.children@;
    let n = cs.len() as int;
    lemma_read_node_header(d, base, node);
    lemma_ser_layout(node);
    let h = node_header(node).len() as int;
    if key.len() > 0 {
        let b = key[0];
        assert forall|j: int| 0 <= j < n implies #[trigger] d[base + h + 5 * j] == cs[j].0 by {
            lemma_ser_entry(node, j);
            assert(d[base + h + 5 * j] == s[h + 5 * j]);
        }
        lemma_first_match_sorted(d, base + h, cs, b, 0);
        match child_index(cs, b) {
            Some(i) => {
                lemma_child_index_at(cs, i);
                lemma_read_child_entry(d, base, node, i);
                let child = cs[i].1;
                assert(child.fanout_ok());
                assert(child.wf());
                lemma_walk_ser(d, entry_target(d, base, i), child, key.drop_first());
            },
            None => {},
        }
    }
}

} // verus!

verus! {

/// Walks the exact-domain trie; the bitmap stored for `domain`, if any.
pub fn lookup_exact(data: &[u8], header: &SdblHeader, domain: &str) -> (r: Option<u32>)
    requires
        walk_safe(data@, header.exact_trie_offset as usize as int, domain.spec_bytes()),
    ensures
        r == walk(data@, header.exact_trie_offset as usize as int, domain.spec_bytes()),
{
    walk_trie(data, header.exact_trie_offset as usize, domain.as_bytes())
}

/// The characters of `s` in reverse order, as a new string.
pub fn reversed_string(s: &str) -> (r: String)
    ensures
        r@ == s@.reverse(),
{
    let chars = str_chars(s);
    let mut r = String::new();
    let mut i = chars.len();
    while i > 0
        invariant
            i <= chars@.len(),
            chars@ == s@,
            r@ == s@.subrange(i as int, s@.len() as int).reverse(),
        decreases i,
    {
        i = i - 1;
        push_char(&mut r, chars[i]);
        assert(r@ =~= s@.subrange(i as int, s@.len() as int).reverse());
    }
    assert(s@.subrange(0, s@.len() as int) =~= s@);
    r
}

/// Walks the wildcard trie, which stores suffixes reversed; `suffix` is given unreversed.
pub fn lookup_wildcard(data: &[u8], header: &SdblHeader, suffix: &str) -> (r: Option<u32>)
    requires
        walk_safe(data@, header.wildcard_trie_offset as usize as int, encode_utf8(suffix@.reverse())),
    ensures
        r == walk(data@, header.wildcard_trie_offset as usize as int, encode_utf8(suffix@.reverse())),
{
    let reversed = reversed_string(suffix);
    walk_trie(data, header.wildcard_trie_offset as usize, reversed.as_str().as_bytes())
}

/// Decodes bytes as UTF-8, replacing invalid sequences (std `String::from_utf8_lossy`).
/// Trusted: the result is named by `lossy_utf8`; on valid UTF-8 it is the decoded text.
#[verifier::external_body]
pub(crate) fn utf8_lossy(bytes: &[u8]) -> (s: String)
    ensures
        s@ == lossy_utf8(bytes@),
        valid_utf8(bytes@) ==> s@ == decode_utf8(bytes@),
{
    String::from_utf8_lossy(bytes).into_owned()
}

pub uninterp spec fn lossy_utf8(bytes: Seq<u8>) -> Seq<char>;

/// The category table entries (index byte, name bytes) read from `pos`, at most `k` of them.
pub open spec fn category_entries(d: Seq<u8>, pos: int, k: nat) -> Seq<(u8, Seq<u8>)>
    decreases k,
{
    if k == 0 || pos < 0 || pos >= d.len() {
        Seq::empty()
    } else {
        let len = d[pos + 1] as int;
        seq![(d[pos], d.subrange(pos + 2, pos + 2 + len))] + category_entries(d, pos + 2 + len, (k - 1) as nat)
    }
}

/// Reading the category table from `pos` stays inside `d`.
pub open spec fn categories_safe(d: Seq<u8>, pos: int, k: nat) -> bool
    decreases k,
{
    k == 0 || pos < 0 || pos >= d.len() || {
        &&& pos + 2 <= d.len()
        &&& pos + 2 + d[pos + 1] <= d.len()
        &&& categories_safe(d, pos + 2 + d[pos + 1], (k - 1) as nat)
    }
}

/// Reads `header.category_count` category entries after the header, stopping early at the end of the data.
pub fn parse_categories(data: &[u8], header: &SdblHeader) -> (cats: Vec<Category>)
    requires
        categories_safe(data@, HEADER_SIZE as int, header.category_count as nat),
    ensures
        cats@.len() == category_entries(data@, HEADER_SIZE as int, header.category_count as nat).len(),
        forall|i: int| 0 <= i < cats@.len() ==> {
            let e = category_entries(data@, HEADER_SIZE as int, header.category_count as nat)[i];
            &&& (#[trigger] cats@[i]).index == e.0
            &&& cats@[i].name@ == lossy_utf8(e.1)
            &&& (valid_utf8(e.1) ==> cats@[i].name@ == decode_utf8(e.1))
        },
{
    let mut categories: Vec<Category> = Vec::new();
    let mut pos: usize = HEADER_SIZE;
    let mut n: u32 = 0;
    let ghost all = category_entries(data@, HEADER_SIZE as int, header.category_count as nat);
    while n < header.category_count
        invariant_except_break
            n <= header.category_count,
            categories_safe(data@, pos as int, (header.category_count - n) as nat),
            all.len() == categories@.len() + category_entries(data@, pos as int, (header.category_count - n) as nat).len(),
            forall|i: int| 0 <= i < categories@.len() ==> {
                &&& (#[trigger] categories@[i]).index == all[i].0
                &&& categories@[i].name@ == lossy_utf8(all[i].1)
                &&& (valid_utf8(all[i].1) ==> categories@[i].name@ == decode_utf8(all[i].1))
            },
            all.subrange(categories@.len() as int, all.len() as int) == category_entries(data@, pos as int, (header.category_count - n) as nat),
        ensures
            all.len() == categories@.len(),
            forall|i: int| 0 <= i < categories@.len() ==> {
                &&& (#[trigger] categories@[i]).index == all[i].0
                &&& categories@[i].name@ == lossy_utf8(all[i].1)
                &&& (valid_utf8(all[i].1) ==> categories@[i].name@ == decode_utf8(all[i].1))
            },
        decreases header.category_count - n,
    {
        let ghost rest = category_entries(data@, pos as int, (header.category_count - n) as nat);
        if pos >= data.len() {
            break;
        }
        let index = data[pos];
        pos = pos + 1;
        let name_len = data[pos] as usize;
        pos = pos + 1;
        let name = utf8_lossy(slice_subrange(data, pos, pos + name_len));
        pos = pos + name_len;
        let ghost k = categories@.len();
        categories.push(Category { index, name });
        n = n + 1;
        proof {
            assert(rest[0] == all[k as int]);
            assert(all.subrange(categories@.len() as int, all.len() as int) =~= rest.subrange(1, rest.len() as int));
            assert(rest.subrange(1, rest.len() as int) =~= category_entries(data@, pos as int, (header.category_count - n) as nat));
        }
    }
    categories
}

} // verus!

verus! {

pub proof fn lemma_flag_children_bound(f: u8)
    ensures
        0 <= flag_children(f) <= 127,
{
    assert(f >> 1u8 <= 127) by (bit_vector);
}

/// Every terminal (key, bitmap) reachable from the node at `pos`, in depth-first order,
/// keys relative to that node.
pub open spec fn terminals(d: Seq<u8>, pos: int) -> Seq<(Seq<u8>, u32)>
    decreases d.len() - pos, 200int,
{
    if pos < 0 || pos >= d.len() {
        Seq::empty()
    } else {
        let own = if flag_terminal(d[pos]) {
            seq![(Seq::<u8>::empty(), read_le_u32(d, pos + 1))]
        } else {
            Seq::empty()
        };
        proof {
            lemma_flag_children_bound(d[pos]);
        }
        own + terminals_from(d, pos, 0)
    }
}

/// The terminals below child entries `i..` of the node at `pos`.
pub open spec fn terminals_from(d: Seq<u8>, pos: int, i: int) -> Seq<(Seq<u8>, u32)>
    decreases d.len() - pos, flag_children(d[pos]) - i,
{
    if pos < 0 || pos >= d.len() || i < 0 || i >= flag_children(d[pos]) {
        Seq::empty()
    } else {
        let t = entry_target(d, pos, i);
        let below = if pos < t < d.len() { terminals(d, t) } else { Seq::empty() };
        with_prefix(seq![d[children_start(d, pos) + 5 * i]], below) + terminals_from(d, pos, i + 1)
    }
}

/// Visiting every terminal from `pos` reads only bytes inside `d`.
pub open spec fn terminals_safe(d: Seq<u8>, pos: int) -> bool
    decreases d.len() - pos, 200int,
{
    pos < 0 || pos >= d.len() || {
        &&& (flag_terminal(d[pos]) ==> pos + 5 <= d.len())
        &&& {
            proof {
                lemma_flag_children_bound(d[pos]);
            }
            terminals_from_safe(d, pos, 0)
        }
    }
}

pub open spec fn terminals_from_safe(d: Seq<u8>, pos: int, i: int) -> bool
    decreases d.len() - pos, flag_children(d[pos]) - i,
{
    pos < 0 || pos >= d.len() || i < 0 || i >= flag_children(d[pos]) || {
        let t = entry_target(d, pos, i);
        &&& children_start(d, pos) + 5 * i + 5 <= d.len()
        &&& t <= usize::MAX
        &&& (pos < t < d.len() ==> terminals_safe(d, t))
        &&& terminals_from_safe(d, pos, i + 1)
    }
}


} // verus!

verus! {

/// Whether `bitmap` has category bit `bit` set.
pub open spec fn has_bit(bitmap: u32, bit: int) -> bool {
    bitmap & (1u32 << (bit as u32)) != 0
}

/// How many entries of `ts` have category bit `bit` set.
pub open spec fn bit_count(ts: Seq<(Seq<u8>, u32)>, bit: int) -> nat
    decreases ts.len(),
{
    if ts.len() == 0 {
        0
    } else {
        bit_count(ts.drop_last(), bit) + if has_bit(ts.last().1, bit) { 1nat } else { 0nat }
    }
}

/// For each of the 32 category bits, how many terminals of the trie at `start_offset` carry it.
#[verifier::spinoff_prover]
pub fn count_entries_per_bit(data: &[u8], start_offset: usize) -> (counts: [usize; 32])
    requires
        terminals_safe(data@, start_offset as int),
    ensures
        forall|bit: int| 0 <= bit < 32 ==> #[trigger] counts@[bit] == bit_count(terminals(data@, start_offset as int), bit),
{
    let entries = walk_terminals(data, start_offset);
    let ghost ts = terminals(data@, start_offset as int);
    let mut counts = [0usize; 32];
    let mut i: usize = 0;
    while i < entries.len()
        invariant
            i <= entries@.len(),
            entry_views(entries@) == ts,
            forall|bit: int| 0 <= bit < 32 ==> #[trigger] counts@[bit] == bit_count(ts.take(i as int), bit),
            forall|bit: int| 0 <= bit < 32 ==> counts@[bit] <= i,
        decreases entries@.len() - i,
    {
        let bitmap = entries[i].1;
        let ghost prev = counts@;
        assert(ts.take(i + 1).drop_last() =~= ts.take(i as int));
        assert(ts.take(i + 1).last() == ts[i as int]);
        let mut bit: u32 = 0;
        while bit < 32
            invariant
                i < entries.len(),
                bitmap == ts[i as int].1,
                ts == entry_views(entries@),
                bit <= 32,
                forall|b: int| 0 <= b < bit ==> #[trigger] counts@[b] == bit_count(ts.take(i + 1), b),
                forall|b: int| bit <= b < 32 ==> #[trigger] counts@[b] == prev[b],
                forall|b: int| 0 <= b < 32 ==> prev[b] == bit_count(ts.take(i as int), b),
                forall|b: int| 0 <= b < 32 ==> prev[b] <= i,
                forall|b: int| 0 <= b < 32 ==> counts@[b] <= i + 1,
                ts.take(i + 1).drop_last() == ts.take(i as int),
                ts.take(i + 1).last() == ts[i as int],
            decreases 32 - bit,
        {
            if bitmap & (1u32 << bit) != 0 {
                counts[bit as usize] = counts[bit as usize] + 1;
            }
            bit = bit + 1;
        }
        i = i + 1;
    }
    assert(ts.take(entries@.len() as int) =~= ts);
    counts
}

} // verus!

verus! {

/// Visiting the terminals of a serialized node gives exactly the node's entries, in order,
/// reading only bytes inside `d`.
pub proof fn lemma_terminals_ser(d: Seq<u8>, base: int, node: Node)
    requires
        node.fanout_ok(),
        node.ser().len() <= u32::MAX,
        0 <= base,
        base + node.ser().len() <= d.len(),
        d.len() <= usize::MAX,
        d.subrange(base, base + node.ser().len()) == node.ser(),
    ensures
        terminals(d, base) == node.entries(),
        terminals_safe(d, base),
    decreases node, 200int,
{
    lemma_read_node_header(d, base, node);
    lemma_ser_layout(node);
    lemma_flag_children_bound(d[base]);
    let cs = node.children@;
    lemma_terminals_from_ser(d, base, node, 0);
    assert(cs.take(0) =~= Seq::<(u8, Node)>::empty());
    assert(Node::child_entries(cs.take(0)) =~= Seq::<(Seq<u8>, u32)>::empty());
    let own = if node.is_terminal {
        seq![(Seq::<u8>::empty(), node.category_bitmap)]
    } else {
        Seq::empty()
    };
    assert(terminals(d, base) == own + terminals_from(d, base, 0));
    assert(Node::child_entries(cs.take(0)) + terminals_from(d, base, 0) =~= terminals_from(d, base, 0));
}

#[verifier::spinoff_prover]
proof fn lemma_terminals_from_ser(d: Seq<u8>, base: int, node: Node, i: int)
    requires
        node.fanout_ok(),
        node.ser().len() <= u32::MAX,
        0 <= base,
        base + node.ser().len() <= d.len(),
        d.len() <= usize::MAX,
        d.subrange(base, base + node.ser().len()) == node.ser(),
        0 <= i <= node.children@.len(),
    ensures
        Node::child_entries(node.children@.take(i)) + terminals_from(d, base, i) == Node::child_entries(node.children@),
        terminals_from_safe(d, base, i),
    decreases node, node.children@.len() - i,
{
    let cs = node.children@;
    let n = cs.len() as int;
    lemma_read_node_header(d, base, node);
    lemma_ser_layout(node);
    if i == n {
        assert(cs.take(i) =~= cs);
        assert(Node::child_entries(cs) + terminals_from(d, base, i) =~= Node::child_entries(cs));
    } else {
        lemma_read_child_entry(d, base, node, i);
        lemma_ser_entry(node, i);
        let h = node_header(node).len() as int;
        let s = node.ser();
        assert(d[base + h + 5 * i] == s[h + 5 * i]);
        let child = cs[i].1;
        let t = entry_target(d, base, i);
        assert(child.fanout_ok());
        assert(child.ser().len() >= 1) by {
            lemma_ser_layout(child);
        }
        lemma_terminals_ser(d, t, child);
        lemma_terminals_from_ser(d, base, node, i + 1);
        assert(cs.take(i + 1).drop_last() =~= cs.take(i));
        assert(cs.take(i + 1).last() == cs[i]);
        let b = cs[i].0;
        assert(terminals_from(d, base, i) == with_prefix(seq![b], child.entries()) + terminals_from(d, base, i + 1));
        assert(Node::child_entries(cs.take(i + 1)) == Node::child_entries(cs.take(i)) + with_prefix(seq![b], child.entries()));
        assert(Node::child_entries(cs.take(i)) + terminals_from(d, base, i) =~= Node::child_entries(cs.take(i + 1)) + terminals_from(d, base, i + 1));
    }
}

} // verus!

verus! {

/// An image the reader can read without going outside it: a valid header, and tries at the
/// header's offsets that every lookup and every terminal walk reads safely.
pub open spec fn readable_image(d: Seq<u8>) -> bool {
    let h = header_of(d);
    &&& header_error(d) is None
    &&& forall|k: Seq<u8>| #[trigger] walk_safe(d, h.exact_trie_offset as usize as int, k)
    &&& forall|k: Seq<u8>| #[trigger] walk_safe(d, h.wildcard_trie_offset as usize as int, k)
    &&& terminals_safe(d, h.exact_trie_offset as usize as int)
    &&& terminals_safe(d, h.wildcard_trie_offset as usize as int)
}

} // verus!

verus! {

/// The keys of `m` whose bitmap carries category bit `bit`.
pub open spec fn keys_with_bit(m: Map<Seq<u8>, u32>, bit: int) -> Set<Seq<u8>> {
    m.dom().filter(|k: Seq<u8>| has_bit(m[k], bit))
}

/// Counting the entries of a list that names each key of a finite map once, with its bitmap,
/// counts the map's keys carrying the bit.
pub proof fn lemma_bit_count_keys(es: Seq<(Seq<u8>, u32)>, m: Map<Seq<u8>, u32>, bit: int)
    requires
        distinct_keys(es),
        m.dom().finite(),
        forall|k: Seq<u8>, v: u32| #[trigger] es.contains((k, v)) <==> m.contains_key(k) && m[k] == v,
    ensures
        bit_count(es, bit) == keys_with_bit(m, bit).len(),
    decreases es.len(),
{
    if es.len() == 0 {
        assert(keys_with_bit(m, bit) =~= Set::<Seq<u8>>::empty()) by {
            assert forall|k: Seq<u8>| !keys_with_bit(m, bit).contains(k) by {
                if m.contains_key(k) {
                    assert(es.contains((k, m[k])));
                }
            }
        }
    } else {
        let p = es.drop_last();
        let (k0, v0) = es.last();
        assert(es.contains((k0, v0))) by {
            assert(es[es.len() - 1] == (k0, v0));
        }
        let m2 = m.remove(k0);
        assert forall|i: int, j: int| 0 <= i < j < p.len() implies (#[trigger] p[i]).0 != (#[trigger] p[j]).0 by {
            assert(p[i] == es[i] && p[j] == es[j]);
        }
        assert forall|k: Seq<u8>, v: u32| #[trigger] p.contains((k, v)) <==> m2.contains_key(k) && m2[k] == v by {
            if p.contains((k, v)) {
                let i = choose|i: int| 0 <= i < p.len() && p[i] == (k, v);
                assert(es[i] == (k, v));
                assert(es.contains((k, v)));
                assert(es[i].0 != es[es.len() - 1].0);
            }
            if m2.contains_key(k) && m2[k] == v {
                assert(es.contains((k, v)));
                let i = choose|i: int| 0 <= i < es.len() && es[i] == (k, v);
                assert(i != es.len() - 1);
                assert(p[i] == (k, v));
            }
        }
        lemma_bit_count_keys(p, m2, bit);
        let s = keys_with_bit(m, bit);
        let s2 = keys_with_bit(m2, bit);
        m2.dom().lemma_len_filter(|k: Seq<u8>| has_bit(m2[k], bit));
        if has_bit(v0, bit) {
            assert(s =~= s2.insert(k0));
        } else {
            assert(s =~= s2);
        }
    }
}

} // verus!

verus! {

/// What walking the node at `pos` still has to report from child `idx` on, with the node's
/// own entry while `idx` is 0.
pub open spec fn frame_rest(d: Seq<u8>, pos: int, idx: int) -> Seq<(Seq<u8>, u32)> {
    if pos < 0 || pos >= d.len() {
        Seq::empty()
    } else {
        (if idx == 0 && flag_terminal(d[pos]) {
            seq![(Seq::<u8>::empty(), read_le_u32(d, pos + 1))]
        } else {
            Seq::empty()
        }) + terminals_from(d, pos, idx)
    }
}

/// The entries a walk still has to report, for a stack of frames (node position, next child,
/// key length of the parent), the top frame's node having key `k`; top frame first.
pub open spec fn pending(d: Seq<u8>, s: Seq<(usize, usize, usize)>, k: Seq<u8>) -> Seq<(Seq<u8>, u32)>
    decreases s.len(),
{
    if s.len() == 0 {
        Seq::empty()
    } else {
        let f = s.last();
        with_prefix(k, frame_rest(d, f.0 as int, f.1 as int)) + pending(d, s.drop_last(), k.take(f.2 as int))
    }
}

/// Frames whose parent key lengths fit inside the keys and whose nodes read safely.
pub open spec fn frames_ok(d: Seq<u8>, s: Seq<(usize, usize, usize)>, klen: int) -> bool
    decreases s.len(),
{
    s.len() == 0 || {
        let f = s.last();
        &&& f.2 <= klen <= f.0
        &&& terminals_safe(d, f.0 as int)
        &&& terminals_from_safe(d, f.0 as int, f.1 as int)
        &&& frames_ok(d, s.drop_last(), f.2 as int)
    }
}

/// Loop steps a walk needs for the subtree at `pos`: one to leave each node and one to take
/// each edge.
pub open spec fn walk_steps(d: Seq<u8>, pos: int) -> nat
    decreases d.len() - pos, 200int,
{
    if pos < 0 || pos >= d.len() {
        1
    } else {
        proof {
            lemma_flag_children_bound(d[pos]);
        }
        1 + walk_steps_from(d, pos, 0)
    }
}

pub open spec fn walk_steps_from(d: Seq<u8>, pos: int, i: int) -> nat
    decreases d.len() - pos, flag_children(d[pos]) - i,
{
    if pos < 0 || pos >= d.len() || i < 0 || i >= flag_children(d[pos]) {
        0
    } else {
        let t = entry_target(d, pos, i);
        1 + (if pos < t < d.len() { walk_steps(d, t) } else { 1 }) + walk_steps_from(d, pos, i + 1)
    }
}

pub open spec fn stack_steps(d: Seq<u8>, s: Seq<(usize, usize, usize)>) -> nat
    decreases s.len(),
{
    if s.len() == 0 {
        0
    } else {
        let f = s.last();
        (if f.0 >= d.len() { 1 } else { 1 + walk_steps_from(d, f.0 as int, f.1 as int) }) + stack_steps(d, s.drop_last())
    }
}

/// The entry a frame reports on arriving at its node: the node's own, when it is terminal.
pub open spec fn own_part(d: Seq<u8>, pos: int, idx: int) -> Seq<(Seq<u8>, u32)> {
    if 0 <= pos < d.len() && idx == 0 && flag_terminal(d[pos]) {
        seq![(Seq::<u8>::empty(), read_le_u32(d, pos + 1))]
    } else {
        Seq::empty()
    }
}

proof fn lemma_pending_top(d: Seq<u8>, s: Seq<(usize, usize, usize)>, k: Seq<u8>)
    requires
        s.len() > 0,
    ensures
        pending(d, s, k) == with_prefix(k, frame_rest(d, s.last().0 as int, s.last().1 as int))
            + pending(d, s.drop_last(), k.take(s.last().2 as int)),
        stack_steps(d, s) == (if s.last().0 >= d.len() { 1 } else { 1 + walk_steps_from(d, s.last().0 as int, s.last().1 as int) })
            + stack_steps(d, s.drop_last()),
        frames_ok(d, s, k.len() as int) == {
            let f = s.last();
            &&& f.2 <= k.len() <= f.0
            &&& terminals_safe(d, f.0 as int)
            &&& terminals_from_safe(d, f.0 as int, f.1 as int)
            &&& frames_ok(d, s.drop_last(), f.2 as int)
        },
{
}

/// Taking edge `idx` of the top frame: the frame moves to the next edge and a frame for the
/// child is pushed, its key one byte longer; the pending entries lose the node's own entry only.
proof fn lemma_walk_descend(d: Seq<u8>, s: Seq<(usize, usize, usize)>, k: Seq<u8>)
    requires
        s.len() > 0,
        0 <= s.last().0 < d.len(),
        s.last().1 < flag_children(d[s.last().0 as int]),
        frames_ok(d, s, k.len() as int),
        k.len() < usize::MAX,
    ensures
        ({
            let (pos, idx, kl) = s.last();
            let b = d[children_start(d, pos as int) + 5 * idx];
            let t = entry_target(d, pos as int, idx as int);
            let s2 = s.drop_last().push((pos, (idx + 1) as usize, kl)).push((t as usize, 0usize, k.len() as usize));
            &&& children_start(d, pos as int) + 5 * idx + 5 <= d.len()
            &&& t <= usize::MAX
            &&& pending(d, s, k) == with_prefix(k, own_part(d, pos as int, idx as int)) + pending(d, s2, k.push(b))
            &&& frames_ok(d, s2, k.len() + 1int)
            &&& stack_steps(d, s2) < stack_steps(d, s)
        }),
{
    let (pos, idx, kl) = s.last();
    let p = pos as int;
    let i = idx as int;
    let b = d[children_start(d, p) + 5 * i];
    let t = entry_target(d, p, i);
    let below = s.drop_last();
    let mid = below.push((pos, (idx + 1) as usize, kl));
    let s2 = mid.push((t as usize, 0usize, k.len() as usize));
    lemma_pending_top(d, s, k);
    lemma_pending_top(d, mid, k);
    lemma_pending_top(d, s2, k.push(b));
    assert(s2.drop_last() == mid);
    assert(mid.drop_last() == below);
    assert(k.push(b).take(k.len() as int) =~= k);
    lemma_flag_children_bound(d[p]);
    assert(p < t);
    assert(terminals_from_safe(d, p, i));
    assert(t <= usize::MAX);
    assert((t as usize) as int == t);
    assert(terminals_from_safe(d, p, i + 1));
    assert(s2.last() == (t as usize, 0usize, k.len() as usize));
    assert(mid.last() == (pos, (idx + 1) as usize, kl));
    let sub = if p < t < d.len() { terminals(d, t) } else { Seq::<(Seq<u8>, u32)>::empty() };
    assert(frame_rest(d, t, 0) == sub) by {
        if t < d.len() {
            lemma_flag_children_bound(d[t]);
        }
    }
    assert(terminals_from(d, p, i) == with_prefix(seq![b], sub) + terminals_from(d, p, i + 1));
    lemma_with_prefix_push(k, b, sub);
    lemma_with_prefix_concat(k, with_prefix(seq![b], sub), terminals_from(d, p, i + 1));
    lemma_with_prefix_concat(k, own_part(d, p, i), terminals_from(d, p, i));
    assert(frame_rest(d, p, i) == own_part(d, p, i) + terminals_from(d, p, i));
    assert(frame_rest(d, p, i + 1) =~= terminals_from(d, p, i + 1));
    assert(pending(d, s2, k.push(b)) == with_prefix(k.push(b), sub) + pending(d, mid, k));
    assert(pending(d, mid, k) == with_prefix(k, terminals_from(d, p, i + 1)) + pending(d, below, k.take(kl as int)));
    assert(pending(d, s, k) == with_prefix(k, frame_rest(d, p, i)) + pending(d, below, k.take(kl as int)));
    assert(pending(d, s, k) =~= with_prefix(k, own_part(d, p, i)) + pending(d, s2, k.push(b)));
    assert(terminals_safe(d, t));
    assert(frames_ok(d, mid, k.len() as int));
    assert(frames_ok(d, s2, k.len() + 1int)) by {
        if t < d.len() {
            lemma_flag_children_bound(d[t]);
        }
        assert(terminals_from_safe(d, t, 0));
        assert(frames_ok(d, mid, k.len() as int));
    }
    assert(walk_steps_from(d, p, i) == 1 + (if p < t < d.len() { walk_steps(d, t) } else { 1 }) + walk_steps_from(d, p, i + 1));
    assert(stack_steps(d, s2) < stack_steps(d, s)) by {
        if t < d.len() {
            lemma_flag_children_bound(d[t]);
            assert(walk_steps(d, t) == 1 + walk_steps_from(d, t, 0));
        }
    }
}

/// Leaving the top frame, whose node lies outside the data or has no edges left.
proof fn lemma_walk_pop(d: Seq<u8>, s: Seq<(usize, usize, usize)>, k: Seq<u8>)
    requires
        s.len() > 0,
        s.last().0 >= d.len() || s.last().1 >= flag_children(d[s.last().0 as int]),
        frames_ok(d, s, k.len() as int),
    ensures
        pending(d, s, k) == with_prefix(k, own_part(d, s.last().0 as int, s.last().1 as int))
            + pending(d, s.drop_last(), k.take(s.last().2 as int)),
        frames_ok(d, s.drop_last(), s.last().2 as int),
        s.last().2 <= k.len(),
        stack_steps(d, s.drop_last()) < stack_steps(d, s),
{
    let (pos, idx, kl) = s.last();
    lemma_pending_top(d, s, k);
    if pos < d.len() {
        let p = pos as int;
        lemma_flag_children_bound(d[p]);
        assert(terminals_from(d, p, idx as int) =~= Seq::<(Seq<u8>, u32)>::empty());
        assert(frame_rest(d, p, idx as int) =~= own_part(d, p, idx as int));
    } else {
        assert(with_prefix(k, frame_rest(d, pos as int, idx as int)) =~= Seq::<(Seq<u8>, u32)>::empty());
        assert(with_prefix(k, own_part(d, pos as int, idx as int)) =~= Seq::<(Seq<u8>, u32)>::empty());
    }
}

/// Visits every terminal node of the serialized trie at `start_offset`, depth first with
/// edges in stored order, keeping its own stack of frames; returns each terminal's key
/// (the edge bytes from the start node) and bitmap.
#[verifier::spinoff_prover]
pub fn walk_terminals(data: &[u8], start_offset: usize) -> (r: Vec<(Vec<u8>, u32)>)
    requires
        terminals_safe(data@, start_offset as int),
    ensures
        entry_views(r@) == terminals(data@, start_offset as int),
{
    let ghost d = data@;
    let ghost full = terminals(d, start_offset as int);
    let mut stack: Vec<(usize, usize, usize)> = Vec::new();
    stack.push((start_offset, 0, 0));
    let mut key: Vec<u8> = Vec::new();
    let mut out: Vec<(Vec<u8>, u32)> = Vec::new();
    proof {
        lemma_pending_top(d, stack@, key@);
        assert(stack@.drop_last() =~= Seq::<(usize, usize, usize)>::empty());
        if start_offset < data.len() {
            lemma_flag_children_bound(d[start_offset as int]);
        }
        assert(frame_rest(d, start_offset as int, 0) == full);
        assert forall|i: int| 0 <= i < full.len() implies with_prefix(Seq::empty(), full)[i] == full[i] by {
            assert(Seq::<u8>::empty() + full[i].0 =~= full[i].0);
        }
        assert(with_prefix(Seq::empty(), full) =~= full);
        assert(entry_views(out@) =~= Seq::<(Seq<u8>, u32)>::empty());
        assert(entry_views(out@) + pending(d, stack@, key@) =~= full);
    }
    while stack.len() > 0
        invariant
            d == data@,
            entry_views(out@) + pending(d, stack@, key@) == full,
            frames_ok(d, stack@, key@.len() as int),
        decreases stack_steps(d, stack@),
    {
        let top = stack.len() - 1;
        let (node_pos, child_idx, key_len) = stack[top];
        let ghost s = stack@;
        let ghost k = key@;
        let ghost out0 = entry_views(out@);
        assert(s.last() == (node_pos, child_idx, key_len));
        if node_pos >= data.len() {
            proof {
                lemma_walk_pop(d, s, k);
            }
            stack.pop();
            key.truncate(key_len);
            assert(with_prefix(k, own_part(d, node_pos as int, child_idx as int)) =~= Seq::<(Seq<u8>, u32)>::empty());
            assert(entry_views(out@) + pending(d, stack@, key@) =~= out0 + pending(d, s, k));
            continue;
        }
        proof {
            lemma_pending_top(d, s, k);
            lemma_flag_children_bound(d[node_pos as int]);
        }
        let flags = data[node_pos];
        let child_count = (flags >> 1) as usize;
        let is_terminal = (flags & 0x01) != 0;
        let bitmap_offset = node_pos + 1;
        let children_start = if is_terminal { bitmap_offset + 4 } else { bitmap_offset };
        assert(child_count == flag_children(d[node_pos as int]));
        assert(is_terminal == flag_terminal(d[node_pos as int]));
        assert(children_start == self::children_start(d, node_pos as int));
        let ghost own = own_part(d, node_pos as int, child_idx as int);
        if child_idx == 0 && is_terminal {
            let bitmap = get_le_u32(data, bitmap_offset);
            out.push((copy_bytes(&key), bitmap));
            proof {
                assert(entry_views(out@) =~= out0.push((k, bitmap)));
                assert(k + Seq::<u8>::empty() =~= k);
                assert(with_prefix(k, own) =~= seq![(k, bitmap)]);
            }
        } else {
            assert(with_prefix(k, own) =~= Seq::<(Seq<u8>, u32)>::empty());
        }
        assert(entry_views(out@) =~= out0 + with_prefix(k, own));
        if child_idx < child_count {
            proof {
                lemma_walk_descend(d, s, k);
            }
            let entry_pos = children_start + child_idx * 5;
            let child_byte = data[entry_pos];
            let offset_field_pos = entry_pos + 1;
            let relative_offset = get_le_u32(data, offset_field_pos);
            let next_pos = offset_field_pos + relative_offset as usize;
            stack.set(top, (node_pos, child_idx + 1, key_len));
            let key_len_before_push = key.len();
            key.push(child_byte);
            stack.push((next_pos, 0, key_len_before_push));
            assert(stack@ =~= s.drop_last().push((node_pos, (child_idx + 1) as usize, key_len)).push((next_pos, 0usize, k.len() as usize)));
            assert(key@ =~= k.push(child_byte));
            assert(entry_views(out@) + pending(d, stack@, key@) =~= out0 + pending(d, s, k));
        } else {
            proof {
                lemma_walk_pop(d, s, k);
            }
            stack.pop();
            key.truncate(key_len);
            assert(entry_views(out@) + pending(d, stack@, key@) =~= out0 + pending(d, s, k));
        }
    }
    out
}

} // verus!

verus! {

/// A header is accepted exactly when the data holds 48 bytes and starts with the magic bytes
/// `L B D S` (the little-endian word 0x5344424C) and the version bytes `3 0 0 0`.
pub proof fn lemma_header_check(d: Seq<u8>)
    ensures
        header_error(d) is None <==> (d.len() >= 48 && d.subrange(0, 4) == seq![0x4Cu8, 0x42u8, 0x44u8, 0x53u8]
            && d.subrange(4, 8) == seq![3u8, 0u8, 0u8, 0u8]),
{
    if d.len() >= 48 {
        let (b0, b1, b2, b3) = (d[0], d[1], d[2], d[3]);
        let (c0, c1, c2, c3) = (d[4], d[5], d[6], d[7]);
        let m = MAGIC;
        let v = VERSION;
        assert(((b0 as u32) | ((b1 as u32) << 8u32) | ((b2 as u32) << 16u32) | ((b3 as u32) << 24u32) == m)
            <==> (b0 == 0x4Cu8 && b1 == 0x42u8 && b2 == 0x44u8 && b3 == 0x53u8)) by (bit_vector)
            requires
                m == 0x5344424Cu32,
        ;
        assert(((c0 as u32) | ((c1 as u32) << 8u32) | ((c2 as u32) << 16u32) | ((c3 as u32) << 24u32) == v)
            <==> (c0 == 3u8 && c1 == 0u8 && c2 == 0u8 && c3 == 0u8)) by (bit_vector)
            requires
                v == 3u32,
        ;
        assert(read_le_u32(d, 0) == (b0 as u32) | ((b1 as u32) << 8u32) | ((b2 as u32) << 16u32) | ((b3 as u32) << 24u32));
        assert(read_le_u32(d, 4) == (c0 as u32) | ((c1 as u32) << 8u32) | ((c2 as u32) << 16u32) | ((c3 as u32) << 24u32));
        if d.subrange(0, 4) == seq![0x4Cu8, 0x42u8, 0x44u8, 0x53u8] {
            assert(d[0] == d.subrange(0, 4)[0] && d[1] == d.subrange(0, 4)[1] && d[2] == d.subrange(0, 4)[2] && d[3] == d.subrange(0, 4)[3]);
        }
        if d.subrange(4, 8) == seq![3u8, 0u8, 0u8, 0u8] {
            assert(d[4] == d.subrange(4, 8)[0] && d[5] == d.subrange(4, 8)[1] && d[6] == d.subrange(4, 8)[2] && d[7] == d.subrange(4, 8)[3]);
        }
        if b0 == 0x4Cu8 && b1 == 0x42u8 && b2 == 0x44u8 && b3 == 0x53u8 {
            assert(d.subrange(0, 4) =~= seq![0x4Cu8, 0x42u8, 0x44u8, 0x53u8]);
        }
        if c0 == 3u8 && c1 == 0u8 && c2 == 0u8 && c3 == 0u8 {
            assert(d.subrange(4, 8) =~= seq![3u8, 0u8, 0u8, 0u8]);
        }
    }
}

} // verus!

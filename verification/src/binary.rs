use vstd::prelude::*;
use vstd::string::StringSliceAdditionalSpecFns;
use vstd::utf8::{decode_utf8, encode_scalar, encode_utf8, has_width_1_encoding, encode_utf8_decode_utf8, encode_utf8_valid_utf8, is_ascii_chars, is_ascii_chars_encode_utf8, valid_utf8};
use std::str::Utf8Error;
use vstd::set_lib::lemma_map_size;
use crate::bytes::{le_value, lemma_le_value_u32, lemma_le_value_u64, extend_bytes, le_u32, le_u64, lemma_le_u32_roundtrip, lemma_le_u64_roundtrip, lemma_read_le_u32_window, push_le_u32, push_le_u64, read_le_u32, read_le_u64};
use crate::parser::DomainStore;
use crate::reader::{bit_count, categories_safe, category_entries, has_bit, keys_with_bit, lemma_bit_count_keys, header_error, header_of, lemma_terminals_ser, lemma_walk_ser, readable_image, terminals, walk, walk_safe, SdblHeader, MAGIC, VERSION, HEADER_SIZE};
use crate::trie::{canonical_trie, distinct_keys, entry_views, keys_sorted, lemma_entries_contains, lemma_entries_distinct, lemma_entries_sorted, lemma_trie_image, merged, trie_entries, trie_image, Node, Trie};

verus! {

/// `m` with every key reversed (the wildcard trie stores suffixes back to front).
pub open spec fn reverse_keys(m: Map<Seq<u8>, u32>) -> Map<Seq<u8>, u32> {
    Map::new(|k: Seq<u8>| m.contains_key(k.reverse()), |k: Seq<u8>| m[k.reverse()])
}

/// The category list with repeated (name, index) pairs dropped, first occurrences kept in order.
pub open spec fn dedup_categories(cats: Seq<(Seq<char>, u8)>) -> Seq<(Seq<char>, u8)>
    decreases cats.len(),
{
    if cats.len() == 0 {
        Seq::empty()
    } else {
        let d = dedup_categories(cats.drop_last());
        if d.contains(cats.last()) { d } else { d.push(cats.last()) }
    }
}

/// One category record: index byte, name length byte, UTF-8 name.
pub open spec fn category_record(c: (Seq<char>, u8)) -> Seq<u8> {
    seq![c.1, encode_utf8(c.0).len() as u8] + encode_utf8(c.0)
}

pub open spec fn category_table(cats: Seq<(Seq<char>, u8)>) -> Seq<u8>
    decreases cats.len(),
{
    if cats.len() == 0 {
        Seq::empty()
    } else {
        category_table(cats.drop_last()) + category_record(cats.last())
    }
}

/// The 48-byte header.
pub open spec fn header_bytes(
    flags: u32,
    category_count: u32,
    exact_count: u32,
    wildcard_count: u32,
    exact_offset: u64,
    wildcard_offset: u64,
    total: u64,
) -> Seq<u8> {
    le_u32(MAGIC) + le_u32(VERSION) + le_u32(flags) + le_u32(category_count) + le_u32(exact_count)
        + le_u32(wildcard_count) + le_u64(exact_offset) + le_u64(wildcard_offset) + le_u64(total)
}

/// Header flags: bit 0 when there are exact domains, bit 1 when there are wildcard suffixes.
pub open spec fn image_flags(exact: Map<Seq<u8>, u32>, wild: Map<Seq<u8>, u32>) -> u32 {
    ((if exact.dom().len() > 0 { 1int } else { 0int }) + (if wild.dom().len() > 0 { 2int } else { 0int })) as u32
}

/// The SDBL v3 image of the given exact map, wildcard map and category list: header,
/// deduplicated category table, exact trie, then the wildcard trie over reversed suffixes.
pub open spec fn sdbl_image(exact: Map<Seq<u8>, u32>, wild: Map<Seq<u8>, u32>, cats: Seq<(Seq<char>, u8)>) -> Seq<u8> {
    let d = dedup_categories(cats);
    let table = category_table(d);
    let et = trie_image(exact);
    let wt = trie_image(reverse_keys(wild));
    let eo = 48 + table.len();
    let wo = eo + et.len();
    let total = wo + wt.len();
    header_bytes(
        image_flags(exact, wild),
        d.len() as u32,
        exact.dom().len() as u32,
        wild.dom().len() as u32,
        eo as u64,
        wo as u64,
        total as u64,
    ) + table + et + wt
}

pub open spec fn category_views(cats: Seq<(String, u8)>) -> Seq<(Seq<char>, u8)> {
    cats.map_values(|c: (String, u8)| (c.0@, c.1))
}

} // verus!

verus! {

/// Appends the category table for `categories`, skipping repeated (name, index) pairs.
/// Returns how many records were written.
fn write_category_table(data: &mut Vec<u8>, categories: &[(String, u8)]) -> (n: usize)
    requires
        forall|i: int| 0 <= i < categories@.len() ==> encode_utf8(#[trigger] categories@[i].0@).len() <= 255,
    ensures
        final(data)@ == old(data)@ + category_table(dedup_categories(category_views(categories@))),
        n == dedup_categories(category_views(categories@)).len(),
{
    let ghost cv = category_views(categories@);
    let mut kept: Vec<usize> = Vec::new();
    let mut i: usize = 0;
    while i < categories.len()
        invariant
            i <= categories@.len(),
            cv == category_views(categories@),
            forall|t: int| 0 <= t < categories@.len() ==> encode_utf8(#[trigger] categories@[t].0@).len() <= 255,
            forall|t: int| 0 <= t < kept@.len() ==> kept@[t] < categories@.len(),
            kept@.map_values(|t: usize| cv[t as int]) == dedup_categories(cv.take(i as int)),
            data@ == old(data)@ + category_table(dedup_categories(cv.take(i as int))),
        decreases categories@.len() - i,
    {
        let ghost d = dedup_categories(cv.take(i as int));
        assert(cv.take(i + 1).drop_last() =~= cv.take(i as int));
        assert(cv.take(i + 1).last() == cv[i as int]);
        let name = &categories[i].0;
        let index = categories[i].1;
        let mut seen = false;
        let mut j: usize = 0;
        while j < kept.len()
            invariant
                j <= kept@.len(),
                i < categories@.len(),
                forall|t: int| 0 <= t < kept@.len() ==> kept@[t] < categories@.len(),
                kept@.map_values(|t: usize| cv[t as int]) == d,
                cv == category_views(categories@),
                *name == categories@[i as int].0,
                index == categories@[i as int].1,
                seen == d.take(j as int).contains(cv[i as int]),
            decreases kept@.len() - j,
        {
            let k = kept[j];
            assert(d[j as int] == cv[k as int]);
            assert(cv[k as int] == (categories@[k as int].0@, categories@[k as int].1));
            assert(cv[i as int] == (categories@[i as int].0@, categories@[i as int].1));
            let same = categories[k].0 == *name && categories[k].1 == index;
            assert(same == (cv[k as int] == cv[i as int]));
            if same {
                seen = true;
            }
            let ghost pre = d.take(j as int);
            assert(d.take(j + 1) =~= pre.push(d[j as int]));
            assert(pre.push(d[j as int]).contains(cv[i as int]) == (pre.contains(cv[i as int]) || d[j as int] == cv[i as int])) by {
                if pre.push(d[j as int]).contains(cv[i as int]) {
                    let w = choose|w: int| 0 <= w < pre.len() + 1 && pre.push(d[j as int])[w] == cv[i as int];
                    if w < pre.len() {
                        assert(pre[w] == cv[i as int]);
                    }
                }
                if pre.contains(cv[i as int]) {
                    let w = choose|w: int| 0 <= w < pre.len() && pre[w] == cv[i as int];
                    assert(pre.push(d[j as int])[w] == cv[i as int]);
                }
                if d[j as int] == cv[i as int] {
                    assert(pre.push(d[j as int])[pre.len() as int] == cv[i as int]);
                }
            }
            j = j + 1;
        }
        assert(d.take(kept@.len() as int) =~= d);
        if !seen {
            let bytes = name.as_str().as_bytes();
            data.push(index);
            data.push(bytes.len() as u8);
            extend_bytes(data, bytes);
            kept.push(i);
            proof {
                assert(kept@.map_values(|t: usize| cv[t as int]) =~= d.push(cv[i as int]));
                assert(category_record(cv[i as int]) =~= seq![index, bytes@.len() as u8] + bytes@);
                assert(category_table(d.push(cv[i as int])) == category_table(d) + category_record(cv[i as int])) by {
                    assert(d.push(cv[i as int]).drop_last() =~= d);
                }
                assert(data@ =~= old(data)@ + category_table(dedup_categories(cv.take(i + 1))));
            }
        }
        i = i + 1;
    }
    assert(cv.take(i as int) =~= cv);
    assert(kept@.map_values(|t: usize| cv[t as int]).len() == kept@.len());
    kept.len()
}

} // verus!

verus! {

/// `v` back to front.
pub(crate) fn reverse_bytes(v: &Vec<u8>) -> (r: Vec<u8>)
    ensures
        r@ == v@.reverse(),
{
    let mut r: Vec<u8> = Vec::new();
    let mut i = v.len();
    while i > 0
        invariant
            i <= v@.len(),
            r@ == v@.subrange(i as int, v@.len() as int).reverse(),
        decreases i,
    {
        i = i - 1;
        r.push(v[i]);
        assert(r@ =~= v@.subrange(i as int, v@.len() as int).reverse());
    }
    assert(v@.subrange(0, v@.len() as int) =~= v@);
    r
}

pub proof fn lemma_reverse_reverse(s: Seq<u8>)
    ensures
        s.reverse().reverse() == s,
{
    assert(s.reverse().reverse() =~= s);
}

/// A trie storing the keys of `src` reversed, each with its bitmap.
#[verifier::spinoff_prover]
fn reversed_trie(src: &Trie) -> (t: Trie)
    requires
        src.wf(),
    ensures
        t.wf(),
        t@ == reverse_keys(src@),
{
    let entries = src.entries();
    let ghost m = src@;
    let ghost es = entry_views(entries@);
    let mut t = Trie::new();
    let mut i: usize = 0;
    while i < entries.len()
        invariant
            i <= entries@.len(),
            es == entry_views(entries@),
            forall|k: Seq<u8>, v: u32| #[trigger] es.contains((k, v)) <==> m.contains_key(k) && m[k] == v,
            t.wf(),
            t.count <= i,
            t@ == Map::new(
                |r: Seq<u8>| exists|j: int| 0 <= j < i && #[trigger] es[j].0.reverse() == r,
                |r: Seq<u8>| m[r.reverse()],
            ),
        decreases entries@.len() - i,
    {
        let rev = reverse_bytes(&entries[i].0);
        let v = entries[i].1;
        let ghost k = es[i as int].0;
        assert(es[i as int] == (entries@[i as int].0@, entries@[i as int].1));
        assert(es.contains((k, v)));
        proof {
            lemma_reverse_reverse(k);
        }
        let ghost before = t@;
        assert(v | v == v) by (bit_vector);
        t.insert_bytes(rev.as_slice(), v);
        proof {
            let target = Map::new(
                |r: Seq<u8>| exists|j: int| 0 <= j < i + 1 && #[trigger] es[j].0.reverse() == r,
                |r: Seq<u8>| m[r.reverse()],
            );
            assert forall|r: Seq<u8>| #[trigger] t@.contains_key(r) == target.contains_key(r) by {
                if r == rev@ {
                    assert(es[i as int].0.reverse() == r);
                }
                if target.contains_key(r) && r != rev@ {
                    let j = choose|j: int| 0 <= j < i + 1 && #[trigger] es[j].0.reverse() == r;
                    assert(j < i);
                }
            }
            assert forall|r: Seq<u8>| t@.contains_key(r) implies #[trigger] t@[r] == target[r] by {
                if r == rev@ {
                    assert(m[r.reverse()] == v);
                }
            }
            assert(t@ =~= target);
            assert(before.dom().insert(rev@).len() <= before.dom().len() + 1);
        }
        i = i + 1;
    }
    proof {
        let target = reverse_keys(m);
        assert forall|r: Seq<u8>| #[trigger] t@.contains_key(r) == target.contains_key(r) by {
            lemma_reverse_reverse(r);
            if target.contains_key(r) {
                let k = r.reverse();
                assert(es.contains((k, m[k])));
                let j = choose|j: int| 0 <= j < es.len() && es[j] == (k, m[k]);
                lemma_reverse_reverse(k);
                assert(es[j].0.reverse() == r);
            }
            if t@.contains_key(r) {
                let j = choose|j: int| 0 <= j < i && #[trigger] es[j].0.reverse() == r;
                let e = es[j];
                assert(es.contains(e));
                lemma_reverse_reverse(e.0);
            }
        }
        assert(t@ =~= target);
    }
    t
}

} // verus!

verus! {

#[verifier::external_type_specification]
#[verifier::external_body]
pub struct ExUtf8Error(std::str::Utf8Error);

/// Reads bytes as UTF-8 text (std `str::from_utf8`). Trusted: it succeeds exactly on valid
/// UTF-8, and then gives the decoded characters.
#[verifier::external_body]
fn str_from_utf8(bytes: &[u8]) -> (r: Result<&str, Utf8Error>)
    ensures
        r is Ok <==> valid_utf8(bytes@),
        r matches Ok(s) ==> s@ == decode_utf8(bytes@),
{
    std::str::from_utf8(bytes)
}

/// Whether `compile` accepts the store and categories: no trie node with more than 127
/// children, category names of at most 255 bytes, and wildcard suffixes whose reversed bytes
/// are UTF-8.
pub open spec fn compilable(store: DomainStore, categories: Seq<(String, u8)>) -> bool {
    &&& canonical_trie(store.exact_domains@).fanout_ok()
    &&& canonical_trie(reverse_keys(store.wildcard_suffixes@)).fanout_ok()
    &&& forall|i: int| 0 <= i < categories.len() ==> encode_utf8(#[trigger] categories[i].0@).len() <= 255
    &&& forall|k: Seq<u8>| #[trigger] store.wildcard_suffixes@.contains_key(k) ==> valid_utf8(k.reverse())
}

/// Compiles the store into an SDBL v3 image: a 48-byte header, the deduplicated category
/// table, the exact-domain trie and the wildcard trie (suffixes stored reversed).
pub fn compile(store: &DomainStore, categories: &[(String, u8)]) -> (data: Vec<u8>)
    requires
        store.wf(),
        compilable(*store, categories@),
    ensures
        data@ == sdbl_image(store.exact_domains@, store.wildcard_suffixes@, category_views(categories@)),
        data@.len() <= u32::MAX ==> image_reads_back(data@, store.exact_domains@, store.wildcard_suffixes@),
{
    let wildcard_trie = reversed_trie(&store.wildcard_suffixes);
    proof {
        lemma_trie_image(wildcard_trie.root);
    }
    assemble(store, &wildcard_trie, categories)
}

/// `compile` where its conditions hold, else `None`.
#[verifier::spinoff_prover]
pub fn try_compile(store: &DomainStore, categories: &[(String, u8)]) -> (r: Option<Vec<u8>>)
    requires
        store.wf(),
    ensures
        r is Some <==> compilable(*store, categories@),
        r matches Some(data) ==> data@ == sdbl_image(store.exact_domains@, store.wildcard_suffixes@, category_views(categories@)),
        r matches Some(data) ==> (data@.len() <= u32::MAX ==> image_reads_back(data@, store.exact_domains@, store.wildcard_suffixes@)),
{
    let mut i: usize = 0;
    while i < categories.len()
        invariant
            i <= categories@.len(),
            forall|j: int| 0 <= j < i ==> encode_utf8(#[trigger] categories@[j].0@).len() <= 255,
        decreases categories@.len() - i,
    {
        if categories[i].0.as_str().as_bytes().len() > 255 {
            return None;
        }
        i = i + 1;
    }
    proof {
        lemma_trie_image(store.exact_domains.root);
    }
    if !store.exact_domains.root.check_fanout() {
        return None;
    }
    let wildcard_trie = reversed_trie(&store.wildcard_suffixes);
    proof {
        lemma_trie_image(wildcard_trie.root);
    }
    if !wildcard_trie.root.check_fanout() {
        return None;
    }
    let entries = store.wildcard_suffixes.entries();
    let ghost es = entry_views(entries@);
    let mut i: usize = 0;
    while i < entries.len()
        invariant
            i <= entries@.len(),
            es == entry_views(entries@),
            forall|k: Seq<u8>, v: u32| #[trigger] es.contains((k, v)) <==> store.wildcard_suffixes@.contains_key(k) && store.wildcard_suffixes@[k] == v,
            forall|j: int| 0 <= j < i ==> valid_utf8((#[trigger] es[j]).0.reverse()),
        decreases entries@.len() - i,
    {
        let rev = reverse_bytes(&entries[i].0);
        assert(es[i as int] == (entries@[i as int].0@, entries@[i as int].1));
        if !str_from_utf8(rev.as_slice()).is_ok() {
            let ghost k = es[i as int].0;
            assert(es.contains((k, es[i as int].1)));
            assert(store.wildcard_suffixes@.contains_key(k));
            assert(!valid_utf8(k.reverse()));
            return None;
        }
        i = i + 1;
    }
    assert forall|k: Seq<u8>| #[trigger] store.wildcard_suffixes@.contains_key(k) implies valid_utf8(k.reverse()) by {
        let v = store.wildcard_suffixes@[k];
        assert(es.contains((k, v)));
        let j = choose|j: int| 0 <= j < es.len() && es[j] == (k, v);
        assert(valid_utf8(es[j].0.reverse()));
    }
    Some(assemble(store, &wildcard_trie, categories))
}

#[verifier::spinoff_prover]
fn assemble(store: &DomainStore, wildcard_trie: &Trie, categories: &[(String, u8)]) -> (data: Vec<u8>)
    requires
        store.wf(),
        wildcard_trie.wf(),
        wildcard_trie@ == reverse_keys(store.wildcard_suffixes@),
        canonical_trie(store.exact_domains@).fanout_ok(),
        canonical_trie(reverse_keys(store.wildcard_suffixes@)).fanout_ok(),
        forall|i: int| 0 <= i < categories@.len() ==> encode_utf8(#[trigger] categories@[i].0@).len() <= 255,
    ensures
        data@ == sdbl_image(store.exact_domains@, store.wildcard_suffixes@, category_views(categories@)),
        data@.len() <= u32::MAX ==> image_reads_back(data@, store.exact_domains@, store.wildcard_suffixes@),
{
    let ghost exact = store.exact_domains@;
    let ghost wild = store.wildcard_suffixes@;
    proof {
        lemma_trie_image(store.exact_domains.root);
        lemma_trie_image(wildcard_trie.root);
    }

    let mut data: Vec<u8> = Vec::new();
    let mut z: usize = 0;
    while z < HEADER_SIZE
        invariant
            z <= HEADER_SIZE,
            data@.len() == z,
        decreases HEADER_SIZE - z,
    {
        data.push(0);
        z = z + 1;
    }
    let ghost zeros = data@;

    let category_count = write_category_table(&mut data, categories);

    let exact_trie_offset = data.len() as u64;
    store.exact_domains.serialize(&mut data);

    let wildcard_trie_offset = data.len() as u64;
    wildcard_trie.serialize(&mut data);

    let mut flags: u32 = 0;
    if !store.exact_domains.is_empty() {
        flags = flags | 0x01;
    }
    if !store.wildcard_suffixes.is_empty() {
        flags = flags | 0x02;
    }
    assert(flags == image_flags(exact, wild)) by {
        assert((0u32 | 1u32) == 1u32 && (0u32 | 2u32) == 2u32 && ((0u32 | 1u32) | 2u32) == 3u32) by (bit_vector);
    }

    let total_size = data.len() as u64;
    let mut h: Vec<u8> = Vec::new();
    push_le_u32(&mut h, MAGIC);
    push_le_u32(&mut h, VERSION);
    push_le_u32(&mut h, flags);
    push_le_u32(&mut h, category_count as u32);
    let exact_count = store.exact_domains.len() as u32;
    let wildcard_count = store.wildcard_suffixes.len() as u32;
    push_le_u32(&mut h, exact_count);
    push_le_u32(&mut h, wildcard_count);
    push_le_u64(&mut h, exact_trie_offset);
    push_le_u64(&mut h, wildcard_trie_offset);
    push_le_u64(&mut h, total_size);
    assert(h@ =~= header_bytes(
        flags,
        category_count as u32,
        exact_count,
        wildcard_count,
        exact_trie_offset,
        wildcard_trie_offset,
        total_size,
    ));
    let ghost body = data@.subrange(HEADER_SIZE as int, data@.len() as int);
    assert(data@ =~= zeros + body);
    let mut i: usize = 0;
    while i < HEADER_SIZE
        invariant
            h@.len() == HEADER_SIZE,
            zeros.len() == HEADER_SIZE,
            i <= HEADER_SIZE,
            data@.len() == HEADER_SIZE + body.len(),
            data@ == h@.take(i as int) + zeros.skip(i as int) + body,
        decreases HEADER_SIZE - i,
    {
        data.set(i, h[i]);
        i = i + 1;
        assert(data@ =~= h@.take(i as int) + zeros.skip(i as int) + body);
    }
    assert(h@.take(48) =~= h@);
    assert(zeros.skip(48) =~= Seq::<u8>::empty());
    assert(data@ =~= sdbl_image(exact, wild, category_views(categories@)));
    proof {
        if data@.len() <= u32::MAX {
            lemma_compiled_image(data@, exact, wild, category_views(categories@), store.exact_domains.root, wildcard_trie.root);
        }
    }
    data
}

/// What reading a compiled image gives back: the image is readable; looking up a key in the
/// exact trie gives its bitmap in `exact`; looking up a reversed key in the wildcard trie gives
/// its bitmap in `wild`; walking each trie visits exactly its entries, each key once, in
/// increasing byte-lexicographic order.
pub open spec fn image_reads_back(d: Seq<u8>, exact: Map<Seq<u8>, u32>, wild: Map<Seq<u8>, u32>) -> bool {
    let h = header_of(d);
    &&& readable_image(d)
    &&& forall|k: Seq<u8>| #[trigger] walk(d, h.exact_trie_offset as usize as int, k) == exact.get(k)
    &&& forall|k: Seq<u8>| #[trigger] walk(d, h.wildcard_trie_offset as usize as int, k) == reverse_keys(wild).get(k)
    &&& terminals(d, h.exact_trie_offset as usize as int) == trie_entries(exact)
    &&& terminals(d, h.wildcard_trie_offset as usize as int) == trie_entries(reverse_keys(wild))
    &&& keys_sorted(terminals(d, h.exact_trie_offset as usize as int))
    &&& keys_sorted(terminals(d, h.wildcard_trie_offset as usize as int))
    &&& distinct_keys(terminals(d, h.exact_trie_offset as usize as int))
    &&& distinct_keys(terminals(d, h.wildcard_trie_offset as usize as int))
    &&& forall|k: Seq<u8>, v: u32| #[trigger] terminals(d, h.exact_trie_offset as usize as int).contains((k, v))
        <==> exact.contains_key(k) && exact[k] == v
    &&& forall|k: Seq<u8>, v: u32| #[trigger] terminals(d, h.wildcard_trie_offset as usize as int).contains((k, v))
        <==> reverse_keys(wild).contains_key(k) && reverse_keys(wild)[k] == v
}

#[verifier::spinoff_prover]
proof fn lemma_compiled_image(
    d: Seq<u8>,
    exact: Map<Seq<u8>, u32>,
    wild: Map<Seq<u8>, u32>,
    cats: Seq<(Seq<char>, u8)>,
    en: Node,
    wn: Node,
)
    requires
        d == sdbl_image(exact, wild, cats),
        d.len() <= u32::MAX,
        en.wf(),
        en.fanout_ok(),
        en.view_map() == exact,
        wn.wf(),
        wn.fanout_ok(),
        wn.view_map() == reverse_keys(wild),
    ensures
        image_reads_back(d, exact, wild),
{
    lemma_image_header(exact, wild, cats);
    lemma_trie_image(en);
    lemma_trie_image(wn);
    let table = category_table(dedup_categories(cats));
    let eo: int = 48 + table.len() as int;
    let wo: int = eo + en.ser().len();
    let h = header_of(d);
    assert(h.exact_trie_offset as usize as int == eo);
    assert(h.wildcard_trie_offset as usize as int == wo);
    assert forall|k: Seq<u8>| #[trigger] walk(d, eo, k) == exact.get(k) && walk_safe(d, eo, k) by {
        lemma_walk_ser(d, eo, en, k);
    }
    assert forall|k: Seq<u8>| #[trigger] walk(d, wo, k) == reverse_keys(wild).get(k) && walk_safe(d, wo, k) by {
        lemma_walk_ser(d, wo, wn, k);
    }
    assert forall|k: Seq<u8>| #[trigger] walk_safe(d, eo, k) by {
        lemma_walk_ser(d, eo, en, k);
    }
    assert forall|k: Seq<u8>| #[trigger] walk_safe(d, wo, k) by {
        lemma_walk_ser(d, wo, wn, k);
    }
    lemma_terminals_ser(d, eo, en);
    lemma_terminals_ser(d, wo, wn);
    lemma_entries_distinct(en);
    lemma_entries_distinct(wn);
    lemma_entries_sorted(en);
    lemma_entries_sorted(wn);
    assert forall|k: Seq<u8>, v: u32| #[trigger] terminals(d, eo).contains((k, v)) <==> exact.contains_key(k) && exact[k] == v by {
        lemma_entries_contains(en, k, v);
    }
    assert forall|k: Seq<u8>, v: u32| #[trigger] terminals(d, wo).contains((k, v))
        <==> reverse_keys(wild).contains_key(k) && reverse_keys(wild)[k] == v by {
        lemma_entries_contains(wn, k, v);
    }
}

} // verus!

verus! {

proof fn lemma_read_u32_at(img: Seq<u8>, p: int, v: u32)
    requires
        0 <= p,
        p + 4 <= img.len(),
        img.subrange(p, p + 4) == le_u32(v),
    ensures
        read_le_u32(img, p) == v,
{
    lemma_le_u32_roundtrip(v);
    assert(le_u32(v).subrange(0, 4) =~= le_u32(v));
    lemma_read_le_u32_window(img, p, le_u32(v), 0);
}

proof fn lemma_read_u64_at(img: Seq<u8>, p: int, v: u64)
    requires
        0 <= p,
        p + 8 <= img.len(),
        img.subrange(p, p + 8) == le_u64(v),
    ensures
        read_le_u64(img, p) == v,
{
    lemma_le_u64_roundtrip(v);
    let s = le_u64(v);
    assert(s.subrange(0, 4) =~= img.subrange(p, p + 4));
    assert(s.subrange(4, 8) =~= img.subrange(p + 4, p + 8));
    lemma_read_le_u32_window(img, p, s, 0);
    lemma_read_le_u32_window(img, p + 4, s, 4);
}

/// The header of a compiled image reads back as the values it was written with.
#[verifier::rlimit(60)]
#[verifier::spinoff_prover]
pub proof fn lemma_image_header(exact: Map<Seq<u8>, u32>, wild: Map<Seq<u8>, u32>, cats: Seq<(Seq<char>, u8)>)
    ensures
        ({
            let img = sdbl_image(exact, wild, cats);
            let d = dedup_categories(cats);
            let table = category_table(d);
            let eo: int = 48 + table.len() as int;
            let wo: int = eo + trie_image(exact).len();
            &&& img.len() == wo + trie_image(reverse_keys(wild)).len()
            &&& header_error(img) is None
            &&& header_of(img) == SdblHeader {
                magic: MAGIC,
                version: VERSION,
                flags: image_flags(exact, wild),
                category_count: d.len() as u32,
                exact_count: exact.dom().len() as u32,
                wildcard_count: wild.dom().len() as u32,
                exact_trie_offset: eo as u64,
                wildcard_trie_offset: wo as u64,
                total_size: img.len() as u64,
            }
            &&& img.subrange(48, eo as int) == table
            &&& img.subrange(eo, wo) == trie_image(exact)
            &&& img.subrange(wo, img.len() as int) == trie_image(reverse_keys(wild))
        }),
{
    let img = sdbl_image(exact, wild, cats);
    let d = dedup_categories(cats);
    let table = category_table(d);
    let et = trie_image(exact);
    let wt = trie_image(reverse_keys(wild));
    let eo: int = 48 + table.len() as int;
    let wo: int = eo + et.len();
    let total: int = wo + wt.len();
    let hb = header_bytes(
        image_flags(exact, wild),
        d.len() as u32,
        exact.dom().len() as u32,
        wild.dom().len() as u32,
        eo as u64,
        wo as u64,
        total as u64,
    );
    lemma_le_u32_roundtrip(0);
    lemma_le_u64_roundtrip(0);
    assert(hb.len() == 48);
    assert(img == hb + table + et + wt);
    assert(img.subrange(0, 4) =~= le_u32(MAGIC));
    lemma_read_u32_at(img, 0, MAGIC);
    assert(img.subrange(4, 8) =~= le_u32(VERSION));
    lemma_read_u32_at(img, 4, VERSION);
    assert(img.subrange(8, 12) =~= le_u32(image_flags(exact, wild)));
    lemma_read_u32_at(img, 8, image_flags(exact, wild));
    assert(img.subrange(12, 16) =~= le_u32(d.len() as u32));
    lemma_read_u32_at(img, 12, d.len() as u32);
    assert(img.subrange(16, 20) =~= le_u32(exact.dom().len() as u32));
    lemma_read_u32_at(img, 16, exact.dom().len() as u32);
    assert(img.subrange(20, 24) =~= le_u32(wild.dom().len() as u32));
    lemma_read_u32_at(img, 20, wild.dom().len() as u32);
    assert(img.subrange(24, 32) =~= le_u64(eo as u64));
    lemma_read_u64_at(img, 24, eo as u64);
    assert(img.subrange(32, 40) =~= le_u64(wo as u64));
    lemma_read_u64_at(img, 32, wo as u64);
    assert(img.subrange(40, 48) =~= le_u64(total as u64));
    lemma_read_u64_at(img, 40, total as u64);
    assert(img.subrange(48, eo) =~= table);
    assert(img.subrange(eo, wo) =~= et);
    assert(img.subrange(wo, img.len() as int) =~= wt);
}

} // verus!

verus! {

/// A category record as the table reader returns it: index byte and name bytes.
pub open spec fn record_view(c: (Seq<char>, u8)) -> (u8, Seq<u8>) {
    (c.1, encode_utf8(c.0))
}

proof fn lemma_table_prefix(d: Seq<(Seq<char>, u8)>, j: int)
    requires
        0 <= j <= d.len(),
    ensures
        category_table(d.take(j)).len() <= category_table(d).len(),
        category_table(d).subrange(0, category_table(d.take(j)).len() as int) == category_table(d.take(j)),
    decreases d.len() - j,
{
    if j == d.len() {
        assert(d.take(j) =~= d);
        assert(category_table(d).subrange(0, category_table(d).len() as int) =~= category_table(d));
    } else {
        lemma_table_prefix(d, j + 1);
        assert(d.take(j + 1).drop_last() =~= d.take(j));
        let a = category_table(d.take(j));
        let b = category_table(d.take(j + 1));
        let t = category_table(d);
        assert(b == a + category_record(d.take(j + 1).last()));
        assert(t.subrange(0, a.len() as int) =~= b.subrange(0, a.len() as int));
    }
}

#[verifier::spinoff_prover]
proof fn lemma_read_table(img: Seq<u8>, d: Seq<(Seq<char>, u8)>, j: int)
    requires
        0 <= j <= d.len(),
        forall|i: int| 0 <= i < d.len() ==> encode_utf8(#[trigger] d[i].0).len() <= 255,
        48 + category_table(d).len() as int <= img.len(),
        img.subrange(48, 48 + category_table(d).len() as int) == category_table(d),
    ensures
        categories_safe(img, 48 + category_table(d.take(j)).len() as int, (d.len() - j) as nat),
        category_entries(img, 48 + category_table(d.take(j)).len() as int, (d.len() - j) as nat)
            == d.skip(j).map_values(|c: (Seq<char>, u8)| record_view(c)),
    decreases d.len() - j,
{
    let pos: int = 48 + category_table(d.take(j)).len() as int;
    if j == d.len() {
        assert(d.skip(j).map_values(|c: (Seq<char>, u8)| record_view(c)) =~= Seq::<(u8, Seq<u8>)>::empty());
    } else {
        lemma_read_table(img, d, j + 1);
        lemma_table_prefix(d, j + 1);
        assert(d.take(j + 1).drop_last() =~= d.take(j));
        assert(d.take(j + 1).last() == d[j]);
        let a = category_table(d.take(j));
        let rec = category_record(d[j]);
        let name = encode_utf8(d[j].0);
        let t = category_table(d);
        assert(category_table(d.take(j + 1)) == a + rec);
        let l = a.len() as int;
        assert(t.subrange(0, l + rec.len()) == a + rec);
        assert forall|q: int| 0 <= q < rec.len() implies img[pos + q] == #[trigger] rec[q] by {
            assert(img[48 + (l + q)] == img.subrange(48, 48 + t.len() as int)[l + q]);
            assert(t[l + q] == t.subrange(0, l + rec.len())[l + q]);
            assert((a + rec)[l + q] == rec[q]);
        }
        assert(rec[0] == d[j].1);
        assert(rec[1] == name.len() as u8);
        assert(img[pos + 0] == rec[0]);
        assert(img[pos + 1] == rec[1]);
        assert(img[pos] == d[j].1);
        assert(img[pos + 1] == name.len() as u8);
        assert(img[pos + 1] as int == name.len());
        assert(img.subrange(pos + 2, pos + 2 + name.len()) =~= name) by {
            assert forall|q: int| 0 <= q < name.len() implies img.subrange(pos + 2, pos + 2 + name.len())[q] == name[q] by {
                assert(img[pos + 2 + q] == rec[2 + q]);
            }
        }
        assert(pos + 2 + name.len() == 48 + category_table(d.take(j + 1)).len() as int);
        let tail = d.skip(j + 1).map_values(|c: (Seq<char>, u8)| record_view(c));
        assert(d.skip(j).map_values(|c: (Seq<char>, u8)| record_view(c)) =~= seq![record_view(d[j])] + tail);
    }
}

proof fn lemma_dedup_subset(cats: Seq<(Seq<char>, u8)>, x: (Seq<char>, u8))
    ensures
        dedup_categories(cats).contains(x) ==> cats.contains(x),
    decreases cats.len(),
{
    if cats.len() > 0 {
        lemma_dedup_subset(cats.drop_last(), x);
        let d = dedup_categories(cats.drop_last());
        if dedup_categories(cats).contains(x) && x != cats.last() {
            if !d.contains(cats.last()) {
                let i = choose|i: int| 0 <= i < d.push(cats.last()).len() && d.push(cats.last())[i] == x;
                assert(i < d.len());
                assert(d.contains(x));
            }
            let j = choose|j: int| 0 <= j < cats.drop_last().len() && cats.drop_last()[j] == x;
            assert(cats[j] == x);
        }
        if x == cats.last() {
            assert(cats[cats.len() - 1] == x);
        }
    }
}

/// Reading the category table of a compiled image gives back the categories, each distinct
/// (name, index) pair once, in the order of first occurrence, as (index, UTF-8 name) records;
/// each name is valid UTF-8 and decodes back to the category's name.
pub proof fn lemma_category_round_trip(exact: Map<Seq<u8>, u32>, wild: Map<Seq<u8>, u32>, cats: Seq<(Seq<char>, u8)>)
    requires
        forall|i: int| 0 <= i < cats.len() ==> encode_utf8(#[trigger] cats[i].0).len() <= 255,
        dedup_categories(cats).len() <= u32::MAX,
    ensures
        ({
            let img = sdbl_image(exact, wild, cats);
            let n = header_of(img).category_count as nat;
            &&& n == dedup_categories(cats).len()
            &&& categories_safe(img, 48, n)
            &&& category_entries(img, 48, n) == dedup_categories(cats).map_values(|c: (Seq<char>, u8)| record_view(c))
            &&& forall|i: int| 0 <= i < n ==> {
                &&& valid_utf8(#[trigger] category_entries(img, 48, n)[i].1)
                &&& decode_utf8(category_entries(img, 48, n)[i].1) == dedup_categories(cats)[i].0
            }
        }),
{
    let img = sdbl_image(exact, wild, cats);
    let d = dedup_categories(cats);
    lemma_image_header(exact, wild, cats);
    assert forall|i: int| 0 <= i < d.len() implies encode_utf8(#[trigger] d[i].0).len() <= 255 by {
        lemma_dedup_subset(cats, d[i]);
        assert(d.contains(d[i]));
        let j = choose|j: int| 0 <= j < cats.len() && cats[j] == d[i];
        assert(encode_utf8(cats[j].0).len() <= 255);
    }
    let table = category_table(d);
    assert(img.subrange(48, 48 + table.len() as int) == table);
    lemma_read_table(img, d, 0);
    assert(d.take(0) =~= Seq::<(Seq<char>, u8)>::empty());
    assert(d.skip(0) =~= d);
    let n = header_of(img).category_count as nat;
    assert forall|i: int| 0 <= i < n implies {
        &&& valid_utf8(#[trigger] category_entries(img, 48, n)[i].1)
        &&& decode_utf8(category_entries(img, 48, n)[i].1) == d[i].0
    } by {
        assert(category_entries(img, 48, n)[i] == record_view(d[i]));
        encode_utf8_valid_utf8(d[i].0);
        encode_utf8_decode_utf8(d[i].0);
    }
}

} // verus!

verus! {

/// For ASCII text, reversing the characters and reversing the UTF-8 bytes agree.
pub proof fn lemma_ascii_reverse(s: Seq<char>)
    requires
        is_ascii_chars(s),
    ensures
        encode_utf8(s.reverse()) == encode_utf8(s).reverse(),
{
    let r = s.reverse();
    assert(is_ascii_chars(r)) by {
        assert forall|i: int| 0 <= i < r.len() implies '\0' <= #[trigger] r[i] <= '\u{7f}' by {
            assert(r[i] == s[s.len() - 1 - i]);
        }
    }
    is_ascii_chars_encode_utf8(s);
    is_ascii_chars_encode_utf8(r);
    let a = encode_utf8(r);
    let b = encode_utf8(s).reverse();
    assert forall|i: int| 0 <= i < a.len() implies a[i] == b[i] by {
        assert(r[i] as u8 == a[i]);
        assert(s[s.len() - 1 - i] as u8 == encode_utf8(s)[s.len() - 1 - i]);
    }
    assert(a =~= b);
}

/// Every byte is below 128.
pub open spec fn ascii_bytes(b: Seq<u8>) -> bool {
    forall|i: int| 0 <= i < b.len() ==> #[trigger] b[i] < 128
}

/// A character whose code is at most 0x7f is ASCII.
proof fn lemma_ascii_char(c: char)
    requires
        (c as u32) <= 0x7f,
    ensures
        '\0' <= c <= '\u{7f}',
{
}

/// Text whose UTF-8 encoding is all ASCII bytes is ASCII text.
proof fn lemma_ascii_from_encoding(t: Seq<char>)
    requires
        ascii_bytes(encode_utf8(t)),
    ensures
        is_ascii_chars(t),
    decreases t.len(),
{
    if t.len() > 0 {
        let c = t[0] as u32;
        let e = encode_utf8(t);
        let first = encode_scalar(c);
        assert(e == first + encode_utf8(t.drop_first()));
        assert(first.len() >= 1);
        assert(e[0] == first[0]);
        assert((0xC0u8 | ((c >> 6) & 0x1F) as u8) >= 128 && (0xE0u8 | ((c >> 12) & 0x0F) as u8) >= 128
            && (0xF0u8 | ((c >> 18) & 0x7) as u8) >= 128) by (bit_vector);
        assert(has_width_1_encoding(c));
        assert forall|i: int| 0 <= i < encode_utf8(t.drop_first()).len() implies #[trigger] encode_utf8(t.drop_first())[i] < 128 by {
            assert(e[first.len() + i] == encode_utf8(t.drop_first())[i]);
        }
        lemma_ascii_from_encoding(t.drop_first());
        assert forall|i: int| 0 <= i < t.len() implies '\0' <= #[trigger] t[i] <= '\u{7f}' by {
            if i > 0 {
                assert(t[i] == t.drop_first()[i - 1]);
                assert('\0' <= t.drop_first()[i - 1] <= '\u{7f}');
            } else {
                lemma_ascii_char(t[0]);
            }
        }
    }
}

/// Looking up any suffix in the wildcard trie of a compiled image whose wildcard suffixes
/// are ASCII (the reader reverses the suffix character by character) gives the bitmap the
/// store holds for it; a suffix that is not ASCII is found in neither.
pub proof fn lemma_wildcard_lookup_any(d: Seq<u8>, exact: Map<Seq<u8>, u32>, wild: Map<Seq<u8>, u32>, suffix: Seq<char>)
    requires
        image_reads_back(d, exact, wild),
        forall|k: Seq<u8>| #[trigger] wild.contains_key(k) ==> ascii_bytes(k),
    ensures
        walk(d, header_of(d).wildcard_trie_offset as usize as int, encode_utf8(suffix.reverse())) == wild.get(encode_utf8(suffix)),
{
    if is_ascii_chars(suffix) {
        lemma_wildcard_lookup(d, exact, wild, suffix);
    } else {
        let k = encode_utf8(suffix.reverse());
        assert(walk(d, header_of(d).wildcard_trie_offset as usize as int, k) == reverse_keys(wild).get(k));
        if wild.contains_key(encode_utf8(suffix)) {
            lemma_ascii_from_encoding(suffix);
        }
        if wild.contains_key(k.reverse()) {
            assert(ascii_bytes(k.reverse()));
            assert forall|i: int| 0 <= i < k.len() implies #[trigger] k[i] < 128 by {
                assert(k.reverse()[k.len() - 1 - i] == k[i]);
            }
            lemma_ascii_from_encoding(suffix.reverse());
            assert forall|i: int| 0 <= i < suffix.len() implies '\0' <= #[trigger] suffix[i] <= '\u{7f}' by {
                assert(suffix.reverse()[suffix.len() - 1 - i] == suffix[i]);
            }
        }
    }
}

/// Looking up an ASCII suffix in the wildcard trie of a compiled image (the suffix reversed
/// character by character, as the reader does) gives the bitmap the store holds for it.
pub proof fn lemma_wildcard_lookup(d: Seq<u8>, exact: Map<Seq<u8>, u32>, wild: Map<Seq<u8>, u32>, suffix: Seq<char>)
    requires
        image_reads_back(d, exact, wild),
        is_ascii_chars(suffix),
    ensures
        walk(d, header_of(d).wildcard_trie_offset as usize as int, encode_utf8(suffix.reverse())) == wild.get(encode_utf8(suffix)),
{
    lemma_ascii_reverse(suffix);
    lemma_reverse_reverse(encode_utf8(suffix));
    let k = encode_utf8(suffix.reverse());
    assert(walk(d, header_of(d).wildcard_trie_offset as usize as int, k) == reverse_keys(wild).get(k));
}

} // verus!

verus! {

proof fn lemma_reverse_keys_bits(wild: Map<Seq<u8>, u32>, bit: int)
    requires
        wild.dom().finite(),
    ensures
        reverse_keys(wild).dom().finite(),
        keys_with_bit(reverse_keys(wild), bit).len() == keys_with_bit(wild, bit).len(),
{
    let r = reverse_keys(wild);
    let f = |k: Seq<u8>| k.reverse();
    assert forall|a: Seq<u8>, b: Seq<u8>| #[trigger] f(a) == #[trigger] f(b) implies a == b by {
        lemma_reverse_reverse(a);
        lemma_reverse_reverse(b);
    }
    assert(r.dom() =~= wild.dom().map(f)) by {
        assert forall|k: Seq<u8>| r.dom().contains(k) implies wild.dom().map(f).contains(k) by {
            lemma_reverse_reverse(k);
            assert(f(k.reverse()) == k);
        }
        assert forall|k: Seq<u8>| wild.dom().map(f).contains(k) implies r.dom().contains(k) by {
            let j = choose|j: Seq<u8>| wild.dom().contains(j) && f(j) == k;
            lemma_reverse_reverse(j);
        }
    }
    lemma_map_size(wild.dom(), r.dom(), f);
    let a = keys_with_bit(wild, bit);
    let b = keys_with_bit(r, bit);
    wild.dom().lemma_len_filter(|k: Seq<u8>| has_bit(wild[k], bit));
    assert(b =~= a.map(f)) by {
        assert forall|k: Seq<u8>| b.contains(k) implies a.map(f).contains(k) by {
            lemma_reverse_reverse(k);
            assert(f(k.reverse()) == k);
            assert(a.contains(k.reverse()));
        }
        assert forall|k: Seq<u8>| a.map(f).contains(k) implies b.contains(k) by {
            let j = choose|j: Seq<u8>| a.contains(j) && f(j) == k;
            lemma_reverse_reverse(j);
        }
    }
    lemma_map_size(a, b, f);
}

/// Walking either trie of a compiled image visits each stored key once, so the per-bit counts
/// of the walk are the numbers of the store's exact domains and wildcard suffixes carrying
/// each bit.
pub proof fn lemma_compiled_bit_counts(d: Seq<u8>, exact: Map<Seq<u8>, u32>, wild: Map<Seq<u8>, u32>, bit: int)
    requires
        image_reads_back(d, exact, wild),
        exact.dom().finite(),
        wild.dom().finite(),
    ensures
        bit_count(terminals(d, header_of(d).exact_trie_offset as usize as int), bit) == keys_with_bit(exact, bit).len(),
        bit_count(terminals(d, header_of(d).wildcard_trie_offset as usize as int), bit) == keys_with_bit(wild, bit).len(),
{
    let h = header_of(d);
    lemma_bit_count_keys(terminals(d, h.exact_trie_offset as usize as int), exact, bit);
    lemma_reverse_keys_bits(wild, bit);
    lemma_bit_count_keys(terminals(d, h.wildcard_trie_offset as usize as int), reverse_keys(wild), bit);
}

} // verus!

verus! {

/// The header flags of a compiled image: bit 0 is set exactly when the store has an exact
/// domain, bit 1 exactly when it has a wildcard suffix, and no other bit is set.
pub proof fn lemma_image_flags(exact: Map<Seq<u8>, u32>, wild: Map<Seq<u8>, u32>, cats: Seq<(Seq<char>, u8)>)
    requires
        exact.dom().finite(),
        wild.dom().finite(),
    ensures
        ({
            let f = header_of(sdbl_image(exact, wild, cats)).flags;
            &&& (f & 1 == 1) <==> (exists|k: Seq<u8>| exact.contains_key(k))
            &&& (f & 2 == 2) <==> (exists|k: Seq<u8>| wild.contains_key(k))
            &&& f < 4
        }),
{
    lemma_image_header(exact, wild, cats);
    let f = header_of(sdbl_image(exact, wild, cats)).flags;
    if exists|k: Seq<u8>| exact.contains_key(k) {
        let k = choose|k: Seq<u8>| exact.contains_key(k);
        assert(exact.dom().contains(k));
    } else {
        assert(exact.dom() =~= Set::<Seq<u8>>::empty());
    }
    if exists|k: Seq<u8>| wild.contains_key(k) {
        let k = choose|k: Seq<u8>| wild.contains_key(k);
        assert(wild.dom().contains(k));
    } else {
        assert(wild.dom() =~= Set::<Seq<u8>>::empty());
    }
    assert(f == 0 || f == 1 || f == 2 || f == 3);
    assert((f & 1 == 1) <==> (f == 1 || f == 3)) by (bit_vector)
        requires
            f == 0 || f == 1 || f == 2 || f == 3,
    ;
    assert((f & 2 == 2) <==> (f == 2 || f == 3)) by (bit_vector)
        requires
            f == 0 || f == 1 || f == 2 || f == 3,
    ;
}

} // verus!

verus! {

/// The category table lists each (name, index) pair of the category list once: every pair of
/// the list is in the table, every pair of the table is in the list, and no pair repeats.
pub proof fn lemma_dedup_categories(cats: Seq<(Seq<char>, u8)>)
    ensures
        forall|x: (Seq<char>, u8)| #[trigger] dedup_categories(cats).contains(x) <==> cats.contains(x),
        forall|i: int, j: int| 0 <= i < j < dedup_categories(cats).len()
            ==> dedup_categories(cats)[i] != dedup_categories(cats)[j],
    decreases cats.len(),
{
    if cats.len() > 0 {
        let p = cats.drop_last();
        let x0 = cats.last();
        lemma_dedup_categories(p);
        let d = dedup_categories(p);
        let e = dedup_categories(cats);
        assert forall|x: (Seq<char>, u8)| #[trigger] e.contains(x) <==> cats.contains(x) by {
            if cats.contains(x) {
                let k = choose|k: int| 0 <= k < cats.len() && cats[k] == x;
                if k < cats.len() - 1 {
                    assert(p[k] == x);
                    assert(p.contains(x));
                    assert(d.contains(x));
                    if !d.contains(x0) {
                        let i = choose|i: int| 0 <= i < d.len() && d[i] == x;
                        assert(e[i] == x);
                    }
                } else {
                    if !d.contains(x0) {
                        assert(e[d.len() as int] == x0);
                    }
                }
            }
            if e.contains(x) {
                let i = choose|i: int| 0 <= i < e.len() && e[i] == x;
                if i < d.len() {
                    assert(d[i] == x);
                    assert(d.contains(x));
                    let k = choose|k: int| 0 <= k < p.len() && p[k] == x;
                    assert(cats[k] == x);
                } else {
                    assert(x == x0);
                    assert(cats[cats.len() - 1] == x0);
                }
            }
        }
        assert forall|i: int, j: int| 0 <= i < j < e.len() implies e[i] != e[j] by {
            if !d.contains(x0) && j == d.len() {
                assert(e[i] == d[i]);
                if d[i] == x0 {
                    assert(d.contains(x0));
                }
            } else {
                assert(e[i] == d[i] && e[j] == d[j]);
            }
        }
    }
}

} // verus!

verus! {

/// The 48-byte header of a compiled image, byte by byte: the magic `SDBL` (stored as the
/// little-endian word 0x5344424C), version 3, then little-endian the flags, the numbers of
/// categories, exact domains and wildcard suffixes (each as a 32-bit number), the offsets of
/// the two tries (just after the header and category table, then just after the exact trie)
/// and the total size (each as a 64-bit number).
#[verifier::spinoff_prover]
#[verifier::rlimit(60)]
pub proof fn lemma_image_header_layout(exact: Map<Seq<u8>, u32>, wild: Map<Seq<u8>, u32>, cats: Seq<(Seq<char>, u8)>)
    ensures
        ({
            let img = sdbl_image(exact, wild, cats);
            let table = category_table(dedup_categories(cats));
            let eo = 48 + table.len();
            let wo = eo + trie_image(exact).len();
            &&& img.len() >= 48
            &&& img.subrange(0, 8) == seq![0x4Cu8, 0x42u8, 0x44u8, 0x53u8, 3u8, 0u8, 0u8, 0u8]
            &&& le_value(img, 8, 4) == image_flags(exact, wild)
            &&& le_value(img, 12, 4) == dedup_categories(cats).len() as u32
            &&& le_value(img, 16, 4) == exact.dom().len() as u32
            &&& le_value(img, 20, 4) == wild.dom().len() as u32
            &&& le_value(img, 24, 8) == eo as u64
            &&& le_value(img, 32, 8) == wo as u64
            &&& le_value(img, 40, 8) == img.len() as u64
            &&& img.subrange(48, eo as int) == table
        }),
{
    let img = sdbl_image(exact, wild, cats);
    let d = dedup_categories(cats);
    lemma_image_header(exact, wild, cats);
    let h = header_bytes(image_flags(exact, wild), d.len() as u32, exact.dom().len() as u32, wild.dom().len() as u32,
        (48 + category_table(d).len()) as u64, (48 + category_table(d).len() + trie_image(exact).len()) as u64, img.len() as u64);
    assert(h.len() == 48);
    assert(img.subrange(0, 48) == h);
    assert forall|k: int| 0 <= k < 48 implies img[k] == #[trigger] h[k] by {
        assert(img[k] == img.subrange(0, 48)[k]);
    }
    let m = MAGIC;
    let ver = VERSION;
    assert((m & 0xff) as u8 == 0x4Cu8 && ((m >> 8) & 0xff) as u8 == 0x42u8 && ((m >> 16) & 0xff) as u8 == 0x44u8
        && ((m >> 24) & 0xff) as u8 == 0x53u8 && (ver & 0xff) as u8 == 3u8 && ((ver >> 8) & 0xff) as u8 == 0u8
        && ((ver >> 16) & 0xff) as u8 == 0u8 && ((ver >> 24) & 0xff) as u8 == 0u8) by (bit_vector)
        requires
            m == 0x5344424Cu32,
            ver == 3u32,
    ;
    assert(img.subrange(0, 8) =~= seq![0x4Cu8, 0x42u8, 0x44u8, 0x53u8, 3u8, 0u8, 0u8, 0u8]);
    assert(img.subrange(8, 12) =~= h.subrange(8, 12));
    assert(h.subrange(8, 12) =~= le_u32(image_flags(exact, wild)));
    lemma_le_value_u32(img, 8, image_flags(exact, wild));
    assert(img.subrange(12, 16) =~= le_u32(d.len() as u32));
    lemma_le_value_u32(img, 12, d.len() as u32);
    assert(img.subrange(16, 20) =~= le_u32(exact.dom().len() as u32));
    lemma_le_value_u32(img, 16, exact.dom().len() as u32);
    assert(img.subrange(20, 24) =~= le_u32(wild.dom().len() as u32));
    lemma_le_value_u32(img, 20, wild.dom().len() as u32);
    let eo = 48 + category_table(d).len();
    let wo = eo + trie_image(exact).len();
    assert(img.subrange(24, 32) =~= le_u64(eo as u64));
    lemma_le_value_u64(img, 24, eo as u64);
    assert(img.subrange(32, 40) =~= le_u64(wo as u64));
    lemma_le_value_u64(img, 32, wo as u64);
    assert(img.subrange(40, 48) =~= le_u64(img.len() as u64));
    lemma_le_value_u64(img, 40, img.len() as u64);
}

} // verus!

use vstd::prelude::*;
use flate2::write::GzEncoder;
use flate2::Compression;
use sha2::{Digest, Sha256};
use std::io::Write;
use crate::binary::{compilable, category_views, image_reads_back, sdbl_image, try_compile};
use crate::chars::split_on;
use crate::config::SourceEntry;
use crate::parser::{apply_entries, blocklist_entries, category_bit, count_kind, extract_expected_entry_count, first_declared,
    parse_blocklist, DomainStore,
};
use crate::validator::{parse_error, validate_parse, ValidationError};
use crate::text::{hex_fixed, push_hex_fixed};

verus! {

/// The SHA-256 digest of `data`.
pub uninterp spec fn sha256_of(data: Seq<u8>) -> Seq<u8>;

/// The gzip stream of `data` at the best compression level.
pub uninterp spec fn gzip_best(data: Seq<u8>) -> Seq<u8>;

/// SHA-256 of the bytes (sha2 `Sha256::digest`). Trusted: the digest is named `sha256_of`
/// and has 32 bytes, the digest's output size.
#[verifier::external_body]
fn sha256_digest(data: &[u8]) -> (r: Vec<u8>)
    ensures
        r@ == sha256_of(data@),
        r@.len() == 32,
{
    Sha256::digest(data).to_vec()
}

/// Gzip-compresses the bytes in memory at the best level (flate2 `GzEncoder` over a `Vec`,
/// with `Compression::best()`, then `finish`). Trusted: when the encoder reports no error the
/// stream is named `gzip_best`; nothing is claimed of when it reports one.
#[verifier::external_body]
fn gzip_encode(data: &[u8]) -> (r: Option<Vec<u8>>)
    ensures
        r matches Some(z) ==> z@ == gzip_best(data@),
{
    let mut encoder = GzEncoder::new(Vec::new(), Compression::best());
    match encoder.write_all(data) {
        Ok(()) => encoder.finish().ok(),
        Err(_) => None,
    }
}

/// Lower-case hexadecimal of the bytes, two digits each.
pub open spec fn hex_lower(bytes: Seq<u8>) -> Seq<char>
    decreases bytes.len(),
{
    if bytes.len() == 0 {
        Seq::empty()
    } else {
        hex_lower(bytes.drop_last()) + hex_fixed(bytes.last() as nat, 2, false)
    }
}

/// The SHA-256 checksum of the bytes, in lower-case hexadecimal.
pub fn sha256_hex(data: &[u8]) -> (r: String)
    ensures
        r@ == hex_lower(sha256_of(data@)),
{
    let digest = sha256_digest(data);
    let mut s = String::new();
    let mut i: usize = 0;
    assert(digest@.take(0) =~= Seq::<u8>::empty());
    while i < digest.len()
        invariant
            i <= digest@.len(),
            s@ == hex_lower(digest@.take(i as int)),
        decreases digest@.len() - i,
    {
        push_hex_fixed(&mut s, digest[i] as u64, 2, false);
        proof {
            assert(digest@.take(i + 1).drop_last() =~= digest@.take(i as int));
            assert(digest@.take(i + 1).last() == digest@[i as int]);
        }
        i = i + 1;
    }
    assert(digest@.take(digest@.len() as int) =~= digest@);
    s
}

/// What a build writes: the image, its gzip stream (absent if the encoder failed), and the
/// image's SHA-256 in hexadecimal.
pub struct BuildArtifacts {
    pub binary: Vec<u8>,
    pub compressed: Option<Vec<u8>>,
    pub sha256: String,
}

/// Compiles the store and derives the gzip stream and checksum of the image; `None` when the
/// store or categories cannot be compiled.
pub fn build_artifacts(store: &DomainStore, categories: &[(String, u8)]) -> (r: Option<BuildArtifacts>)
    requires
        store.wf(),
    ensures
        r is Some <==> compilable(*store, categories@),
        r matches Some(a) ==> {
            &&& a.binary@ == sdbl_image(store.exact_domains@, store.wildcard_suffixes@, category_views(categories@))
            &&& (a.binary@.len() <= u32::MAX ==> image_reads_back(a.binary@, store.exact_domains@, store.wildcard_suffixes@))
            &&& a.sha256@ == hex_lower(sha256_of(a.binary@))
            &&& (a.compressed matches Some(z) ==> z@ == gzip_best(a.binary@))
        },
{
    match try_compile(store, categories) {
        Some(binary) => {
            let sha256 = sha256_hex(binary.as_slice());
            let compressed = gzip_encode(binary.as_slice());
            Some(BuildArtifacts { binary, compressed, sha256 })
        },
        None => None,
    }
}

} // verus!

verus! {

/// What ingesting one downloaded list gave: the entry count the list declared, the exact and
/// wildcard lines accepted, and the parse verdict.
pub struct SourceReport {
    pub expected: Option<usize>,
    pub exact: usize,
    pub wildcard: usize,
    pub verdict: Result<(), ValidationError>,
}

proof fn lemma_count_kinds(es: Seq<(Seq<char>, bool)>)
    ensures
        count_kind(es, false) + count_kind(es, true) == es.len(),
    decreases es.len(),
{
    if es.len() > 0 {
        lemma_count_kinds(es.drop_last());
    }
}

/// Ingests one downloaded list: reads its declared entry count, parses it into the store under
/// the source's category, and checks the number of accepted lines against the declaration
/// and the source's floor.
pub fn ingest_source(content: &str, source: &SourceEntry, store: &mut DomainStore) -> (r: SourceReport)
    requires
        old(store).wf(),
        source.category_index < 32 || blocklist_entries(content@, source.format@).len() == 0,
        old(store).exact_domains.count + blocklist_entries(content@, source.format@).len() < usize::MAX,
        old(store).wildcard_suffixes.count + blocklist_entries(content@, source.format@).len() < usize::MAX,
    ensures
        final(store).wf(),
        (final(store).exact_domains@, final(store).wildcard_suffixes@) == apply_entries(
            old(store).exact_domains@,
            old(store).wildcard_suffixes@,
            blocklist_entries(content@, source.format@),
            category_bit(source.category_index),
        ),
        r.exact == count_kind(blocklist_entries(content@, source.format@), false),
        r.wildcard == count_kind(blocklist_entries(content@, source.format@), true),
        r.exact + r.wildcard == blocklist_entries(content@, source.format@).len(),
        r.expected matches Some(n) ==> first_declared(split_on(content@, '\n')) == Some(n as nat),
        r.expected is None ==> first_declared(split_on(content@, '\n')) is None,
        match r.verdict {
            Ok(()) => parse_error((r.exact + r.wildcard) as usize, r.expected, *source) is None,
            Err(e) => parse_error((r.exact + r.wildcard) as usize, r.expected, *source) == Some(e@),
        },
{
    let expected = extract_expected_entry_count(content);
    let (exact, wildcard) = parse_blocklist(content, source.format.as_str(), source.category_index, store);
    proof {
        lemma_count_kinds(blocklist_entries(content@, source.format@));
    }
    let verdict = validate_parse(exact + wildcard, expected, source);
    SourceReport { expected, exact, wildcard, verdict }
}

} // verus!

use vstd::prelude::*;
use vstd::string::StringExecFns;
use vstd::utf8::encode_utf8;
use crate::chars::{lemma_split_on_nonempty, lemma_split_on_pieces, lemma_split_on_single, split_on, trim, trim_bounds, CharClass};
use crate::binary::{image_reads_back, lemma_reverse_reverse, reverse_bytes, reverse_keys};
use crate::config::SourceEntry;
use crate::parser::DomainStore;
use crate::reader::{bit_count, has_bit, count_entries_per_bit, header_of, lookup_exact, lossy_utf8, parse_header, readable_image,
    terminals, utf8_lossy, walk, walk_safe, walk_trie, SdblHeader,
};
use crate::trie::{entry_views, lemma_entries_contains, lemma_trie_image, trie_entries};
use crate::parser::{blocklist_entries, entries_of, is_prefix, lemma_split_prefix, line_entry, list_format, list_format_of, parse_line};
use crate::text::{ascii_lower, ascii_lower_char, chars_eq_str, str_chars,
    binary_padded, debug_quoted, debug_text, decimal, decimal_pad2, push_binary_padded, push_decimal, push_decimal_wide,
    push_decimal_pad2,
};

verus! {

/// Why a download, a parse or a compiled image was refused.
#[derive(Debug, Clone, PartialEq, Eq)]
pub enum ValidationError {
    HttpStatus { source: String, status: u16 },
    TooSmall { source: String, actual: usize, min: usize },
    BadContentType { source: String, content_type: String },
    NotADomainList { source: String, sampled: usize },
    CountRegression { source: String, parsed: usize, expected: usize },
    BelowFloor { source: String, parsed: usize, min: usize },
    CanaryMissing { domain: String, want: u32, got: u32 },
    TrieEntriesBelowFloor { source: String, bit: u8, count: usize, min: usize },
    AggregateFailures { count: usize, threshold: usize },
    RoundTripMismatch { domain: String, want: u32, got: u32 },
}

/// `ValidationError` with its strings taken as character sequences.
pub enum ValidationErrorView {
    HttpStatus { source: Seq<char>, status: u16 },
    TooSmall { source: Seq<char>, actual: usize, min: usize },
    BadContentType { source: Seq<char>, content_type: Seq<char> },
    NotADomainList { source: Seq<char>, sampled: usize },
    CountRegression { source: Seq<char>, parsed: usize, expected: usize },
    BelowFloor { source: Seq<char>, parsed: usize, min: usize },
    CanaryMissing { domain: Seq<char>, want: u32, got: u32 },
    TrieEntriesBelowFloor { source: Seq<char>, bit: u8, count: usize, min: usize },
    AggregateFailures { count: usize, threshold: usize },
    RoundTripMismatch { domain: Seq<char>, want: u32, got: u32 },
}

impl View for ValidationError {
    type V = ValidationErrorView;

    open spec fn view(&self) -> ValidationErrorView {
        match self {
            ValidationError::HttpStatus { source, status } => ValidationErrorView::HttpStatus { source: source@, status: *status },
            ValidationError::TooSmall { source, actual, min } => ValidationErrorView::TooSmall { source: source@, actual: *actual, min: *min },
            ValidationError::BadContentType { source, content_type } => ValidationErrorView::BadContentType { source: source@, content_type: content_type@ },
            ValidationError::NotADomainList { source, sampled } => ValidationErrorView::NotADomainList { source: source@, sampled: *sampled },
            ValidationError::CountRegression { source, parsed, expected } => ValidationErrorView::CountRegression { source: source@, parsed: *parsed, expected: *expected },
            ValidationError::BelowFloor { source, parsed, min } => ValidationErrorView::BelowFloor { source: source@, parsed: *parsed, min: *min },
            ValidationError::CanaryMissing { domain, want, got } => ValidationErrorView::CanaryMissing { domain: domain@, want: *want, got: *got },
            ValidationError::TrieEntriesBelowFloor { source, bit, count, min } => ValidationErrorView::TrieEntriesBelowFloor { source: source@, bit: *bit, count: *count, min: *min },
            ValidationError::AggregateFailures { count, threshold } => ValidationErrorView::AggregateFailures { count: *count, threshold: *threshold },
            ValidationError::RoundTripMismatch { domain, want, got } => ValidationErrorView::RoundTripMismatch { domain: domain@, want: *want, got: *got },
        }
    }
}

/// The percentage `parsed / expected * 100` with two decimals, an exact half rounded to the
/// even last digit; `NaN` or `inf` when `expected` is 0.
pub open spec fn ratio_text(parsed: nat, expected: nat) -> Seq<char> {
    if expected == 0 {
        if parsed == 0 { "NaN"@ } else { "inf"@ }
    } else {
        let q = (parsed * 10000) / expected;
        let r = (parsed * 10000) % expected;
        let h = if 2 * r > expected || (2 * r == expected && q % 2 == 1) { q + 1 } else { q };
        decimal(h / 100) + "."@ + decimal_pad2(h % 100)
    }
}

/// The human-readable message for an error.
pub open spec fn error_message(e: ValidationErrorView) -> Seq<char> {
    match e {
        ValidationErrorView::HttpStatus { source, status } => source + ": HTTP status "@ + decimal(status as nat) + " is not 2xx"@,
        ValidationErrorView::TooSmall { source, actual, min } => source + ": body size "@ + decimal(actual as nat) + " below floor "@ + decimal(min as nat),
        ValidationErrorView::BadContentType { source, content_type } => source + ": rejected Content-Type "@ + debug_text(content_type),
        ValidationErrorView::NotADomainList { source, sampled } => source + ": none of the first "@ + decimal(sampled as nat) + " non-comment lines parsed as a valid domain"@,
        ValidationErrorView::CountRegression { source, parsed, expected } => source + ": parsed "@ + decimal(parsed as nat) + " entries, upstream header declared "@
            + decimal(expected as nat) + " (ratio "@ + ratio_text(parsed as nat, expected as nat) + "% below 90% floor)"@,
        ValidationErrorView::BelowFloor { source, parsed, min } => source + ": parsed "@ + decimal(parsed as nat) + " below min_parsed_entries "@ + decimal(min as nat),
        ValidationErrorView::CanaryMissing { domain, want, got } => "canary "@ + domain + ": expected bits 0b"@ + binary_padded(want as nat, 8)
            + " present, got 0b"@ + binary_padded(got as nat, 8),
        ValidationErrorView::TrieEntriesBelowFloor { source, bit, count, min } => source + ": trie has "@ + decimal(count as nat) + " entries with bit "@
            + decimal(bit as nat) + " set, below floor "@ + decimal(min as nat),
        ValidationErrorView::AggregateFailures { count, threshold } => decimal(count as nat) + " source(s) failed validation, exceeds threshold of "@ + decimal(threshold as nat),
        ValidationErrorView::RoundTripMismatch { domain, want, got } => "round trip "@ + domain + ": expected bitmap 0b"@ + binary_padded(want as nat, 8)
            + ", read back 0b"@ + binary_padded(got as nat, 8),
    }
}

fn push_ratio(s: &mut String, parsed: usize, expected: usize)
    ensures
        final(s)@ == old(s)@ + ratio_text(parsed as nat, expected as nat),
{
    if expected == 0 {
        if parsed == 0 {
            s.append("NaN");
        } else {
            s.append("inf");
        }
    } else {
        let p = parsed as u128;
        let e = expected as u128;
        assert(p * 10000 <= u64::MAX * 10000) by (nonlinear_arith)
            requires
                p <= u64::MAX,
        ;
        let n = p * 10000;
        let q = n / e;
        let r = n % e;
        assert(q <= n) by (nonlinear_arith)
            requires
                e >= 1,
                q == n / e,
        ;
        let h = if 2 * r > e || (2 * r == e && q % 2 == 1) { q + 1 } else { q };
        push_decimal_wide(s, h / 100);
        s.append(".");
        push_decimal_pad2(s, (h % 100) as u64);
    }
}

impl ValidationError {
    /// The human-readable message for this error.
    pub fn to_string(&self) -> (r: String)
        ensures
            r@ == error_message(self@),
    {
        match self {
            ValidationError::HttpStatus { source, status } => {
                let mut s = source.clone();
                s.append(": HTTP status ");
                push_decimal(&mut s, *status as u64);
                s.append(" is not 2xx");
                s
            },
            ValidationError::TooSmall { source, actual, min } => {
                let mut s = source.clone();
                s.append(": body size ");
                push_decimal(&mut s, *actual as u64);
                s.append(" below floor ");
                push_decimal(&mut s, *min as u64);
                s
            },
            ValidationError::BadContentType { source, content_type } => {
                let mut s = source.clone();
                s.append(": rejected Content-Type ");
                let q = debug_quoted(content_type.as_str());
                s.append(q.as_str());
                s
            },
            ValidationError::NotADomainList { source, sampled } => {
                let mut s = source.clone();
                s.append(": none of the first ");
                push_decimal(&mut s, *sampled as u64);
                s.append(" non-comment lines parsed as a valid domain");
                s
            },
            ValidationError::CountRegression { source, parsed, expected } => {
                let mut s = source.clone();
                s.append(": parsed ");
                push_decimal(&mut s, *parsed as u64);
                s.append(" entries, upstream header declared ");
                push_decimal(&mut s, *expected as u64);
                s.append(" (ratio ");
                push_ratio(&mut s, *parsed, *expected);
                s.append("% below 90% floor)");
                s
            },
            ValidationError::BelowFloor { source, parsed, min } => {
                let mut s = source.clone();
                s.append(": parsed ");
                push_decimal(&mut s, *parsed as u64);
                s.append(" below min_parsed_entries ");
                push_decimal(&mut s, *min as u64);
                s
            },
            ValidationError::CanaryMissing { domain, want, got } => {
                let mut s = String::from_str("canary ");
                s.append(domain.as_str());
                s.append(": expected bits 0b");
                push_binary_padded(&mut s, *want as u64, 8);
                s.append(" present, got 0b");
                push_binary_padded(&mut s, *got as u64, 8);
                s
            },
            ValidationError::TrieEntriesBelowFloor { source, bit, count, min } => {
                let mut s = source.clone();
                s.append(": trie has ");
                push_decimal(&mut s, *count as u64);
                s.append(" entries with bit ");
                push_decimal(&mut s, *bit as u64);
                s.append(" set, below floor ");
                push_decimal(&mut s, *min as u64);
                s
            },
            ValidationError::AggregateFailures { count, threshold } => {
                let mut s = String::new();
                push_decimal(&mut s, *count as u64);
                s.append(" source(s) failed validation, exceeds threshold of ");
                push_decimal(&mut s, *threshold as u64);
                s
            },
            ValidationError::RoundTripMismatch { domain, want, got } => {
                let mut s = String::from_str("round trip ");
                s.append(domain.as_str());
                s.append(": expected bitmap 0b");
                push_binary_padded(&mut s, *want as u64, 8);
                s.append(", read back 0b");
                push_binary_padded(&mut s, *got as u64, 8);
                s
            },
        }
    }
}

} // verus!

verus! {

pub const SMELL_TEST_LINES: usize = 30;

/// Whether `sub` occurs in `s`.
pub open spec fn contains_text(s: Seq<char>, sub: Seq<char>) -> bool {
    exists|i: int| 0 <= i && i + sub.len() <= s.len() && #[trigger] s.subrange(i, i + sub.len()) == sub
}

/// A Content-Type the downloader accepts: none of the refused types, and a text type.
pub open spec fn content_type_ok(ct: Seq<char>) -> bool {
    let l = ascii_lower(ct);
    &&& !(contains_text(l, "text/html"@) || contains_text(l, "application/json"@) || contains_text(l, "application/xml"@))
    &&& (contains_text(l, "text/plain"@) || contains_text(l, "text/"@))
}

/// A line that counts for the smell test: not blank and not a comment.
pub open spec fn is_sample_line(l: Seq<char>) -> bool {
    let t = trim(l);
    t.len() > 0 && t[0] != '#' && t[0] != '!'
}

pub open spec fn sample_lines(lines: Seq<Seq<char>>) -> Seq<Seq<char>>
    decreases lines.len(),
{
    if lines.len() == 0 {
        Seq::empty()
    } else if is_sample_line(lines.last()) {
        sample_lines(lines.drop_last()).push(lines.last())
    } else {
        sample_lines(lines.drop_last())
    }
}

/// Some line among the first 30 non-blank, non-comment lines is an accepted entry.
pub open spec fn looks_like_domain_list(body: Seq<char>, format: Seq<char>) -> bool {
    let sel = sample_lines(split_on(body, '\n'));
    exists|i: int| 0 <= i < sel.len() && i < 30 && #[trigger] line_entry(sel[i], list_format(format)) is Some
}

/// The error with which a download is refused, or `None` when it is accepted.
pub open spec fn download_error(status: u16, content_type: Option<Seq<char>>, body: Seq<char>, source: SourceEntry) -> Option<ValidationErrorView> {
    let min_size: usize = match source.min_size_bytes {
        Some(m) => m,
        None => 1,
    };
    if !(200 <= status <= 299) {
        Some(ValidationErrorView::HttpStatus { source: source.display_name@, status })
    } else if encode_utf8(body).len() < min_size {
        Some(ValidationErrorView::TooSmall { source: source.display_name@, actual: encode_utf8(body).len() as usize, min: min_size })
    } else if content_type matches Some(ct) && !content_type_ok(ct) {
        Some(ValidationErrorView::BadContentType { source: source.display_name@, content_type: content_type->0 })
    } else if !looks_like_domain_list(body, source.format@) {
        Some(ValidationErrorView::NotADomainList { source: source.display_name@, sampled: 30 })
    } else {
        None
    }
}

fn ascii_lowercase_chars(s: &str) -> (r: Vec<char>)
    ensures
        r@ == ascii_lower(s@),
{
    let v = str_chars(s);
    let mut r: Vec<char> = Vec::new();
    let mut i: usize = 0;
    while i < v.len()
        invariant
            i <= v@.len(),
            v@ == s@,
            r@ == ascii_lower(s@.take(i as int)),
        decreases v@.len() - i,
    {
        let c = v[i];
        let u = c as u32;
        let lc = if 65 <= u && u <= 90 { ((u + 32) as u8) as char } else { c };
        assert(lc == ascii_lower_char(c));
        r.push(lc);
        i = i + 1;
        assert(r@ =~= ascii_lower(s@.take(i as int)));
    }
    assert(s@.take(i as int) =~= s@);
    r
}

fn contains_literal(v: &Vec<char>, lit: &str) -> (r: bool)
    ensures
        r == contains_text(v@, lit@),
{
    let w = str_chars(lit);
    if w.len() > v.len() {
        return false;
    }
    if w.len() == 0 {
        assert(v@.subrange(0, 0 + lit@.len() as int) =~= lit@);
        return true;
    }
    let n = v.len() - w.len();
    let mut i: usize = 0;
    while i <= n
        invariant
            w@ == lit@,
            w.len() <= v.len(),
            w.len() >= 1,
            n == v.len() - w.len(),
            i <= n + 1,
            forall|t: int| 0 <= t < i ==> #[trigger] v@.subrange(t, t + w@.len()) != lit@,
        decreases n + 1 - i,
    {
        if chars_eq_str(v, i, i + w.len(), lit) {
            return true;
        }
        i = i + 1;
    }
    false
}

fn content_type_acceptable(ct: &str) -> (r: bool)
    ensures
        r == content_type_ok(ct@),
{
    let l = ascii_lowercase_chars(ct);
    if contains_literal(&l, "text/html") || contains_literal(&l, "application/json") || contains_literal(&l, "application/xml") {
        return false;
    }
    contains_literal(&l, "text/plain") || contains_literal(&l, "text/")
}

proof fn lemma_sample_prefix(a: Seq<Seq<char>>, b: Seq<Seq<char>>)
    requires
        is_prefix(a, b),
    ensures
        is_prefix(sample_lines(a), sample_lines(b)),
    decreases b.len(),
{
    if a.len() == b.len() {
        assert(b.take(a.len() as int) =~= b);
        let e = sample_lines(a);
        assert(e.take(e.len() as int) =~= e);
    } else {
        assert(b.drop_last().take(a.len() as int) =~= b.take(a.len() as int));
        lemma_sample_prefix(a, b.drop_last());
        let ea = sample_lines(a);
        let eb = sample_lines(b.drop_last());
        let ec = sample_lines(b);
        assert(ec.take(eb.len() as int) =~= eb);
        assert(ec.take(ea.len() as int) =~= eb.take(ea.len() as int));
    }
}

fn is_sample_line_exec(line: &Vec<char>) -> (r: bool)
    ensures
        r == is_sample_line(line@),
{
    let (a, b) = trim_bounds(line, 0, line.len(), &CharClass::Space);
    assert(line@.subrange(0, line@.len() as int) =~= line@);
    if a == b {
        return false;
    }
    assert(trim(line@)[0] == line@[a as int]);
    line[a] != '#' && line[a] != '!'
}

/// Whether the body looks like a list in `format`: some line among the first 30 non-blank,
/// non-comment lines is accepted by the parser.
#[verifier::spinoff_prover]
pub fn looks_like_list(body: &str, format: &str) -> (r: bool)
    ensures
        r == looks_like_domain_list(body@, format@),
{
    let fmt = list_format_of(format);
    let mut line: Vec<char> = Vec::new();
    let mut sampled: usize = 0;
    let ghost full = sample_lines(split_on(body@, '\n'));
    proof {
        assert(body@.take(0) =~= Seq::<char>::empty());
        assert(split_on(body@.take(0), '\n').drop_last() =~= Seq::<Seq<char>>::empty());
        assert(full.take(0) =~= Seq::<Seq<char>>::empty());
    }
    for c in it: body.chars()
        invariant
            it.seq() == body@,
            fmt == list_format(format@),
            full == sample_lines(split_on(body@, '\n')),
            line@ == split_on(body@.take(it.index() as int), '\n').last(),
            sampled == sample_lines(split_on(body@.take(it.index() as int), '\n').drop_last()).len(),
            sampled < 30,
            is_prefix(sample_lines(split_on(body@.take(it.index() as int), '\n').drop_last()), full),
            forall|i: int| 0 <= i < sampled ==> #[trigger] line_entry(full[i], fmt) is None,
    {
        let ghost i = it.index();
        let ghost consumed = body@.take(i as int);
        let ghost ps = split_on(consumed, '\n');
        let ghost consumed2 = body@.take(i + 1);
        proof {
            lemma_split_on_nonempty(consumed, '\n');
            assert(consumed2 =~= consumed.push(c));
            assert(consumed2.drop_last() =~= consumed);
            assert(body@ =~= consumed2 + body@.skip(i + 1));
            lemma_split_prefix(consumed2, body@.skip(i + 1));
            lemma_split_on_nonempty(body@, '\n');
            let whole = split_on(body@, '\n');
            let a = split_on(consumed2, '\n').drop_last();
            assert(whole.take(a.len() as int) =~= whole.drop_last().take(a.len() as int));
            lemma_sample_prefix(a, whole);
        }
        if c == '\n' {
            proof {
                assert(split_on(consumed2, '\n').drop_last() =~= ps.drop_last().push(line@));
                assert(ps.drop_last().push(line@).drop_last() =~= ps.drop_last());
            }
            if is_sample_line_exec(&line) {
                let ghost k = sampled as int;
                proof {
                    let prev = sample_lines(ps.drop_last());
                    let next = sample_lines(split_on(consumed2, '\n').drop_last());
                    assert(next == prev.push(line@));
                    assert(full.take(next.len() as int) == next);
                    assert(full[k] == full.take(next.len() as int)[k]);
                }
                assert(full[k] == line@);
                if parse_line(&line, &fmt).is_some() {
                    return true;
                }
                sampled = sampled + 1;
                if sampled == SMELL_TEST_LINES {
                    return false;
                }
            }
            line = Vec::new();
            assert(line@ =~= split_on(consumed2, '\n').last());
        } else {
            line.push(c);
            proof {
                assert(split_on(consumed2, '\n').drop_last() =~= ps.drop_last());
                assert(line@ =~= split_on(consumed2, '\n').last());
            }
        }
    }
    proof {
        assert(body@.take(body@.len() as int) =~= body@);
        let ps = split_on(body@, '\n');
        lemma_split_on_nonempty(body@, '\n');
        assert(ps =~= ps.drop_last().push(line@));
        assert(ps.drop_last().push(line@).drop_last() =~= ps.drop_last());
    }
    if is_sample_line_exec(&line) {
        proof {
            let ps = split_on(body@, '\n');
            let prev = sample_lines(ps.drop_last());
            assert(full == prev.push(line@));
        }
        assert(full[sampled as int] == line@);
        if parse_line(&line, &fmt).is_some() {
            return true;
        }
    }
    false
}

} // verus!

verus! {

/// An optional string slice taken as an optional character sequence.
pub open spec fn opt_text(o: Option<&str>) -> Option<Seq<char>> {
    match o {
        Some(c) => Some(c@),
        None => None,
    }
}

/// Layer 1: checks an HTTP response for a source. Accepts a 2xx status, a body of at least
/// `min_size_bytes` bytes (default 1), an acceptable Content-Type when one is given, and a body
/// that passes the smell test.
pub fn validate_download(status: u16, content_type: Option<&str>, body: &str, source: &SourceEntry) -> (r: Result<(), ValidationError>)
    ensures
        match r {
            Ok(()) => download_error(status, opt_text(content_type), body@, *source) is None,
            Err(e) => download_error(status, opt_text(content_type), body@, *source) == Some(e@),
        },
{
    if !(200 <= status && status <= 299) {
        return Err(ValidationError::HttpStatus { source: source.display_name.clone(), status });
    }
    let min_size = match source.min_size_bytes {
        Some(m) => m,
        None => 1,
    };
    let size = body.as_bytes().len();
    if size < min_size {
        return Err(ValidationError::TooSmall { source: source.display_name.clone(), actual: size, min: min_size });
    }
    match content_type {
        Some(ct) => {
            if !content_type_acceptable(ct) {
                return Err(ValidationError::BadContentType {
                    source: source.display_name.clone(),
                    content_type: String::from_str(ct),
                });
            }
        },
        None => {},
    }
    if !looks_like_list(body, source.format.as_str()) {
        return Err(ValidationError::NotADomainList { source: source.display_name.clone(), sampled: SMELL_TEST_LINES });
    }
    Ok(())
}

/// The error with which a parse count is refused, or `None` when it is accepted.
pub open spec fn parse_error(parsed: usize, expected: Option<usize>, source: SourceEntry) -> Option<ValidationErrorView> {
    let min: usize = match source.min_parsed_entries {
        Some(m) => if m == 0 { 1 } else { m },
        None => 1,
    };
    if expected matches Some(exp) && parsed * 10 < exp * 9 {
        Some(ValidationErrorView::CountRegression { source: source.display_name@, parsed, expected: expected->0 })
    } else if parsed < min {
        Some(ValidationErrorView::BelowFloor { source: source.display_name@, parsed, min })
    } else {
        None
    }
}

/// Layer 2: checks a parse count. When the list declared `expected` entries, at least 90% of
/// them must have been parsed; independently the count must reach `min_parsed_entries`, and an
/// empty parse is refused whatever that floor is (the floor is at least 1).
pub fn validate_parse(parsed: usize, expected: Option<usize>, source: &SourceEntry) -> (r: Result<(), ValidationError>)
    ensures
        match r {
            Ok(()) => parse_error(parsed, expected, *source) is None,
            Err(e) => parse_error(parsed, expected, *source) == Some(e@),
        },
{
    match expected {
        Some(exp) => {
            if (parsed as u128) * 10 < (exp as u128) * 9 {
                return Err(ValidationError::CountRegression { source: source.display_name.clone(), parsed, expected: exp });
            }
        },
        None => {},
    }
    let min = match source.min_parsed_entries {
        Some(m) => if m == 0 { 1 } else { m },
        None => 1,
    };
    if parsed < min {
        return Err(ValidationError::BelowFloor { source: source.display_name.clone(), parsed, min });
    }
    Ok(())
}

/// The error for a canary whose bitmap lacks required bits, or `None`.
pub open spec fn canary_error(domain: Seq<char>, expected_min_bitmap: u32, got: Option<u32>) -> Option<ValidationErrorView> {
    let g: u32 = match got {
        Some(b) => b,
        None => 0,
    };
    if g & expected_min_bitmap != expected_min_bitmap {
        Some(ValidationErrorView::CanaryMissing { domain, want: expected_min_bitmap, got: g })
    } else {
        None
    }
}

/// Layer 3 canary check: every bit of `expected_min_bitmap` must be set in the looked-up
/// bitmap (an absent domain counts as bitmap 0).
pub fn validate_output_canary(domain: &str, expected_min_bitmap: u32, got: Option<u32>) -> (r: Result<(), ValidationError>)
    ensures
        match r {
            Ok(()) => canary_error(domain@, expected_min_bitmap, got) is None,
            Err(e) => canary_error(domain@, expected_min_bitmap, got) == Some(e@),
        },
{
    let got = match got {
        Some(b) => b,
        None => 0,
    };
    if (got & expected_min_bitmap) != expected_min_bitmap {
        return Err(ValidationError::CanaryMissing { domain: String::from_str(domain), want: expected_min_bitmap, got });
    }
    Ok(())
}

/// Refuses a build when more than `threshold` sources failed.
pub fn check_failure_threshold(failed: usize, threshold: usize) -> (r: Result<(), ValidationError>)
    ensures
        r is Ok <==> failed <= threshold,
        r matches Err(e) ==> e@ == (ValidationErrorView::AggregateFailures { count: failed, threshold }),
{
    if failed > threshold {
        return Err(ValidationError::AggregateFailures { count: failed, threshold });
    }
    Ok(())
}

} // verus!

verus! {

/// A domain that must stay in the compiled list with at least the given category bits.
#[derive(Clone, Debug)]
pub struct Canary {
    pub domain: String,
    pub expected_min_bitmap: u32,
    pub rationale: String,
}

/// The errors' views, in order.
pub open spec fn error_views(v: Seq<ValidationError>) -> Seq<ValidationErrorView> {
    v.map_values(|e: ValidationError| e@)
}

/// Offset of the exact-domain trie named by the image's header.
pub open spec fn exact_offset(d: Seq<u8>) -> int {
    header_of(d).exact_trie_offset as usize as int
}

/// Offset of the wildcard trie named by the image's header.
pub open spec fn wildcard_offset(d: Seq<u8>) -> int {
    header_of(d).wildcard_trie_offset as usize as int
}

/// The canary failures, in canary order: each canary's domain is looked up in the exact trie.
pub open spec fn canary_errors(d: Seq<u8>, cs: Seq<Canary>) -> Seq<ValidationErrorView>
    decreases cs.len(),
{
    if cs.len() == 0 {
        Seq::empty()
    } else {
        let prev = canary_errors(d, cs.drop_last());
        let c = cs.last();
        match canary_error(c.domain@, c.expected_min_bitmap, walk(d, exact_offset(d), encode_utf8(c.domain@))) {
            Some(e) => prev.push(e),
            None => prev,
        }
    }
}

/// Distance between two sampled entries: `n` entries sampled `size` at most, spread evenly.
pub open spec fn sample_step(n: nat, size: nat) -> nat {
    if n == 0 || size == 0 {
        1
    } else {
        ((n - 1) as nat / size + 1) as nat
    }
}

/// The round-trip failures among the entries of `es` at positions that are multiples of `step`:
/// the key (reversed when `reversed`) looked up in the trie at `pos` must give its bitmap.
pub open spec fn round_trip_errors(d: Seq<u8>, pos: int, es: Seq<(Seq<u8>, u32)>, step: nat, reversed: bool) -> Seq<ValidationErrorView>
    decreases es.len(),
{
    if es.len() == 0 {
        Seq::empty()
    } else {
        let prev = round_trip_errors(d, pos, es.drop_last(), step, reversed);
        let (k, v) = es.last();
        let got = walk(d, pos, if reversed { k.reverse() } else { k });
        if (es.len() - 1) as nat % step == 0 && got != Some(v) {
            let g: u32 = match got {
                Some(b) => b,
                None => 0,
            };
            prev.push(ValidationErrorView::RoundTripMismatch { domain: lossy_utf8(k), want: v, got: g })
        } else {
            prev
        }
    }
}

/// The round-trip failures of a sample of at most `size` entries of each of the store's maps.
pub open spec fn sample_errors(d: Seq<u8>, exact: Map<Seq<u8>, u32>, wild: Map<Seq<u8>, u32>, size: nat) -> Seq<ValidationErrorView> {
    let ee = trie_entries(exact);
    let we = trie_entries(wild);
    if size == 0 {
        Seq::empty()
    } else {
        round_trip_errors(d, exact_offset(d), ee, sample_step(ee.len(), size), false)
            + round_trip_errors(d, wildcard_offset(d), we, sample_step(we.len(), size), true)
    }
}

/// Entries of both tries carrying category bit `bit`, capped at `usize::MAX`.
pub open spec fn trie_bit_count(d: Seq<u8>, bit: int) -> usize {
    let n = bit_count(terminals(d, exact_offset(d)), bit) + bit_count(terminals(d, wildcard_offset(d)), bit);
    if n > usize::MAX { usize::MAX } else { n as usize }
}

/// The per-bit floor failures, in source order, of the sources that set `min_trie_entries`.
pub open spec fn floor_errors(d: Seq<u8>, ss: Seq<SourceEntry>) -> Seq<ValidationErrorView>
    decreases ss.len(),
{
    if ss.len() == 0 {
        Seq::empty()
    } else {
        let prev = floor_errors(d, ss.drop_last());
        let s = ss.last();
        match s.min_trie_entries {
            Some(min) => {
                let c = trie_bit_count(d, s.category_index as int);
                if c < min {
                    prev.push(ValidationErrorView::TrieEntriesBelowFloor { source: s.display_name@, bit: s.category_index, count: c, min })
                } else {
                    prev
                }
            },
            None => prev,
        }
    }
}

fn check_canaries(data: &[u8], header: &SdblHeader, canaries: &[Canary], errors: &mut Vec<ValidationError>)
    requires
        readable_image(data@),
        *header == header_of(data@),
    ensures
        error_views(final(errors)@) == error_views(old(errors)@) + canary_errors(data@, canaries@),
{
    let ghost start = error_views(errors@);
    let mut i: usize = 0;
    while i < canaries.len()
        invariant
            i <= canaries@.len(),
            readable_image(data@),
            *header == header_of(data@),
            error_views(errors@) == start + canary_errors(data@, canaries@.take(i as int)),
        decreases canaries@.len() - i,
    {
        let c = &canaries[i];
        let ghost before = errors@;
        let got = lookup_exact(data, header, c.domain.as_str());
        let r = validate_output_canary(c.domain.as_str(), c.expected_min_bitmap, got);
        proof {
            assert(canaries@.take(i + 1).drop_last() =~= canaries@.take(i as int));
            assert(canaries@.take(i + 1).last() == canaries@[i as int]);
        }
        match r {
            Ok(()) => {},
            Err(e) => {
                errors.push(e);
                assert(error_views(errors@) =~= error_views(before).push(e@));
            },
        }
        i = i + 1;
    }
    assert(canaries@.take(canaries@.len() as int) =~= canaries@);
}


fn check_round_trips(data: &[u8], pos: usize, entries: &Vec<(Vec<u8>, u32)>, step: usize, reversed: bool, errors: &mut Vec<ValidationError>)
    requires
        step >= 1,
        forall|k: Seq<u8>| #[trigger] walk_safe(data@, pos as int, k),
    ensures
        error_views(final(errors)@) == error_views(old(errors)@) + round_trip_errors(data@, pos as int, entry_views(entries@), step as nat, reversed),
{
    let ghost start = error_views(errors@);
    let ghost es = entry_views(entries@);
    let mut i: usize = 0;
    while i < entries.len()
        invariant
            i <= entries@.len(),
            step >= 1,
            es == entry_views(entries@),
            forall|k: Seq<u8>| #[trigger] walk_safe(data@, pos as int, k),
            error_views(errors@) == start + round_trip_errors(data@, pos as int, es.take(i as int), step as nat, reversed),
        decreases entries@.len() - i,
    {
        let ghost before = errors@;
        proof {
            assert(es.take(i + 1).drop_last() =~= es.take(i as int));
            assert(es.take(i + 1).last() == es[i as int]);
            assert(es[i as int] == (entries@[i as int].0@, entries@[i as int].1));
        }
        if i % step == 0 {
            let key = &entries[i].0;
            let want = entries[i].1;
            let got = if reversed {
                let rev = reverse_bytes(key);
                walk_trie(data, pos, rev.as_slice())
            } else {
                walk_trie(data, pos, key.as_slice())
            };
            let mismatch = match got {
                Some(g) => g != want,
                None => true,
            };
            if mismatch {
                let g = match got {
                    Some(b) => b,
                    None => 0,
                };
                let e = ValidationError::RoundTripMismatch { domain: utf8_lossy(key.as_slice()), want, got: g };
                errors.push(e);
                assert(error_views(errors@) =~= error_views(before).push(e@));
            }
        }
        i = i + 1;
    }
    assert(es.take(entries@.len() as int) =~= es);
}

/// Distance between sampled entries when at most `size` of `n` entries are sampled.
fn sample_step_of(n: usize, size: usize) -> (r: usize)
    ensures
        r == sample_step(n as nat, size as nat),
        r >= 1,
{
    if n == 0 || size == 0 {
        1
    } else {
        (n - 1) / size + 1
    }
}

fn check_floors(data: &[u8], exact_counts: &[usize; 32], wild_counts: &[usize; 32], sources: &[SourceEntry], errors: &mut Vec<ValidationError>)
    requires
        forall|b: int| 0 <= b < 32 ==> #[trigger] exact_counts@[b] == bit_count(terminals(data@, exact_offset(data@)), b),
        forall|b: int| 0 <= b < 32 ==> #[trigger] wild_counts@[b] == bit_count(terminals(data@, wildcard_offset(data@)), b),
        forall|i: int| 0 <= i < sources@.len() && (#[trigger] sources@[i]).min_trie_entries is Some ==> sources@[i].category_index < 32,
    ensures
        error_views(final(errors)@) == error_views(old(errors)@) + floor_errors(data@, sources@),
{
    let ghost start = error_views(errors@);
    let mut i: usize = 0;
    while i < sources.len()
        invariant
            i <= sources@.len(),
            forall|b: int| 0 <= b < 32 ==> #[trigger] exact_counts@[b] == bit_count(terminals(data@, exact_offset(data@)), b),
            forall|b: int| 0 <= b < 32 ==> #[trigger] wild_counts@[b] == bit_count(terminals(data@, wildcard_offset(data@)), b),
            forall|i: int| 0 <= i < sources@.len() && (#[trigger] sources@[i]).min_trie_entries is Some ==> sources@[i].category_index < 32,
            error_views(errors@) == start + floor_errors(data@, sources@.take(i as int)),
        decreases sources@.len() - i,
    {
        let ghost before = errors@;
        proof {
            assert(sources@.take(i + 1).drop_last() =~= sources@.take(i as int));
            assert(sources@.take(i + 1).last() == sources@[i as int]);
        }
        let s = &sources[i];
        match s.min_trie_entries {
            Some(min) => {
                let bit = s.category_index as usize;
                let count = exact_counts[bit].saturating_add(wild_counts[bit]);
                assert(count == trie_bit_count(data@, s.category_index as int));
                if count < min {
                    let e = ValidationError::TrieEntriesBelowFloor { source: s.display_name.clone(), bit: s.category_index, count, min };
                    errors.push(e);
                    assert(error_views(errors@) =~= error_views(before).push(e@));
                }
            },
            None => {},
        }
        i = i + 1;
    }
    assert(sources@.take(sources@.len() as int) =~= sources@);
}

/// Layer 3: reads the compiled image back. Every canary's bits must be present, a sample of
/// at most `sample_size` entries of each of the store's maps must read back with its bitmap,
/// and each source's `min_trie_entries` floor must be met by the entries of both tries
/// carrying its bit. The failures come back in that order.
#[verifier::spinoff_prover]
pub fn validate_output(data: &[u8], canaries: &[Canary], sources: &[SourceEntry], store: &DomainStore, sample_size: usize) -> (errors: Vec<ValidationError>)
    requires
        readable_image(data@),
        store.wf(),
        forall|i: int| 0 <= i < sources@.len() && (#[trigger] sources@[i]).min_trie_entries is Some ==> sources@[i].category_index < 32,
    ensures
        error_views(errors@) == canary_errors(data@, canaries@)
            + sample_errors(data@, store.exact_domains@, store.wildcard_suffixes@, sample_size as nat)
            + floor_errors(data@, sources@),
{
    let header = match parse_header(data) {
        Ok(h) => h,
        Err(_) => {
            return Vec::new();
        },
    };
    let mut errors: Vec<ValidationError> = Vec::new();
    assert(error_views(errors@) =~= Seq::<ValidationErrorView>::empty());
    check_canaries(data, &header, canaries, &mut errors);
    if sample_size > 0 {
        let exact = store.exact_domains.entries();
        let wild = store.wildcard_suffixes.entries();
        proof {
            lemma_trie_image(store.exact_domains.root);
            lemma_trie_image(store.wildcard_suffixes.root);
        }
        check_round_trips(data, header.exact_trie_offset as usize, &exact, sample_step_of(exact.len(), sample_size), false, &mut errors);
        check_round_trips(data, header.wildcard_trie_offset as usize, &wild, sample_step_of(wild.len(), sample_size), true, &mut errors);
    }
    let exact_counts = count_entries_per_bit(data, header.exact_trie_offset as usize);
    let wild_counts = count_entries_per_bit(data, header.wildcard_trie_offset as usize);
    check_floors(data, &exact_counts, &wild_counts, sources, &mut errors);
    errors
}


proof fn lemma_round_trip_clean(d: Seq<u8>, pos: int, es: Seq<(Seq<u8>, u32)>, step: nat, reversed: bool)
    requires
        forall|i: int| 0 <= i < es.len() ==> walk(d, pos, if reversed { (#[trigger] es[i]).0.reverse() } else { es[i].0 }) == Some(es[i].1),
    ensures
        round_trip_errors(d, pos, es, step, reversed) == Seq::<ValidationErrorView>::empty(),
    decreases es.len(),
{
    if es.len() > 0 {
        let p = es.drop_last();
        assert forall|i: int| 0 <= i < p.len() implies walk(d, pos, if reversed { (#[trigger] p[i]).0.reverse() } else { p[i].0 }) == Some(p[i].1) by {
            assert(p[i] == es[i]);
        }
        lemma_round_trip_clean(d, pos, p, step, reversed);
        assert(es.last() == es[es.len() - 1]);
    }
}

/// Reading back the image compiled from a store finds every store entry with its bitmap, so
/// the round-trip sample of layer 3 never fails on a compiled image, whatever its size.
pub proof fn lemma_compiled_round_trip(store: DomainStore, d: Seq<u8>, size: nat)
    requires
        store.wf(),
        image_reads_back(d, store.exact_domains@, store.wildcard_suffixes@),
    ensures
        sample_errors(d, store.exact_domains@, store.wildcard_suffixes@, size) == Seq::<ValidationErrorView>::empty(),
{
    let exact = store.exact_domains@;
    let wild = store.wildcard_suffixes@;
    let en = store.exact_domains.root;
    let wn = store.wildcard_suffixes.root;
    lemma_trie_image(en);
    lemma_trie_image(wn);
    let ee = trie_entries(exact);
    let we = trie_entries(wild);
    assert forall|i: int| 0 <= i < ee.len() implies walk(d, exact_offset(d), (#[trigger] ee[i]).0) == Some(ee[i].1) by {
        let (k, v) = ee[i];
        assert(ee.contains((k, v)));
        lemma_entries_contains(en, k, v);
        assert(exact.get(k) == Some(v));
    }
    assert forall|i: int| 0 <= i < we.len() implies walk(d, wildcard_offset(d), (#[trigger] we[i]).0.reverse()) == Some(we[i].1) by {
        let (k, v) = we[i];
        assert(we.contains((k, v)));
        lemma_entries_contains(wn, k, v);
        lemma_reverse_reverse(k);
        assert(reverse_keys(wild).get(k.reverse()) == Some(v));
    }
    lemma_round_trip_clean(d, exact_offset(d), ee, sample_step(ee.len(), size), false);
    lemma_round_trip_clean(d, wildcard_offset(d), we, sample_step(we.len(), size), true);
}

} // verus!

verus! {

/// How a build treats validation failures: strict aborts on any; best effort tolerates a few
/// failed sources and per-bit floor breaches.
#[derive(Clone, Copy, Debug, PartialEq, Eq)]
pub enum Strictness {
    Strict,
    BestEffort,
}

/// Source-level failures (download or parse) tolerated in best-effort mode.
pub const BEST_EFFORT_MAX_FAILED_SOURCES: usize = 2;

/// The number of failed sources a build tolerates: none when strict, two in best effort.
pub fn failure_threshold(mode: Strictness) -> (r: usize)
    ensures
        r == (match mode {
            Strictness::Strict => 0usize,
            Strictness::BestEffort => BEST_EFFORT_MAX_FAILED_SOURCES,
        }),
{
    match mode {
        Strictness::Strict => 0,
        Strictness::BestEffort => BEST_EFFORT_MAX_FAILED_SOURCES,
    }
}

/// What the build does after downloading and parsing every source.
pub enum SourceFailureDecision {
    /// Go on to compile.
    Proceed,
    /// Strict mode: some download failed (`threshold` is the strict threshold, 0).
    DownloadFailures { failed: usize, threshold: usize },
    /// Strict mode: every download succeeded, but `count` parses failed validation.
    ParseFailures { count: usize },
    /// Best-effort mode: failed downloads and failed parses together exceed the threshold.
    TooManyFailures(ValidationError),
}

/// The source-level decision: strict mode aborts on any failed download, then on any failed
/// parse; best-effort mode aborts only when failed downloads and failed parses together exceed
/// its threshold, and otherwise goes on (failed parses become warnings).
pub fn source_failure_decision(mode: Strictness, failed_downloads: usize, failed_parses: usize) -> (r: SourceFailureDecision)
    requires
        failed_downloads + failed_parses <= usize::MAX,
    ensures
        match mode {
            Strictness::Strict => if failed_downloads > 0 {
                r == (SourceFailureDecision::DownloadFailures { failed: failed_downloads, threshold: 0 })
            } else if failed_parses > 0 {
                r == (SourceFailureDecision::ParseFailures { count: failed_parses })
            } else {
                r is Proceed
            },
            Strictness::BestEffort => if failed_downloads + failed_parses > BEST_EFFORT_MAX_FAILED_SOURCES {
                r matches SourceFailureDecision::TooManyFailures(e) && e@ == (ValidationErrorView::AggregateFailures {
                    count: (failed_downloads + failed_parses) as usize,
                    threshold: BEST_EFFORT_MAX_FAILED_SOURCES,
                })
            } else {
                r is Proceed
            },
        },
{
    let threshold = failure_threshold(mode);
    match mode {
        Strictness::Strict => {
            if check_failure_threshold(failed_downloads, threshold).is_err() {
                return SourceFailureDecision::DownloadFailures { failed: failed_downloads, threshold };
            }
            if failed_parses > 0 {
                return SourceFailureDecision::ParseFailures { count: failed_parses };
            }
            SourceFailureDecision::Proceed
        },
        Strictness::BestEffort => {
            match check_failure_threshold(failed_downloads + failed_parses, threshold) {
                Err(e) => SourceFailureDecision::TooManyFailures(e),
                Ok(()) => SourceFailureDecision::Proceed,
            }
        },
    }
}

/// Whether an output check failure stops the build: canary and round-trip failures always do,
/// as they mean the image is broken; a per-bit floor breach only in strict mode.
pub fn output_error_aborts(e: &ValidationError, mode: Strictness) -> (r: bool)
    ensures
        r == (match e {
            ValidationError::TrieEntriesBelowFloor { .. } => mode == Strictness::Strict,
            _ => true,
        }),
{
    match e {
        ValidationError::TrieEntriesBelowFloor { .. } => match mode {
            Strictness::Strict => true,
            Strictness::BestEffort => false,
        },
        _ => true,
    }
}

} // verus!

verus! {

proof fn lemma_sample_lines_pieces(lines: Seq<Seq<char>>)
    requires
        forall|i: int| 0 <= i < lines.len() ==> !(#[trigger] lines[i]).contains('\n'),
    ensures
        forall|i: int| 0 <= i < sample_lines(lines).len() ==> !(#[trigger] sample_lines(lines)[i]).contains('\n'),
    decreases lines.len(),
{
    if lines.len() > 0 {
        let p = lines.drop_last();
        assert forall|i: int| 0 <= i < p.len() implies !(#[trigger] p[i]).contains('\n') by {
            assert(p[i] == lines[i]);
        }
        lemma_sample_lines_pieces(p);
        assert(!lines[lines.len() - 1].contains('\n'));
        let sp = sample_lines(p);
        let sl = sample_lines(lines);
        assert forall|i: int| 0 <= i < sl.len() implies !(#[trigger] sl[i]).contains('\n') by {
            if i < sp.len() {
                assert(sl[i] == sp[i]);
            } else {
                assert(sl[i] == lines.last());
            }
        }
    }
}

/// The smell test on a download is the parser's verdict on single lines: the body looks like
/// a list exactly when one of its first 30 non-blank, non-comment lines, parsed on its own in
/// the source's format, yields an entry.
pub proof fn lemma_smell_test_parses(body: Seq<char>, format: Seq<char>)
    ensures
        looks_like_domain_list(body, format) <==> exists|i: int|
            0 <= i < sample_lines(split_on(body, '\n')).len() && i < 30
                && #[trigger] blocklist_entries(sample_lines(split_on(body, '\n'))[i], format).len() > 0,
{
    let sel = sample_lines(split_on(body, '\n'));
    let fmt = list_format(format);
    lemma_split_on_pieces(body, '\n');
    lemma_sample_lines_pieces(split_on(body, '\n'));
    assert forall|i: int| 0 <= i < sel.len() implies (#[trigger] blocklist_entries(sel[i], format).len() > 0) == (line_entry(sel[i], fmt) is Some) by {
        lemma_split_on_single(sel[i], '\n');
        let one = seq![sel[i]];
        assert(one.drop_last() =~= Seq::<Seq<char>>::empty());
        assert(one.last() == sel[i]);
        assert(entries_of(one.drop_last(), fmt) =~= Seq::<(Seq<char>, bool)>::empty());
        assert(blocklist_entries(sel[i], format) == entries_of(one, fmt));
    }
    if looks_like_domain_list(body, format) {
        let i = choose|i: int| 0 <= i < sel.len() && i < 30 && #[trigger] line_entry(sel[i], fmt) is Some;
        assert(blocklist_entries(sel[i], format).len() > 0);
    }
    if exists|i: int| 0 <= i < sel.len() && i < 30 && #[trigger] blocklist_entries(sel[i], format).len() > 0 {
        let i = choose|i: int| 0 <= i < sel.len() && i < 30 && #[trigger] blocklist_entries(sel[i], format).len() > 0;
        assert(line_entry(sel[i], fmt) is Some);
    }
}

} // verus!

verus! {

/// The layer-2 verdict on a parse count, for every source: a count below 90% of a declared
/// count is a regression whatever floor the source sets; otherwise the count is refused
/// exactly when it is 0 or below the source's `min_parsed_entries`.
pub proof fn lemma_parse_verdict(parsed: usize, expected: Option<usize>, source: SourceEntry)
    ensures
        (expected matches Some(e) && parsed * 10 < e * 9) ==> parse_error(parsed, expected, source) == Some(
            ValidationErrorView::CountRegression { source: source.display_name@, parsed, expected: expected->0 },
        ),
        !(expected matches Some(e) && parsed * 10 < e * 9) ==> (parse_error(parsed, expected, source) is Some <==> (
            parsed == 0 || (source.min_parsed_entries matches Some(m) && parsed < m)
        )),
        !(expected matches Some(e) && parsed * 10 < e * 9) && parse_error(parsed, expected, source) is Some ==> parse_error(
            parsed,
            expected,
            source,
        ) == Some(ValidationErrorView::BelowFloor {
            source: source.display_name@,
            parsed,
            min: if source.min_parsed_entries matches Some(m) && m > 0 { source.min_parsed_entries->0 } else { 1usize },
        }),
        parse_error(parsed, expected, source) is None ==> parsed >= 1,
{
}

} // verus!

verus! {

/// The layer-1 verdict on a download: it is accepted exactly when the status is 2xx, the body
/// has at least `min_size_bytes` bytes (1 when unset), any Content-Type is a text type that is
/// not refused, and the body passes the smell test; a status outside 200..=299 is refused as
/// such before anything else is looked at.
pub proof fn lemma_download_verdict(status: u16, content_type: Option<Seq<char>>, body: Seq<char>, source: SourceEntry)
    ensures
        download_error(status, content_type, body, source) is None <==> {
            &&& 200 <= status <= 299
            &&& encode_utf8(body).len() >= (match source.min_size_bytes {
                Some(m) => m as int,
                None => 1int,
            })
            &&& (content_type matches Some(c) ==> content_type_ok(c))
            &&& looks_like_domain_list(body, source.format@)
        },
        !(200 <= status <= 299) ==> download_error(status, content_type, body, source) == Some(
            ValidationErrorView::HttpStatus { source: source.display_name@, status },
        ),
{
}

} // verus!

verus! {

/// The canary check: a canary passes only when every category bit it requires is set in the
/// bitmap read back (an absent domain reads as no bits), and the failure reports the domain,
/// the required bitmap and the bitmap read back; an absent domain fails whenever some bit is
/// required.
pub proof fn lemma_canary_verdict(domain: Seq<char>, want: u32, got: Option<u32>)
    ensures
        ({
            let g: u32 = match got {
                Some(b) => b,
                None => 0,
            };
            &&& canary_error(domain, want, got) is None ==> forall|b: u32| b < 32 && #[trigger] has_bit(want, b as int) ==> has_bit(g, b as int)
            &&& canary_error(domain, want, got) matches Some(e) ==> e == (ValidationErrorView::CanaryMissing { domain, want, got: g })
            &&& (got is None && want != 0) ==> canary_error(domain, want, got) is Some
        }),
{
    let g: u32 = match got {
        Some(b) => b,
        None => 0,
    };
    if canary_error(domain, want, got) is None {
        assert(g & want == want);
        assert forall|b: u32| b < 32 && #[trigger] has_bit(want, b as int) implies has_bit(g, b as int) by {
            assert(b as int as u32 == b);
            assert((g & want == want && want & (1u32 << b) != 0) ==> g & (1u32 << b) != 0) by (bit_vector)
                requires
                    b < 32,
            ;
        }
    }
    if got is None && want != 0 {
        assert(0u32 & want == 0) by (bit_vector);
    }
}

} // verus!

verus! {

/// A Content-Type is accepted exactly when, ASCII case ignored, it names a `text/` type and
/// holds none of `text/html`, `application/json` and `application/xml`.
pub proof fn lemma_content_type_rule(ct: Seq<char>)
    ensures
        content_type_ok(ct) <==> {
            &&& contains_text(ascii_lower(ct), "text/"@)
            &&& !contains_text(ascii_lower(ct), "text/html"@)
            &&& !contains_text(ascii_lower(ct), "application/json"@)
            &&& !contains_text(ascii_lower(ct), "application/xml"@)
        },
{
    let l = ascii_lower(ct);
    if contains_text(l, "text/plain"@) {
        reveal_strlit("text/plain");
        reveal_strlit("text/");
        let i = choose|i: int| 0 <= i && i + "text/plain"@.len() <= l.len() && #[trigger] l.subrange(i, i + "text/plain"@.len()) == "text/plain"@;
        assert(l.subrange(i, i + 5) =~= "text/"@) by {
            assert forall|k: int| 0 <= k < 5 implies l.subrange(i, i + 5)[k] == "text/"@[k] by {
                assert(l.subrange(i, i + 5)[k] == l.subrange(i, i + 10)[k]);
            }
        }
        assert(contains_text(l, "text/"@));
    }
}

} // verus!

verus! {

/// The ratio in a count-regression message is the percentage `parsed / expected * 100` to two
/// decimals: the printed number of hundredths `h` is within half a hundredth of the exact value.
pub proof fn lemma_ratio_rounding(parsed: nat, expected: nat)
    requires
        expected > 0,
    ensures
        exists|h: nat| #![trigger decimal(h / 100)]
            ratio_text(parsed, expected) == decimal(h / 100) + "."@ + decimal_pad2(h % 100)
            && -(expected as int) <= 2 * (h * expected - parsed * 10000) <= expected,
{
    let n = parsed * 10000;
    let q = n / expected;
    let r = n % expected;
    assert(q * expected + r == n && 0 <= r < expected) by (nonlinear_arith)
        requires
            expected > 0,
            q == n / expected,
            r == n % expected,
    ;
    let h: nat = if 2 * r > expected || (2 * r == expected && q % 2 == 1) { q + 1 } else { q };
    assert(h * expected == q * expected + (if h == q + 1 { expected as int } else { 0int })) by (nonlinear_arith)
        requires
            h == q || h == q + 1,
    ;
    assert(ratio_text(parsed, expected) == decimal(h / 100) + "."@ + decimal_pad2(h % 100));
}

} // verus!

use vstd::prelude::*;
use vstd::arithmetic::power2::{lemma2_to64, lemma2_to64_rest, lemma_pow2_strictly_increases, pow2};
use vstd::bits::lemma_u64_shl_is_mul;
use vstd::string::StringExecFns;
use crate::clock::clock_subsec_nanos;
use crate::config::{SourceEntry, SourcesConfig};
use crate::text::str_eq;
use crate::validator::{download_error, opt_text, validate_download, ValidationError, ValidationErrorView};

verus! {

/// Largest response body accepted (100 MiB), against a hostile or broken upstream.
pub const MAX_RESPONSE_BYTES: u64 = 104857600;

/// Attempts per source: a first try and three retries on transient failures (network errors
/// and 5xx statuses), after backoffs of about 1 s, 2 s and 4 s.
pub const RETRY_ATTEMPTS: u32 = 4;

/// How the download of one source ended.
#[derive(Debug)]
pub enum DownloadOutcome {
    Downloaded(String),
    Rejected(ValidationError),
    NetworkError(String),
}

impl DownloadOutcome {
    /// The downloaded body, when the download was accepted.
    pub fn content(&self) -> (r: Option<&str>)
        ensures
            match self {
                DownloadOutcome::Downloaded(s) => r matches Some(c) && c@ == s@,
                _ => r is None,
            },
    {
        match self {
            DownloadOutcome::Downloaded(s) => Some(s.as_str()),
            _ => None,
        }
    }

    pub fn is_ok(&self) -> (r: bool)
        ensures
            r == (self is Downloaded),
    {
        match self {
            DownloadOutcome::Downloaded(_) => true,
            _ => false,
        }
    }
}

/// A source together with how its download ended.
pub struct DownloadResult {
    pub source: SourceEntry,
    pub outcome: DownloadOutcome,
}

/// The backoff before retry number `attempt + 1`: 1 s, 2 s, 4 s, ... with up to 20 % taken
/// off or added; `jitter_bps` (basis points, capped at 10000) places it in that span, 0 at
/// the low end and 10000 at the high end.
pub open spec fn backoff_ms(attempt: nat, jitter_bps: nat) -> int {
    backoff_from_base((1000 * pow2(attempt)) as int, jitter_bps)
}

/// The backoff around a base of `base` ms: 40 % of the base as the span, starting 20 % below.
pub open spec fn backoff_from_base(base: int, jitter_bps: nat) -> int {
    let range = base * 4 / 10;
    let j = if jitter_bps > 10000 { 10000 } else { jitter_bps };
    base - range / 2 + j * range / 10000
}

/// The base of `compute_backoff_ms`: 1000 shifted left by `attempt` bits in 64-bit arithmetic
/// (the bits shifted out are lost).
pub open spec fn shifted_base(attempt: u32) -> int {
    (1000u64 << attempt) as int
}

/// The inputs on which `compute_backoff_ms` computes without overflow: a shift below 64 bits,
/// and a span, jittered offset and sum that fit in 64 bits.
pub open spec fn backoff_fits(attempt: u32, jitter_bps: u32) -> bool {
    let base = shifted_base(attempt);
    let j: int = if jitter_bps > 10000 { 10000 } else { jitter_bps as int };
    &&& attempt < 64
    &&& base * 4 <= u64::MAX
    &&& j * (base * 4 / 10) <= u64::MAX
    &&& backoff_from_base(base, jitter_bps as nat) <= u64::MAX
}

/// Up to attempt 53 the shifted base is `1000 * 2^attempt`.
pub proof fn lemma_shifted_base(attempt: u32)
    requires
        attempt <= 53,
    ensures
        shifted_base(attempt) == 1000 * pow2(attempt as nat),
{
    lemma2_to64();
    lemma2_to64_rest();
    if attempt < 53 {
        lemma_pow2_strictly_increases(attempt as nat, 53);
    }
    let p = pow2(attempt as nat);
    assert(1000 * p <= 1000 * 0x20_0000_0000_0000) by (nonlinear_arith)
        requires
            p <= 0x20_0000_0000_0000,
    ;
    lemma_u64_shl_is_mul(1000, attempt as u64);
    assert((1000u64 << attempt) == (1000u64 << (attempt as u64))) by (bit_vector);
}

/// Every jitter fits for the first 43 attempts (0 to 42).
pub proof fn lemma_backoff_fits(attempt: u32, jitter_bps: u32)
    requires
        attempt <= 42,
    ensures
        backoff_fits(attempt, jitter_bps),
{
    lemma_shifted_base(attempt);
    lemma2_to64();
    lemma2_to64_rest();
    if attempt < 42 {
        lemma_pow2_strictly_increases(attempt as nat, 42);
    }
    let p = pow2(attempt as nat);
    let base = 1000 * p;
    let j: int = if jitter_bps > 10000 { 10000 } else { jitter_bps as int };
    assert(base * 4 / 10 == 400 * p) by (nonlinear_arith)
        requires
            base == 1000 * p,
    ;
    assert(j * (400 * p) <= 10000 * 400 * 0x400_0000_0000) by (nonlinear_arith)
        requires
            0 <= j <= 10000,
            0 <= p <= 0x400_0000_0000,
    ;
    assert(0 <= j * (400 * p) / 10000 <= 400 * p) by (nonlinear_arith)
        requires
            0 <= j <= 10000,
            p >= 0,
    ;
}

/// The backoff after attempt `a` stays within 20 % of `1000 * 2^a` ms: jitter 0 gives 80 %,
/// jitter 10000 and above give 120 %, jitter 5000 gives the base itself.
pub proof fn lemma_backoff_span(attempt: nat, jitter_bps: nat)
    ensures
        800 * pow2(attempt) <= backoff_ms(attempt, jitter_bps) <= 1200 * pow2(attempt),
        backoff_ms(attempt, 0) == 800 * pow2(attempt),
        backoff_ms(attempt, 10000) == 1200 * pow2(attempt),
        backoff_ms(attempt, 5000) == 1000 * pow2(attempt),
{
    let p = pow2(attempt);
    let j: int = if jitter_bps > 10000 { 10000 } else { jitter_bps as int };
    assert((1000 * p) * 4 / 10 == 400 * p) by (nonlinear_arith);
    assert(0 <= j * (400 * p) / 10000 <= 400 * p) by (nonlinear_arith)
        requires
            0 <= j <= 10000,
            p >= 0,
    ;
    assert(10000 * (400 * p) / 10000 == 400 * p) by (nonlinear_arith);
    assert(5000 * (400 * p) / 10000 == 200 * p) by (nonlinear_arith);
    assert((400 * p) / 2 == 200 * p) by (nonlinear_arith);
    assert(0 * (400 * p) / 10000 == 0) by (nonlinear_arith);
}

/// Milliseconds to wait before retrying after failed attempt `attempt` (counted from 0).
pub fn compute_backoff_ms(attempt: u32, jitter_bps: u32) -> (r: u64)
    requires
        backoff_fits(attempt, jitter_bps),
    ensures
        r == backoff_from_base(shifted_base(attempt), jitter_bps as nat),
        attempt <= 53 ==> r == backoff_ms(attempt as nat, jitter_bps as nat),
{
    proof {
        if attempt <= 53 {
            lemma_shifted_base(attempt);
        }
    }
    let base_ms: u64 = 1000u64 << attempt;
    let range_ms = (base_ms * 4) / 10;
    let capped: u64 = if jitter_bps as u64 > 10_000 { 10_000 } else { jitter_bps as u64 };
    let offset_ms = capped * range_ms / 10_000;
    assert(range_ms / 2 <= base_ms);
    base_ms - range_ms / 2 + offset_ms
}

} // verus!

verus! {

/// A jitter in basis points (below 10000) taken from the clock's nanoseconds.
pub fn random_jitter_bps() -> (r: u32)
    ensures
        r < 10_000,
{
    clock_subsec_nanos() % 10_000
}

/// What one download attempt gave: a network failure, or a response.
pub enum AttemptEvent {
    Network(String),
    Response { status: u16, content_type: Option<String>, body: String },
}

/// The retry state of one source: attempts made so far and the last transient failures seen.
pub struct RetryState {
    pub attempt: u32,
    pub last_network_err: Option<String>,
    pub last_5xx: Option<u16>,
}

/// What to do after an attempt: stop with an outcome, or wait and try again.
pub enum RetryAction {
    Finish(DownloadOutcome),
    Retry { backoff_ms: u64 },
}

impl RetryState {
    pub fn new() -> (s: RetryState)
        ensures
            s.attempt == 0,
            s.last_network_err is None,
            s.last_5xx is None,
    {
        RetryState { attempt: 0, last_network_err: None, last_5xx: None }
    }
}

/// An optional string taken as an optional character sequence.
pub open spec fn opt_string(o: Option<String>) -> Option<Seq<char>> {
    match o {
        Some(c) => Some(c@),
        None => None,
    }
}

/// Whether a status is a server error (5xx), which is retried.
pub open spec fn is_server_error(status: u16) -> bool {
    500 <= status <= 599
}

/// Exactly the statuses 500 to 599 are server errors, which are retried.
pub proof fn lemma_server_errors(status: u16)
    ensures
        is_server_error(status) <==> (500 <= status && status <= 599),
{
}

/// The outcome after the last attempt failed transiently: the last 5xx status as an HTTP
/// rejection, else the last network error.
pub open spec fn exhausted_outcome_ok(o: DownloadOutcome, last_network_err: Option<String>, last_5xx: Option<u16>, source: SourceEntry) -> bool {
    match last_5xx {
        Some(st) => o matches DownloadOutcome::Rejected(e) && e@ == (ValidationErrorView::HttpStatus { source: source.display_name@, status: st }),
        None => match last_network_err {
            Some(m) => o matches DownloadOutcome::NetworkError(msg) && msg@ == m@,
            None => o matches DownloadOutcome::NetworkError(msg) && msg@ == "unknown network failure"@,
        },
    }
}

/// One step of the download of `source`: takes what attempt number `state.attempt` gave.
/// A non-5xx response ends the download with the verdict of `validate_download`. A network
/// error or a 5xx is remembered; while attempts remain the step asks for a retry after the
/// backoff of this attempt (`jitter_bps` placing it in its span), else it ends with the last
/// 5xx as an HTTP rejection, or the last network error.
pub fn retry_step(state: RetryState, event: AttemptEvent, source: &SourceEntry, jitter_bps: u32) -> (r: (RetryState, RetryAction))
    requires
        state.attempt < RETRY_ATTEMPTS,
    ensures
        r.0.attempt == state.attempt + 1,
        match event {
            AttemptEvent::Response { status, .. } => if 500 <= status <= 599 {
                &&& r.0.last_5xx == Some(status)
                &&& (state.attempt + 1 < RETRY_ATTEMPTS ==> r.1 == (RetryAction::Retry {
                    backoff_ms: backoff_ms(state.attempt as nat, jitter_bps as nat) as u64,
                }))
            } else {
                r.1 is Finish
            },
            AttemptEvent::Network(_) => state.attempt + 1 < RETRY_ATTEMPTS ==> r.1 is Retry,
        },
        (state.attempt + 1 == RETRY_ATTEMPTS && match event {
            AttemptEvent::Response { status, .. } => 500 <= status <= 599,
            AttemptEvent::Network(_) => true,
        }) ==> match r.0.last_5xx {
            Some(st) => r.1 matches RetryAction::Finish(DownloadOutcome::Rejected(e)) && e@ == (ValidationErrorView::HttpStatus {
                source: source.display_name@,
                status: st,
            }),
            None => r.1 matches RetryAction::Finish(DownloadOutcome::NetworkError(m)) && (match r.0.last_network_err {
                Some(n) => m@ == n@,
                None => m@ == "unknown network failure"@,
            }),
        },
        match event {
            AttemptEvent::Response { status, content_type, body } if !is_server_error(status) => {
                &&& r.1 matches RetryAction::Finish(o)
                &&& match download_error(status, opt_string(content_type), body@, *source) {
                    None => o matches DownloadOutcome::Downloaded(b) && b@ == body@,
                    Some(ev) => o matches DownloadOutcome::Rejected(e) && e@ == ev,
                }
            },
            _ => {
                &&& r.0.last_5xx == (match event {
                    AttemptEvent::Response { status, .. } => Some(status),
                    AttemptEvent::Network(_) => state.last_5xx,
                })
                &&& match event {
                    AttemptEvent::Network(m) => r.0.last_network_err matches Some(n) && n@ == m@,
                    _ => r.0.last_network_err == state.last_network_err,
                }
                &&& if state.attempt + 1 < RETRY_ATTEMPTS {
                    r.1 == (RetryAction::Retry { backoff_ms: backoff_ms(state.attempt as nat, jitter_bps as nat) as u64 })
                } else {
                    r.1 matches RetryAction::Finish(o) && exhausted_outcome_ok(o, r.0.last_network_err, r.0.last_5xx, *source)
                }
            },
        },
{
    let RetryState { attempt, last_network_err, last_5xx } = state;
    let (last_network_err, last_5xx) = match event {
        AttemptEvent::Network(msg) => (Some(msg), last_5xx),
        AttemptEvent::Response { status, content_type, body } => {
            if 500 <= status && status <= 599 {
                (last_network_err, Some(status))
            } else {
                let ct: Option<&str> = match &content_type {
                    Some(c) => Some(c.as_str()),
                    None => None,
                };
                assert(opt_text(ct) == opt_string(content_type));
                let outcome = match validate_download(status, ct, body.as_str(), source) {
                    Ok(()) => DownloadOutcome::Downloaded(body),
                    Err(e) => DownloadOutcome::Rejected(e),
                };
                let next = RetryState { attempt: attempt + 1, last_network_err, last_5xx };
                return (next, RetryAction::Finish(outcome));
            }
        },
    };
    if attempt + 1 < RETRY_ATTEMPTS {
        proof {
            lemma_backoff_fits(attempt, jitter_bps);
        }
        let backoff = compute_backoff_ms(attempt, jitter_bps);
        let next = RetryState { attempt: attempt + 1, last_network_err, last_5xx };
        return (next, RetryAction::Retry { backoff_ms: backoff });
    }
    let outcome = match last_5xx {
        Some(status) => DownloadOutcome::Rejected(ValidationError::HttpStatus { source: source.display_name.clone(), status }),
        None => match &last_network_err {
            Some(msg) => DownloadOutcome::NetworkError(msg.clone()),
            None => DownloadOutcome::NetworkError(String::from_str("unknown network failure")),
        },
    };
    (RetryState { attempt: attempt + 1, last_network_err, last_5xx }, RetryAction::Finish(outcome))
}

} // verus!

verus! {

/// A download URL: the base URL, `/`, the file name.
pub fn join_url(base: &str, file: &str) -> (r: String)
    ensures
        r@ == base@ + "/"@ + file@,
{
    let mut s = String::from_str(base);
    s.append("/");
    s.append(file);
    s
}

/// The base URL filed under `name`: the first entry with that name, if any.
pub open spec fn base_url_of(entries: Seq<(String, String)>, name: Seq<char>) -> Option<Seq<char>>
    decreases entries.len(),
{
    if entries.len() == 0 {
        None
    } else if entries[0].0@ == name {
        Some(entries[0].1@)
    } else {
        base_url_of(entries.drop_first(), name)
    }
}

/// The URL of a source: its named base URL joined with its file name, or an error naming a
/// base URL the configuration lacks.
pub fn source_url(config: &SourcesConfig, source: &SourceEntry) -> (r: Result<String, String>)
    ensures
        match base_url_of(config.base_urls@, source.base_url@) {
            Some(b) => r matches Ok(u) && u@ == b + "/"@ + source.file@,
            None => r matches Err(e) && e@ == "unknown baseUrl '"@ + source.base_url@ + "'"@,
        },
{
    let entries = &config.base_urls;
    let mut i: usize = 0;
    assert(entries@.skip(0) =~= entries@);
    while i < entries.len()
        invariant
            i <= entries@.len(),
            entries@ == config.base_urls@,
            base_url_of(entries@, source.base_url@) == base_url_of(entries@.skip(i as int), source.base_url@),
        decreases entries@.len() - i,
    {
        let ghost rest = entries@.skip(i as int);
        assert(rest.len() > 0 && rest[0] == entries@[i as int]);
        if str_eq(entries[i].0.as_str(), source.base_url.as_str()) {
            assert(base_url_of(rest, source.base_url@) == Some(entries@[i as int].1@));
            let u = join_url(entries[i].1.as_str(), source.file.as_str());
            return Ok(u);
        }
        assert(rest.drop_first() =~= entries@.skip(i + 1));
        i = i + 1;
    }
    assert(entries@.skip(i as int) =~= Seq::<(String, String)>::empty());
    let mut e = String::from_str("unknown baseUrl '");
    e.append(source.base_url.as_str());
    e.append("'");
    Err(e)
}

/// Checks the number of body bytes read against the cap: reading as many bytes as the cap
/// means the body was cut, and the response is refused.
pub fn check_response_size(bytes_read: u64) -> (r: Result<(), String>)
    ensures
        r is Ok <==> bytes_read < MAX_RESPONSE_BYTES,
        r matches Err(e) ==> e@ == "response exceeded 100 MB cap"@,
{
    if bytes_read >= MAX_RESPONSE_BYTES {
        return Err(String::from_str("response exceeded 100 MB cap"));
    }
    Ok(())
}

} // verus!

use vstd::prelude::*;
use vstd::string::StringSliceAdditionalSpecFns;
use crate::trie::{merged, Trie};
use crate::chars::{in_class, is_space, lead_len, lemma_lead_len, lemma_trail_len, lemma_split_on_chars, lemma_split_on_chars_back, lemma_split_on_nonempty_pieces, lemma_split_on_pieces, lemma_split_on_single, lemma_split_on_join, lemma_split_on_len, lemma_split_on_nonempty, scan_forward, split_bounds, split_on, trim, trim_bounds, trim_class, CharClass};
use vstd::utf8::{encode_utf8, is_ascii_chars};
use vstd::arithmetic::power2::{lemma2_to64, lemma_pow2_strictly_increases, pow2};
use vstd::bits::{lemma_u32_shl_is_mul, lemma_u32_shr_is_div};
use crate::reader::has_bit;
use crate::text::{ascii_lower, ascii_lower_char, chars_eq_str, chars_to_string, lower_text, str_chars, str_eq, to_lowercase};

verus! {

/// The parsed domains: exact domains and wildcard suffixes, each keyed by its UTF-8 bytes
/// and mapped to a bitmap of the categories it was listed under.
pub struct DomainStore {
    pub exact_domains: Trie,
    pub wildcard_suffixes: Trie,
}

/// The bitmap with only category bit `index` set.
pub open spec fn category_bit(index: u8) -> u32 {
    1u32 << (index as u32)
}

impl DomainStore {
    pub open spec fn wf(self) -> bool {
        self.exact_domains.wf() && self.wildcard_suffixes.wf()
    }

    pub fn new() -> (s: DomainStore)
        ensures
            s.wf(),
            s.exact_domains@ == Map::<Seq<u8>, u32>::empty(),
            s.wildcard_suffixes@ == Map::<Seq<u8>, u32>::empty(),
    {
        DomainStore { exact_domains: Trie::new(), wildcard_suffixes: Trie::new() }
    }

    /// Records `domain` as an exact entry in category `category_index` (0..32).
    pub fn add_exact(&mut self, domain: &str, category_index: u8)
        requires
            old(self).wf(),
            category_index < 32,
            old(self).exact_domains.count < usize::MAX,
        ensures
            final(self).wf(),
            final(self).exact_domains@ == old(self).exact_domains@.insert(
                domain.spec_bytes(),
                merged(old(self).exact_domains@.get(domain.spec_bytes()), category_bit(category_index)),
            ),
            final(self).wildcard_suffixes@ == old(self).wildcard_suffixes@,
    {
        let bitmap: u32 = 1u32 << category_index;
        self.exact_domains.insert(domain, bitmap);
    }

    /// Records `suffix` as a wildcard entry in category `category_index` (0..32).
    pub fn add_wildcard(&mut self, suffix: &str, category_index: u8)
        requires
            old(self).wf(),
            category_index < 32,
            old(self).wildcard_suffixes.count < usize::MAX,
        ensures
            final(self).wf(),
            final(self).wildcard_suffixes@ == old(self).wildcard_suffixes@.insert(
                suffix.spec_bytes(),
                merged(old(self).wildcard_suffixes@.get(suffix.spec_bytes()), category_bit(category_index)),
            ),
            final(self).exact_domains@ == old(self).exact_domains@,
    {
        let bitmap: u32 = 1u32 << category_index;
        self.wildcard_suffixes.insert(suffix, bitmap);
    }
}

impl Default for DomainStore {
    fn default() -> (s: DomainStore)
        ensures
            s.wf(),
            s.exact_domains@ == Map::<Seq<u8>, u32>::empty(),
            s.wildcard_suffixes@ == Map::<Seq<u8>, u32>::empty(),
    {
        DomainStore::new()
    }
}

} // verus!

verus! {

/// A character allowed in a domain label: ASCII letter, digit, `-` or `_`.
pub open spec fn is_label_char(c: char) -> bool {
    let u = c as u32;
    (97 <= u <= 122) || (65 <= u <= 90) || (48 <= u <= 57) || u == 45 || u == 95
}

pub open spec fn is_digit(c: char) -> bool {
    48 <= (c as u32) <= 57
}

/// The decimal value of a string of digits.
pub open spec fn digits_value(s: Seq<char>) -> nat
    decreases s.len(),
{
    if s.len() == 0 {
        0
    } else {
        digits_value(s.drop_last()) * 10 + ((s.last() as u32) - 48) as nat
    }
}

/// A piece that parses as a `u8`: one or more digits with value at most 255.
pub open spec fn is_octet(p: Seq<char>) -> bool {
    &&& p.len() > 0
    &&& forall|i: int| 0 <= i < p.len() ==> is_digit(#[trigger] p[i])
    &&& digits_value(p) <= 255
}

/// Four dot-separated octets, like an IPv4 address.
pub open spec fn ipv4_like(d: Seq<char>) -> bool {
    let ps = split_on(d, '.');
    ps.len() == 4 && forall|i: int| 0 <= i < 4 ==> is_octet(#[trigger] ps[i])
}

pub open spec fn valid_label(p: Seq<char>) -> bool {
    p.len() > 0 && forall|i: int| 0 <= i < p.len() ==> is_label_char(#[trigger] p[i])
}

/// A domain accepted into the store: it contains a dot, is 3 to 253 characters long (all
/// characters are ASCII, so this is also its length in bytes), is not an IPv4 address, and
/// every dot-separated label is non-empty and made of letters, digits, `-` and `_`.
pub open spec fn valid_domain(d: Seq<char>) -> bool {
    &&& d.contains('.')
    &&& 3 <= d.len() <= 253
    &&& !ipv4_like(d)
    &&& forall|i: int| 0 <= i < split_on(d, '.').len() ==> valid_label(#[trigger] split_on(d, '.')[i])
}

proof fn lemma_digits_value_grows(s: Seq<char>, k: int)
    requires
        0 <= k <= s.len(),
        forall|i: int| 0 <= i < s.len() ==> is_digit(#[trigger] s[i]),
    ensures
        digits_value(s.take(k)) <= digits_value(s),
    decreases s.len() - k,
{
    if k < s.len() {
        lemma_digits_value_grows(s, k + 1);
        assert(s.take(k + 1).drop_last() =~= s.take(k));
        assert(s.take(k + 1).last() == s[k]);
        assert(is_digit(s[k]));
    } else {
        assert(s.take(k) =~= s);
    }
}

fn is_octet_exec(v: &Vec<char>, from: usize, to: usize) -> (r: bool)
    requires
        from <= to <= v@.len(),
    ensures
        r == is_octet(v@.subrange(from as int, to as int)),
{
    let ghost p = v@.subrange(from as int, to as int);
    if from == to {
        return false;
    }
    let mut value: u32 = 0;
    let mut i = from;
    while i < to
        invariant
            from <= i <= to,
            to <= v@.len(),
            p == v@.subrange(from as int, to as int),
            forall|t: int| from <= t < i ==> is_digit(#[trigger] v@[t]),
            value as nat == digits_value(p.take(i - from)),
            value <= 255,
        decreases to - i,
    {
        let c = v[i];
        let u = c as u32;
        if !(48 <= u && u <= 57) {
            assert(p[i - from] == c);
            return false;
        }
        proof {
            assert(p.take(i - from + 1).drop_last() =~= p.take(i - from));
            assert(p.take(i - from + 1).last() == c);
        }
        value = value * 10 + (u - 48);
        i = i + 1;
        if value > 255 {
            proof {
                assert forall|t: int| 0 <= t < p.len() implies is_digit(#[trigger] p[t]) || t >= i - from by {}
                if forall|t: int| 0 <= t < p.len() ==> is_digit(#[trigger] p[t]) {
                    lemma_digits_value_grows(p, i - from);
                }
            }
            return false;
        }
    }
    assert(p.take(to - from) =~= p);
    assert forall|t: int| 0 <= t < p.len() implies is_digit(#[trigger] p[t]) by {
        assert(p[t] == v@[from + t]);
    }
    true
}

fn is_label_exec(v: &Vec<char>, from: usize, to: usize) -> (r: bool)
    requires
        from <= to <= v@.len(),
    ensures
        r == valid_label(v@.subrange(from as int, to as int)),
{
    let ghost p = v@.subrange(from as int, to as int);
    if from == to {
        return false;
    }
    let mut i = from;
    while i < to
        invariant
            from <= i <= to,
            to <= v@.len(),
            p == v@.subrange(from as int, to as int),
            forall|t: int| from <= t < i ==> is_label_char(#[trigger] v@[t]),
        decreases to - i,
    {
        let u = v[i] as u32;
        if !((97 <= u && u <= 122) || (65 <= u && u <= 90) || (48 <= u && u <= 57) || u == 45 || u == 95) {
            assert(p[i - from] == v@[i as int]);
            return false;
        }
        i = i + 1;
    }
    assert forall|t: int| 0 <= t < p.len() implies is_label_char(#[trigger] p[t]) by {
        assert(p[t] == v@[from + t]);
    }
    true
}

/// Whether `v[from..to]` is a domain the store accepts.
pub fn is_valid_domain(v: &Vec<char>, from: usize, to: usize) -> (r: bool)
    requires
        from <= to <= v@.len(),
    ensures
        r == valid_domain(v@.subrange(from as int, to as int)),
{
    let ghost d = v@.subrange(from as int, to as int);
    let mut has_dot = false;
    let mut i = from;
    while i < to
        invariant
            from <= i <= to,
            to <= v@.len(),
            d == v@.subrange(from as int, to as int),
            has_dot == exists|t: int| from <= t < i && v@[t] == '.',
        decreases to - i,
    {
        if v[i] == '.' {
            has_dot = true;
        }
        i = i + 1;
    }
    proof {
        if has_dot {
            let t = choose|t: int| from <= t < to && v@[t] == '.';
            assert(d[t - from] == '.');
        } else {
            if d.contains('.') {
                let t = choose|t: int| 0 <= t < d.len() && d[t] == '.';
                assert(v@[from + t] == '.');
            }
        }
    }
    let len = to - from;
    if !has_dot || len < 3 || len > 253 {
        return false;
    }
    let parts = split_bounds(v, from, to, '.');
    let ghost ps = split_on(d, '.');
    if parts.len() == 4 {
        let mut all_numeric = true;
        let mut j: usize = 0;
        while j < 4
            invariant
                j <= 4,
                parts@.len() == 4,
                ps.len() == 4,
                forall|k: int| 0 <= k < parts@.len() ==> {
                    &&& from <= (#[trigger] parts@[k]).0 <= parts@[k].1 <= to
                    &&& v@.subrange(parts@[k].0 as int, parts@[k].1 as int) == ps[k]
                },
                to <= v@.len(),
                all_numeric == forall|k: int| 0 <= k < j ==> is_octet(#[trigger] ps[k]),
            decreases 4 - j,
        {
            let (a, b) = parts[j];
            if !is_octet_exec(v, a, b) {
                all_numeric = false;
            }
            j = j + 1;
        }
        if all_numeric {
            return false;
        }
    }
    let mut j: usize = 0;
    while j < parts.len()
        invariant
            j <= parts@.len(),
            d == v@.subrange(from as int, to as int),
            ps == split_on(d, '.'),
            parts@.len() == ps.len(),
            forall|k: int| 0 <= k < parts@.len() ==> {
                &&& from <= (#[trigger] parts@[k]).0 <= parts@[k].1 <= to
                &&& v@.subrange(parts@[k].0 as int, parts@[k].1 as int) == ps[k]
            },
            to <= v@.len(),
            forall|k: int| 0 <= k < j ==> valid_label(#[trigger] ps[k]),
        decreases parts@.len() - j,
    {
        let (a, b) = parts[j];
        if !is_label_exec(v, a, b) {
            assert(!valid_label(ps[j as int]));
            assert(!valid_label(split_on(d, '.')[j as int]));
            return false;
        }
        j = j + 1;
    }
    true
}

} // verus!

verus! {

/// The list formats the parser understands; any other format name is read as plain lines.
pub enum ListFormat {
    Hosts,
    Domains,
    Adblock,
    Other,
}

pub open spec fn list_format(f: Seq<char>) -> ListFormat {
    if f == "hosts"@ {
        ListFormat::Hosts
    } else if f == "domains"@ {
        ListFormat::Domains
    } else if f == "adblock"@ {
        ListFormat::Adblock
    } else {
        ListFormat::Other
    }
}

/// Whether `s` starts with the two characters `a`, `b`.
pub open spec fn starts2(s: Seq<char>, a: char, b: char) -> bool {
    s.len() >= 2 && s[0] == a && s[1] == b
}

/// From a trimmed, non-comment line: the text that names the domain (before lowercasing) and
/// whether it is a wildcard, or `None` when the format rules skip the line.
pub open spec fn raw_domain(t: Seq<char>, fmt: ListFormat) -> Option<(Seq<char>, bool)> {
    match fmt {
        ListFormat::Hosts => {
            let ip = t.take(lead_len(t, CharClass::NotSpace) as int);
            let r = t.skip(lead_len(t, CharClass::NotSpace) as int);
            let r2 = r.skip(lead_len(r, CharClass::Space) as int);
            if ip != "0.0.0.0"@ && ip != "127.0.0.1"@ {
                None
            } else if r2.len() == 0 {
                None
            } else {
                let word = r2.take(lead_len(r2, CharClass::NotSpace) as int);
                Some((word.take(lead_len(word, CharClass::NotHash) as int), false))
            }
        },
        ListFormat::Domains => {
            if starts2(t, '*', '.') {
                Some((t.skip(2), true))
            } else if t.len() >= 1 && t[0] == '.' {
                Some((t.skip(1), true))
            } else {
                Some((t, false))
            }
        },
        ListFormat::Adblock => {
            if !(starts2(t, '|', '|') && t.last() == '^' && t.len() >= 3) {
                None
            } else {
                let s2 = t.subrange(2, t.len() - 1);
                if s2.contains('$') || s2.contains('/') || s2.contains('*') {
                    None
                } else {
                    Some((s2, false))
                }
            }
        },
        ListFormat::Other => Some((t, false)),
    }
}

/// Names that are never blocked.
pub open spec fn is_local_name(d: Seq<char>) -> bool {
    d == "localhost"@ || d == "localhost.localdomain"@ || d == "local"@ || d == "broadcasthost"@
}

/// The entry one line of a list yields: the key to store (a wildcard key starts with `.`)
/// and whether it is a wildcard; `None` for blank, comment, skipped or invalid lines.
pub open spec fn line_entry(line: Seq<char>, fmt: ListFormat) -> Option<(Seq<char>, bool)> {
    let t = trim(line);
    if t.len() == 0 || t[0] == '#' || t[0] == '!' {
        None
    } else {
        match raw_domain(t, fmt) {
            None => None,
            Some((raw, wild)) => {
                let dom = trim_class(lower_text(raw), CharClass::DotOrStar);
                if dom.len() == 0 || is_local_name(dom) || !valid_domain(dom) {
                    None
                } else {
                    Some((if wild { seq!['.'] + dom } else { dom }, wild))
                }
            },
        }
    }
}

pub fn list_format_of(format: &str) -> (f: ListFormat)
    ensures
        f == list_format(format@),
{
    if str_eq(format, "hosts") {
        ListFormat::Hosts
    } else if str_eq(format, "domains") {
        ListFormat::Domains
    } else if str_eq(format, "adblock") {
        ListFormat::Adblock
    } else {
        ListFormat::Other
    }
}

fn contains_char(v: &Vec<char>, from: usize, to: usize, c: char) -> (r: bool)
    requires
        from <= to <= v@.len(),
    ensures
        r == v@.subrange(from as int, to as int).contains(c),
{
    let mut i = from;
    while i < to
        invariant
            from <= i <= to,
            to <= v@.len(),
            forall|t: int| from <= t < i ==> v@[t] != c,
        decreases to - i,
    {
        if v[i] == c {
            assert(v@.subrange(from as int, to as int)[i - from] == c);
            return true;
        }
        i = i + 1;
    }
    proof {
        if v@.subrange(from as int, to as int).contains(c) {
            let t = choose|t: int| 0 <= t < to - from && v@.subrange(from as int, to as int)[t] == c;
            assert(v@[from + t] == c);
        }
    }
    false
}

/// Bounds of the domain text of a trimmed line `v[a..b]` and whether it is a wildcard,
/// or `None` when the format rules skip the line.
fn raw_domain_bounds(v: &Vec<char>, a: usize, b: usize, fmt: &ListFormat) -> (r: Option<(usize, usize, bool)>)
    requires
        a <= b <= v@.len(),
    ensures
        match r {
            None => raw_domain(v@.subrange(a as int, b as int), *fmt) is None,
            Some((ra, rb, w)) => ra <= rb <= v@.len() && raw_domain(v@.subrange(a as int, b as int), *fmt) == Some((v@.subrange(ra as int, rb as int), w)),
        },
{
    let ghost t = v@.subrange(a as int, b as int);
    match fmt {
        ListFormat::Hosts => {
            let w = scan_forward(v, a, b, &CharClass::NotSpace);
            assert(t.take(lead_len(t, CharClass::NotSpace) as int) =~= v@.subrange(a as int, w as int));
            let ghost r = t.skip(lead_len(t, CharClass::NotSpace) as int);
            assert(r =~= v@.subrange(w as int, b as int));
            if !(chars_eq_str(v, a, w, "0.0.0.0") || chars_eq_str(v, a, w, "127.0.0.1")) {
                return None;
            }
            let s2 = scan_forward(v, w, b, &CharClass::Space);
            let ghost r2 = r.skip(lead_len(r, CharClass::Space) as int);
            assert(r2 =~= v@.subrange(s2 as int, b as int));
            if s2 == b {
                return None;
            }
            let e2 = scan_forward(v, s2, b, &CharClass::NotSpace);
            let ghost word = r2.take(lead_len(r2, CharClass::NotSpace) as int);
            assert(word =~= v@.subrange(s2 as int, e2 as int));
            let h = scan_forward(v, s2, e2, &CharClass::NotHash);
            assert(word.take(lead_len(word, CharClass::NotHash) as int) =~= v@.subrange(s2 as int, h as int));
            Some((s2, h, false))
        },
        ListFormat::Domains => {
            if b - a >= 2 && v[a] == '*' && v[a + 1] == '.' {
                assert(t.skip(2) =~= v@.subrange(a + 2, b as int));
                Some((a + 2, b, true))
            } else if b - a >= 1 && v[a] == '.' {
                assert(t.skip(1) =~= v@.subrange(a + 1, b as int));
                Some((a + 1, b, true))
            } else {
                Some((a, b, false))
            }
        },
        ListFormat::Adblock => {
            if !(b - a >= 3 && v[a] == '|' && v[a + 1] == '|' && v[b - 1] == '^') {
                assert(t.len() >= 3 ==> t.last() == v@[b - 1]);
                return None;
            }
            let s = a + 2;
            let e = b - 1;
            assert(t.subrange(2, t.len() - 1) =~= v@.subrange(s as int, e as int));
            if contains_char(v, s, e, '$') || contains_char(v, s, e, '/') || contains_char(v, s, e, '*') {
                return None;
            }
            Some((s, e, false))
        },
        ListFormat::Other => Some((a, b, false)),
    }
}

/// The entry one line yields (see `line_entry`).
pub fn parse_line(line: &Vec<char>, fmt: &ListFormat) -> (r: Option<(Vec<char>, bool)>)
    ensures
        match r {
            None => line_entry(line@, *fmt) is None,
            Some((k, w)) => line_entry(line@, *fmt) == Some((k@, w)),
        },
{
    let (a, b) = trim_bounds(line, 0, line.len(), &CharClass::Space);
    assert(line@.subrange(0, line@.len() as int) =~= line@);
    let ghost t = trim(line@);
    if a == b || line[a] == '#' || line[a] == '!' {
        assert(a < b ==> t[0] == line@[a as int]);
        return None;
    }
    assert(t[0] == line@[a as int]);
    let (ra, rb, wild) = match raw_domain_bounds(line, a, b, fmt) {
        Some(x) => x,
        None => {
            return None;
        },
    };
    let raw = chars_to_string(line, ra, rb);
    let lowered = to_lowercase(raw.as_str());
    let lv = str_chars(lowered.as_str());
    let (da, db) = trim_bounds(&lv, 0, lv.len(), &CharClass::DotOrStar);
    assert(lv@.subrange(0, lv@.len() as int) =~= lv@);
    let ghost dom = trim_class(lower_text(line@.subrange(ra as int, rb as int)), CharClass::DotOrStar);
    assert(lv@.subrange(da as int, db as int) == dom);
    if da == db || chars_eq_str(&lv, da, db, "localhost") || chars_eq_str(&lv, da, db, "localhost.localdomain")
        || chars_eq_str(&lv, da, db, "local") || chars_eq_str(&lv, da, db, "broadcasthost") {
        return None;
    }
    if !is_valid_domain(&lv, da, db) {
        return None;
    }
    let mut key: Vec<char> = Vec::new();
    if wild {
        key.push('.');
    }
    let mut i = da;
    while i < db
        invariant
            da <= i <= db,
            db <= lv@.len(),
            key@ == (if wild { seq!['.'] } else { Seq::<char>::empty() }) + lv@.subrange(da as int, i as int),
        decreases db - i,
    {
        key.push(lv[i]);
        i = i + 1;
        assert(key@ =~= (if wild { seq!['.'] } else { Seq::<char>::empty() }) + lv@.subrange(da as int, i as int));
    }
    assert(key@ =~= (if wild { seq!['.'] + dom } else { dom }));
    Some((key, wild))
}

} // verus!

verus! {

/// The entries of a sequence of lines, in order.
pub open spec fn entries_of(lines: Seq<Seq<char>>, fmt: ListFormat) -> Seq<(Seq<char>, bool)>
    decreases lines.len(),
{
    if lines.len() == 0 {
        Seq::empty()
    } else {
        entries_of(lines.drop_last(), fmt) + match line_entry(lines.last(), fmt) {
            Some(e) => seq![e],
            None => Seq::empty(),
        }
    }
}

/// The entries of a whole list: one per accepted line.
pub open spec fn blocklist_entries(content: Seq<char>, format: Seq<char>) -> Seq<(Seq<char>, bool)> {
    entries_of(split_on(content, '\n'), list_format(format))
}

proof fn lemma_entries_of_len(lines: Seq<Seq<char>>, fmt: ListFormat)
    ensures
        entries_of(lines, fmt).len() <= lines.len(),
    decreases lines.len(),
{
    if lines.len() > 0 {
        lemma_entries_of_len(lines.drop_last(), fmt);
    }
}

/// A list yields at most one entry per line, so at most one more entry than it has characters.
pub proof fn lemma_blocklist_entries_len(content: Seq<char>, format: Seq<char>)
    ensures
        blocklist_entries(content, format).len() <= content.len() + 1,
{
    lemma_split_on_len(content, '\n');
    lemma_entries_of_len(split_on(content, '\n'), list_format(format));
}

proof fn lemma_entries_of_concat(x: Seq<Seq<char>>, y: Seq<Seq<char>>, fmt: ListFormat)
    ensures
        entries_of(x + y, fmt) == entries_of(x, fmt) + entries_of(y, fmt),
    decreases y.len(),
{
    if y.len() == 0 {
        assert(x + y =~= x);
        assert(entries_of(x, fmt) + entries_of(y, fmt) =~= entries_of(x, fmt));
    } else {
        lemma_entries_of_concat(x, y.drop_last(), fmt);
        assert((x + y).drop_last() =~= x + y.drop_last());
        assert((x + y).last() == y.last());
        let tail: Seq<(Seq<char>, bool)> = match line_entry(y.last(), fmt) {
            Some(e) => seq![e],
            None => Seq::empty(),
        };
        assert(entries_of(x, fmt) + entries_of(y.drop_last(), fmt) + tail =~= entries_of(x, fmt) + (entries_of(y.drop_last(), fmt) + tail));
    }
}

/// `m` with `bit` OR-ed into the bitmap of `k` (inserted with `bit` when absent).
pub open spec fn add_key(m: Map<Seq<u8>, u32>, k: Seq<u8>, bit: u32) -> Map<Seq<u8>, u32> {
    m.insert(k, merged(m.get(k), bit))
}

/// The exact and wildcard maps after adding entries `es` under category bitmap `bit`.
pub open spec fn apply_entries(
    exact: Map<Seq<u8>, u32>,
    wild: Map<Seq<u8>, u32>,
    es: Seq<(Seq<char>, bool)>,
    bit: u32,
) -> (Map<Seq<u8>, u32>, Map<Seq<u8>, u32>)
    decreases es.len(),
{
    if es.len() == 0 {
        (exact, wild)
    } else {
        let (e, w) = apply_entries(exact, wild, es.drop_last(), bit);
        let last = es.last();
        if last.1 {
            (e, add_key(w, encode_utf8(last.0), bit))
        } else {
            (add_key(e, encode_utf8(last.0), bit), w)
        }
    }
}

/// How many of `es` are wildcards (`wild`) or exact entries (`!wild`).
pub open spec fn count_kind(es: Seq<(Seq<char>, bool)>, wild: bool) -> nat
    decreases es.len(),
{
    if es.len() == 0 {
        0
    } else {
        count_kind(es.drop_last(), wild) + if es.last().1 == wild { 1nat } else { 0nat }
    }
}

/// The entries of the complete lines among the first `n` characters.
pub open spec fn done_entries(content: Seq<char>, n: int, fmt: ListFormat) -> Seq<(Seq<char>, bool)> {
    entries_of(split_on(content.take(n), '\n').drop_last(), fmt)
}

pub open spec fn is_prefix<A>(a: Seq<A>, b: Seq<A>) -> bool {
    a.len() <= b.len() && b.take(a.len() as int) == a
}

proof fn lemma_split_step_prefix(x: Seq<char>, c: char)
    ensures
        is_prefix(split_on(x, '\n').drop_last(), split_on(x.push(c), '\n').drop_last()),
{
    lemma_split_on_nonempty(x, '\n');
    let p = split_on(x, '\n');
    assert(x.push(c).drop_last() =~= x);
    let q = split_on(x.push(c), '\n');
    if c == '\n' {
        assert(q.drop_last() =~= p);
        assert(p.take(p.drop_last().len() as int) =~= p.drop_last());
    } else {
        assert(q.drop_last() =~= p.drop_last());
        assert(q.drop_last().take(p.drop_last().len() as int) =~= p.drop_last());
    }
}

pub proof fn lemma_split_prefix(s: Seq<char>, t: Seq<char>)
    ensures
        is_prefix(split_on(s, '\n').drop_last(), split_on(s + t, '\n').drop_last()),
    decreases t.len(),
{
    if t.len() == 0 {
        assert(s + t =~= s);
        let a = split_on(s, '\n').drop_last();
        assert(a.take(a.len() as int) =~= a);
    } else {
        lemma_split_prefix(s, t.drop_last());
        assert(s + t =~= (s + t.drop_last()).push(t.last()));
        lemma_split_step_prefix(s + t.drop_last(), t.last());
        let a = split_on(s, '\n').drop_last();
        let b = split_on(s + t.drop_last(), '\n').drop_last();
        let c = split_on(s + t, '\n').drop_last();
        assert(c.take(a.len() as int) =~= c.take(b.len() as int).take(a.len() as int));
    }
}

proof fn lemma_entries_prefix(a: Seq<Seq<char>>, b: Seq<Seq<char>>, fmt: ListFormat)
    requires
        is_prefix(a, b),
    ensures
        is_prefix(entries_of(a, fmt), entries_of(b, fmt)),
    decreases b.len(),
{
    if a.len() == b.len() {
        assert(b.take(a.len() as int) =~= b);
        let e = entries_of(a, fmt);
        assert(e.take(e.len() as int) =~= e);
    } else {
        assert(b.drop_last().take(a.len() as int) =~= b.take(a.len() as int));
        lemma_entries_prefix(a, b.drop_last(), fmt);
        let ea = entries_of(a, fmt);
        let eb = entries_of(b.drop_last(), fmt);
        let ec = entries_of(b, fmt);
        assert(ec.take(eb.len() as int) =~= eb);
        assert(ec.take(ea.len() as int) =~= eb.take(ea.len() as int));
    }
}

} // verus!

verus! {

fn apply_entry(store: &mut DomainStore, key: &Vec<char>, wild: bool, category_index: u8)
    requires
        old(store).wf(),
        category_index < 32,
        old(store).exact_domains.count < usize::MAX,
        old(store).wildcard_suffixes.count < usize::MAX,
    ensures
        final(store).wf(),
        final(store).exact_domains.count <= old(store).exact_domains.count + 1,
        final(store).wildcard_suffixes.count <= old(store).wildcard_suffixes.count + 1,
        (final(store).exact_domains@, final(store).wildcard_suffixes@) == (if wild {
            (old(store).exact_domains@, add_key(old(store).wildcard_suffixes@, encode_utf8(key@), category_bit(category_index)))
        } else {
            (add_key(old(store).exact_domains@, encode_utf8(key@), category_bit(category_index)), old(store).wildcard_suffixes@)
        }),
{
    let s = chars_to_string(key, 0, key.len());
    assert(key@.subrange(0, key@.len() as int) =~= key@);
    let ghost before = *store;
    if wild {
        store.add_wildcard(s.as_str(), category_index);
        assert(before.wildcard_suffixes@.dom().insert(encode_utf8(key@)).len() <= before.wildcard_suffixes@.dom().len() + 1);
    } else {
        store.add_exact(s.as_str(), category_index);
        assert(before.exact_domains@.dom().insert(encode_utf8(key@)).len() <= before.exact_domains@.dom().len() + 1);
    }
}

/// Parses a list in `format` ("hosts", "domains", "adblock"; anything else is read as one
/// domain per line) and adds every accepted line to `store` under `category_index`.
/// Returns how many exact and how many wildcard lines were accepted (repeats count again).
#[verifier::spinoff_prover]
pub fn parse_blocklist(content: &str, format: &str, category_index: u8, store: &mut DomainStore) -> (counts: (usize, usize))
    requires
        old(store).wf(),
        category_index < 32 || blocklist_entries(content@, format@).len() == 0,
        old(store).exact_domains.count + blocklist_entries(content@, format@).len() < usize::MAX,
        old(store).wildcard_suffixes.count + blocklist_entries(content@, format@).len() < usize::MAX,
    ensures
        final(store).wf(),
        (final(store).exact_domains@, final(store).wildcard_suffixes@) == apply_entries(
            old(store).exact_domains@,
            old(store).wildcard_suffixes@,
            blocklist_entries(content@, format@),
            category_bit(category_index),
        ),
        counts.0 == count_kind(blocklist_entries(content@, format@), false),
        counts.1 == count_kind(blocklist_entries(content@, format@), true),
{
    let fmt = list_format_of(format);
    let ghost es_all = blocklist_entries(content@, format@);
    let ghost bit = category_bit(category_index);
    let ghost e0 = old(store).exact_domains@;
    let ghost w0 = old(store).wildcard_suffixes@;
    let ghost c0 = old(store).exact_domains.count;
    let ghost d0 = old(store).wildcard_suffixes.count;
    let mut exact_count: usize = 0;
    let mut wildcard_count: usize = 0;
    let mut line: Vec<char> = Vec::new();
    proof {
        assert(content@.take(0) =~= Seq::<char>::empty());
        let ps0 = split_on(content@.take(0), '\n');
        assert(ps0.drop_last() =~= Seq::<Seq<char>>::empty());
        assert(entries_of(ps0.drop_last(), fmt) =~= Seq::<(Seq<char>, bool)>::empty());
        assert(es_all.take(0) =~= Seq::<(Seq<char>, bool)>::empty());
    }
    for c in it: content.chars()
        invariant
            it.seq() == content@,
            fmt == list_format(format@),
            es_all == blocklist_entries(content@, format@),
            bit == category_bit(category_index),
            category_index < 32 || es_all.len() == 0,
            c0 + es_all.len() < usize::MAX,
            d0 + es_all.len() < usize::MAX,
            line@ == split_on(content@.take(it.index() as int), '\n').last(),
            store.wf(),
            (store.exact_domains@, store.wildcard_suffixes@) == apply_entries(e0, w0, done_entries(content@, it.index() as int, fmt), bit),
            exact_count == count_kind(done_entries(content@, it.index() as int, fmt), false),
            wildcard_count == count_kind(done_entries(content@, it.index() as int, fmt), true),
            is_prefix(done_entries(content@, it.index() as int, fmt), es_all),
            store.exact_domains.count <= c0 + done_entries(content@, it.index() as int, fmt).len(),
            store.wildcard_suffixes.count <= d0 + done_entries(content@, it.index() as int, fmt).len(),
            exact_count <= done_entries(content@, it.index() as int, fmt).len(),
            wildcard_count <= done_entries(content@, it.index() as int, fmt).len(),
    {
        let ghost i = it.index();
        let ghost consumed = content@.take(i as int);
        let ghost ps = split_on(consumed, '\n');
        let ghost done = entries_of(ps.drop_last(), fmt);
        let ghost consumed2 = content@.take(i + 1);
        proof {
            lemma_split_on_nonempty(consumed, '\n');
            assert(consumed2 =~= consumed.push(c));
            assert(consumed2.drop_last() =~= consumed);
            assert(content@ =~= consumed2 + content@.skip(i + 1));
            lemma_split_prefix(consumed2, content@.skip(i + 1));
            lemma_split_on_nonempty(content@, '\n');
            let full = split_on(content@, '\n');
            let a = split_on(consumed2, '\n').drop_last();
            assert(is_prefix(a, full.drop_last()));
            assert(full.take(a.len() as int) =~= full.drop_last().take(a.len() as int));
            lemma_entries_prefix(a, full, fmt);
        }
        if c == '\n' {
            let r = parse_line(&line, &fmt);
            proof {
                assert(split_on(consumed2, '\n').drop_last() =~= ps.drop_last().push(line@));
                assert(ps.drop_last().push(line@).drop_last() =~= ps.drop_last());
            }
            let ghost done2 = entries_of(split_on(consumed2, '\n').drop_last(), fmt);
            match r {
                Some((key, wild)) => {
                    assert(done2 == done.push((key@, wild)));
                    assert(done2.drop_last() =~= done);
                    assert(is_prefix(done2, es_all));
                    assert(es_all.len() >= 1);
                    let ghost prev = apply_entries(e0, w0, done, bit);
                    assert(apply_entries(e0, w0, done2, bit) == (if wild {
                        (prev.0, add_key(prev.1, encode_utf8(key@), bit))
                    } else {
                        (add_key(prev.0, encode_utf8(key@), bit), prev.1)
                    }));
                    assert(count_kind(done2, true) == count_kind(done, true) + if wild { 1nat } else { 0nat });
                    assert(count_kind(done2, false) == count_kind(done, false) + if !wild { 1nat } else { 0nat });
                    assert((store.exact_domains@, store.wildcard_suffixes@) == prev);
                    apply_entry(store, &key, wild, category_index);
                    if wild {
                        assert(store.wildcard_suffixes@ == add_key(prev.1, encode_utf8(key@), bit));
                        assert(store.exact_domains@ == prev.0);
                    } else {
                        assert(store.exact_domains@ == add_key(prev.0, encode_utf8(key@), bit));
                        assert(store.wildcard_suffixes@ == prev.1);
                    }
                    assert((store.exact_domains@, store.wildcard_suffixes@) == apply_entries(e0, w0, done2, bit));
                    if wild {
                        wildcard_count = wildcard_count + 1;
                    } else {
                        exact_count = exact_count + 1;
                    }
                },
                None => {
                    assert(done2 =~= done);
                    assert((store.exact_domains@, store.wildcard_suffixes@) == apply_entries(e0, w0, done2, bit));
                },
            }
            line = Vec::new();
            assert(line@ =~= split_on(consumed2, '\n').last());
            assert(done_entries(content@, i + 1, fmt) == done2);
            assert((store.exact_domains@, store.wildcard_suffixes@) == apply_entries(e0, w0, done2, bit));
        } else {
            line.push(c);
            proof {
                assert(split_on(consumed2, '\n').drop_last() =~= ps.drop_last());
                assert(line@ =~= split_on(consumed2, '\n').last());
                assert(done_entries(content@, i + 1, fmt) == done);
                assert((store.exact_domains@, store.wildcard_suffixes@) == apply_entries(e0, w0, done, bit));
            }
        }
    }
    let ghost ps = split_on(content@, '\n');
    proof {
        assert(content@.take(content@.len() as int) =~= content@);
        lemma_split_on_nonempty(content@, '\n');
        assert(ps =~= ps.drop_last().push(line@));
        assert(ps.drop_last().push(line@).drop_last() =~= ps.drop_last());
    }
    let ghost done = entries_of(ps.drop_last(), fmt);
    match parse_line(&line, &fmt) {
        Some((key, wild)) => {
            assert(es_all == done.push((key@, wild)));
            assert(es_all.drop_last() =~= done);
            apply_entry(store, &key, wild, category_index);
            if wild {
                wildcard_count = wildcard_count + 1;
            } else {
                exact_count = exact_count + 1;
            }
        },
        None => {},
    }
    (exact_count, wildcard_count)
}

} // verus!

verus! {

/// The count that a comment line `# Number of entries: N` (or with `!`) declares.
pub open spec fn declared_count(line: Seq<char>) -> Option<nat> {
    let t = trim(line);
    if t.len() > 0 && (t[0] == '#' || t[0] == '!') {
        let body = trim(t.skip(1));
        let key = "Number of entries:"@;
        if body.len() >= key.len() && body.take(key.len() as int) == key {
            let num = trim(body.skip(key.len() as int));
            if num.len() > 0 && (forall|i: int| 0 <= i < num.len() ==> is_digit(#[trigger] num[i])) && digits_value(num) <= usize::MAX {
                Some(digits_value(num))
            } else {
                None
            }
        } else {
            None
        }
    } else {
        None
    }
}

/// The count declared by the first line that declares one.
pub open spec fn first_declared(lines: Seq<Seq<char>>) -> Option<nat>
    decreases lines.len(),
{
    if lines.len() == 0 {
        None
    } else {
        match first_declared(lines.drop_last()) {
            Some(n) => Some(n),
            None => declared_count(lines.last()),
        }
    }
}

/// The decimal value of `v[from..to]` if it is all digits and fits in `usize`.
fn parse_decimal(v: &Vec<char>, from: usize, to: usize) -> (r: Option<usize>)
    requires
        from <= to <= v@.len(),
    ensures
        ({
            let num = v@.subrange(from as int, to as int);
            r == if num.len() > 0 && (forall|i: int| 0 <= i < num.len() ==> is_digit(#[trigger] num[i])) && digits_value(num) <= usize::MAX {
                Some(digits_value(num) as usize)
            } else {
                None
            }
        }),
{
    let ghost num = v@.subrange(from as int, to as int);
    if from == to {
        return None;
    }
    let mut value: usize = 0;
    let mut i = from;
    let mut overflow = false;
    while i < to
        invariant
            from <= i <= to,
            to <= v@.len(),
            num == v@.subrange(from as int, to as int),
            forall|t: int| from <= t < i ==> is_digit(#[trigger] v@[t]),
            !overflow ==> value as nat == digits_value(num.take(i - from)),
            overflow ==> digits_value(num.take(i - from)) > usize::MAX,
        decreases to - i,
    {
        let c = v[i];
        let u = c as u32;
        if !(48 <= u && u <= 57) {
            assert(num[i - from] == c);
            return None;
        }
        proof {
            assert(num.take(i - from + 1).drop_last() =~= num.take(i - from));
            assert(num.take(i - from + 1).last() == c);
        }
        if !overflow {
            match value.checked_mul(10) {
                Some(m) => match m.checked_add((u - 48) as usize) {
                    Some(n) => {
                        value = n;
                    },
                    None => {
                        overflow = true;
                    },
                },
                None => {
                    overflow = true;
                },
            }
        }
        i = i + 1;
    }
    assert(num.take(to - from) =~= num);
    assert forall|t: int| 0 <= t < num.len() implies is_digit(#[trigger] num[t]) by {
        assert(num[t] == v@[from + t]);
    }
    if overflow {
        None
    } else {
        Some(value)
    }
}

/// The count declared by one line (see `declared_count`).
fn line_declared_count(line: &Vec<char>) -> (r: Option<usize>)
    ensures
        r matches Some(n) ==> declared_count(line@) == Some(n as nat),
        r is None ==> declared_count(line@) is None,
{
    let (a, b) = trim_bounds(line, 0, line.len(), &CharClass::Space);
    assert(line@.subrange(0, line@.len() as int) =~= line@);
    let ghost t = trim(line@);
    if a == b || !(line[a] == '#' || line[a] == '!') {
        assert(a < b ==> t[0] == line@[a as int]);
        return None;
    }
    assert(t[0] == line@[a as int]);
    let (c, d) = trim_bounds(line, a + 1, b, &CharClass::Space);
    assert(t.skip(1) =~= line@.subrange(a + 1, b as int));
    let ghost body = trim(t.skip(1));
    let key = str_chars("Number of entries:");
    let klen = key.len();
    if d - c < klen || !chars_eq_str(line, c, c + klen, "Number of entries:") {
        assert(body.len() >= klen ==> body.take(klen as int) =~= line@.subrange(c as int, c + klen));
        return None;
    }
    assert(body.take(klen as int) =~= line@.subrange(c as int, c + klen));
    let (e, f) = trim_bounds(line, c + klen, d, &CharClass::Space);
    assert(body.skip(klen as int) =~= line@.subrange(c + klen, d as int));
    parse_decimal(line, e, f)
}

/// The entry count a list declares in a `Number of entries: N` comment (HaGeZi style),
/// taken from the first line that declares one.
pub fn extract_expected_entry_count(content: &str) -> (r: Option<usize>)
    ensures
        r matches Some(n) ==> first_declared(split_on(content@, '\n')) == Some(n as nat),
        r is None ==> first_declared(split_on(content@, '\n')) is None,
{
    let mut line: Vec<char> = Vec::new();
    proof {
        assert(content@.take(0) =~= Seq::<char>::empty());
        assert(split_on(content@.take(0), '\n').drop_last() =~= Seq::<Seq<char>>::empty());
    }
    for c in it: content.chars()
        invariant
            it.seq() == content@,
            line@ == split_on(content@.take(it.index() as int), '\n').last(),
            first_declared(split_on(content@.take(it.index() as int), '\n').drop_last()) is None,
    {
        let ghost i = it.index();
        let ghost consumed = content@.take(i as int);
        let ghost ps = split_on(consumed, '\n');
        let ghost consumed2 = content@.take(i + 1);
        proof {
            lemma_split_on_nonempty(consumed, '\n');
            assert(consumed2 =~= consumed.push(c));
            assert(consumed2.drop_last() =~= consumed);
        }
        if c == '\n' {
            let r = line_declared_count(&line);
            proof {
                assert(split_on(consumed2, '\n').drop_last() =~= ps.drop_last().push(line@));
                assert(ps.drop_last().push(line@).drop_last() =~= ps.drop_last());
                lemma_first_declared_extends(consumed2, content@.skip(i + 1));
                assert(content@ =~= consumed2 + content@.skip(i + 1));
            }
            if r.is_some() {
                return r;
            }
            line = Vec::new();
            assert(line@ =~= split_on(consumed2, '\n').last());
        } else {
            line.push(c);
            proof {
                assert(split_on(consumed2, '\n').drop_last() =~= ps.drop_last());
                assert(line@ =~= split_on(consumed2, '\n').last());
            }
        }
    }
    proof {
        assert(content@.take(content@.len() as int) =~= content@);
        let ps = split_on(content@, '\n');
        lemma_split_on_nonempty(content@, '\n');
        assert(ps =~= ps.drop_last().push(line@));
        assert(ps.drop_last().push(line@).drop_last() =~= ps.drop_last());
    }
    line_declared_count(&line)
}

proof fn lemma_first_declared_prefix(a: Seq<Seq<char>>, b: Seq<Seq<char>>)
    requires
        is_prefix(a, b),
        first_declared(a) is Some,
    ensures
        first_declared(b) == first_declared(a),
    decreases b.len(),
{
    if a.len() == b.len() {
        assert(b.take(a.len() as int) =~= b);
    } else {
        assert(b.drop_last().take(a.len() as int) =~= b.take(a.len() as int));
        lemma_first_declared_prefix(a, b.drop_last());
    }
}

proof fn lemma_first_declared_extends(s: Seq<char>, t: Seq<char>)
    ensures
        first_declared(split_on(s, '\n').drop_last()) is Some ==> first_declared(split_on(s + t, '\n'))
            == first_declared(split_on(s, '\n').drop_last()),
{
    if first_declared(split_on(s, '\n').drop_last()) is Some {
        lemma_split_prefix(s, t);
        lemma_split_on_nonempty(s + t, '\n');
        let a = split_on(s, '\n').drop_last();
        let full = split_on(s + t, '\n');
        assert(full.take(a.len() as int) =~= full.drop_last().take(a.len() as int));
        lemma_first_declared_prefix(a, full);
    }
}

} // verus!

verus! {

/// Whether some entry of `es` of the given kind has UTF-8 key `k`.
pub open spec fn touched(es: Seq<(Seq<char>, bool)>, k: Seq<u8>, wild: bool) -> bool {
    exists|i: int| 0 <= i < es.len() && es[i].1 == wild && #[trigger] encode_utf8(es[i].0) == k
}

/// `m` with `bit` OR-ed into every key that an entry of `es` of the given kind names.
pub open spec fn with_bit(m: Map<Seq<u8>, u32>, es: Seq<(Seq<char>, bool)>, wild: bool, bit: u32) -> Map<Seq<u8>, u32> {
    Map::new(
        |k: Seq<u8>| m.contains_key(k) || touched(es, k, wild),
        |k: Seq<u8>| if touched(es, k, wild) { merged(m.get(k), bit) } else { m[k] },
    )
}

/// Adding a list's entries to the store ORs the category bit into the bitmap of every domain
/// the list names, and changes nothing else: neither the order of the lines nor repeated
/// lines matter.
pub proof fn lemma_apply_entries_closed_form(exact: Map<Seq<u8>, u32>, wild: Map<Seq<u8>, u32>, es: Seq<(Seq<char>, bool)>, bit: u32)
    ensures
        apply_entries(exact, wild, es, bit) == (with_bit(exact, es, false, bit), with_bit(wild, es, true, bit)),
    decreases es.len(),
{
    if es.len() == 0 {
        assert(with_bit(exact, es, false, bit) =~= exact);
        assert(with_bit(wild, es, true, bit) =~= wild);
    } else {
        let p = es.drop_last();
        let last = es.last();
        lemma_apply_entries_closed_form(exact, wild, p, bit);
        let k0 = encode_utf8(last.0);
        assert forall|k: Seq<u8>, w: bool| #[trigger] touched(es, k, w) <==> touched(p, k, w) || (last.1 == w && k == k0) by {
            if touched(es, k, w) {
                let i = choose|i: int| 0 <= i < es.len() && es[i].1 == w && #[trigger] encode_utf8(es[i].0) == k;
                if i < es.len() - 1 {
                    assert(p[i] == es[i]);
                }
            }
            if touched(p, k, w) {
                let i = choose|i: int| 0 <= i < p.len() && p[i].1 == w && #[trigger] encode_utf8(p[i].0) == k;
                assert(es[i] == p[i]);
            }
            if last.1 == w && k == k0 {
                assert(es[es.len() - 1] == last);
            }
        }
        lemma_or_idempotent(bit);
        if last.1 {
            let lhs = add_key(with_bit(wild, p, true, bit), k0, bit);
            let rhs = with_bit(wild, es, true, bit);
            assert forall|k: Seq<u8>| lhs.contains_key(k) implies #[trigger] lhs[k] == rhs[k] by {
                if k == k0 && wild.contains_key(k) {
                    assert(merged(Some(wild[k]), bit) == wild[k] | bit);
                }
            }
            assert(lhs =~= rhs);
            assert(with_bit(exact, p, false, bit) =~= with_bit(exact, es, false, bit));
        } else {
            let lhs = add_key(with_bit(exact, p, false, bit), k0, bit);
            let rhs = with_bit(exact, es, false, bit);
            assert forall|k: Seq<u8>| lhs.contains_key(k) implies #[trigger] lhs[k] == rhs[k] by {
                if k == k0 && exact.contains_key(k) {
                    assert(merged(Some(exact[k]), bit) == exact[k] | bit);
                }
            }
            assert(lhs =~= rhs);
            assert(with_bit(wild, p, true, bit) =~= with_bit(wild, es, true, bit));
        }
    }
}

proof fn lemma_or_idempotent(bit: u32)
    ensures
        forall|v: u32| #![trigger v | bit] ((v | bit) | bit) == (v | bit),
        (bit | bit) == bit,
{
    assert forall|v: u32| #![trigger v | bit] ((v | bit) | bit) == (v | bit) by {
        assert(((v | bit) | bit) == (v | bit)) by (bit_vector);
    }
    assert((bit | bit) == bit) by (bit_vector);
}

/// Adding the same list twice leaves the store as adding it once.
pub proof fn lemma_apply_entries_idempotent(exact: Map<Seq<u8>, u32>, wild: Map<Seq<u8>, u32>, es: Seq<(Seq<char>, bool)>, bit: u32)
    ensures
        ({
            let once = apply_entries(exact, wild, es, bit);
            apply_entries(once.0, once.1, es, bit) == once
        }),
{
    lemma_apply_entries_closed_form(exact, wild, es, bit);
    let once = apply_entries(exact, wild, es, bit);
    lemma_apply_entries_closed_form(once.0, once.1, es, bit);
    lemma_or_idempotent(bit);
    assert forall|k: Seq<u8>| once.0.contains_key(k) implies #[trigger] with_bit(once.0, es, false, bit)[k] == once.0[k] by {
        if touched(es, k, false) && exact.contains_key(k) {
            assert(merged(Some(exact[k]), bit) == exact[k] | bit);
        }
    }
    assert forall|k: Seq<u8>| once.1.contains_key(k) implies #[trigger] with_bit(once.1, es, true, bit)[k] == once.1[k] by {
        if touched(es, k, true) && wild.contains_key(k) {
            assert(merged(Some(wild[k]), bit) == wild[k] | bit);
        }
    }
    assert(with_bit(once.0, es, false, bit) =~= once.0);
    assert(with_bit(once.1, es, true, bit) =~= once.1);
}

} // verus!

verus! {

proof fn lemma_apply_entries_concat(exact: Map<Seq<u8>, u32>, wild: Map<Seq<u8>, u32>, e1: Seq<(Seq<char>, bool)>, e2: Seq<(Seq<char>, bool)>, bit: u32)
    ensures
        apply_entries(exact, wild, e1 + e2, bit) == apply_entries(
            apply_entries(exact, wild, e1, bit).0,
            apply_entries(exact, wild, e1, bit).1,
            e2,
            bit,
        ),
    decreases e2.len(),
{
    if e2.len() == 0 {
        assert(e1 + e2 =~= e1);
    } else {
        lemma_apply_entries_concat(exact, wild, e1, e2.drop_last(), bit);
        assert((e1 + e2).drop_last() =~= e1 + e2.drop_last());
        assert((e1 + e2).last() == e2.last());
    }
}

proof fn lemma_count_kind_concat(e1: Seq<(Seq<char>, bool)>, e2: Seq<(Seq<char>, bool)>, wild: bool)
    ensures
        count_kind(e1 + e2, wild) == count_kind(e1, wild) + count_kind(e2, wild),
    decreases e2.len(),
{
    if e2.len() == 0 {
        assert(e1 + e2 =~= e1);
    } else {
        lemma_count_kind_concat(e1, e2.drop_last(), wild);
        assert((e1 + e2).drop_last() =~= e1 + e2.drop_last());
        assert((e1 + e2).last() == e2.last());
    }
}

/// Parsing two lists joined by a line break is parsing the first, then the second: the
/// entries are those of the first followed by those of the second, the store ends the same,
/// and the exact and wildcard counts add up.
pub proof fn lemma_parse_joined(a: Seq<char>, b: Seq<char>, format: Seq<char>, exact: Map<Seq<u8>, u32>, wild: Map<Seq<u8>, u32>, bit: u32)
    ensures
        blocklist_entries(a + seq!['\n'] + b, format) == blocklist_entries(a, format) + blocklist_entries(b, format),
        apply_entries(exact, wild, blocklist_entries(a + seq!['\n'] + b, format), bit) == apply_entries(
            apply_entries(exact, wild, blocklist_entries(a, format), bit).0,
            apply_entries(exact, wild, blocklist_entries(a, format), bit).1,
            blocklist_entries(b, format),
            bit,
        ),
        forall|w: bool| #[trigger] count_kind(blocklist_entries(a + seq!['\n'] + b, format), w)
            == count_kind(blocklist_entries(a, format), w) + count_kind(blocklist_entries(b, format), w),
{
    let fmt = list_format(format);
    lemma_split_on_join(a, b, '\n');
    lemma_entries_of_concat(split_on(a, '\n'), split_on(b, '\n'), fmt);
    let ea = blocklist_entries(a, format);
    let eb = blocklist_entries(b, format);
    lemma_apply_entries_concat(exact, wild, ea, eb, bit);
    assert forall|w: bool| #[trigger] count_kind(blocklist_entries(a + seq!['\n'] + b, format), w)
        == count_kind(ea, w) + count_kind(eb, w) by {
        lemma_count_kind_concat(ea, eb, w);
    }
}

} // verus!

verus! {

/// A character of a plain lower-case domain name: an ASCII lower-case letter, an ASCII
/// digit, `-`, `_` or a dot.
pub open spec fn plain_domain_char(c: char) -> bool {
    ('a' <= c && c <= 'z') || ('0' <= c && c <= '9') || c == '-' || c == '_' || c == '.'
}

proof fn lemma_plain_domain_char(c: char)
    requires
        plain_domain_char(c),
    ensures
        c == '.' || is_label_char(c),
        c != '.' ==> is_label_char(c),
        !is_space(c),
        c != '*' && c != '#' && c != '!' && c != '\n',
        '\0' <= c <= '\u{7f}',
        ascii_lower_char(c) == c,
{
}

/// The conditions on a plain domain name: a lower-case name of 3 to 253 characters made of
/// ASCII letters, digits, `-`, `_` and dots, with a dot, no empty label (no dot at either end,
/// no two dots in a row), that is neither an IPv4 address nor a local name.
pub open spec fn plain_domain(d: Seq<char>) -> bool {
    &&& 3 <= d.len() <= 253
    &&& d.contains('.')
    &&& !ipv4_like(d)
    &&& !is_local_name(d)
    &&& (forall|i: int| 0 <= i < d.len() ==> plain_domain_char(#[trigger] d[i]))
    &&& d[0] != '.'
    &&& d.last() != '.'
    &&& (forall|j: int| 0 <= j < d.len() - 1 ==> !(#[trigger] d[j] == '.' && d[j + 1] == '.'))
}

/// What the parser needs of a plain domain name.
proof fn lemma_plain_domain(d: Seq<char>)
    requires
        plain_domain(d),
    ensures
        valid_domain(d),
        lower_text(d) == d,
        trim_class(d, CharClass::DotOrStar) == d,
        trim(d) == d,
        forall|i: int| 0 <= i < d.len() ==> {
            &&& !is_space(#[trigger] d[i])
            &&& d[i] != '*' && d[i] != '#' && d[i] != '!' && d[i] != '\n' && d[i] != '$' && d[i] != '/'
        },
        !d.contains('\n'),
        !d.contains('$') && !d.contains('/') && !d.contains('*'),
{
    assert forall|i: int| 0 <= i < d.len() implies {
        &&& (d[i] != '.' ==> is_label_char(#[trigger] d[i]))
        &&& !is_space(d[i])
        &&& d[i] != '*' && d[i] != '#' && d[i] != '!' && d[i] != '\n' && d[i] != '$' && d[i] != '/'
        &&& '\0' <= d[i] <= '\u{7f}'
        &&& ascii_lower_char(d[i]) == d[i]
    } by {
        lemma_plain_domain_char(d[i]);
    }
    assert(d[d.len() - 1] == d.last());
    lemma_split_on_nonempty_pieces(d, '.');
    lemma_split_on_chars(d, '.', |c: char| plain_domain_char(c));
    lemma_split_on_pieces(d, '.');
    let ps = split_on(d, '.');
    assert forall|i: int| 0 <= i < ps.len() implies valid_label(#[trigger] ps[i]) by {
        assert forall|j: int| 0 <= j < ps[i].len() implies is_label_char(#[trigger] ps[i][j]) by {
            assert(plain_domain_char(ps[i][j]));
            lemma_plain_domain_char(ps[i][j]);
            if ps[i][j] == '.' {
                assert(ps[i].contains('.'));
            }
        }
    }
    assert(d.skip(0) =~= d);
    assert(d.take(d.len() - 0) =~= d);
    lemma_lead_len(d, CharClass::Space, 0);
    lemma_trail_len(d, CharClass::Space, 0);
    assert(is_ascii_chars(d));
    assert(ascii_lower(d) =~= d);
    lemma_lead_len(d, CharClass::DotOrStar, 0);
    lemma_trail_len(d, CharClass::DotOrStar, 0);
}

/// The format names select their formats.
proof fn lemma_format_names()
    ensures
        list_format("hosts"@) == ListFormat::Hosts,
        list_format("domains"@) == ListFormat::Domains,
        list_format("adblock"@) == ListFormat::Adblock,
{
    reveal_strlit("hosts");
    reveal_strlit("domains");
    reveal_strlit("adblock");
    assert("domains"@.len() == 7 && "hosts"@.len() == 5 && "adblock"@.len() == 7);
    assert("domains"@ != "hosts"@);
    assert("adblock"@ != "hosts"@);
    assert("adblock"@[0] != "domains"@[0]);
}

/// A list of a single line yields that line's entry, if any.
proof fn lemma_single_line(line: Seq<char>, format: Seq<char>)
    requires
        !line.contains('\n'),
    ensures
        blocklist_entries(line, format) == (match line_entry(line, list_format(format)) {
            Some(e) => seq![e],
            None => Seq::<(Seq<char>, bool)>::empty(),
        }),
{
    lemma_split_on_single(line, '\n');
    let one = seq![line];
    assert(one.drop_last() =~= Seq::<Seq<char>>::empty());
    assert(entries_of(one.drop_last(), list_format(format)) =~= Seq::<(Seq<char>, bool)>::empty());
    assert(one.last() == line);
}

/// A line that is a plain domain name (see `plain_domain`) is kept as it is: the name is a
/// valid domain, and a list holding just that line in `domains` format yields exactly that
/// exact domain; in particular labels may hold digits.
pub proof fn lemma_plain_domain_line(d: Seq<char>)
    requires
        plain_domain(d),
    ensures
        valid_domain(d),
        line_entry(d, ListFormat::Domains) == Some((d, false)),
        blocklist_entries(d, "domains"@) == seq![(d, false)],
{
    lemma_plain_domain(d);
    assert(raw_domain(d, ListFormat::Domains) == Some((d, false)));
    lemma_format_names();
    lemma_single_line(d, "domains"@);
}

/// In `domains` format, `*.` or `.` before a plain domain name makes it a wildcard suffix:
/// the list yields exactly the suffix `.` followed by the name.
pub proof fn lemma_wildcard_domain_line(d: Seq<char>)
    requires
        plain_domain(d),
    ensures
        blocklist_entries("*."@ + d, "domains"@) == seq![(seq!['.'] + d, true)],
        blocklist_entries("."@ + d, "domains"@) == seq![(seq!['.'] + d, true)],
{
    lemma_plain_domain(d);
    lemma_format_names();
    reveal_strlit("*.");
    reveal_strlit(".");
    let a = "*."@ + d;
    let b = "."@ + d;
    assert(a[0] == '*' && a[1] == '.' && a.last() == d.last());
    assert(b[0] == '.' && b.last() == d.last());
    assert(!a.contains('\n')) by {
        if a.contains('\n') {
            let k = choose|k: int| 0 <= k < a.len() && a[k] == '\n';
            assert(a[k] == d[k - 2]);
        }
    }
    assert(!b.contains('\n')) by {
        if b.contains('\n') {
            let k = choose|k: int| 0 <= k < b.len() && b[k] == '\n';
            assert(b[k] == d[k - 1]);
        }
    }
    assert(a.skip(0) =~= a && a.take(a.len() - 0) =~= a);
    assert(b.skip(0) =~= b && b.take(b.len() - 0) =~= b);
    lemma_lead_len(a, CharClass::Space, 0);
    lemma_trail_len(a, CharClass::Space, 0);
    lemma_lead_len(b, CharClass::Space, 0);
    lemma_trail_len(b, CharClass::Space, 0);
    assert(trim(a) == a && trim(b) == b);
    assert(a.skip(2) =~= d);
    assert(b.skip(1) =~= d);
    assert(raw_domain(a, ListFormat::Domains) == Some((d, true)));
    assert(raw_domain(b, ListFormat::Domains) == Some((d, true)));
    lemma_single_line(a, "domains"@);
    lemma_single_line(b, "domains"@);
}

/// In `adblock` format, `||` and `^` around a plain domain name block that domain: the list
/// yields exactly that exact domain.
pub proof fn lemma_adblock_domain_line(d: Seq<char>)
    requires
        plain_domain(d),
    ensures
        blocklist_entries("||"@ + d + "^"@, "adblock"@) == seq![(d, false)],
{
    lemma_plain_domain(d);
    lemma_format_names();
    reveal_strlit("||");
    reveal_strlit("^");
    let a = "||"@ + d + "^"@;
    assert(a[0] == '|' && a[1] == '|' && a.last() == '^' && a.len() == d.len() + 3);
    assert(!a.contains('\n')) by {
        if a.contains('\n') {
            let k = choose|k: int| 0 <= k < a.len() && a[k] == '\n';
            assert(a[k] == d[k - 2]);
        }
    }
    assert(a.skip(0) =~= a && a.take(a.len() - 0) =~= a);
    lemma_lead_len(a, CharClass::Space, 0);
    lemma_trail_len(a, CharClass::Space, 0);
    assert(trim(a) == a);
    assert(a.subrange(2, a.len() - 1) =~= d);
    assert(raw_domain(a, ListFormat::Adblock) == Some((d, false)));
    lemma_single_line(a, "adblock"@);
}

/// In `adblock` format, a line without the `||` prefix yields nothing.
pub proof fn lemma_adblock_needs_prefix(line: Seq<char>)
    requires
        !line.contains('\n'),
        trim(line).len() > 0 && trim(line)[0] != '|',
    ensures
        blocklist_entries(line, "adblock"@) == Seq::<(Seq<char>, bool)>::empty(),
{
    lemma_format_names();
    lemma_single_line(line, "adblock"@);
    assert(line_entry(line, ListFormat::Adblock) is None);
}

/// In `hosts` format, a line mapping `0.0.0.0` or `127.0.0.1` to a plain domain name blocks
/// that domain: the list yields exactly that exact domain.
pub proof fn lemma_hosts_domain_line(ip: Seq<char>, d: Seq<char>)
    requires
        plain_domain(d),
        ip == "0.0.0.0"@ || ip == "127.0.0.1"@,
    ensures
        blocklist_entries(ip + " "@ + d, "hosts"@) == seq![(d, false)],
{
    lemma_plain_domain(d);
    lemma_format_names();
    reveal_strlit("0.0.0.0");
    reveal_strlit("127.0.0.1");
    reveal_strlit(" ");
    let a = ip + " "@ + d;
    let n = ip.len() as int;
    assert(forall|i: int| 0 <= i < n ==> !is_space(#[trigger] ip[i]));
    assert(forall|i: int| 0 <= i < n ==> a[i] == ip[i]);
    assert(a[n] == ' ' && is_space(a[n]));
    assert(a.last() == d.last());
    assert(!a.contains('\n')) by {
        if a.contains('\n') {
            let k = choose|k: int| 0 <= k < a.len() && a[k] == '\n';
            if k > n {
                assert(a[k] == d[k - n - 1]);
            } else if k < n {
                assert(a[k] == ip[k]);
            }
        }
    }
    assert(a.skip(0) =~= a && a.take(a.len() - 0) =~= a);
    assert(!is_space(a[0])) by {
        assert(a[0] == ip[0]);
    }
    lemma_lead_len(a, CharClass::Space, 0);
    lemma_trail_len(a, CharClass::Space, 0);
    assert(trim(a) == a);
    assert forall|i: int| 0 <= i < n implies in_class(#[trigger] a[i], CharClass::NotSpace) by {
        assert(a[i] == ip[i]);
    }
    lemma_lead_len(a, CharClass::NotSpace, n);
    assert(a.take(n) =~= ip);
    let r = a.skip(n);
    assert(r =~= " "@ + d);
    lemma_lead_len(r, CharClass::Space, 1);
    assert(r.skip(1) =~= d);
    assert forall|i: int| 0 <= i < d.len() implies in_class(#[trigger] d[i], CharClass::NotSpace) by {}
    lemma_lead_len(d, CharClass::NotSpace, d.len() as int);
    assert(d.take(d.len() as int) =~= d);
    assert forall|i: int| 0 <= i < d.len() implies in_class(#[trigger] d[i], CharClass::NotHash) by {}
    lemma_lead_len(d, CharClass::NotHash, d.len() as int);
    assert(raw_domain(a, ListFormat::Hosts) == Some((d, false)));
    lemma_single_line(a, "hosts"@);
}

} // verus!

verus! {

/// Category index `i` is bit `i` of a bitmap: its bit is the number 2^i, a bitmap has bit `b`
/// when the `b`-th binary digit of its value is 1, and the bit of index `i` holds bit `b`
/// exactly when `b == i`.
pub proof fn lemma_category_bits(index: u8, bitmap: u32, bit: u32)
    requires
        index < 32,
        bit < 32,
    ensures
        category_bit(index) == pow2(index as nat),
        has_bit(bitmap, bit as int) <==> (bitmap as nat / pow2(bit as nat)) % 2 == 1,
        has_bit(category_bit(index), bit as int) <==> index as u32 == bit,
{
    let i = index as u32;
    lemma2_to64();
    if i < 31 {
        lemma_pow2_strictly_increases(i as nat, 31);
    }
    lemma_u32_shl_is_mul(1u32, i);
    assert((bitmap & (1u32 << bit) != 0) <==> ((bitmap >> bit) & 1u32 == 1u32)) by (bit_vector)
        requires
            bit < 32,
    ;
    lemma_u32_shr_is_div(bitmap, bit);
    let q = bitmap >> bit;
    assert((q & 1u32 == 1u32) <==> (q % 2 == 1)) by (bit_vector);
    assert(((1u32 << i) & (1u32 << bit) != 0) <==> i == bit) by (bit_vector)
        requires
            i < 32,
            bit < 32,
    ;
}

} // verus!

verus! {

/// A character that may stand in a domain: an ASCII letter, an ASCII digit, `-`, `_` or a dot.
pub open spec fn domain_char(c: char) -> bool {
    ('a' <= c && c <= 'z') || ('A' <= c && c <= 'Z') || ('0' <= c && c <= '9') || c == '-' || c == '_' || c == '.'
}

proof fn lemma_label_char_is_domain_char(c: char)
    requires
        is_label_char(c),
    ensures
        domain_char(c),
{
}

/// What every accepted domain is like: 3 to 253 characters, with a dot, not an IPv4 address,
/// and made only of ASCII letters, digits, `-`, `_` and dots.
pub proof fn lemma_valid_domain_shape(d: Seq<char>)
    requires
        valid_domain(d),
    ensures
        3 <= d.len() <= 253,
        d.contains('.'),
        !ipv4_like(d),
        forall|k: int| 0 <= k < d.len() ==> domain_char(#[trigger] d[k]),
{
    let ps = split_on(d, '.');
    assert forall|i: int, j: int| 0 <= i < ps.len() && 0 <= j < ps[i].len() implies domain_char(#[trigger] ps[i][j]) by {
        assert(valid_label(ps[i]));
        assert(is_label_char(ps[i][j]));
        lemma_label_char_is_domain_char(ps[i][j]);
    }
    lemma_split_on_chars_back(d, '.', |c: char| domain_char(c));
}

} // verus!

verus! {

/// Storing a bitmap under a key keeps the bits already there and adds the new ones: the merged
/// bitmap has a bit exactly when the old bitmap (none when the key was absent) or the new one
/// has it.
pub proof fn lemma_merged_bits(old: Option<u32>, bitmap: u32, bit: u32)
    requires
        bit < 32,
    ensures
        has_bit(merged(old, bitmap), bit as int) <==> ((old matches Some(a) && has_bit(a, bit as int)) || has_bit(bitmap, bit as int)),
{
    assert(bit as int as u32 == bit);
    if let Some(a) = old {
        assert(((a | bitmap) & (1u32 << bit) != 0) <==> (a & (1u32 << bit) != 0 || bitmap & (1u32 << bit) != 0)) by (bit_vector)
            requires
                bit < 32,
        ;
    }
}

} // verus!

verus! {

/// What every entry a line yields is: an exact entry is a valid domain other than
/// `localhost`, `localhost.localdomain`, `local` and `broadcasthost`; a wildcard entry is a
/// dot followed by such a domain.
pub proof fn lemma_line_entry_keys(line: Seq<char>, fmt: ListFormat)
    ensures
        line_entry(line, fmt) matches Some((k, w)) ==> {
            let dom = if w { k.drop_first() } else { k };
            &&& (w ==> k.len() > 0 && k[0] == '.')
            &&& valid_domain(dom)
            &&& dom != "localhost"@ && dom != "localhost.localdomain"@ && dom != "local"@ && dom != "broadcasthost"@
        },
{
    if let Some((k, w)) = line_entry(line, fmt) {
        let t = trim(line);
        let (raw, wild) = raw_domain(t, fmt).unwrap();
        let dom = trim_class(lower_text(raw), CharClass::DotOrStar);
        assert(w == wild);
        if w {
            assert(k == seq!['.'] + dom);
            assert(k.drop_first() =~= dom);
        }
    }
}

} // verus!

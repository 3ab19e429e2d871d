use vstd::prelude::*;
use vstd::utf8::is_ascii_chars;

verus! {

/// Appends one character to a string (std `String::push`).
/// Trusted: the result is the old contents followed by `c`.
#[verifier::external_body]
pub(crate) fn push_char(s: &mut String, c: char)
    ensures
        final(s)@ == old(s)@.push(c),
{
    s.push(c);
}

/// The characters of `s`, in order.
pub fn str_chars(s: &str) -> (v: Vec<char>)
    ensures
        v@ == s@,
{
    let mut v: Vec<char> = Vec::new();
    for c in it: s.chars()
        invariant
            it.seq() == s@,
            v@ == s@.take(it.index() as int),
    {
        v.push(c);
    }
    assert(v@ =~= s@);
    v
}

} // verus!

verus! {

/// The ASCII character of a digit value below 36: `0-9` then `a-z`.
pub open spec fn digit_char(d: nat) -> char {
    if d < 10 {
        ((48 + d) as u8) as char
    } else {
        ((87 + d) as u8) as char
    }
}

/// Positional notation of `n` in `base` (2..=36), most significant digit first, lowercase letters.
pub open spec fn radix_text(n: nat, base: nat) -> Seq<char>
    decreases n,
{
    if base < 2 || n < base {
        seq![digit_char(n % 36)]
    } else {
        proof {
            lemma_div_smaller(n, base);
        }
        radix_text(n / base, base).push(digit_char(n % base))
    }
}

pub proof fn lemma_div_smaller(n: nat, base: nat)
    requires
        base >= 2,
        n >= base,
    ensures
        n / base < n,
{
    assert(n / base < n) by (nonlinear_arith)
        requires
            base >= 2,
            n >= base,
    ;
}

/// Decimal notation of `n`.
pub open spec fn decimal(n: nat) -> Seq<char> {
    radix_text(n, 10)
}

/// Decimal notation of `n`, padded with a leading zero to at least two digits.
pub open spec fn decimal_pad2(n: nat) -> Seq<char> {
    if n < 10 {
        seq!['0'].add(decimal(n))
    } else {
        decimal(n)
    }
}

/// The last `width` hexadecimal digits of `n`, zero padded, upper case when `upper`.
pub open spec fn hex_fixed(n: nat, width: nat, upper: bool) -> Seq<char>
    decreases width,
{
    if width == 0 {
        Seq::empty()
    } else {
        hex_fixed(n / 16, (width - 1) as nat, upper).push(hex_char(n % 16, upper))
    }
}

pub open spec fn hex_char(d: nat, upper: bool) -> char {
    if d < 10 {
        ((48 + d) as u8) as char
    } else if upper {
        ((55 + d) as u8) as char
    } else {
        ((87 + d) as u8) as char
    }
}

fn digit_to_char(d: u64) -> (c: char)
    requires
        d < 36,
    ensures
        c == digit_char(d as nat),
{
    if d < 10 {
        ((48 + d) as u8) as char
    } else {
        ((87 + d) as u8) as char
    }
}

/// Appends the notation of `n` in `base`.
pub fn push_radix(s: &mut String, n: u64, base: u64)
    requires
        2 <= base <= 36,
    ensures
        final(s)@ == old(s)@ + radix_text(n as nat, base as nat),
    decreases n,
{
    if n >= base {
        proof {
            lemma_div_smaller(n as nat, base as nat);
        }
        push_radix(s, n / base, base);
        push_char(s, digit_to_char(n % base));
    } else {
        push_char(s, digit_to_char(n));
    }
}

/// Appends the decimal notation of a 128-bit `n`.
pub fn push_decimal_wide(s: &mut String, n: u128)
    ensures
        final(s)@ == old(s)@ + decimal(n as nat),
    decreases n,
{
    if n >= 10 {
        proof {
            lemma_div_smaller(n as nat, 10);
        }
        push_decimal_wide(s, n / 10);
        push_char(s, digit_to_char((n % 10) as u64));
    } else {
        push_char(s, digit_to_char(n as u64));
    }
}

/// Appends the decimal notation of `n`.
pub fn push_decimal(s: &mut String, n: u64)
    ensures
        final(s)@ == old(s)@ + decimal(n as nat),
{
    push_radix(s, n, 10);
}

/// Appends the decimal notation of `n`, zero padded to two digits.
pub fn push_decimal_pad2(s: &mut String, n: u64)
    ensures
        final(s)@ == old(s)@ + decimal_pad2(n as nat),
{
    if n < 10 {
        push_char(s, '0');
        push_decimal(s, n);
        assert(s@ =~= old(s)@ + decimal_pad2(n as nat));
    } else {
        push_decimal(s, n);
    }
}

fn hex_digit_char(d: u64, upper: bool) -> (c: char)
    requires
        d < 16,
    ensures
        c == hex_char(d as nat, upper),
{
    if d < 10 {
        ((48 + d) as u8) as char
    } else if upper {
        ((55 + d) as u8) as char
    } else {
        ((87 + d) as u8) as char
    }
}

/// Appends the last `width` hexadecimal digits of `n`.
pub fn push_hex_fixed(s: &mut String, n: u64, width: u64, upper: bool)
    ensures
        final(s)@ == old(s)@ + hex_fixed(n as nat, width as nat, upper),
    decreases width,
{
    if width > 0 {
        push_hex_fixed(s, n / 16, width - 1, upper);
        push_char(s, hex_digit_char(n % 16, upper));
        assert(s@ =~= old(s)@ + hex_fixed(n as nat, width as nat, upper));
    }
}

} // verus!

verus! {

/// The characters `v[from..to]` as a string.
pub fn chars_to_string(v: &Vec<char>, from: usize, to: usize) -> (s: String)
    requires
        from <= to <= v@.len(),
    ensures
        s@ == v@.subrange(from as int, to as int),
{
    let mut s = String::new();
    let mut i = from;
    while i < to
        invariant
            from <= i <= to,
            to <= v@.len(),
            s@ == v@.subrange(from as int, i as int),
        decreases to - i,
    {
        push_char(&mut s, v[i]);
        i = i + 1;
        assert(s@ =~= v@.subrange(from as int, i as int));
    }
    s
}

/// Whether `v[from..to]` equals the characters of `lit`.
pub fn chars_eq_str(v: &Vec<char>, from: usize, to: usize, lit: &str) -> (r: bool)
    requires
        from <= to <= v@.len(),
    ensures
        r == (v@.subrange(from as int, to as int) == lit@),
{
    let w = str_chars(lit);
    if to - from != w.len() {
        assert(v@.subrange(from as int, to as int).len() != lit@.len());
        return false;
    }
    let mut i: usize = 0;
    while i < w.len()
        invariant
            i <= w@.len(),
            w@ == lit@,
            to - from == w@.len(),
            to <= v@.len(),
            from <= to,
            forall|t: int| 0 <= t < i ==> v@[from + t] == w@[t],
        decreases w@.len() - i,
    {
        if v[from + i] != w[i] {
            assert(v@.subrange(from as int, to as int)[i as int] != lit@[i as int]);
            return false;
        }
        i = i + 1;
    }
    assert(v@.subrange(from as int, to as int) =~= lit@);
    true
}

/// Whether `s` equals `lit`.
pub fn str_eq(s: &str, lit: &str) -> (r: bool)
    ensures
        r == (s@ == lit@),
{
    let v = str_chars(s);
    assert(v@.subrange(0, v@.len() as int) =~= v@);
    chars_eq_str(&v, 0, v.len(), lit)
}

/// `c` with an ASCII upper-case letter made lower case.
pub open spec fn ascii_lower_char(c: char) -> char {
    if 65 <= (c as u32) <= 90 { ((c as u32) + 32) as char } else { c }
}

/// `s` with ASCII upper-case letters made lower case (`str::to_ascii_lowercase`).
pub open spec fn ascii_lower(s: Seq<char>) -> Seq<char> {
    s.map_values(|c: char| ascii_lower_char(c))
}

/// The lowercase form of `s` by Unicode rules (std `str::to_lowercase`).
/// Trusted: the result is named by `lowercase`, a function of the input text alone; on ASCII
/// text, where the Unicode lower-case mapping sends `A`..`Z` to `a`..`z` and keeps every other
/// character, it is the ASCII lower-casing.
#[verifier::external_body]
pub(crate) fn to_lowercase(s: &str) -> (r: String)
    ensures
        r@ == lowercase(s@),
        is_ascii_chars(s@) ==> r@ == ascii_lower(s@),
{
    s.to_lowercase()
}

pub uninterp spec fn lowercase(s: Seq<char>) -> Seq<char>;

/// What `to_lowercase` gives: the ASCII lower-casing on ASCII text, else the Unicode
/// lower-case form.
pub open spec fn lower_text(s: Seq<char>) -> Seq<char> {
    if is_ascii_chars(s) { ascii_lower(s) } else { lowercase(s) }
}

} // verus!

verus! {

/// `s` as `{:?}` prints it: quoted, with escapes (std `<str as Debug>::fmt`).
/// Trusted: the result is named by `debug_text`, a function of the input text alone.
#[verifier::external_body]
pub(crate) fn debug_quoted(s: &str) -> (r: String)
    ensures
        r@ == debug_text(s@),
{
    format!("{:?}", s)
}

pub uninterp spec fn debug_text(s: Seq<char>) -> Seq<char>;

/// Binary digits of `n`, most significant first, at least `width` digits (zero padded).
pub open spec fn binary_padded(n: nat, width: nat) -> Seq<char>
    decreases width + n,
{
    if n < 2 && width <= 1 {
        seq![digit_char(n)]
    } else {
        binary_padded(n / 2, if width > 0 { (width - 1) as nat } else { 0 }).push(digit_char(n % 2))
    }
}

/// Appends the binary digits of `n`, zero padded to at least `width` digits.
pub fn push_binary_padded(s: &mut String, n: u64, width: u64)
    ensures
        final(s)@ == old(s)@ + binary_padded(n as nat, width as nat),
    decreases width + n,
{
    if n < 2 && width <= 1 {
        push_char(s, digit_to_char(n));
    } else {
        push_binary_padded(s, n / 2, if width > 0 { width - 1 } else { 0 });
        push_char(s, digit_to_char(n % 2));
        assert(s@ =~= old(s)@ + binary_padded(n as nat, width as nat));
    }
}

} // verus!

verus! {

/// The value of a digit character: `0-9` are 0 to 9, `a-z` are 10 to 35, anything else -1.
pub open spec fn digit_value(c: char) -> int {
    let u = c as u32;
    if 48 <= u <= 57 {
        u - 48
    } else if 97 <= u <= 122 {
        u - 87
    } else {
        -1
    }
}

/// The number that the digits of `s` denote in `base`, most significant digit first.
pub open spec fn digits_value(s: Seq<char>, base: nat) -> int
    decreases s.len(),
{
    if s.len() == 0 {
        0
    } else {
        digits_value(s.drop_last(), base) * base + digit_value(s.last())
    }
}

proof fn lemma_digit_char_value(d: nat)
    requires
        d < 36,
    ensures
        digit_value(digit_char(d)) == d,
{
    if d < 10 {
        assert(((48 + d) as u8) as char as u32 == 48 + d);
    } else {
        assert(((87 + d) as u8) as char as u32 == 87 + d);
    }
}

/// Positional notation reads back: for a base from 2 to 36 the digits of `radix_text(n, base)`
/// are digits of that base, the first is not 0 unless `n` is 0, and together they denote `n`.
pub proof fn lemma_radix_text_value(n: nat, base: nat)
    requires
        2 <= base <= 36,
    ensures
        radix_text(n, base).len() >= 1,
        digits_value(radix_text(n, base), base) == n,
        forall|i: int| 0 <= i < radix_text(n, base).len() ==> 0 <= #[trigger] digit_value(radix_text(n, base)[i]) < base,
        n > 0 ==> digit_value(radix_text(n, base)[0]) > 0,
    decreases n,
{
    let t = radix_text(n, base);
    if n < base {
        lemma_digit_char_value(n);
        assert(n % 36 == n);
        assert(t.drop_last() =~= Seq::<char>::empty());
        assert(digits_value(t.drop_last(), base) == 0);
        assert(t.last() == digit_char(n));
        assert(digits_value(t, base) == 0 * base + digit_value(digit_char(n)));
    } else {
        lemma_div_smaller(n, base);
        let q = n / base;
        let r = n % base;
        lemma_radix_text_value(q, base);
        lemma_digit_char_value(r);
        let u = radix_text(q, base);
        assert(t == u.push(digit_char(r)));
        assert(t.drop_last() =~= u);
        assert(t.last() == digit_char(r));
        assert(digits_value(t, base) == digits_value(u, base) * base + digit_value(digit_char(r)));
        assert(q * base + r == n) by (nonlinear_arith)
            requires
                q == n / base,
                r == n % base,
                base >= 2,
        ;
        assert(q >= 1) by (nonlinear_arith)
            requires
                q == n / base,
                n >= base,
                base >= 2,
        ;
        assert(t[0] == u[0]);
        assert forall|i: int| 0 <= i < t.len() implies 0 <= #[trigger] digit_value(t[i]) < base by {
            if i < u.len() {
                assert(t[i] == u[i]);
            }
        }
    }
}

} // verus!

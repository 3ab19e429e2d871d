use vstd::prelude::*;

verus! {

/// Unicode `White_Space` (what `char::is_whitespace` tests).
pub open spec fn is_space(c: char) -> bool {
    let u = c as u32;
    (0x09 <= u <= 0x0D) || u == 0x20 || u == 0x85 || u == 0xA0 || u == 0x1680 || (0x2000 <= u <= 0x200A)
        || u == 0x2028 || u == 0x2029 || u == 0x202F || u == 0x205F || u == 0x3000
}

/// Character classes used when scanning text.
pub enum CharClass {
    Space,
    NotSpace,
    DotOrStar,
    NotHash,
    NotDot,
}

pub open spec fn in_class(c: char, cls: CharClass) -> bool {
    match cls {
        CharClass::Space => is_space(c),
        CharClass::NotSpace => !is_space(c),
        CharClass::DotOrStar => c == '.' || c == '*',
        CharClass::NotHash => c != '#',
        CharClass::NotDot => c != '.',
    }
}

/// Length of the longest prefix of `s` whose characters are all in `cls`.
pub open spec fn lead_len(s: Seq<char>, cls: CharClass) -> nat
    decreases s.len(),
{
    if s.len() == 0 || !in_class(s[0], cls) {
        0
    } else {
        1 + lead_len(s.drop_first(), cls)
    }
}

/// Length of the longest suffix of `s` whose characters are all in `cls`.
pub open spec fn trail_len(s: Seq<char>, cls: CharClass) -> nat
    decreases s.len(),
{
    if s.len() == 0 || !in_class(s.last(), cls) {
        0
    } else {
        1 + trail_len(s.drop_last(), cls)
    }
}

/// `s` without leading and trailing characters of class `cls`.
pub open spec fn trim_class(s: Seq<char>, cls: CharClass) -> Seq<char> {
    let t = s.skip(lead_len(s, cls) as int);
    t.take(t.len() - trail_len(t, cls))
}

/// `s` without leading and trailing white space (`str::trim`).
pub open spec fn trim(s: Seq<char>) -> Seq<char> {
    trim_class(s, CharClass::Space)
}

pub proof fn lemma_lead_len(s: Seq<char>, cls: CharClass, k: int)
    requires
        0 <= k <= s.len(),
        forall|i: int| 0 <= i < k ==> in_class(#[trigger] s[i], cls),
        k == s.len() || !in_class(s[k], cls),
    ensures
        lead_len(s, cls) == k,
    decreases k,
{
    if k > 0 {
        assert forall|i: int| 0 <= i < k - 1 implies in_class(#[trigger] s.drop_first()[i], cls) by {
            assert(s.drop_first()[i] == s[i + 1]);
        }
        if k < s.len() {
            assert(s.drop_first()[k - 1] == s[k]);
        }
        lemma_lead_len(s.drop_first(), cls, k - 1);
    }
}

pub proof fn lemma_trail_len(s: Seq<char>, cls: CharClass, k: int)
    requires
        0 <= k <= s.len(),
        forall|i: int| s.len() - k <= i < s.len() ==> in_class(#[trigger] s[i], cls),
        k == s.len() || !in_class(s[s.len() - k - 1], cls),
    ensures
        trail_len(s, cls) == k,
    decreases k,
{
    if k > 0 {
        let t = s.drop_last();
        assert forall|i: int| t.len() - (k - 1) <= i < t.len() implies in_class(#[trigger] t[i], cls) by {
            assert(t[i] == s[i]);
        }
        if k < s.len() {
            assert(t[t.len() - (k - 1) - 1] == s[s.len() - k - 1]);
        }
        lemma_trail_len(t, cls, k - 1);
    }
}

pub fn is_whitespace_char(c: char) -> (r: bool)
    ensures
        r == is_space(c),
{
    let u = c as u32;
    (0x09 <= u && u <= 0x0D) || u == 0x20 || u == 0x85 || u == 0xA0 || u == 0x1680 || (0x2000 <= u && u <= 0x200A)
        || u == 0x2028 || u == 0x2029 || u == 0x202F || u == 0x205F || u == 0x3000
}

pub fn char_in_class(c: char, cls: &CharClass) -> (r: bool)
    ensures
        r == in_class(c, *cls),
{
    match cls {
        CharClass::Space => is_whitespace_char(c),
        CharClass::NotSpace => !is_whitespace_char(c),
        CharClass::DotOrStar => c == '.' || c == '*',
        CharClass::NotHash => c != '#',
        CharClass::NotDot => c != '.',
    }
}

/// `from` plus the length of the longest prefix of `v[from..to]` in `cls`.
pub fn scan_forward(v: &Vec<char>, from: usize, to: usize, cls: &CharClass) -> (r: usize)
    requires
        from <= to <= v@.len(),
    ensures
        from <= r <= to,
        r - from == lead_len(v@.subrange(from as int, to as int), *cls),
{
    let mut i = from;
    while i < to && char_in_class(v[i], cls)
        invariant
            from <= i <= to,
            to <= v@.len(),
            forall|t: int| from <= t < i ==> in_class(#[trigger] v@[t], *cls),
        decreases to - i,
    {
        i = i + 1;
    }
    proof {
        let s = v@.subrange(from as int, to as int);
        assert forall|t: int| 0 <= t < i - from implies in_class(#[trigger] s[t], *cls) by {
            assert(s[t] == v@[from + t]);
        }
        if i < to {
            assert(s[i - from] == v@[i as int]);
        }
        lemma_lead_len(s, *cls, i - from);
    }
    i
}

/// `to` minus the length of the longest suffix of `v[from..to]` in `cls`.
pub fn scan_backward(v: &Vec<char>, from: usize, to: usize, cls: &CharClass) -> (r: usize)
    requires
        from <= to <= v@.len(),
    ensures
        from <= r <= to,
        to - r == trail_len(v@.subrange(from as int, to as int), *cls),
{
    let mut j = to;
    while j > from && char_in_class(v[j - 1], cls)
        invariant
            from <= j <= to,
            to <= v@.len(),
            forall|t: int| j <= t < to ==> in_class(#[trigger] v@[t], *cls),
        decreases j - from,
    {
        j = j - 1;
    }
    proof {
        let s = v@.subrange(from as int, to as int);
        assert forall|t: int| s.len() - (to - j) <= t < s.len() implies in_class(#[trigger] s[t], *cls) by {
            assert(s[t] == v@[from + t]);
        }
        if j > from {
            assert(s[s.len() - (to - j) - 1] == v@[j - 1]);
        }
        lemma_trail_len(s, *cls, to - j);
    }
    j
}

/// Bounds `(a, b)` with `v[a..b]` equal to `v[from..to]` trimmed of `cls` on both ends.
pub fn trim_bounds(v: &Vec<char>, from: usize, to: usize, cls: &CharClass) -> (r: (usize, usize))
    requires
        from <= to <= v@.len(),
    ensures
        from <= r.0 <= r.1 <= to,
        v@.subrange(r.0 as int, r.1 as int) == trim_class(v@.subrange(from as int, to as int), *cls),
{
    let a = scan_forward(v, from, to, cls);
    let b = scan_backward(v, a, to, cls);
    proof {
        let s = v@.subrange(from as int, to as int);
        let t = s.skip(lead_len(s, *cls) as int);
        assert(t =~= v@.subrange(a as int, to as int));
        assert(t.take(t.len() - trail_len(t, *cls)) =~= v@.subrange(a as int, b as int));
    }
    (a, b)
}

} // verus!

verus! {

/// `s` split at every `sep` (the pieces between separators; always at least one piece).
pub open spec fn split_on(s: Seq<char>, sep: char) -> Seq<Seq<char>>
    decreases s.len(),
{
    if s.len() == 0 {
        seq![Seq::<char>::empty()]
    } else {
        let p = split_on(s.drop_last(), sep);
        if s.last() == sep {
            p.push(Seq::<char>::empty())
        } else {
            p.update(p.len() - 1, p.last().push(s.last()))
        }
    }
}

pub proof fn lemma_split_on_nonempty(s: Seq<char>, sep: char)
    ensures
        split_on(s, sep).len() >= 1,
    decreases s.len(),
{
    if s.len() > 0 {
        lemma_split_on_nonempty(s.drop_last(), sep);
    }
}

/// Splitting gives at most one more piece than there are characters.
pub proof fn lemma_split_on_len(s: Seq<char>, sep: char)
    ensures
        split_on(s, sep).len() <= s.len() + 1,
    decreases s.len(),
{
    if s.len() > 0 {
        lemma_split_on_len(s.drop_last(), sep);
        lemma_split_on_nonempty(s.drop_last(), sep);
    }
}

/// Splitting `a`, the separator, then `b` gives the pieces of `a` followed by those of `b`.
pub proof fn lemma_split_on_join(a: Seq<char>, b: Seq<char>, sep: char)
    ensures
        split_on(a + seq![sep] + b, sep) == split_on(a, sep) + split_on(b, sep),
    decreases b.len(),
{
    let x = a + seq![sep] + b;
    lemma_split_on_nonempty(a, sep);
    if b.len() == 0 {
        assert(x =~= a.push(sep));
        assert(x.drop_last() =~= a);
        assert(split_on(a, sep).push(Seq::<char>::empty()) =~= split_on(a, sep) + split_on(b, sep));
    } else {
        let b0 = b.drop_last();
        lemma_split_on_join(a, b0, sep);
        lemma_split_on_nonempty(b0, sep);
        assert(x.drop_last() =~= a + seq![sep] + b0);
        assert(x.last() == b.last());
        let pa = split_on(a, sep);
        let pb = split_on(b0, sep);
        if b.last() == sep {
            assert((pa + pb).push(Seq::<char>::empty()) =~= pa + pb.push(Seq::<char>::empty()));
        } else {
            let p = pa + pb;
            assert(p.last() == pb.last());
            assert(p.update(p.len() - 1, p.last().push(b.last())) =~= pa + pb.update(pb.len() - 1, pb.last().push(b.last())));
        }
    }
}

/// No piece of a split holds the separator.
pub proof fn lemma_split_on_pieces(s: Seq<char>, sep: char)
    ensures
        forall|i: int| 0 <= i < split_on(s, sep).len() ==> !(#[trigger] split_on(s, sep)[i]).contains(sep),
    decreases s.len(),
{
    if s.len() > 0 {
        let p = split_on(s.drop_last(), sep);
        lemma_split_on_pieces(s.drop_last(), sep);
        lemma_split_on_nonempty(s.drop_last(), sep);
        if s.last() != sep {
            let q = p.update(p.len() - 1, p.last().push(s.last()));
            assert forall|i: int| 0 <= i < q.len() implies !(#[trigger] q[i]).contains(sep) by {
                if i == p.len() - 1 {
                    assert(!p[i].contains(sep));
                    if q[i].contains(sep) {
                        let j = choose|j: int| 0 <= j < q[i].len() && q[i][j] == sep;
                        if j < p[i].len() {
                            assert(p[i][j] == sep);
                        }
                    }
                } else {
                    assert(q[i] == p[i]);
                }
            }
        } else {
            let q = p.push(Seq::<char>::empty());
            assert forall|i: int| 0 <= i < q.len() implies !(#[trigger] q[i]).contains(sep) by {
                if i < p.len() {
                    assert(q[i] == p[i]);
                }
            }
        }
    }
}

/// A text without the separator splits into itself alone.
pub proof fn lemma_split_on_single(s: Seq<char>, sep: char)
    requires
        !s.contains(sep),
    ensures
        split_on(s, sep) == seq![s],
    decreases s.len(),
{
    if s.len() > 0 {
        let s0 = s.drop_last();
        assert(!s0.contains(sep)) by {
            if s0.contains(sep) {
                let j = choose|j: int| 0 <= j < s0.len() && s0[j] == sep;
                assert(s[j] == sep);
            }
        }
        lemma_split_on_single(s0, sep);
        assert(s[s.len() - 1] == s.last());
        assert(s0.push(s.last()) =~= s);
        assert(seq![s0].update(0, s0.push(s.last())) =~= seq![s]);
    } else {
        assert(s =~= Seq::<char>::empty());
    }
}

/// Every character of every piece of a split satisfies what every character of the text does.
pub proof fn lemma_split_on_chars(s: Seq<char>, sep: char, p: spec_fn(char) -> bool)
    requires
        forall|k: int| 0 <= k < s.len() ==> p(#[trigger] s[k]),
    ensures
        forall|i: int, j: int| 0 <= i < split_on(s, sep).len() && 0 <= j < split_on(s, sep)[i].len()
            ==> p(#[trigger] split_on(s, sep)[i][j]),
    decreases s.len(),
{
    if s.len() > 0 {
        let s0 = s.drop_last();
        assert forall|k: int| 0 <= k < s0.len() implies p(#[trigger] s0[k]) by {
            assert(s0[k] == s[k]);
        }
        lemma_split_on_chars(s0, sep, p);
        lemma_split_on_nonempty(s0, sep);
        let q = split_on(s0, sep);
        let r = split_on(s, sep);
        assert(p(s[s.len() - 1]));
        assert forall|i: int, j: int| 0 <= i < r.len() && 0 <= j < r[i].len() implies p(#[trigger] r[i][j]) by {
            if s.last() == sep {
                if i < q.len() {
                    assert(r[i] == q[i]);
                }
            } else {
                if i < q.len() - 1 {
                    assert(r[i] == q[i]);
                } else {
                    assert(r[i] == q.last().push(s.last()));
                    if j < q.last().len() {
                        assert(r[i][j] == q[q.len() - 1][j]);
                    }
                }
            }
        }
    }
}

/// Every character of the text is the separator or satisfies what every character of every
/// piece of its split does.
pub proof fn lemma_split_on_chars_back(s: Seq<char>, sep: char, p: spec_fn(char) -> bool)
    requires
        forall|i: int, j: int| 0 <= i < split_on(s, sep).len() && 0 <= j < split_on(s, sep)[i].len()
            ==> p(#[trigger] split_on(s, sep)[i][j]),
    ensures
        forall|k: int| 0 <= k < s.len() ==> s[k] == sep || p(#[trigger] s[k]),
    decreases s.len(),
{
    if s.len() > 0 {
        let s0 = s.drop_last();
        lemma_split_on_nonempty(s0, sep);
        let q = split_on(s0, sep);
        let r = split_on(s, sep);
        assert forall|i: int, j: int| 0 <= i < q.len() && 0 <= j < q[i].len() implies p(#[trigger] q[i][j]) by {
            if s.last() == sep {
                assert(r[i] == q[i]);
                assert(p(r[i][j]));
            } else if i < q.len() - 1 {
                assert(r[i] == q[i]);
                assert(p(r[i][j]));
            } else {
                assert(r[i] == q[i].push(s.last()));
                assert(r[i][j] == q[i][j]);
                assert(p(r[i][j]));
            }
        }
        lemma_split_on_chars_back(s0, sep, p);
        assert forall|k: int| 0 <= k < s.len() implies s[k] == sep || p(#[trigger] s[k]) by {
            if k < s.len() - 1 {
                assert(s[k] == s0[k]);
            } else if s.last() != sep {
                let li = q.len() - 1;
                assert(r[li] == q[li].push(s.last()));
                assert(r[li][q[li].len() as int] == s.last());
                assert(p(r[li][q[li].len() as int]));
            }
        }
    }
}

/// No separator at the start and no two separators in a row.
pub open spec fn no_empty_inner_piece(s: Seq<char>, sep: char) -> bool {
    &&& (s.len() > 0 ==> s[0] != sep)
    &&& forall|j: int| 0 <= j < s.len() - 1 ==> !(#[trigger] s[j] == sep && s[j + 1] == sep)
}

proof fn lemma_split_on_shape(s: Seq<char>, sep: char)
    requires
        no_empty_inner_piece(s, sep),
    ensures
        forall|i: int| 0 <= i < split_on(s, sep).len() - 1 ==> (#[trigger] split_on(s, sep)[i]).len() > 0,
        (split_on(s, sep).last().len() == 0) <==> (s.len() == 0 || s.last() == sep),
    decreases s.len(),
{
    lemma_split_on_nonempty(s, sep);
    if s.len() > 0 {
        let s0 = s.drop_last();
        assert forall|j: int| 0 <= j < s0.len() - 1 implies !(#[trigger] s0[j] == sep && s0[j + 1] == sep) by {
            assert(s0[j] == s[j] && s0[j + 1] == s[j + 1]);
        }
        if s0.len() > 0 {
            assert(s0[0] == s[0]);
        }
        lemma_split_on_shape(s0, sep);
        lemma_split_on_nonempty(s0, sep);
        let q = split_on(s0, sep);
        let r = split_on(s, sep);
        if s.last() == sep {
            if s0.len() > 0 {
                assert(s[s.len() - 2] == s0.last());
                assert(!(s[s.len() - 2] == sep && s[s.len() - 1] == sep));
            }
            assert forall|i: int| 0 <= i < r.len() - 1 implies (#[trigger] r[i]).len() > 0 by {
                assert(r[i] == q[i]);
            }
        } else {
            assert forall|i: int| 0 <= i < r.len() - 1 implies (#[trigger] r[i]).len() > 0 by {
                assert(r[i] == q[i]);
            }
        }
    }
}

/// Text that neither starts nor ends with the separator and has no two separators in a row
/// splits into non-empty pieces.
pub proof fn lemma_split_on_nonempty_pieces(s: Seq<char>, sep: char)
    requires
        s.len() > 0,
        no_empty_inner_piece(s, sep),
        s.last() != sep,
    ensures
        forall|i: int| 0 <= i < split_on(s, sep).len() ==> (#[trigger] split_on(s, sep)[i]).len() > 0,
{
    lemma_split_on_shape(s, sep);
    lemma_split_on_nonempty(s, sep);
    let r = split_on(s, sep);
    assert(r[r.len() - 1] == r.last());
}

/// Bounds of the pieces of `v[from..to]` split at `sep`.
pub fn split_bounds(v: &Vec<char>, from: usize, to: usize, sep: char) -> (parts: Vec<(usize, usize)>)
    requires
        from <= to <= v@.len(),
    ensures
        parts@.len() == split_on(v@.subrange(from as int, to as int), sep).len(),
        forall|j: int| 0 <= j < parts@.len() ==> {
            &&& from <= (#[trigger] parts@[j]).0 <= parts@[j].1 <= to
            &&& v@.subrange(parts@[j].0 as int, parts@[j].1 as int) == split_on(v@.subrange(from as int, to as int), sep)[j]
        },
{
    let mut parts: Vec<(usize, usize)> = Vec::new();
    let mut start = from;
    let mut i = from;
    assert(v@.subrange(from as int, from as int) =~= Seq::<char>::empty());
    while i < to
        invariant
            from <= start <= i <= to,
            to <= v@.len(),
            parts@.len() + 1 == split_on(v@.subrange(from as int, i as int), sep).len(),
            forall|j: int| 0 <= j < parts@.len() ==> {
                &&& from <= (#[trigger] parts@[j]).0 <= parts@[j].1 <= i
                &&& v@.subrange(parts@[j].0 as int, parts@[j].1 as int) == split_on(v@.subrange(from as int, i as int), sep)[j]
            },
            v@.subrange(start as int, i as int) == split_on(v@.subrange(from as int, i as int), sep).last(),
        decreases to - i,
    {
        let ghost s1 = v@.subrange(from as int, i + 1);
        assert(s1.drop_last() =~= v@.subrange(from as int, i as int));
        assert(s1.last() == v@[i as int]);
        proof {
            lemma_split_on_nonempty(v@.subrange(from as int, i as int), sep);
        }
        if v[i] == sep {
            parts.push((start, i));
            start = i + 1;
            assert(v@.subrange(start as int, i + 1) =~= Seq::<char>::empty());
        } else {
            assert(v@.subrange(start as int, i + 1) =~= v@.subrange(start as int, i as int).push(v@[i as int]));
        }
        i = i + 1;
    }
    proof {
        lemma_split_on_nonempty(v@.subrange(from as int, to as int), sep);
    }
    parts.push((start, to));
    parts
}

} // verus!

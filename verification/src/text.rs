//! Character-level text helpers: conversion between strings and character
//! vectors, searching, splitting, trimming and decimal numbers.

use vstd::prelude::*;
use vstd::string::StringSliceAdditionalSpecFns;
use vstd::utf8::valid_utf8;

verus! {

/// Index of the first occurrence of `c` in `s`, or `s.len()` when `c` does not occur.
pub open spec fn position<T>(s: Seq<T>, c: T) -> int
    decreases s.len(),
{
    if s.len() == 0 {
        0
    } else if s[0] == c {
        0
    } else {
        1 + position(s.drop_first(), c)
    }
}

/// What stands before the first `c`; all of `s` when `c` does not occur.
pub open spec fn before_first(s: Seq<char>, c: char) -> Seq<char> {
    s.take(position(s, c))
}

/// What stands after the first `c`, if `c` occurs.
pub open spec fn after_first(s: Seq<char>, c: char) -> Option<Seq<char>> {
    if position(s, c) < s.len() {
        Some(s.skip(position(s, c) + 1))
    } else {
        None
    }
}

/// The pieces of `s` between occurrences of `c`. There is always at least one
/// piece; two adjacent separators enclose an empty piece.
pub open spec fn split(s: Seq<char>, c: char) -> Seq<Seq<char>>
    decreases s.len(),
{
    let p = position(s, c);
    if 0 <= p < s.len() {
        seq![s.take(p)] + split(s.skip(p + 1), c)
    } else {
        seq![s]
    }
}

/// `s` without one `c` at its end: a text that ends with `c` loses that one
/// character, any other text stays as it is.
pub open spec fn strip_one(s: Seq<char>, c: char) -> Seq<char> {
    if s.len() > 0 && s.last() == c {
        s.drop_last()
    } else {
        s
    }
}

/// The code points that Unicode gives the property `White_Space`.
pub open spec fn is_whitespace(c: char) -> bool {
    let u = c as u32;
    (0x09 <= u && u <= 0x0d) || u == 0x20 || u == 0x85 || u == 0xa0 || u == 0x1680 || (0x2000 <= u
        && u <= 0x200a) || u == 0x2028 || u == 0x2029 || u == 0x202f || u == 0x205f || u == 0x3000
}

/// `s` without its leading run of whitespace.
pub open spec fn trim_start(s: Seq<char>) -> Seq<char>
    decreases s.len(),
{
    if s.len() > 0 && is_whitespace(s[0]) {
        trim_start(s.drop_first())
    } else {
        s
    }
}

/// `s` without its trailing run of whitespace.
pub open spec fn trim_end(s: Seq<char>) -> Seq<char>
    decreases s.len(),
{
    if s.len() > 0 && is_whitespace(s.last()) {
        trim_end(s.drop_last())
    } else {
        s
    }
}

/// `s` without surrounding whitespace.
pub open spec fn trim(s: Seq<char>) -> Seq<char> {
    trim_end(trim_start(s))
}

/// The views of a vector of character vectors.
pub open spec fn views(v: Seq<Vec<char>>) -> Seq<Seq<char>> {
    Seq::new(v.len(), |i: int| v[i]@)
}

/// `position` lies inside the sequence or at its end; nothing before it is
/// `c`, and what stands at it is.
pub proof fn lemma_position_bounds<T>(s: Seq<T>, c: T)
    ensures
        0 <= position(s, c) <= s.len(),
        forall|j: int| 0 <= j < position(s, c) ==> s[j] != c,
        position(s, c) < s.len() ==> s[position(s, c)] == c,
    decreases s.len(),
{
    if s.len() > 0 && s[0] != c {
        let t = s.drop_first();
        lemma_position_bounds(t, c);
        assert forall|j: int| 0 <= j < position(s, c) implies s[j] != c by {
            if j > 0 {
                assert(s[j] == t[j - 1]);
            }
        }
        assert(s[position(s, c)] == t[position(t, c)] || position(s, c) >= s.len());
    }
}

/// The first index `p` at which `c` stands is `position(s, c)`.
pub proof fn lemma_position_is<T>(s: Seq<T>, c: T, p: int)
    requires
        0 <= p <= s.len(),
        forall|j: int| 0 <= j < p ==> s[j] != c,
        p < s.len() ==> s[p] == c,
    ensures
        position(s, c) == p,
    decreases s.len(),
{
    if s.len() > 0 && p > 0 {
        let t = s.drop_first();
        assert forall|j: int| 0 <= j < p - 1 implies t[j] != c by {
            assert(t[j] == s[j + 1]);
        }
        lemma_position_is(t, c, p - 1);
    }
}

/// What is found in a sequence is found at the same place when more is
/// appended to it.
pub proof fn lemma_position_extended<T>(a: Seq<T>, b: Seq<T>, c: T)
    requires
        position(a, c) < a.len(),
    ensures
        position(a + b, c) == position(a, c),
{
    let p = position(a, c);
    lemma_position_bounds(a, c);
    assert forall|j: int| 0 <= j < p implies (a + b)[j] != c by {
        assert((a + b)[j] == a[j]);
    }
    assert((a + b)[p] == a[p]);
    lemma_position_is(a + b, c, p);
}

/// Splitting at a separator that joins two texts gives the pieces of the
/// first, then the pieces of the second.
pub proof fn lemma_split_joined(a: Seq<char>, b: Seq<char>, c: char)
    ensures
        split(a + seq![c] + b, c) == split(a, c) + split(b, c),
    decreases a.len(),
{
    let whole = a + seq![c] + b;
    let p = position(a, c);
    lemma_position_bounds(a, c);
    assert forall|j: int| 0 <= j < p implies whole[j] != c by {
        assert(whole[j] == a[j]);
    }
    if p < a.len() {
        assert(whole[p] == a[p]);
        lemma_position_is(whole, c, p);
        assert(whole.take(p) == a.take(p));
        assert(whole.skip(p + 1) == a.skip(p + 1) + seq![c] + b);
        lemma_split_joined(a.skip(p + 1), b, c);
        assert(seq![a.take(p)] + (split(a.skip(p + 1), c) + split(b, c)) == (seq![a.take(p)]
            + split(a.skip(p + 1), c)) + split(b, c));
    } else {
        assert(whole[p] == c);
        lemma_position_is(whole, c, p);
        assert(whole.take(p) == a);
        assert(whole.skip(p + 1) == b);
    }
}

/// The last piece of a split is what the text ends with, and the first piece
/// what it starts with.
pub proof fn lemma_split_ends(s: Seq<char>, c: char)
    ensures
        split(s, c).len() >= 1,
        split(s, c).last().len() <= s.len(),
        split(s, c).last() == s.skip(s.len() - split(s, c).last().len()),
        split(s, c)[0] == s.take(position(s, c)),
    decreases s.len(),
{
    let p = position(s, c);
    lemma_position_bounds(s, c);
    if p < s.len() {
        let t = s.skip(p + 1);
        lemma_split_ends(t, c);
        let l = split(t, c).last();
        assert(split(s, c).last() == l);
        assert(t.skip(t.len() - l.len()) == s.skip(s.len() - l.len()));
    } else {
        assert(s.skip(0) == s);
        assert(s.take(p) == s);
    }
}

/// A text that ends with the separator has an empty last piece.
pub proof fn lemma_split_after_separator(s: Seq<char>, c: char)
    requires
        s.len() > 0,
        s.last() == c,
    ensures
        split(s, c).last().len() == 0,
    decreases s.len(),
{
    let p = position(s, c);
    lemma_position_bounds(s, c);
    if p >= s.len() {
        assert(s[s.len() - 1] != c);
    } else if p == s.len() - 1 {
        assert(s.skip(p + 1) =~= Seq::<char>::empty());
        assert(split(s.skip(p + 1), c) == seq![s.skip(p + 1)]);
    } else {
        let rest = s.skip(p + 1);
        assert(rest.last() == s.last());
        lemma_split_after_separator(rest, c);
        lemma_split_ends(rest, c);
    }
}

/// The characters of `s`, in order.
pub fn chars_of(s: &str) -> (out: Vec<char>)
    ensures
        out@ == s@,
{
    let mut out: Vec<char> = Vec::new();
    for c in it: s.chars()
        invariant
            it.seq() == s@,
            out@ == it.seq().take(it.index() as int),
    {
        out.push(c);
    }
    out
}

/// Collects characters into a `String` with `String::from_iter`: the string
/// holds exactly the given characters, in order.
#[verifier::external_body]
pub(crate) fn text_of(chars: &[char]) -> (out: String)
    ensures
        out@ == chars@,
{
    String::from_iter(chars.iter())
}

/// Reads bytes as text with `core::str::from_utf8`: the text comes out exactly
/// when the bytes are UTF-8, and its encoding is the bytes given.
#[verifier::external_body]
pub(crate) fn utf8_text(bytes: &[u8]) -> (out: Option<&str>)
    ensures
        out is Some <==> valid_utf8(bytes@),
        out matches Some(s) ==> s.spec_bytes() == bytes@,
{
    core::str::from_utf8(bytes).ok()
}

/// A copy of `s[from..to]`.
pub fn copy_range(s: &[char], from: usize, to: usize) -> (out: Vec<char>)
    requires
        from <= to <= s@.len(),
    ensures
        out@ == s@.subrange(from as int, to as int),
{
    let mut out: Vec<char> = Vec::new();
    let mut i: usize = from;
    while i < to
        invariant
            from <= i <= to <= s@.len(),
            out@ == s@.subrange(from as int, i as int),
        decreases to - i,
    {
        out.push(s[i]);
        i += 1;
    }
    out
}

/// Whether two character slices hold the same text.
pub fn same_text(a: &[char], b: &[char]) -> (r: bool)
    ensures
        r == (a@ == b@),
{
    if a.len() != b.len() {
        return false;
    }
    let mut i: usize = 0;
    while i < a.len()
        invariant
            a@.len() == b@.len(),
            i <= a@.len(),
            forall|j: int| 0 <= j < i ==> a@[j] == b@[j],
        decreases a@.len() - i,
    {
        if a[i] != b[i] {
            return false;
        }
        i += 1;
    }
    assert(a@ =~= b@);
    true
}

/// The index of the first `c` at or after `from`; `s.len()` when there is none.
pub fn find_from(s: &[char], from: usize, c: char) -> (p: usize)
    requires
        from <= s@.len(),
    ensures
        p == from + position(s@.skip(from as int), c),
        from <= p <= s@.len(),
{
    let mut i: usize = from;
    while i < s.len() && s[i] != c
        invariant
            from <= i <= s@.len(),
            forall|j: int| from <= j < i ==> s@[j] != c,
        decreases s@.len() - i,
    {
        i += 1;
    }
    proof {
        lemma_position_is(s@.skip(from as int), c, i - from);
    }
    i
}

/// Splits `s` at every `c`.
pub fn split_at_char(s: &[char], c: char) -> (out: Vec<Vec<char>>)
    ensures
        views(out@) == split(s@, c),
        out@.len() >= 1,
{
    let mut out: Vec<Vec<char>> = Vec::new();
    let mut start: usize = 0;
    proof {
        assert(s@.skip(0) == s@);
        assert(views(out@) + split(s@, c) == split(s@, c));
    }
    loop
        invariant_except_break
            start <= s@.len(),
            split(s@, c) == views(out@) + split(s@.skip(start as int), c),
        ensures
            views(out@) == split(s@, c),
            out@.len() >= 1,
        decreases s@.len() - start,
    {
        let p = find_from(s, start, c);
        let piece = copy_range(s, start, p);
        let ghost rest = s@.skip(start as int);
        let ghost before = views(out@);
        proof {
            lemma_position_bounds(rest, c);
            assert(piece@ == rest.take(p - start));
        }
        out.push(piece);
        if p >= s.len() {
            proof {
                assert(rest.take(p - start) == rest);
                assert(views(out@) == before + seq![rest]);
            }
            break;
        }
        proof {
            assert(rest.skip(p - start + 1) == s@.skip(p + 1));
            assert(views(out@) == before + seq![rest.take(p - start)]);
        }
        start = p + 1;
    }
    out
}

/// `s` without one `c` at its end.
pub fn strip_one_char(s: &[char], c: char) -> (out: Vec<char>)
    ensures
        out@ == strip_one(s@, c),
{
    let n = s.len();
    if n > 0 && s[n - 1] == c {
        let out = copy_range(s, 0, n - 1);
        assert(out@ == s@.drop_last());
        out
    } else {
        let out = copy_range(s, 0, n);
        assert(out@ == s@);
        out
    }
}

/// Whether `c` is Unicode whitespace.
pub fn whitespace(c: char) -> (r: bool)
    ensures
        r == is_whitespace(c),
{
    let u: u32 = c as u32;
    (0x09 <= u && u <= 0x0d) || u == 0x20 || u == 0x85 || u == 0xa0 || u == 0x1680 || (0x2000 <= u
        && u <= 0x200a) || u == 0x2028 || u == 0x2029 || u == 0x202f || u == 0x205f || u == 0x3000
}

/// `s` without surrounding whitespace.
pub fn trimmed(s: &[char]) -> (out: Vec<char>)
    ensures
        out@ == trim(s@),
{
    let mut start: usize = 0;
    assert(s@.skip(0) == s@);
    while start < s.len() && whitespace(s[start])
        invariant
            start <= s@.len(),
            trim_start(s@) == trim_start(s@.skip(start as int)),
        decreases s@.len() - start,
    {
        proof {
            assert(s@.skip(start as int).drop_first() == s@.skip(start + 1));
        }
        start += 1;
    }
    let ghost rest = s@.skip(start as int);
    assert(trim_start(s@) == rest);
    let mut end: usize = s.len();
    assert(rest.take(end - start) == rest);
    while end > start && whitespace(s[end - 1])
        invariant
            start <= end <= s@.len(),
            rest == s@.skip(start as int),
            trim_end(rest) == trim_end(rest.take(end - start)),
        decreases end,
    {
        proof {
            assert(rest.take(end - start).drop_last() == rest.take(end - start - 1));
        }
        end -= 1;
    }
    proof {
        assert(rest.take(end - start) == s@.subrange(start as int, end as int));
    }
    copy_range(s, start, end)
}

/// The character of the decimal digit `d`.
pub open spec fn digit_char(d: nat) -> char
    recommends
        d < 10,
{
    (48 + d) as u8 as char
}

/// `n` in decimal, without leading zeros.
pub open spec fn decimal(n: nat) -> Seq<char>
    decreases n,
{
    if n < 10 {
        seq![digit_char(n)]
    } else {
        decimal(n / 10).push(digit_char(n % 10))
    }
}

pub open spec fn is_digit(c: char) -> bool {
    '0' <= c && c <= '9'
}

pub open spec fn all_digits(s: Seq<char>) -> bool {
    forall|i: int| 0 <= i < s.len() ==> is_digit(#[trigger] s[i])
}

/// The number that a run of decimal digits writes.
pub open spec fn digits_value(s: Seq<char>) -> nat
    decreases s.len(),
{
    if s.len() == 0 {
        0
    } else {
        (digits_value(s.drop_last()) * 10 + (s.last() as u32 - 48)) as nat
    }
}

/// The 16-bit number that `s` writes in decimal: an optional `+`, then one or
/// more digits whose value fits.
pub open spec fn parse_u16(s: Seq<char>) -> Option<u16> {
    let body = if s.len() > 0 && s[0] == '+' {
        s.skip(1)
    } else {
        s
    };
    if body.len() > 0 && all_digits(body) && digits_value(body) <= 0xffff {
        Some(digits_value(body) as u16)
    } else {
        None
    }
}

/// A run of digits is worth at least as much as any of its prefixes.
pub proof fn lemma_digits_value_grows(s: Seq<char>, k: int)
    requires
        0 <= k <= s.len(),
        all_digits(s),
    ensures
        digits_value(s.take(k)) <= digits_value(s),
    decreases s.len() - k,
{
    if k < s.len() {
        lemma_digits_value_grows(s, k + 1);
        assert(s.take(k + 1).drop_last() == s.take(k));
        assert(is_digit(s[k]));
    } else {
        assert(s.take(k) == s);
    }
}

/// What `decimal` writes is one or more digits that write the same number.
pub proof fn lemma_decimal_digits(n: nat)
    ensures
        decimal(n).len() >= 1,
        all_digits(decimal(n)),
        digits_value(decimal(n)) == n,
    decreases n,
{
    if n < 10 {
        let s = decimal(n);
        assert(s.drop_last() =~= Seq::<char>::empty());
        assert(s.last() as u32 == 48 + n);
        assert(digits_value(s.drop_last()) == 0);
    } else {
        lemma_decimal_digits(n / 10);
        let head = decimal(n / 10);
        let s = decimal(n);
        assert(s.drop_last() =~= head);
        assert(s.last() as u32 == 48 + n % 10);
        assert forall|i: int| 0 <= i < s.len() implies is_digit(#[trigger] s[i]) by {
            if i < head.len() {
                assert(s[i] == head[i]);
            }
        }
    }
}

/// A 16-bit number that was written in decimal is read back as itself.
pub proof fn law_decimal_round_trip(n: u16)
    ensures
        parse_u16(decimal(n as nat)) == Some(n),
{
    lemma_decimal_digits(n as nat);
    assert(is_digit(decimal(n as nat)[0]));
}

/// `n` written in decimal.
pub fn decimal_text(n: u16) -> (out: Vec<char>)
    ensures
        out@ == decimal(n as nat),
{
    let mut out: Vec<char> = Vec::new();
    let mut rest: u16 = n;
    loop
        invariant_except_break
            decimal(n as nat) == decimal(rest as nat) + out@,
        ensures
            out@ == decimal(n as nat),
        decreases rest,
    {
        let d: u8 = (rest % 10) as u8;
        let ghost before = out@;
        out.insert(0, (48 + d) as char);
        assert(out@ == seq![digit_char((rest % 10) as nat)] + before);
        if rest < 10 {
            break;
        }
        assert(decimal(rest as nat) + before == decimal((rest / 10) as nat) + out@);
        rest = rest / 10;
    }
    out
}

/// Reads a 16-bit number written in decimal.
pub fn read_u16(s: &[char]) -> (r: Option<u16>)
    ensures
        r == parse_u16(s@),
{
    let start: usize = if s.len() > 0 && s[0] == '+' {
        1
    } else {
        0
    };
    if start >= s.len() {
        return None;
    }
    let ghost body = s@.skip(start as int);
    proof {
        assert(s@.skip(0) == s@);
        assert(body == if s@.len() > 0 && s@[0] == '+' {
            s@.skip(1)
        } else {
            s@
        });
    }
    let mut value: u32 = 0;
    let mut i: usize = start;
    assert(body.take(0) == Seq::<char>::empty());
    while i < s.len()
        invariant
            start <= i <= s@.len(),
            body == s@.skip(start as int),
            body.len() > 0,
            body == if s@.len() > 0 && s@[0] == '+' {
                s@.skip(1)
            } else {
                s@
            },
            all_digits(body.take(i - start)),
            value == digits_value(body.take(i - start)),
            value <= 0xffff,
        decreases s@.len() - i,
    {
        let c = s[i];
        let ghost next = body.take(i - start + 1);
        proof {
            assert(next.drop_last() == body.take(i - start));
            assert(next.last() == c);
        }
        if !('0' <= c && c <= '9') {
            assert(!is_digit(body[i - start]));
            return None;
        }
        let v: u32 = value * 10 + (c as u32 - 48);
        assert(v == digits_value(next));
        assert(all_digits(next)) by {
            assert forall|j: int| 0 <= j < next.len() implies is_digit(#[trigger] next[j]) by {
                if j < i - start {
                    assert(next[j] == body.take(i - start)[j]);
                }
            }
        }
        if v > 0xffff {
            proof {
                if all_digits(body) {
                    lemma_digits_value_grows(body, i - start + 1);
                }
            }
            return None;
        }
        value = v;
        i += 1;
    }
    assert(body.take(i - start) == body);
    Some(value as u16)
}

} // verus!

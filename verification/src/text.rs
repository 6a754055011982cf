//! Character-level helpers shared by the line-oriented parsers: conversion
//! between `str`/`String` and character vectors, Unicode whitespace,
//! trimming, line splitting and decimal numbers.
use vstd::prelude::*;
use vstd::std_specs::iter::IteratorSpec;

verus! {

broadcast use {vstd::string::axiom_spec_iter, vstd::string::next_postcondition};

/// Appends one character to a `String` (std's `String::push`).
#[verifier::external_body]
pub(crate) fn push_char(s: &mut String, c: char)
    ensures
        final(s)@ == old(s)@.push(c),
{
    s.push(c);
}

/// The characters of a string slice, in order.
pub fn chars_of(s: &str) -> (v: Vec<char>)
    ensures
        v@ == s@,
{
    let mut it = s.chars();
    let mut v: Vec<char> = Vec::new();
    loop
        invariant
            v@ + it.remaining() == s@,
            it.decrease() is Some,
        decreases it.decrease()->0,
    {
        let ghost before = it.remaining();
        match it.next() {
            Some(c) => {
                v.push(c);
                assert(v@ + it.remaining() =~= s@) by {
                    assert(before =~= seq![c] + it.remaining());
                }
            },
            None => {
                assert(v@ =~= s@);
                return v;
            },
        }
    }
}

/// Builds a `String` holding exactly the given characters.
pub fn string_of(v: &[char]) -> (s: String)
    ensures
        s@ == v@,
{
    let mut s = String::new();
    let mut i: usize = 0;
    while i < v.len()
        invariant
            i <= v.len(),
            s@ == v@.take(i as int),
        decreases v.len() - i,
    {
        push_char(&mut s, v[i]);
        i += 1;
        assert(s@ =~= v@.take(i as int));
    }
    assert(v@.take(v.len() as int) =~= v@);
    s
}

/// Appends the characters of `s` to `out`.
pub fn extend_chars(out: &mut Vec<char>, s: &str)
    ensures
        final(out)@ == old(out)@ + s@,
{
    let v = chars_of(s);
    extend_from(out, &v);
}

/// `a` followed by `b`.
pub fn concat_str(a: &str, b: &str) -> (r: String)
    ensures
        r@ == a@ + b@,
{
    let mut v = chars_of(a);
    extend_chars(&mut v, b);
    string_of(&v)
}

/// `prefix` followed by `s[lo..hi]`.
pub fn prefixed_range(prefix: &str, s: &[char], lo: usize, hi: usize) -> (r: String)
    requires
        lo <= hi <= s@.len(),
    ensures
        r@ == prefix@ + s@.subrange(lo as int, hi as int),
{
    let mut v = chars_of(prefix);
    let ghost p = v@;
    let mut i = lo;
    while i < hi
        invariant
            lo <= i <= hi <= s@.len(),
            p == prefix@,
            v@ == p + s@.subrange(lo as int, i as int),
        decreases hi - i,
    {
        v.push(s[i]);
        i += 1;
        assert(v@ =~= p + s@.subrange(lo as int, i as int));
    }
    string_of(&v)
}

/// Appends `v` to `out`.
pub fn extend_from(out: &mut Vec<char>, v: &[char])
    ensures
        final(out)@ == old(out)@ + v@,
{
    let ghost start = out@;
    let mut i: usize = 0;
    while i < v.len()
        invariant
            i <= v.len(),
            out@ == start + v@.take(i as int),
        decreases v.len() - i,
    {
        out.push(v[i]);
        i += 1;
        assert(out@ =~= start + v@.take(i as int));
    }
    assert(v@.take(v.len() as int) =~= v@);
}

/// `char::is_whitespace`: the Unicode `White_Space` property.
pub open spec fn is_ws(c: char) -> bool {
    ||| c == '\t' || c == '\n' || c == '\u{0B}' || c == '\u{0C}' || c == '\r' || c == ' '
    ||| c == '\u{85}' || c == '\u{A0}' || c == '\u{1680}'
    ||| ('\u{2000}' <= c && c <= '\u{200A}')
    ||| c == '\u{2028}' || c == '\u{2029}' || c == '\u{202F}' || c == '\u{205F}' || c == '\u{3000}'
}

pub fn is_whitespace(c: char) -> (b: bool)
    ensures
        b == is_ws(c),
{
    c == '\t' || c == '\n' || c == '\u{0B}' || c == '\u{0C}' || c == '\r' || c == ' ' || c
        == '\u{85}' || c == '\u{A0}' || c == '\u{1680}' || ('\u{2000}' <= c && c <= '\u{200A}')
        || c == '\u{2028}' || c == '\u{2029}' || c == '\u{202F}' || c == '\u{205F}' || c
        == '\u{3000}'
}

/// Number of leading whitespace characters of `s`.
pub open spec fn lead_ws(s: Seq<char>) -> nat
    decreases s.len(),
{
    if s.len() > 0 && is_ws(s[0]) {
        1 + lead_ws(s.drop_first())
    } else {
        0
    }
}

/// Number of trailing whitespace characters of `s`.
pub open spec fn trail_ws(s: Seq<char>) -> nat
    decreases s.len(),
{
    if s.len() > 0 && is_ws(s.last()) {
        1 + trail_ws(s.drop_last())
    } else {
        0
    }
}

/// `str::trim_end`.
pub open spec fn trim_end(s: Seq<char>) -> Seq<char> {
    s.take(s.len() - trail_ws(s))
}

/// `str::trim_start`.
pub open spec fn trim_start(s: Seq<char>) -> Seq<char> {
    s.skip(lead_ws(s) as int)
}

/// `str::trim`.
pub open spec fn trim(s: Seq<char>) -> Seq<char> {
    trim_end(trim_start(s))
}

pub proof fn lemma_lead_ws_bound(s: Seq<char>)
    ensures
        lead_ws(s) <= s.len(),
        forall|i: int| 0 <= i < lead_ws(s) ==> is_ws(#[trigger] s[i]),
        lead_ws(s) < s.len() ==> !is_ws(s[lead_ws(s) as int]),
    decreases s.len(),
{
    if s.len() > 0 && is_ws(s[0]) {
        lemma_lead_ws_bound(s.drop_first());
        assert forall|i: int| 0 <= i < lead_ws(s) implies is_ws(#[trigger] s[i]) by {
            if i > 0 {
                assert(s[i] == s.drop_first()[i - 1]);
            }
        }
    }
}

pub proof fn lemma_trail_ws_bound(s: Seq<char>)
    ensures
        trail_ws(s) <= s.len(),
        forall|i: int| s.len() - trail_ws(s) <= i < s.len() ==> is_ws(#[trigger] s[i]),
        trail_ws(s) < s.len() ==> !is_ws(s[s.len() - trail_ws(s) - 1]),
    decreases s.len(),
{
    if s.len() > 0 && is_ws(s.last()) {
        lemma_trail_ws_bound(s.drop_last());
        assert forall|i: int| s.len() - trail_ws(s) <= i < s.len() implies is_ws(#[trigger] s[i]) by {
            if i < s.len() - 1 {
                assert(s[i] == s.drop_last()[i]);
            }
        }
    }
}

/// A sequence with no leading whitespace is unchanged by `trim_start`.
pub proof fn lemma_lead_ws_zero(s: Seq<char>)
    requires
        s.len() == 0 || !is_ws(s[0]),
    ensures
        lead_ws(s) == 0,
        trim_start(s) == s,
{
    assert(s.skip(0) =~= s);
}

/// A sequence with no trailing whitespace is unchanged by `trim_end`.
pub proof fn lemma_trail_ws_zero(s: Seq<char>)
    requires
        s.len() == 0 || !is_ws(s.last()),
    ensures
        trail_ws(s) == 0,
        trim_end(s) == s,
{
    assert(s.take(s.len() as int) =~= s);
}

/// Index of the first whitespace-free position (exec `trim_start`).
pub fn lead_ws_exec(s: &[char]) -> (n: usize)
    ensures
        n == lead_ws(s@),
{
    let mut i: usize = 0;
    assert(s@.skip(0) =~= s@);
    while i < s.len() && is_whitespace(s[i])
        invariant
            i <= s.len(),
            lead_ws(s@) == i + lead_ws(s@.skip(i as int)),
        decreases s.len() - i,
    {
        assert(s@.skip(i as int).drop_first() =~= s@.skip(i + 1));
        i += 1;
    }
    proof {
        if i < s.len() {
            assert(s@.skip(i as int)[0] == s@[i as int]);
        }
    }
    i
}

/// Length of `s` without its trailing whitespace (exec `trim_end`).
pub fn trimmed_end_len(s: &[char]) -> (n: usize)
    ensures
        n == s@.len() - trail_ws(s@),
{
    let mut j: usize = s.len();
    assert(s@.take(s.len() as int) =~= s@);
    while j > 0 && is_whitespace(s[j - 1])
        invariant
            j <= s.len(),
            trail_ws(s@) == (s.len() - j) + trail_ws(s@.take(j as int)),
        decreases j,
    {
        assert(s@.take(j as int).drop_last() =~= s@.take(j - 1));
        j -= 1;
    }
    j
}

/// The characters of `s[lo..hi]` trimmed on both sides, as bounds.
pub fn trim_bounds(s: &[char], lo: usize, hi: usize) -> (r: (usize, usize))
    requires
        lo <= hi <= s.len(),
    ensures
        lo <= r.0 <= r.1 <= hi,
        s@.subrange(r.0 as int, r.1 as int) == trim(s@.subrange(lo as int, hi as int)),
{
    let ghost t = s@.subrange(lo as int, hi as int);
    let mut a = lo;
    assert(s@.subrange(lo as int, hi as int) =~= t);
    while a < hi && is_whitespace(s[a])
        invariant
            lo <= a <= hi,
            hi <= s.len(),
            t == s@.subrange(lo as int, hi as int),
            lead_ws(t) == (a - lo) + lead_ws(s@.subrange(a as int, hi as int)),
        decreases hi - a,
    {
        assert(s@.subrange(a as int, hi as int).drop_first() =~= s@.subrange(a + 1, hi as int));
        a += 1;
    }
    proof {
        if a < hi {
            assert(s@.subrange(a as int, hi as int)[0] == s@[a as int]);
        }
        assert(trim_start(t) =~= s@.subrange(a as int, hi as int));
    }
    let mut b = hi;
    assert(s@.subrange(a as int, hi as int) =~= s@.subrange(a as int, hi as int));
    while b > a && is_whitespace(s[b - 1])
        invariant
            a <= b <= hi,
            hi <= s.len(),
            trail_ws(s@.subrange(a as int, hi as int)) == (hi - b) + trail_ws(
                s@.subrange(a as int, b as int),
            ),
        decreases b,
    {
        assert(s@.subrange(a as int, b as int).drop_last() =~= s@.subrange(a as int, b - 1));
        b -= 1;
    }
    proof {
        if b > a {
            assert(s@.subrange(a as int, b as int).last() == s@[b - 1]);
        }
        assert(trim_end(s@.subrange(a as int, hi as int)) =~= s@.subrange(a as int, b as int));
    }
    (a, b)
}

/// Position of the first occurrence of `c` in `s`, if any.
pub open spec fn find_char(s: Seq<char>, c: char) -> Option<int>
    decreases s.len(),
{
    if s.len() == 0 {
        None
    } else if s[0] == c {
        Some(0)
    } else {
        match find_char(s.drop_first(), c) {
            Some(i) => Some(i + 1),
            None => None,
        }
    }
}

pub proof fn lemma_find_char(s: Seq<char>, c: char)
    ensures
        find_char(s, c) matches Some(i) ==> 0 <= i < s.len() && s[i] == c && forall|j: int|
            0 <= j < i ==> s[j] != c,
        find_char(s, c) is None ==> forall|j: int| 0 <= j < s.len() ==> s[j] != c,
    decreases s.len(),
{
    if s.len() > 0 {
        lemma_find_char(s.drop_first(), c);
        if s[0] != c {
            assert forall|j: int| 0 < j < s.len() implies s[j] == s.drop_first()[j - 1] by {}
        }
    }
}

/// `find_char` is characterised by "first index holding `c`".
pub proof fn lemma_find_char_at(s: Seq<char>, c: char, i: int)
    requires
        0 <= i < s.len(),
        s[i] == c,
        forall|j: int| 0 <= j < i ==> s[j] != c,
    ensures
        find_char(s, c) == Some(i),
{
    lemma_find_char(s, c);
    if let Some(k) = find_char(s, c) {
        assert(k == i);
    }
}

pub proof fn lemma_find_char_none(s: Seq<char>, c: char)
    requires
        forall|j: int| 0 <= j < s.len() ==> s[j] != c,
    ensures
        find_char(s, c) is None,
{
    lemma_find_char(s, c);
}

/// First index at or after `from` (and before `to`) holding `c`.
pub fn find_from(s: &[char], from: usize, to: usize, c: char) -> (r: Option<usize>)
    requires
        from <= to <= s.len(),
    ensures
        r matches Some(i) ==> find_char(s@.subrange(from as int, to as int), c) == Some(
            i - from,
        ) && from <= i < to,
        r is None ==> find_char(s@.subrange(from as int, to as int), c) is None,
{
    let mut i = from;
    while i < to
        invariant
            from <= i <= to,
            to <= s.len(),
            forall|j: int| from <= j < i ==> s@[j] != c,
        decreases to - i,
    {
        if s[i] == c {
            proof {
                lemma_find_char_at(s@.subrange(from as int, to as int), c, i - from);
            }
            return Some(i);
        }
        i += 1;
    }
    proof {
        lemma_find_char_none(s@.subrange(from as int, to as int), c);
    }
    None
}

pub open spec fn strip_cr(s: Seq<char>) -> Seq<char> {
    if s.len() > 0 && s.last() == '\r' {
        s.drop_last()
    } else {
        s
    }
}

/// `str::lines`: split at `\n`, dropping a `\r` directly before it; a
/// final line ending is optional and adds no empty line.
pub open spec fn lines(s: Seq<char>) -> Seq<Seq<char>>
    decreases s.len(),
{
    if s.len() == 0 {
        seq![]
    } else {
        match find_char(s, '\n') {
            Some(i) => {
                if 0 <= i < s.len() {
                    seq![strip_cr(s.take(i))] + lines(s.skip(i + 1))
                } else {
                    seq![]
                }
            },
            None => seq![s],
        }
    }
}

/// The next line of `s` starting at `start`: returns the line's end (after a
/// `\r` is dropped) and where the following line starts.
pub fn next_line(s: &[char], start: usize) -> (r: (usize, usize))
    requires
        start < s.len(),
    ensures
        start <= r.0 <= r.1,
        r.1 <= s.len(),
        r.1 > start,
        lines(s@.skip(start as int)) == seq![s@.subrange(start as int, r.0 as int)] + lines(
            s@.skip(r.1 as int),
        ),
{
    let ghost rest = s@.skip(start as int);
    proof {
        lemma_find_char(rest, '\n');
    }
    match find_from(s, start, s.len(), '\n') {
        Some(i) => {
            assert(s@.subrange(start as int, s.len() as int) =~= rest);
            assert(rest.skip(i - start + 1) =~= s@.skip(i + 1));
            assert(rest.take(i - start) =~= s@.subrange(start as int, i as int));
            let e = if i > start && s[i - 1] == '\r' {
                i - 1
            } else {
                i
            };
            assert(strip_cr(rest.take(i - start)) =~= s@.subrange(start as int, e as int));
            (e, i + 1)
        },
        None => {
            assert(s@.subrange(start as int, s.len() as int) =~= rest);
            assert(s@.skip(s.len() as int) =~= Seq::<char>::empty());
            assert(rest =~= s@.subrange(start as int, s.len() as int));
            (s.len(), s.len())
        },
    }
}

/// The decimal digit character for `d < 10`.
pub open spec fn digit_char(d: nat) -> char {
    (('0' as u8) + d) as char
}

/// The decimal representation of `n`, without leading zeros.
pub open spec fn decimal(n: nat) -> Seq<char>
    decreases n,
{
    if n < 10 {
        seq![digit_char(n)]
    } else {
        decimal(n / 10).push(digit_char(n % 10))
    }
}

/// Appends the decimal representation of `n`.
pub fn push_decimal(out: &mut Vec<char>, n: u64)
    ensures
        final(out)@ == old(out)@ + decimal(n as nat),
    decreases n,
{
    if n >= 10 {
        push_decimal(out, n / 10);
    }
    let d = (n % 10) as u8;
    out.push((48u8 + d) as char);
    proof {
        if n >= 10 {
            assert(decimal(n as nat) == decimal((n / 10) as nat).push(digit_char((n % 10) as nat)));
        }
    }
    assert(final(out)@ =~= old(out)@ + decimal(n as nat));
}

pub open spec fn is_digit(c: char) -> bool {
    '0' <= c && c <= '9'
}

pub open spec fn digit_val(c: char) -> nat {
    (c as u32 - '0' as u32) as nat
}

pub open spec fn all_digits(s: Seq<char>) -> bool {
    forall|i: int| 0 <= i < s.len() ==> is_digit(#[trigger] s[i])
}

/// Value of a string of decimal digits.
pub open spec fn digits_value(s: Seq<char>) -> nat
    decreases s.len(),
{
    if s.len() == 0 {
        0
    } else {
        digits_value(s.drop_last()) * 10 + digit_val(s.last())
    }
}

/// `str::parse` for an unsigned integer: an optional `+`, then one or more
/// decimal digits. Returns the mathematical value; range checks are separate.
pub open spec fn parse_uint(s: Seq<char>) -> Option<nat> {
    let d = if s.len() > 0 && s[0] == '+' {
        s.drop_first()
    } else {
        s
    };
    if d.len() > 0 && all_digits(d) {
        Some(digits_value(d))
    } else {
        None
    }
}

/// `str::parse::<T>()` for an unsigned type whose largest value is `max`.
pub open spec fn parse_uint_max(s: Seq<char>, max: nat) -> Option<nat> {
    match parse_uint(s) {
        Some(v) => if v <= max {
            Some(v)
        } else {
            None
        },
        None => None,
    }
}

proof fn lemma_digits_value_prefix(s: Seq<char>, i: int)
    requires
        0 <= i <= s.len(),
    ensures
        digits_value(s.take(i)) <= digits_value(s),
    decreases s.len(),
{
    if i < s.len() {
        assert(s.drop_last().take(i) =~= s.take(i));
        lemma_digits_value_prefix(s.drop_last(), i);
    } else {
        assert(s.take(i) =~= s);
    }
}

/// Parses `s[lo..hi]` as an unsigned integer no larger than `max`.
pub fn parse_uint_exec(s: &[char], lo: usize, hi: usize, max: u64) -> (r: Option<u64>)
    requires
        lo <= hi <= s.len(),
        max >= 9,
    ensures
        r matches Some(v) ==> parse_uint_max(s@.subrange(lo as int, hi as int), max as nat) == Some(
            v as nat,
        ),
        r is None ==> parse_uint_max(s@.subrange(lo as int, hi as int), max as nat) is None,
{
    let ghost t = s@.subrange(lo as int, hi as int);
    let start = if lo < hi && s[lo] == '+' {
        lo + 1
    } else {
        lo
    };
    let ghost d = s@.subrange(start as int, hi as int);
    assert(d =~= (if t.len() > 0 && t[0] == '+' {
        t.drop_first()
    } else {
        t
    }));
    if start >= hi {
        return None;
    }
    let mut v: u64 = 0;
    let mut i = start;
    while i < hi
        invariant
            start <= i <= hi <= s.len(),
            d == s@.subrange(start as int, hi as int),
            t == s@.subrange(lo as int, hi as int),
            d == (if t.len() > 0 && t[0] == '+' {
                t.drop_first()
            } else {
                t
            }),
            all_digits(d.take(i - start)),
            v as nat == digits_value(d.take(i - start)),
            v <= max,
            max >= 9,
        decreases hi - i,
    {
        let c = s[i];
        if !('0' <= c && c <= '9') {
            assert(d[i - start] == c);
            assert(!is_digit(d[i - start]));
            return None;
        }
        let dv = (c as u32 - '0' as u32) as u64;
        assert(d.take(i - start + 1).drop_last() =~= d.take(i - start));
        assert(d.take(i - start + 1).last() == c);
        if v > (max - dv) / 10 {
            proof {
                assert(digits_value(d.take(i - start + 1)) == v * 10 + dv);
                assert(v * 10 + dv > max) by (nonlinear_arith)
                    requires
                        v > (max - dv) / 10,
                        dv <= 9,
                        dv <= max,
                ;
                if all_digits(d) {
                    lemma_digits_value_prefix(d, i - start + 1);
                }
            }
            return None;
        }
        assert(v * 10 + dv <= max) by (nonlinear_arith)
            requires
                v <= (max - dv) / 10,
                dv <= 9,
        ;
        v = v * 10 + dv;
        i += 1;
        assert(all_digits(d.take(i - start)));
    }
    assert(d.take(hi - start) =~= d);
    Some(v)
}

/// Whether `s[lo..hi]` spells exactly `lit`.
pub fn range_eq_lit(s: &[char], lo: usize, hi: usize, lit: &str) -> (r: bool)
    requires
        lo <= hi <= s.len(),
    ensures
        r == (s@.subrange(lo as int, hi as int) == lit@),
{
    let l = chars_of(lit);
    if hi - lo != l.len() {
        return false;
    }
    let mut i: usize = 0;
    while i < l.len()
        invariant
            i <= l.len(),
            l.len() == hi - lo,
            lo <= hi <= s.len(),
            l@ == lit@,
            forall|j: int| 0 <= j < i ==> s@[lo + j] == l@[j],
        decreases l.len() - i,
    {
        if s[lo + i] != l[i] {
            assert(s@.subrange(lo as int, hi as int)[i as int] != l@[i as int]);
            return false;
        }
        i += 1;
    }
    assert(s@.subrange(lo as int, hi as int) =~= l@);
    true
}

/// Whether `s[lo..hi]` begins with `lit`.
pub fn range_starts_with_lit(s: &[char], lo: usize, hi: usize, lit: &str) -> (r: bool)
    requires
        lo <= hi <= s.len(),
    ensures
        r == (lit@.len() <= hi - lo && s@.subrange(lo as int, lo + lit@.len()) == lit@),
{
    let n = chars_of(lit).len();
    if n > hi - lo {
        return false;
    }
    range_eq_lit(s, lo, lo + n, lit)
}

/// A `String` holding `s[lo..hi]`.
pub fn string_of_range(s: &[char], lo: usize, hi: usize) -> (r: String)
    requires
        lo <= hi <= s.len(),
    ensures
        r@ == s@.subrange(lo as int, hi as int),
{
    let mut r = String::new();
    let mut i = lo;
    while i < hi
        invariant
            lo <= i <= hi <= s.len(),
            r@ == s@.subrange(lo as int, i as int),
        decreases hi - i,
    {
        push_char(&mut r, s[i]);
        i += 1;
        assert(r@ =~= s@.subrange(lo as int, i as int));
    }
    r
}

/// `Path::join` on Unix: an absolute `b` replaces `a`; otherwise `b` is
/// appended, with a `/` between unless `a` is empty or already ends in one.
pub open spec fn path_join(a: Seq<char>, b: Seq<char>) -> Seq<char> {
    if b.len() > 0 && b[0] == '/' {
        b
    } else if a.len() == 0 || a.last() == '/' {
        a + b
    } else {
        a + seq!['/'] + b
    }
}

/// Joins two paths as `Path::join` does on Unix.
pub fn join_path(a: &str, b: &str) -> (r: String)
    ensures
        r@ == path_join(a@, b@),
{
    let ac = chars_of(a);
    let bc = chars_of(b);
    if bc.len() > 0 && bc[0] == '/' {
        return string_of(&bc);
    }
    let mut out = ac;
    if out.len() > 0 && out[out.len() - 1] != '/' {
        out.push('/');
    }
    extend_from(&mut out, &bc);
    string_of(&out)
}

/// `str::split(c)` with the current piece `cur` already started.
pub open spec fn split_char_acc(x: Seq<char>, c: char, cur: Seq<char>) -> Seq<Seq<char>>
    decreases x.len(),
{
    if x.len() == 0 {
        seq![cur]
    } else if x[0] == c {
        seq![cur] + split_char_acc(x.drop_first(), c, Seq::empty())
    } else {
        split_char_acc(x.drop_first(), c, cur.push(x[0]))
    }
}

/// `str::split(c)`: the pieces between occurrences of `c`, empty ones included.
pub open spec fn split_char(x: Seq<char>, c: char) -> Seq<Seq<char>> {
    split_char_acc(x, c, Seq::empty())
}

/// `str::split_whitespace` with the current word `cur` already started.
pub open spec fn split_ws_acc(x: Seq<char>, cur: Seq<char>) -> Seq<Seq<char>>
    decreases x.len(),
{
    if x.len() == 0 {
        if cur.len() > 0 {
            seq![cur]
        } else {
            seq![]
        }
    } else if is_ws(x[0]) {
        (if cur.len() > 0 {
            seq![cur]
        } else {
            seq![]
        }) + split_ws_acc(x.drop_first(), Seq::empty())
    } else {
        split_ws_acc(x.drop_first(), cur.push(x[0]))
    }
}

/// `str::split_whitespace`: the maximal runs of non-whitespace characters.
pub open spec fn split_ws(x: Seq<char>) -> Seq<Seq<char>> {
    split_ws_acc(x, Seq::empty())
}

/// The pieces of `s` that a list of index ranges designates.
pub open spec fn ranges_view(s: Seq<char>, r: Seq<(usize, usize)>) -> Seq<Seq<char>> {
    r.map_values(|p: (usize, usize)| s.subrange(p.0 as int, p.1 as int))
}

pub open spec fn ranges_within(r: Seq<(usize, usize)>, lo: int, hi: int) -> bool {
    forall|k: int| 0 <= k < r.len() ==> lo <= (#[trigger] r[k]).0 <= r[k].1 <= hi
}

/// The pieces of `s[lo..hi]` split at `c`, as index ranges.
pub fn split_ranges(s: &[char], lo: usize, hi: usize, c: char) -> (r: Vec<(usize, usize)>)
    requires
        lo <= hi <= s.len(),
    ensures
        ranges_within(r@, lo as int, hi as int),
        ranges_view(s@, r@) == split_char(s@.subrange(lo as int, hi as int), c),
{
    let mut r: Vec<(usize, usize)> = Vec::new();
    let mut start = lo;
    let mut pos = lo;
    assert(s@.subrange(lo as int, lo as int) =~= Seq::<char>::empty());
    while pos < hi
        invariant
            lo <= start <= pos <= hi <= s.len(),
            ranges_within(r@, lo as int, hi as int),
            split_char(s@.subrange(lo as int, hi as int), c) == ranges_view(s@, r@)
                + split_char_acc(
                s@.subrange(pos as int, hi as int),
                c,
                s@.subrange(start as int, pos as int),
            ),
        decreases hi - pos,
    {
        let ghost x = s@.subrange(pos as int, hi as int);
        assert(x.drop_first() =~= s@.subrange(pos + 1, hi as int));
        if s[pos] == c {
            let ghost old_r = r@;
            r.push((start, pos));
            assert(ranges_view(s@, r@) =~= ranges_view(s@, old_r).push(
                s@.subrange(start as int, pos as int),
            ));
            pos += 1;
            start = pos;
            assert(s@.subrange(start as int, pos as int) =~= Seq::<char>::empty());
        } else {
            assert(s@.subrange(start as int, pos as int).push(s@[pos as int]) =~= s@.subrange(
                start as int,
                pos + 1,
            ));
            pos += 1;
        }
    }
    let ghost old_r = r@;
    r.push((start, hi));
    assert(ranges_view(s@, r@) =~= ranges_view(s@, old_r).push(
        s@.subrange(start as int, hi as int),
    ));
    assert(s@.subrange(hi as int, hi as int) =~= Seq::<char>::empty());
    r
}

/// The whitespace-separated words of `s[lo..hi]`, as index ranges.
pub fn split_ws_ranges(s: &[char], lo: usize, hi: usize) -> (r: Vec<(usize, usize)>)
    requires
        lo <= hi <= s.len(),
    ensures
        ranges_within(r@, lo as int, hi as int),
        ranges_view(s@, r@) == split_ws(s@.subrange(lo as int, hi as int)),
{
    let mut r: Vec<(usize, usize)> = Vec::new();
    let mut start = lo;
    let mut pos = lo;
    assert(s@.subrange(lo as int, lo as int) =~= Seq::<char>::empty());
    while pos < hi
        invariant
            lo <= start <= pos <= hi <= s.len(),
            ranges_within(r@, lo as int, hi as int),
            split_ws(s@.subrange(lo as int, hi as int)) == ranges_view(s@, r@) + split_ws_acc(
                s@.subrange(pos as int, hi as int),
                s@.subrange(start as int, pos as int),
            ),
        decreases hi - pos,
    {
        let ghost x = s@.subrange(pos as int, hi as int);
        assert(x.drop_first() =~= s@.subrange(pos + 1, hi as int));
        if is_whitespace(s[pos]) {
            if start < pos {
                let ghost old_r = r@;
                r.push((start, pos));
                assert(ranges_view(s@, r@) =~= ranges_view(s@, old_r).push(
                    s@.subrange(start as int, pos as int),
                ));
            } else {
                assert(s@.subrange(start as int, pos as int).len() == 0);
            }
            pos += 1;
            start = pos;
            assert(s@.subrange(start as int, pos as int) =~= Seq::<char>::empty());
        } else {
            assert(s@.subrange(start as int, pos as int).push(s@[pos as int]) =~= s@.subrange(
                start as int,
                pos + 1,
            ));
            pos += 1;
        }
    }
    if start < hi {
        let ghost old_r = r@;
        r.push((start, hi));
        assert(ranges_view(s@, r@) =~= ranges_view(s@, old_r).push(
            s@.subrange(start as int, hi as int),
        ));
    } else {
        assert(s@.subrange(start as int, hi as int).len() == 0);
        assert(ranges_view(s@, r@) + seq![] =~= ranges_view(s@, r@));
    }
    r
}

pub open spec fn is_hex(c: char) -> bool {
    ('0' <= c && c <= '9') || ('a' <= c && c <= 'f') || ('A' <= c && c <= 'F')
}

pub open spec fn hex_val(c: char) -> nat {
    if '0' <= c && c <= '9' {
        (c as u32 - '0' as u32) as nat
    } else if 'a' <= c && c <= 'f' {
        (c as u32 - 'a' as u32 + 10) as nat
    } else {
        (c as u32 - 'A' as u32 + 10) as nat
    }
}

pub open spec fn all_hex(d: Seq<char>) -> bool {
    forall|i: int| 0 <= i < d.len() ==> is_hex(#[trigger] d[i])
}

pub open spec fn hex_digits_value(s: Seq<char>) -> nat
    decreases s.len(),
{
    if s.len() == 0 {
        0
    } else {
        hex_digits_value(s.drop_last()) * 16 + hex_val(s.last())
    }
}

/// `usize::from_str_radix(s, 16)`: an optional `+`, then one or more hex
/// digits of either case, with a value no larger than `usize::MAX`.
pub open spec fn parse_hex(s: Seq<char>) -> Option<nat> {
    let d = if s.len() > 0 && s[0] == '+' {
        s.drop_first()
    } else {
        s
    };
    if d.len() > 0 && all_hex(d) && hex_digits_value(d) <= usize::MAX {
        Some(hex_digits_value(d))
    } else {
        None
    }
}

proof fn lemma_hex_value_prefix(s: Seq<char>, i: int)
    requires
        0 <= i <= s.len(),
    ensures
        hex_digits_value(s.take(i)) <= hex_digits_value(s),
    decreases s.len(),
{
    if i < s.len() {
        assert(s.drop_last().take(i) =~= s.take(i));
        lemma_hex_value_prefix(s.drop_last(), i);
    } else {
        assert(s.take(i) =~= s);
    }
}

/// Parses `s[lo..hi]` as a hexadecimal `usize`.
pub fn parse_hex_exec(s: &[char], lo: usize, hi: usize) -> (r: Option<usize>)
    requires
        lo <= hi <= s.len(),
    ensures
        r matches Some(v) ==> parse_hex(s@.subrange(lo as int, hi as int)) == Some(v as nat),
        r is None ==> parse_hex(s@.subrange(lo as int, hi as int)) is None,
{
    let ghost t = s@.subrange(lo as int, hi as int);
    let start = if lo < hi && s[lo] == '+' {
        lo + 1
    } else {
        lo
    };
    let ghost d = s@.subrange(start as int, hi as int);
    assert(d =~= (if t.len() > 0 && t[0] == '+' {
        t.drop_first()
    } else {
        t
    }));
    if start >= hi {
        return None;
    }
    let mut v: usize = 0;
    let mut i = start;
    while i < hi
        invariant
            start <= i <= hi <= s.len(),
            d == s@.subrange(start as int, hi as int),
            t == s@.subrange(lo as int, hi as int),
            d == (if t.len() > 0 && t[0] == '+' {
                t.drop_first()
            } else {
                t
            }),
            forall|j: int| 0 <= j < i - start ==> is_hex(#[trigger] d[j]),
            v as nat == hex_digits_value(d.take(i - start)),
        decreases hi - i,
    {
        let c = s[i];
        assert(d[i - start] == c);
        let dv: usize = if '0' <= c && c <= '9' {
            (c as u32 - '0' as u32) as usize
        } else if 'a' <= c && c <= 'f' {
            (c as u32 - 'a' as u32 + 10) as usize
        } else if 'A' <= c && c <= 'F' {
            (c as u32 - 'A' as u32 + 10) as usize
        } else {
            assert(!is_hex(d[i - start]));
            assert(!all_hex(d));
            return None;
        };
        assert(dv == hex_val(c) && dv < 16);
        assert(d.take(i - start + 1).drop_last() =~= d.take(i - start));
        assert(d.take(i - start + 1).last() == c);
        if v > (usize::MAX - dv) / 16 {
            proof {
                assert(hex_digits_value(d.take(i - start + 1)) == v * 16 + dv);
                assert(v * 16 + dv > usize::MAX) by (nonlinear_arith)
                    requires
                        v > (usize::MAX - dv) / 16,
                        dv < 16,
                ;
                lemma_hex_value_prefix(d, i - start + 1);
            }
            return None;
        }
        assert(v * 16 + dv <= usize::MAX) by (nonlinear_arith)
            requires
                v <= (usize::MAX - dv) / 16,
                dv < 16,
        ;
        v = v * 16 + dv;
        i += 1;
    }
    assert(d.take(hi - start) =~= d);
    Some(v)
}

pub open spec fn is_octal(c: char) -> bool {
    '0' <= c && c <= '7'
}

pub open spec fn all_octal(d: Seq<char>) -> bool {
    forall|i: int| 0 <= i < d.len() ==> is_octal(#[trigger] d[i])
}

pub open spec fn octal_digits_value(s: Seq<char>) -> nat
    decreases s.len(),
{
    if s.len() == 0 {
        0
    } else {
        octal_digits_value(s.drop_last()) * 8 + (s.last() as u32 - '0' as u32) as nat
    }
}

/// `u64::from_str_radix(s, 8)`: an optional `+`, then one or more octal
/// digits, with a value no larger than `u64::MAX`.
pub open spec fn parse_octal(s: Seq<char>) -> Option<nat> {
    let d = if s.len() > 0 && s[0] == '+' {
        s.drop_first()
    } else {
        s
    };
    if d.len() > 0 && all_octal(d) && octal_digits_value(d) <= u64::MAX {
        Some(octal_digits_value(d))
    } else {
        None
    }
}

proof fn lemma_octal_value_prefix(s: Seq<char>, i: int)
    requires
        0 <= i <= s.len(),
    ensures
        octal_digits_value(s.take(i)) <= octal_digits_value(s),
    decreases s.len(),
{
    if i < s.len() {
        assert(s.drop_last().take(i) =~= s.take(i));
        lemma_octal_value_prefix(s.drop_last(), i);
    } else {
        assert(s.take(i) =~= s);
    }
}

/// Parses `s[lo..hi]` as an octal `u64`.
pub fn parse_octal_exec(s: &[char], lo: usize, hi: usize) -> (r: Option<u64>)
    requires
        lo <= hi <= s.len(),
    ensures
        r matches Some(v) ==> parse_octal(s@.subrange(lo as int, hi as int)) == Some(v as nat),
        r is None ==> parse_octal(s@.subrange(lo as int, hi as int)) is None,
{
    let ghost t = s@.subrange(lo as int, hi as int);
    let start = if lo < hi && s[lo] == '+' {
        lo + 1
    } else {
        lo
    };
    let ghost d = s@.subrange(start as int, hi as int);
    assert(d =~= (if t.len() > 0 && t[0] == '+' {
        t.drop_first()
    } else {
        t
    }));
    if start >= hi {
        return None;
    }
    let mut v: u64 = 0;
    let mut i = start;
    while i < hi
        invariant
            start <= i <= hi <= s.len(),
            d == s@.subrange(start as int, hi as int),
            t == s@.subrange(lo as int, hi as int),
            d == (if t.len() > 0 && t[0] == '+' {
                t.drop_first()
            } else {
                t
            }),
            forall|j: int| 0 <= j < i - start ==> is_octal(#[trigger] d[j]),
            v as nat == octal_digits_value(d.take(i - start)),
        decreases hi - i,
    {
        let c = s[i];
        assert(d[i - start] == c);
        if !('0' <= c && c <= '7') {
            assert(!is_octal(d[i - start]));
            assert(!all_octal(d));
            return None;
        }
        let dv: u64 = (c as u32 - '0' as u32) as u64;
        assert(d.take(i - start + 1).drop_last() =~= d.take(i - start));
        assert(d.take(i - start + 1).last() == c);
        if v > (u64::MAX - dv) / 8 {
            proof {
                assert(octal_digits_value(d.take(i - start + 1)) == v * 8 + dv);
                assert(v * 8 + dv > u64::MAX) by (nonlinear_arith)
                    requires
                        v > (u64::MAX - dv) / 8,
                        dv < 8,
                ;
                lemma_octal_value_prefix(d, i - start + 1);
            }
            return None;
        }
        assert(v * 8 + dv <= u64::MAX) by (nonlinear_arith)
            requires
                v <= (u64::MAX - dv) / 8,
                dv < 8,
        ;
        v = v * 8 + dv;
        i += 1;
    }
    assert(d.take(hi - start) =~= d);
    Some(v)
}

proof fn lemma_digit_char(d: nat)
    requires
        d < 10,
    ensures
        is_digit(digit_char(d)),
        digit_val(digit_char(d)) == d,
{
    let c = digit_char(d);
    assert(c as u32 == 48 + d);
}

/// The decimal digits of `n` read back as `n`.
pub proof fn lemma_decimal(n: nat)
    ensures
        decimal(n).len() > 0,
        all_digits(decimal(n)),
        digits_value(decimal(n)) == n,
    decreases n,
{
    lemma_digit_char(n % 10);
    if n >= 10 {
        lemma_decimal(n / 10);
        let d = decimal(n / 10);
        let e = d.push(digit_char(n % 10));
        assert(e.drop_last() =~= d);
        assert forall|i: int| 0 <= i < e.len() implies is_digit(#[trigger] e[i]) by {
            if i < d.len() {
                assert(e[i] == d[i]);
            }
        }
        assert((n / 10) * 10 + n % 10 == n) by (nonlinear_arith);
        assert(decimal(n) == e);
        assert(digits_value(e) == digits_value(d) * 10 + digit_val(e.last()));
        assert(e.last() == digit_char(n % 10));
    } else {
        let e = seq![digit_char(n)];
        assert(e.drop_last() =~= Seq::<char>::empty());
        assert(decimal(n) == e);
        assert(digits_value(e) == digits_value(e.drop_last()) * 10 + digit_val(e.last()));
        assert(digits_value(Seq::<char>::empty()) == 0);
    }
}

/// Decimal digits parse back to their value.
pub proof fn lemma_parse_decimal(n: nat, max: nat)
    requires
        n <= max,
    ensures
        parse_uint_max(decimal(n), max) == Some(n),
{
    lemma_decimal(n);
    assert(is_digit(decimal(n)[0]));
}

/// A string with no whitespace at either end is its own trim.
pub proof fn lemma_trim_id(s: Seq<char>)
    requires
        s.len() > 0,
        !is_ws(s[0]),
        !is_ws(s.last()),
    ensures
        trim(s) == s,
{
    lemma_lead_ws_zero(s);
    lemma_trail_ws_zero(s);
}

} // verus!

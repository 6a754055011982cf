//! JSON values and a recursive-descent parser for them, with the small
//! builders and accessors the registry client and dashboard use.
//!
//! A number is kept as the text it was written with; turning it into a
//! floating-point value is left to the caller.
use vstd::prelude::*;
use vstd::string::StringSliceAdditionalSpecFns;
use crate::text::{
    push_char, string_of, chars_of, extend_chars, push_decimal, decimal, all_digits, digits_value, is_digit,
    parse_uint_exec,
};
use crate::webtext::{escape_json_string, json_escape_all};

verus! {

/// A JSON value.
#[derive(Debug)]
pub enum JsonValue {
    Null,
    Bool(bool),
    /// A number, as the text of its literal.
    Number(String),
    Str(String),
    Array(Vec<JsonValue>),
    /// Members in the order their keys first appeared; each key once.
    Object(Vec<(String, JsonValue)>),
}

/// The mathematical form of a JSON value.
pub enum Json {
    Null,
    Bool(bool),
    Number(Seq<char>),
    Str(Seq<char>),
    Array(Seq<Json>),
    Object(Seq<(Seq<char>, Json)>),
}

impl JsonValue {
    /// The mathematical form of this value.
    pub open spec fn json(self) -> Json
        decreases self,
    {
        match self {
            JsonValue::Null => Json::Null,
            JsonValue::Bool(b) => Json::Bool(b),
            JsonValue::Number(n) => Json::Number(n@),
            JsonValue::Str(s) => Json::Str(s@),
            JsonValue::Array(v) => Json::Array(json_seq(v@)),
            JsonValue::Object(m) => Json::Object(json_members(m@)),
        }
    }
}

/// The mathematical forms of a sequence of values.
pub open spec fn json_seq(s: Seq<JsonValue>) -> Seq<Json>
    decreases s,
{
    if s.len() == 0 {
        Seq::empty()
    } else {
        json_seq(s.subrange(0, s.len() - 1)).push(s[s.len() - 1].json())
    }
}

/// The mathematical forms of a sequence of members.
pub open spec fn json_members(s: Seq<(String, JsonValue)>) -> Seq<(Seq<char>, Json)>
    decreases s,
{
    if s.len() == 0 {
        Seq::empty()
    } else {
        json_members(s.subrange(0, s.len() - 1)).push((s[s.len() - 1].0@, s[s.len() - 1].1.json()))
    }
}


// ----- The grammar, as a recursive-descent reading of bytes -----

/// JSON insignificant whitespace: space, tab, newline, carriage return.
pub open spec fn is_json_ws(b: u8) -> bool {
    b == 32 || b == 9 || b == 10 || b == 13
}

/// The first position at or after `p` that is not whitespace.
pub open spec fn skip_ws(s: Seq<u8>, p: int) -> int
    decreases s.len() - p,
{
    if 0 <= p < s.len() && is_json_ws(s[p]) {
        skip_ws(s, p + 1)
    } else {
        p
    }
}

pub proof fn lemma_skip_ws(s: Seq<u8>, p: int)
    ensures
        skip_ws(s, p) >= p,
        0 <= p <= s.len() ==> skip_ws(s, p) <= s.len(),
        0 <= p ==> (skip_ws(s, p) < s.len() ==> !is_json_ws(s[skip_ws(s, p)])),
        forall|i: int| p <= i < skip_ws(s, p) ==> 0 <= i < s.len() && is_json_ws(#[trigger] s[i]),
    decreases s.len() - p,
{
    if 0 <= p < s.len() && is_json_ws(s[p]) {
        lemma_skip_ws(s, p + 1);
    }
}

pub open spec fn is_digit_byte(b: u8) -> bool {
    48 <= b <= 57
}

pub open spec fn is_hex_byte(b: u8) -> bool {
    (48 <= b <= 57) || (97 <= b <= 102) || (65 <= b <= 70)
}

pub open spec fn hex_byte_val(b: u8) -> int {
    if 48 <= b <= 57 {
        b - 48
    } else if 97 <= b <= 102 {
        b - 97 + 10
    } else {
        b - 65 + 10
    }
}

/// The value of four hex digits at `p`, if there are four.
pub open spec fn hex4_at(s: Seq<u8>, p: int) -> Option<u32> {
    if 0 <= p && p + 4 <= s.len() && is_hex_byte(s[p]) && is_hex_byte(s[p + 1]) && is_hex_byte(s[p + 2])
        && is_hex_byte(s[p + 3]) {
        Some((hex_byte_val(s[p]) * 4096 + hex_byte_val(s[p + 1]) * 256 + hex_byte_val(s[p + 2]) * 16
            + hex_byte_val(s[p + 3])) as u32)
    } else {
        None
    }
}

/// Whether `u` is a Unicode scalar value, one that `char` can hold.
pub open spec fn is_scalar(u: u32) -> bool {
    u < 0xD800 || (0xE000 <= u && u <= 0x10FFFF)
}

/// The character an escape letter stands for (`\"`, `\\`, `\/`, `\n`, ...).
pub open spec fn simple_escape(e: u8) -> Option<char> {
    if e == 34 {
        Some('"')
    } else if e == 92 {
        Some('\\')
    } else if e == 47 {
        Some('/')
    } else if e == 110 {
        Some('\n')
    } else if e == 114 {
        Some('\r')
    } else if e == 116 {
        Some('\t')
    } else if e == 98 {
        Some('\x08')
    } else if e == 102 {
        Some('\x0c')
    } else {
        None
    }
}

/// A UTF-8 continuation byte.
pub open spec fn is_cont(b: u8) -> bool {
    0x80 <= b <= 0xBF
}

/// The character a multi-byte UTF-8 sequence starting at `p` encodes, and
/// the sequence's length: a two-, three- or four-byte sequence in its
/// shortest form for a Unicode scalar value; `None` for anything else.
pub open spec fn utf8_char_at(s: Seq<u8>, p: int) -> Option<(char, int)> {
    if p < 0 || p >= s.len() {
        None
    } else {
        let b0 = s[p];
        if 0xC2 <= b0 <= 0xDF && p + 1 < s.len() && is_cont(s[p + 1]) {
            let cp = (b0 - 0xC0) * 64 + (s[p + 1] - 0x80);
            Some(((cp as u32) as char, 2))
        } else if 0xE0 <= b0 <= 0xEF && p + 2 < s.len() && is_cont(s[p + 1]) && is_cont(s[p + 2]) {
            let cp = (b0 - 0xE0) * 4096 + (s[p + 1] - 0x80) * 64 + (s[p + 2] - 0x80);
            if cp >= 0x800 && is_scalar(cp as u32) {
                Some(((cp as u32) as char, 3))
            } else {
                None
            }
        } else if 0xF0 <= b0 <= 0xF4 && p + 3 < s.len() && is_cont(s[p + 1]) && is_cont(s[p + 2]) && is_cont(
            s[p + 3],
        ) {
            let cp = (b0 - 0xF0) * 262144 + (s[p + 1] - 0x80) * 4096 + (s[p + 2] - 0x80) * 64 + (s[p + 3]
                - 0x80);
            if 0x10000 <= cp <= 0x10FFFF {
                Some(((cp as u32) as char, 4))
            } else {
                None
            }
        } else {
            None
        }
    }
}

/// Decodes the multi-byte UTF-8 sequence at `p`.
fn utf8_char_exec(s: &[u8], p: usize) -> (r: Option<(char, usize)>)
    requires
        p < s@.len(),
    ensures
        match utf8_char_at(s@, p as int) {
            Some((c, w)) => r == Some((c, w as usize)) && 2 <= w && p + w <= s@.len(),
            None => r is None,
        },
        r matches Some((c2, w2)) ==> 2 <= w2 <= 4 && p + w2 <= s@.len(),
{
    let n = s.len();
    let b0 = s[p];
    if 0xC2 <= b0 && b0 <= 0xDF && n - p > 1 && 0x80 <= s[p + 1] && s[p + 1] <= 0xBF {
        let cp: u32 = (b0 as u32 - 0xC0) * 64 + (s[p + 1] as u32 - 0x80);
        match char_from_u32(cp) {
            Some(c) => Some((c, 2)),
            None => None,
        }
    } else if 0xE0 <= b0 && b0 <= 0xEF && n - p > 2 && 0x80 <= s[p + 1] && s[p + 1] <= 0xBF && 0x80 <= s[p + 2]
        && s[p + 2] <= 0xBF {
        let cp: u32 = (b0 as u32 - 0xE0) * 4096 + (s[p + 1] as u32 - 0x80) * 64 + (s[p + 2] as u32 - 0x80);
        if cp < 0x800 {
            return None;
        }
        match char_from_u32(cp) {
            Some(c) => Some((c, 3)),
            None => None,
        }
    } else if 0xF0 <= b0 && b0 <= 0xF4 && n - p > 3 && 0x80 <= s[p + 1] && s[p + 1] <= 0xBF && 0x80 <= s[p + 2]
        && s[p + 2] <= 0xBF && 0x80 <= s[p + 3] && s[p + 3] <= 0xBF {
        let cp: u32 = (b0 as u32 - 0xF0) * 262144 + (s[p + 1] as u32 - 0x80) * 4096 + (s[p + 2] as u32 - 0x80) * 64
            + (s[p + 3] as u32 - 0x80);
        if cp < 0x10000 || cp > 0x10FFFF {
            return None;
        }
        match char_from_u32(cp) {
            Some(c) => Some((c, 4)),
            None => None,
        }
    } else {
        None
    }
}

/// Reads the rest of a string from `p` (just past the opening quote or
/// past earlier characters), `acc` holding what was read so far; gives the
/// characters and the position past the closing quote. An ASCII byte that
/// is not part of an escape is that character; other bytes are decoded as
/// UTF-8 (`utf8_char_at`), and invalid UTF-8 gives nothing. `\u` escapes
/// give their character; a high surrogate must be followed by `\u` and a
/// low one, the pair giving one character, while an unpaired low surrogate,
/// or a high one followed by anything but a low one, gives nothing.
pub open spec fn str_body(s: Seq<u8>, p: int, acc: Seq<char>) -> Option<(Seq<char>, int)>
    decreases s.len() - p,
{
    if p < 0 || p >= s.len() {
        None
    } else if s[p] == 34 {
        Some((acc, p + 1))
    } else if s[p] == 92 {
        if p + 1 >= s.len() {
            None
        } else if s[p + 1] == 117 {
            match hex4_at(s, p + 2) {
                None => None,
                Some(h) => if is_scalar(h) {
                    str_body(s, p + 6, acc.push(h as char))
                } else if 0xD800 <= h && h <= 0xDBFF {
                    if p + 7 < s.len() && s[p + 6] == 92 && s[p + 7] == 117 {
                        match hex4_at(s, p + 8) {
                            None => None,
                            Some(lo) => if 0xDC00 <= lo && lo <= 0xDFFF {
                                str_body(s, p + 12, acc.push((0x10000 + (h - 0xD800) * 1024 + (lo - 0xDC00)) as char))
                            } else {
                                str_body(s, p + 12, acc)
                            },
                        }
                    } else {
                        None
                    }
                } else {
                    str_body(s, p + 6, acc)
                },
            }
        } else {
            match simple_escape(s[p + 1]) {
                Some(c) => str_body(s, p + 2, acc.push(c)),
                None => None,
            }
        }
    } else if s[p] < 128 {
        str_body(s, p + 1, acc.push(s[p] as char))
    } else {
        match utf8_char_at(s, p) {
            Some((c, w)) => str_body(s, p + w, acc.push(c)),
            None => None,
        }
    }
}

/// A string starting with its opening quote at `p`.
pub open spec fn string_at(s: Seq<u8>, p: int) -> Option<(Seq<char>, int)> {
    if 0 <= p < s.len() && s[p] == 34 {
        str_body(s, p + 1, Seq::empty())
    } else {
        None
    }
}

/// The end of a run of decimal digits starting at `p`.
pub open spec fn digits_end(s: Seq<u8>, p: int) -> int
    decreases s.len() - p,
{
    if 0 <= p < s.len() && is_digit_byte(s[p]) {
        digits_end(s, p + 1)
    } else {
        p
    }
}

/// The end of a number literal at `p`: an optional minus, `0` or a digit
/// run not starting with `0`, an optional fraction with at least one digit,
/// an optional exponent with optional sign and at least one digit.
pub open spec fn number_end(s: Seq<u8>, p: int) -> Option<int> {
    let a = if 0 <= p < s.len() && s[p] == 45 { p + 1 } else { p };
    let b = if 0 <= a < s.len() && s[a] == 48 {
        Some(a + 1)
    } else if 0 <= a < s.len() && 49 <= s[a] <= 57 {
        Some(digits_end(s, a + 1))
    } else {
        None
    };
    match b {
        None => None,
        Some(b) => {
            let c = if b < s.len() && s[b] == 46 {
                if digits_end(s, b + 1) == b + 1 {
                    None
                } else {
                    Some(digits_end(s, b + 1))
                }
            } else {
                Some(b)
            };
            match c {
                None => None,
                Some(c) => if c < s.len() && (s[c] == 101 || s[c] == 69) {
                    let e1 = if c + 1 < s.len() && (s[c + 1] == 43 || s[c + 1] == 45) { c + 2 } else { c + 1 };
                    if digits_end(s, e1) == e1 {
                        None
                    } else {
                        Some(digits_end(s, e1))
                    }
                } else {
                    Some(c)
                },
            }
        },
    }
}

/// Bytes read as characters of the same code (number literals, which are
/// ASCII).
pub open spec fn byte_text(b: Seq<u8>) -> Seq<char> {
    b.map_values(|x: u8| x as char)
}

/// Whether the bytes at `p` begin with `lit`.
pub open spec fn has_lit(s: Seq<u8>, p: int, lit: Seq<u8>) -> bool {
    0 <= p && p + lit.len() <= s.len() && s.subrange(p, p + lit.len()) == lit
}

/// Position of the member with key `k`, or -1.
pub open spec fn member_index(m: Seq<(Seq<char>, Json)>, k: Seq<char>) -> int
    decreases m.len(),
{
    if m.len() == 0 {
        -1
    } else if m[m.len() - 1].0 == k && member_index(m.drop_last(), k) == -1 {
        m.len() - 1
    } else {
        member_index(m.drop_last(), k)
    }
}

/// Sets member `k` to `v`: in place when the key is there, else at the end.
pub open spec fn member_insert(m: Seq<(Seq<char>, Json)>, k: Seq<char>, v: Json) -> Seq<(Seq<char>, Json)> {
    if member_index(m, k) >= 0 {
        m.update(member_index(m, k), (k, v))
    } else {
        m.push((k, v))
    }
}

/// Reads a value after optional whitespace at `p`; gives it and the
/// position just past it.
pub open spec fn value_at(s: Seq<u8>, p: int) -> Option<(Json, int)>
    decreases s.len() - p, 1int,
{
    let q = skip_ws(s, p);
    if q < 0 || q >= s.len() {
        None
    } else {
        proof {
            lemma_skip_ws(s, p);
        }
        let b = s[q];
        if b == 34 {
            match string_at(s, q) {
                Some((t, e)) => Some((Json::Str(t), e)),
                None => None,
            }
        } else if b == 123 {
            object_at(s, q)
        } else if b == 91 {
            array_at(s, q)
        } else if b == 116 || b == 102 {
            if has_lit(s, q, seq![116u8, 114u8, 117u8, 101u8]) {
                Some((Json::Bool(true), q + 4))
            } else if has_lit(s, q, seq![102u8, 97u8, 108u8, 115u8, 101u8]) {
                Some((Json::Bool(false), q + 5))
            } else {
                None
            }
        } else if b == 110 {
            if has_lit(s, q, seq![110u8, 117u8, 108u8, 108u8]) {
                Some((Json::Null, q + 4))
            } else {
                None
            }
        } else if b == 45 || is_digit_byte(b) {
            match number_end(s, q) {
                Some(e) => Some((Json::Number(byte_text(s.subrange(q, e))), e)),
                None => None,
            }
        } else {
            None
        }
    }
}

/// An array whose `[` is at `q`.
pub open spec fn array_at(s: Seq<u8>, q: int) -> Option<(Json, int)>
    decreases s.len() - q, 0int,
{
    if q < 0 || q >= s.len() {
        None
    } else {
        let r = skip_ws(s, q + 1);
        proof {
            lemma_skip_ws(s, q + 1);
        }
        if r < s.len() && s[r] == 93 {
            Some((Json::Array(Seq::empty()), r + 1))
        } else {
            elements_at(s, r, Seq::empty())
        }
    }
}

/// The elements of an array from `p` on, `acc` holding those read so far.
pub open spec fn elements_at(s: Seq<u8>, p: int, acc: Seq<Json>) -> Option<(Json, int)>
    decreases s.len() - p, 2int,
{
    match value_at(s, p) {
        None => None,
        Some((v, e)) => {
            let t = skip_ws(s, e);
            if t + 1 <= p || t >= s.len() || t < 0 {
                None
            } else if s[t] == 44 {
                elements_at(s, t + 1, acc.push(v))
            } else if s[t] == 93 {
                Some((Json::Array(acc.push(v)), t + 1))
            } else {
                None
            }
        },
    }
}

/// An object whose `{` is at `q`.
pub open spec fn object_at(s: Seq<u8>, q: int) -> Option<(Json, int)>
    decreases s.len() - q, 0int,
{
    if q < 0 || q >= s.len() {
        None
    } else {
        let r = skip_ws(s, q + 1);
        proof {
            lemma_skip_ws(s, q + 1);
        }
        if r < s.len() && s[r] == 125 {
            Some((Json::Object(Seq::empty()), r + 1))
        } else {
            members_at(s, r, Seq::empty())
        }
    }
}

/// The members of an object from `p` on, `acc` holding those read so far;
/// a repeated key keeps its place and takes the later value.
pub open spec fn members_at(s: Seq<u8>, p: int, acc: Seq<(Seq<char>, Json)>) -> Option<(Json, int)>
    decreases s.len() - p, 2int,
{
    let k0 = skip_ws(s, p);
    match string_at(s, k0) {
        None => None,
        Some((key, e)) => {
            let c = skip_ws(s, e);
            if c + 1 <= p || c >= s.len() || s[c] != 58 {
                None
            } else {
                match value_at(s, c + 1) {
                    None => None,
                    Some((v, e2)) => {
                        let t = skip_ws(s, e2);
                        if t + 1 <= p || t >= s.len() || t < 0 {
                            None
                        } else if s[t] == 44 {
                            members_at(s, t + 1, member_insert(acc, key, v))
                        } else if s[t] == 125 {
                            Some((Json::Object(member_insert(acc, key, v)), t + 1))
                        } else {
                            None
                        }
                    },
                }
            }
        },
    }
}

/// A whole JSON document: one value with only whitespace after it.
pub open spec fn parse_json(s: Seq<u8>) -> Option<Json> {
    match value_at(s, 0) {
        Some((v, e)) => if skip_ws(s, e) >= s.len() {
            Some(v)
        } else {
            None
        },
        None => None,
    }
}


// ----- Lemmas on the mathematical forms -----

pub proof fn lemma_json_seq(s: Seq<JsonValue>)
    ensures
        json_seq(s).len() == s.len(),
        forall|i: int| 0 <= i < s.len() ==> #[trigger] json_seq(s)[i] == s[i].json(),
    decreases s.len(),
{
    if s.len() > 0 {
        lemma_json_seq(s.subrange(0, s.len() - 1));
    }
}

pub proof fn lemma_json_members(s: Seq<(String, JsonValue)>)
    ensures
        json_members(s).len() == s.len(),
        forall|i: int| 0 <= i < s.len() ==> #[trigger] json_members(s)[i] == (s[i].0@, s[i].1.json()),
    decreases s.len(),
{
    if s.len() > 0 {
        lemma_json_members(s.subrange(0, s.len() - 1));
    }
}

proof fn lemma_json_seq_push(s: Seq<JsonValue>, v: JsonValue)
    ensures
        json_seq(s.push(v)) == json_seq(s).push(v.json()),
{
    lemma_json_seq(s);
    lemma_json_seq(s.push(v));
    assert(json_seq(s.push(v)) =~= json_seq(s).push(v.json()));
}

pub proof fn lemma_member_index(m: Seq<(Seq<char>, Json)>, k: Seq<char>)
    ensures
        -1 <= member_index(m, k) < m.len(),
        member_index(m, k) >= 0 ==> m[member_index(m, k)].0 == k,
        member_index(m, k) == -1 ==> forall|i: int| 0 <= i < m.len() ==> #[trigger] m[i].0 != k,
        member_index(m, k) >= 0 ==> forall|i: int| 0 <= i < member_index(m, k) ==> #[trigger] m[i].0 != k,
    decreases m.len(),
{
    if m.len() > 0 {
        let d = m.drop_last();
        lemma_member_index(d, k);
        if member_index(m, k) == -1 {
            assert forall|i: int| 0 <= i < m.len() implies #[trigger] m[i].0 != k by {
                if i < m.len() - 1 {
                    assert(d[i] == m[i]);
                }
            }
        }
        if member_index(m, k) >= 0 {
            assert forall|i: int| 0 <= i < member_index(m, k) implies #[trigger] m[i].0 != k by {
                assert(d[i] == m[i]);
            }
        }
    }
}

// ----- The parser -----

/// A reader over the bytes of a JSON text.
struct Parser<'a> {
    input: &'a [u8],
    pos: usize,
}

/// `text` followed by the decimal form of `n`.
fn text_at(text: &str, n: usize) -> (r: String)
    ensures
        r@ == text@ + decimal(n as nat),
{
    let mut v: Vec<char> = Vec::new();
    extend_chars(&mut v, text);
    push_decimal(&mut v, n as u64);
    string_of(&v)
}

/// The character with code `u`, if it is a Unicode scalar value (std's
/// `char::from_u32`).
#[verifier::external_body]
fn char_from_u32(u: u32) -> (r: Option<char>)
    ensures
        is_scalar(u) ==> r == Some(u as char),
        !is_scalar(u) ==> r is None,
{
    char::from_u32(u)
}

impl<'a> Parser<'a> {
    fn new(input: &'a str) -> (p: Parser<'a>)
        ensures
            p.input@ == input.spec_bytes(),
            p.pos == 0,
    {
        Parser { input: input.as_bytes(), pos: 0 }
    }

    fn peek(&self) -> (r: Option<u8>)
        ensures
            r == (if self.pos < self.input@.len() { Some(self.input@[self.pos as int]) } else { None }),
    {
        if self.pos < self.input.len() {
            Some(self.input[self.pos])
        } else {
            None
        }
    }

    fn advance(&mut self) -> (r: Option<u8>)
        ensures
            final(self).input == old(self).input,
            r == (if old(self).pos < old(self).input@.len() { Some(old(self).input@[old(self).pos as int]) } else { None }),
            final(self).pos == (if old(self).pos < old(self).input@.len() { old(self).pos + 1 } else { old(self).pos as int }),
    {
        if self.pos < self.input.len() {
            let b = self.input[self.pos];
            self.pos += 1;
            Some(b)
        } else {
            None
        }
    }

    fn skip_whitespace(&mut self)
        requires
            old(self).pos <= old(self).input@.len(),
        ensures
            final(self).input == old(self).input,
            final(self).pos == skip_ws(old(self).input@, old(self).pos as int),
            final(self).pos <= final(self).input@.len(),
    {
        let ghost p0 = self.pos as int;
        proof {
            lemma_skip_ws(self.input@, p0);
        }
        while self.pos < self.input.len() && (self.input[self.pos] == 32 || self.input[self.pos] == 9
            || self.input[self.pos] == 10 || self.input[self.pos] == 13)
            invariant
                self.input == old(self).input,
                p0 == old(self).pos,
                self.pos <= self.input@.len(),
                skip_ws(self.input@, self.pos as int) == skip_ws(self.input@, p0),
            decreases self.input@.len() - self.pos,
        {
            self.pos += 1;
        }
    }

    fn expect(&mut self, expected: u8) -> (r: Result<(), String>)
        ensures
            final(self).input == old(self).input,
            r is Ok <==> (old(self).pos < old(self).input@.len() && old(self).input@[old(self).pos as int] == expected),
            final(self).pos == (if old(self).pos < old(self).input@.len() { old(self).pos + 1 } else { old(self).pos as int }),
    {
        match self.advance() {
            Some(b) => if b == expected {
                Ok(())
            } else {
                let mut v: Vec<char> = Vec::new();
                extend_chars(&mut v, "expected '");
                v.push(expected as char);
                extend_chars(&mut v, "' but got '");
                v.push(b as char);
                extend_chars(&mut v, "' at position ");
                push_decimal(&mut v, (self.pos - 1) as u64);
                Err(string_of(&v))
            },
            None => {
                let mut v: Vec<char> = Vec::new();
                extend_chars(&mut v, "unexpected end of input, expected '");
                v.push(expected as char);
                v.push('\'');
                Err(string_of(&v))
            },
        }
    }

    fn parse_hex4(&mut self) -> (r: Result<u32, String>)
        requires
            old(self).pos <= old(self).input@.len(),
        ensures
            final(self).input == old(self).input,
            final(self).pos <= final(self).input@.len(),
            match hex4_at(old(self).input@, old(self).pos as int) {
                Some(h) => r == Ok::<u32, String>(h) && final(self).pos == old(self).pos + 4,
                None => r is Err,
            },
    {
        let ghost p0 = self.pos as int;
        let ghost inp = self.input@;
        let mut val: u32 = 0;
        let mut k: usize = 0;
        while k < 4
            invariant
                self.input == old(self).input,
                p0 == old(self).pos,
                self.input@ == inp,
                0 <= k <= 4,
                self.pos == p0 + k,
                p0 + k <= inp.len(),
                forall|j: int| p0 <= j < p0 + k ==> is_hex_byte(#[trigger] inp[j]),
                val == (if k == 0 { 0 } else if k == 1 { hex_byte_val(inp[p0]) } else if k == 2 {
                    hex_byte_val(inp[p0]) * 16 + hex_byte_val(inp[p0 + 1])
                } else if k == 3 {
                    hex_byte_val(inp[p0]) * 256 + hex_byte_val(inp[p0 + 1]) * 16 + hex_byte_val(inp[p0 + 2])
                } else {
                    hex_byte_val(inp[p0]) * 4096 + hex_byte_val(inp[p0 + 1]) * 256 + hex_byte_val(inp[p0 + 2]) * 16
                        + hex_byte_val(inp[p0 + 3])
                }),
            decreases 4 - k,
        {
            let b = match self.advance() {
                Some(b) => b,
                None => {
                    return Err("unexpected end in unicode escape".to_string());
                },
            };
            let digit: u32 = if 48 <= b && b <= 57 {
                (b - 48) as u32
            } else if 97 <= b && b <= 102 {
                (b - 97 + 10) as u32
            } else if 65 <= b && b <= 70 {
                (b - 65 + 10) as u32
            } else {
                let mut v: Vec<char> = Vec::new();
                extend_chars(&mut v, "invalid hex digit '");
                v.push(b as char);
                v.push('\'');
                return Err(string_of(&v));
            };
            assert(val < 0x1000) by {
                assert(hex_byte_val(inp[p0]) < 16);
                if k >= 2 { assert(hex_byte_val(inp[p0 + 1]) < 16); }
                if k >= 3 { assert(hex_byte_val(inp[p0 + 2]) < 16); }
            }
            let old_val = val;
            val = (val << 4) | digit;
            assert(val == old_val * 16 + digit) by (bit_vector)
                requires
                    old_val < 0x1000,
                    digit < 16,
                    val == (old_val << 4) | digit,
            ;
            k += 1;
        }
        Ok(val)
    }

    fn skip_digits(&mut self)
        requires
            old(self).pos <= old(self).input@.len(),
        ensures
            final(self).input == old(self).input,
            final(self).pos == digits_end(old(self).input@, old(self).pos as int),
            final(self).pos <= final(self).input@.len(),
            final(self).pos >= old(self).pos,
    {
        while self.pos < self.input.len() && 48 <= self.input[self.pos] && self.input[self.pos] <= 57
            invariant
                old(self).pos <= self.pos <= self.input@.len(),
                self.input == old(self).input,
                digits_end(self.input@, self.pos as int) == digits_end(self.input@, old(self).pos as int),
            decreases self.input@.len() - self.pos,
        {
            self.pos += 1;
        }
    }
}


/// Sets member `key` of `m` to `val`, in place when present, else at the end.
fn insert_member(m: &mut Vec<(String, JsonValue)>, key: String, val: JsonValue)
    ensures
        json_members(final(m)@) == member_insert(json_members(old(m)@), key@, val.json()),
{
    let ghost m0 = m@;
    proof {
        lemma_json_members(m0);
    }
    let mut i: usize = 0;
    while i < m.len()
        invariant
            m@ == m0,
            m0 == old(m)@,
            i <= m0.len(),
            forall|j: int| 0 <= j < i ==> #[trigger] m0[j].0@ != key@,
        decreases m0.len() - i,
    {
        if m[i].0 == key {
            let ghost k = key@;
            let ghost vj = val.json();
            m.set(i, (key, val));
            proof {
                lemma_json_members(m0);
                let jm = json_members(m0);
                lemma_member_index(jm, k);
                assert(jm[i as int].0 == k);
                assert(member_index(jm, k) == i as int) by {
                    let idx = member_index(jm, k);
                    if idx == -1 {
                        assert(jm[i as int].0 != k);
                    } else if idx < i {
                        assert(m0[idx].0@ != k);
                        assert(jm[idx].0 == m0[idx].0@);
                    } else if idx > i {
                        assert(jm[i as int].0 != k);
                    }
                }
                lemma_json_members(m@);
                assert(json_members(m@) =~= jm.update(i as int, (k, vj)));
            }
            return;
        }
        i += 1;
    }
    let ghost k = key@;
    let ghost vj = val.json();
    m.push((key, val));
    proof {
        let jm = json_members(m0);
        lemma_member_index(jm, k);
        assert(member_index(jm, k) == -1) by {
            let idx = member_index(jm, k);
            if idx >= 0 {
                assert(jm[idx].0 == m0[idx].0@);
                assert(m0[idx].0@ != k);
            }
        }
        lemma_json_members(m@);
        assert(json_members(m@) =~= jm.push((k, vj)));
    }
}

impl<'a> Parser<'a> {
    /// Whether the input at the current position begins with `lit`.
    fn at_lit(&self, lit: &[u8]) -> (r: bool)
        ensures
            r == has_lit(self.input@, self.pos as int, lit@),
    {
        let n = self.input.len();
        if self.pos > n || lit.len() > n - self.pos {
            return false;
        }
        let mut i: usize = 0;
        while i < lit.len()
            invariant
                i <= lit@.len(),
                self.input@.len() <= usize::MAX,
                self.pos + lit@.len() <= self.input@.len(),
                forall|j: int| 0 <= j < i ==> self.input@[self.pos + j] == #[trigger] lit@[j],
            decreases lit@.len() - i,
        {
            if self.input[self.pos + i] != lit[i] {
                assert(self.input@.subrange(self.pos as int, self.pos + lit@.len())[i as int] != lit@[i as int]);
                return false;
            }
            i += 1;
        }
        assert(self.input@.subrange(self.pos as int, self.pos + lit@.len()) =~= lit@);
        true
    }

    fn parse_string(&mut self) -> (r: Result<String, String>)
        requires
            old(self).pos <= old(self).input@.len(),
        ensures
            final(self).input == old(self).input,
            final(self).pos <= final(self).input@.len(),
            match string_at(old(self).input@, old(self).pos as int) {
                Some((t, e)) => r is Ok && r->Ok_0@ == t && final(self).pos == e,
                None => r is Err,
            },
            r is Ok ==> final(self).pos > old(self).pos,
    {
        let ghost inp = self.input@;
        let ghost p0 = self.pos as int;
        let ghost target = string_at(inp, p0);
        match self.expect(34) {
            Ok(()) => {},
            Err(m) => {
                return Err(m);
            },
        }
        let mut s = String::new();
        loop
            invariant
                self.input == old(self).input,
                self.input@ == inp,
                p0 == old(self).pos,
                target == string_at(inp, p0),
                p0 < self.pos <= inp.len(),
                str_body(inp, self.pos as int, s@) == target,
            decreases inp.len() - self.pos,
        {
            let ghost p = self.pos as int;
            match self.advance() {
                None => {
                    return Err("unterminated string".to_string());
                },
                Some(b) => {
                    if b == 34 {
                        return Ok(s);
                    } else if b == 92 {
                        match self.advance() {
                            None => {
                                return Err("unexpected end in string escape".to_string());
                            },
                            Some(e) => {
                                if e == 117 {
                                    let hex = match self.parse_hex4() {
                                        Ok(h) => h,
                                        Err(m) => {
                                            return Err(m);
                                        },
                                    };
                                    match char_from_u32(hex) {
                                        Some(c) => {
                                            push_char(&mut s, c);
                                        },
                                        None => {
                                            if hex >= 0xD800 && hex <= 0xDBFF {
                                                match self.expect(92) {
                                                    Ok(()) => {},
                                                    Err(m) => {
                                                        return Err(m);
                                                    },
                                                }
                                                match self.expect(117) {
                                                    Ok(()) => {},
                                                    Err(m) => {
                                                        return Err(m);
                                                    },
                                                }
                                                let low = match self.parse_hex4() {
                                                    Ok(h) => h,
                                                    Err(m) => {
                                                        return Err(m);
                                                    },
                                                };
                                                if low >= 0xDC00 && low <= 0xDFFF {
                                                    let hi = hex - 0xD800;
                                                    let shifted = hi << 10;
                                                    assert(shifted == hi * 1024) by (bit_vector)
                                                        requires
                                                            hi < 0x400,
                                                            shifted == hi << 10,
                                                    ;
                                                    let cp = 0x10000 + shifted + (low - 0xDC00);
                                                    match char_from_u32(cp) {
                                                        Some(c) => {
                                                            push_char(&mut s, c);
                                                        },
                                                        None => {},
                                                    }
                                                }
                                            }
                                        },
                                    }
                                } else if e == 34 {
                                    push_char(&mut s, '"');
                                } else if e == 92 {
                                    push_char(&mut s, '\\');
                                } else if e == 47 {
                                    push_char(&mut s, '/');
                                } else if e == 110 {
                                    push_char(&mut s, '\n');
                                } else if e == 114 {
                                    push_char(&mut s, '\r');
                                } else if e == 116 {
                                    push_char(&mut s, '\t');
                                } else if e == 98 {
                                    push_char(&mut s, '\x08');
                                } else if e == 102 {
                                    push_char(&mut s, '\x0c');
                                } else {
                                    let mut v: Vec<char> = Vec::new();
                                    extend_chars(&mut v, "invalid escape '\\");
                                    v.push(e as char);
                                    v.push('\'');
                                    return Err(string_of(&v));
                                }
                            },
                        }
                    } else if b < 128 {
                        push_char(&mut s, b as char);
                    } else {
                        let q = self.pos - 1;
                        let n = self.input.len();
                        let dec = utf8_char_exec(self.input, q);
                        match dec {
                            Some((c, w)) => {
                                assert(q + w <= n);
                                push_char(&mut s, c);
                                self.pos = q + w;
                            },
                            None => {
                                return Err("invalid UTF-8 in string".to_string());
                            },
                        }
                    }
                },
            }
        }
    }

    fn parse_number(&mut self) -> (r: Result<JsonValue, String>)
        requires
            old(self).pos <= old(self).input@.len(),
        ensures
            final(self).input == old(self).input,
            final(self).pos <= final(self).input@.len(),
            match number_end(old(self).input@, old(self).pos as int) {
                Some(e) => r is Ok && r->Ok_0.json() == Json::Number(
                    byte_text(old(self).input@.subrange(old(self).pos as int, e)),
                ) && final(self).pos == e,
                None => r is Err,
            },
            r is Ok ==> final(self).pos > old(self).pos,
    {
        let ghost inp = self.input@;
        let start = self.pos;
        if self.pos < self.input.len() && self.input[self.pos] == 45 {
            self.pos += 1;
        }
        if self.pos < self.input.len() && self.input[self.pos] == 48 {
            self.pos += 1;
        } else if self.pos < self.input.len() && 49 <= self.input[self.pos] && self.input[self.pos] <= 57 {
            self.pos += 1;
            self.skip_digits();
        } else {
            return Err(text_at("invalid number at position ", self.pos));
        }
        if self.pos < self.input.len() && self.input[self.pos] == 46 {
            self.pos += 1;
            let frac_start = self.pos;
            self.skip_digits();
            if self.pos == frac_start {
                return Err("expected digit after decimal point".to_string());
            }
        }
        if self.pos < self.input.len() && (self.input[self.pos] == 101 || self.input[self.pos] == 69) {
            self.pos += 1;
            if self.pos < self.input.len() && (self.input[self.pos] == 43 || self.input[self.pos] == 45) {
                self.pos += 1;
            }
            let exp_start = self.pos;
            self.skip_digits();
            if self.pos == exp_start {
                return Err("expected digit in exponent".to_string());
            }
        }
        let mut v: Vec<char> = Vec::new();
        let mut i: usize = start;
        while i < self.pos
            invariant
                start <= i <= self.pos <= self.input@.len(),
                v@ == byte_text(self.input@.subrange(start as int, i as int)),
            decreases self.pos - i,
        {
            v.push(self.input[i] as char);
            i += 1;
            assert(v@ =~= byte_text(self.input@.subrange(start as int, i as int)));
        }
        Ok(JsonValue::Number(string_of(&v)))
    }

    fn parse_value(&mut self) -> (r: Result<JsonValue, String>)
        requires
            old(self).pos <= old(self).input@.len(),
        ensures
            final(self).input == old(self).input,
            final(self).pos <= final(self).input@.len(),
            match value_at(old(self).input@, old(self).pos as int) {
                Some((j, e)) => r is Ok && r->Ok_0.json() == j && final(self).pos == e,
                None => r is Err,
            },
            r is Ok ==> final(self).pos > old(self).pos,
        decreases old(self).input@.len() - old(self).pos, 1int,
    {
        let ghost inp = self.input@;
        let ghost p0 = self.pos as int;
        proof {
            lemma_skip_ws(inp, p0);
        }
        self.skip_whitespace();
        if self.pos >= self.input.len() {
            return Err("unexpected end of input".to_string());
        }
        let b = self.input[self.pos];
        if b == 34 {
            match self.parse_string() {
                Ok(t) => Ok(JsonValue::Str(t)),
                Err(m) => Err(m),
            }
        } else if b == 123 {
            self.parse_object()
        } else if b == 91 {
            self.parse_array()
        } else if b == 116 || b == 102 {
            let t: [u8; 4] = [116, 114, 117, 101];
            let f: [u8; 5] = [102, 97, 108, 115, 101];
            assert(t@ =~= seq![116u8, 114u8, 117u8, 101u8]);
            assert(f@ =~= seq![102u8, 97u8, 108u8, 115u8, 101u8]);
            if self.at_lit(&t) {
                self.pos += 4;
                Ok(JsonValue::Bool(true))
            } else if self.at_lit(&f) {
                self.pos += 5;
                Ok(JsonValue::Bool(false))
            } else {
                Err(text_at("unexpected token at position ", self.pos))
            }
        } else if b == 110 {
            let n: [u8; 4] = [110, 117, 108, 108];
            assert(n@ =~= seq![110u8, 117u8, 108u8, 108u8]);
            if self.at_lit(&n) {
                self.pos += 4;
                Ok(JsonValue::Null)
            } else {
                Err(text_at("unexpected token at position ", self.pos))
            }
        } else if b == 45 || (48 <= b && b <= 57) {
            self.parse_number()
        } else {
            let mut v: Vec<char> = Vec::new();
            extend_chars(&mut v, "unexpected character '");
            v.push(b as char);
            extend_chars(&mut v, "' at position ");
            push_decimal(&mut v, self.pos as u64);
            Err(string_of(&v))
        }
    }

    fn parse_array(&mut self) -> (r: Result<JsonValue, String>)
        requires
            old(self).pos < old(self).input@.len(),
            old(self).input@[old(self).pos as int] == 91,
        ensures
            final(self).input == old(self).input,
            final(self).pos <= final(self).input@.len(),
            match array_at(old(self).input@, old(self).pos as int) {
                Some((j, e)) => r is Ok && r->Ok_0.json() == j && final(self).pos == e,
                None => r is Err,
            },
            r is Ok ==> final(self).pos > old(self).pos,
        decreases old(self).input@.len() - old(self).pos, 0int,
    {
        let ghost inp = self.input@;
        let ghost q = self.pos as int;
        let n = self.input.len();
        self.pos += 1;
        proof {
            lemma_skip_ws(inp, q + 1);
        }
        self.skip_whitespace();
        let mut arr: Vec<JsonValue> = Vec::new();
        assert(json_seq(arr@) =~= Seq::<Json>::empty());
        if self.pos < self.input.len() && self.input[self.pos] == 93 {
            self.pos += 1;
            return Ok(JsonValue::Array(arr));
        }
        loop
            invariant
                self.input == old(self).input,
                self.input@ == inp,
                q == old(self).pos,
                q < self.pos <= inp.len(),
                elements_at(inp, self.pos as int, json_seq(arr@)) == array_at(inp, q),
            decreases inp.len() - self.pos,
        {
            let ghost p = self.pos as int;
            let val = match self.parse_value() {
                Ok(v) => v,
                Err(m) => {
                    return Err(m);
                },
            };
            proof {
                lemma_json_seq_push(arr@, val);
                lemma_skip_ws(inp, self.pos as int);
            }
            arr.push(val);
            self.skip_whitespace();
            if self.pos < self.input.len() && self.input[self.pos] == 44 {
                self.pos += 1;
            } else if self.pos < self.input.len() && self.input[self.pos] == 93 {
                self.pos += 1;
                return Ok(JsonValue::Array(arr));
            } else {
                return Err(text_at("expected ',' or ']' at position ", self.pos));
            }
        }
    }

    fn parse_object(&mut self) -> (r: Result<JsonValue, String>)
        requires
            old(self).pos < old(self).input@.len(),
            old(self).input@[old(self).pos as int] == 123,
        ensures
            final(self).input == old(self).input,
            final(self).pos <= final(self).input@.len(),
            match object_at(old(self).input@, old(self).pos as int) {
                Some((j, e)) => r is Ok && r->Ok_0.json() == j && final(self).pos == e,
                None => r is Err,
            },
            r is Ok ==> final(self).pos > old(self).pos,
        decreases old(self).input@.len() - old(self).pos, 0int,
    {
        let ghost inp = self.input@;
        let ghost q = self.pos as int;
        let n = self.input.len();
        self.pos += 1;
        proof {
            lemma_skip_ws(inp, q + 1);
        }
        self.skip_whitespace();
        let mut map: Vec<(String, JsonValue)> = Vec::new();
        assert(json_members(map@) =~= Seq::<(Seq<char>, Json)>::empty());
        if self.pos < self.input.len() && self.input[self.pos] == 125 {
            self.pos += 1;
            return Ok(JsonValue::Object(map));
        }
        loop
            invariant
                self.input == old(self).input,
                self.input@ == inp,
                q == old(self).pos,
                q < self.pos <= inp.len(),
                members_at(inp, self.pos as int, json_members(map@)) == object_at(inp, q),
            decreases inp.len() - self.pos,
        {
            let ghost p = self.pos as int;
            proof {
                lemma_skip_ws(inp, p);
            }
            self.skip_whitespace();
            let key = match self.parse_string() {
                Ok(k) => k,
                Err(m) => {
                    return Err(m);
                },
            };
            proof {
                lemma_skip_ws(inp, self.pos as int);
            }
            self.skip_whitespace();
            match self.expect(58) {
                Ok(()) => {},
                Err(m) => {
                    return Err(m);
                },
            }
            let val = match self.parse_value() {
                Ok(v) => v,
                Err(m) => {
                    return Err(m);
                },
            };
            proof {
                lemma_skip_ws(inp, self.pos as int);
            }
            insert_member(&mut map, key, val);
            self.skip_whitespace();
            if self.pos < self.input.len() && self.input[self.pos] == 44 {
                self.pos += 1;
            } else if self.pos < self.input.len() && self.input[self.pos] == 125 {
                self.pos += 1;
                return Ok(JsonValue::Object(map));
            } else {
                return Err(text_at("expected ',' or '}' at position ", self.pos));
            }
        }
    }
}

/// Parses a JSON document: one value, with only whitespace around it.
pub fn parse(input: &str) -> (r: Result<JsonValue, String>)
    ensures
        match parse_json(input.spec_bytes()) {
            Some(j) => r is Ok && r->Ok_0.json() == j,
            None => r is Err,
        },
{
    let mut parser = Parser::new(input);
    let value = match parser.parse_value() {
        Ok(v) => v,
        Err(m) => {
            return Err(m);
        },
    };
    parser.skip_whitespace();
    if parser.pos < parser.input.len() {
        return Err(text_at("trailing data at position ", parser.pos));
    }
    Ok(value)
}


// ----- Access -----

/// The value of an integer literal: decimal digits, optionally after a minus.
pub open spec fn int_literal(t: Seq<char>) -> Option<int> {
    if t.len() > 1 && t[0] == '-' && all_digits(t.drop_first()) {
        Some(-(digits_value(t.drop_first()) as int))
    } else if t.len() > 0 && all_digits(t) {
        Some(digits_value(t) as int)
    } else {
        None
    }
}

/// The member `k` of an object.
pub open spec fn json_get(j: Json, k: Seq<char>) -> Option<Json> {
    match j {
        Json::Object(m) => if member_index(m, k) >= 0 {
            Some(m[member_index(m, k)].1)
        } else {
            None
        },
        _ => None,
    }
}

/// Element `i` of an array.
pub open spec fn json_index(j: Json, i: int) -> Option<Json> {
    match j {
        Json::Array(a) => if 0 <= i < a.len() {
            Some(a[i])
        } else {
            None
        },
        _ => None,
    }
}

impl JsonValue {
    /// The text of a string value.
    pub fn as_str(&self) -> (r: Option<&str>)
        ensures
            r matches Some(t) ==> self.json() == Json::Str(t@),
            r is None ==> !(self.json() is Str),
    {
        match self {
            JsonValue::Str(s) => Some(s.as_str()),
            _ => None,
        }
    }

    /// The value of a number written as an integer literal that fits an
    /// `i64`; other numbers, whose value needs floating point, give `None`.
    pub fn as_i64(&self) -> (r: Option<i64>)
        ensures
            r matches Some(x) ==> self.json() matches Json::Number(t) && int_literal(t) == Some(x as int),
            r is None ==> !(self.json() matches Json::Number(t) && int_literal(t) matches Some(v) && i64::MIN
                <= v <= i64::MAX),
    {
        match self {
            JsonValue::Number(n) => {
                let c = chars_of(n.as_str());
                let len = c.len();
                if len > 1 && c[0] == '-' {
                    if !('0' <= c[1] && c[1] <= '9') {
                        assert(!is_digit(c@.drop_first()[0]));
                        return None;
                    }
                    match parse_uint_exec(&c, 1, len, 0x8000000000000000) {
                        Some(v) => {
                            proof {
                                assert(c@.subrange(1, len as int) =~= c@.drop_first());
                            }
                            if v == 0x8000000000000000 {
                                Some(i64::MIN)
                            } else {
                                Some(-(v as i64))
                            }
                        },
                        None => {
                            proof {
                                assert(c@.subrange(1, len as int) =~= c@.drop_first());
                            }
                            None
                        },
                    }
                } else if len > 0 && '0' <= c[0] && c[0] <= '9' {
                    match parse_uint_exec(&c, 0, len, 0x7FFFFFFFFFFFFFFF) {
                        Some(v) => {
                            proof {
                                assert(c@.subrange(0, len as int) =~= c@);
                            }
                            Some(v as i64)
                        },
                        None => {
                            proof {
                                assert(c@.subrange(0, len as int) =~= c@);
                                if len > 1 && c@[0] == '-' {
                                }
                            }
                            None
                        },
                    }
                } else {
                    proof {
                        if len > 0 {
                            assert(!is_digit(c@[0]));
                        }
                    }
                    None
                }
            },
            _ => None,
        }
    }

    /// The value of a boolean.
    pub fn as_bool(&self) -> (r: Option<bool>)
        ensures
            r matches Some(b) ==> self.json() == Json::Bool(b),
            r is None ==> !(self.json() is Bool),
    {
        match self {
            JsonValue::Bool(b) => Some(*b),
            _ => None,
        }
    }

    /// The elements of an array.
    pub fn as_array(&self) -> (r: Option<&Vec<JsonValue>>)
        ensures
            r matches Some(v) ==> self.json() == Json::Array(json_seq(v@)),
            r is None ==> !(self.json() is Array),
    {
        match self {
            JsonValue::Array(a) => Some(a),
            _ => None,
        }
    }

    /// The members of an object.
    pub fn as_object(&self) -> (r: Option<&Vec<(String, JsonValue)>>)
        ensures
            r matches Some(m) ==> self.json() == Json::Object(json_members(m@)),
            r is None ==> !(self.json() is Object),
    {
        match self {
            JsonValue::Object(m) => Some(m),
            _ => None,
        }
    }

    /// The member `key` of an object.
    pub fn get(&self, key: &str) -> (r: Option<&JsonValue>)
        ensures
            r matches Some(v) ==> json_get(self.json(), key@) == Some(v.json()),
            r is None ==> json_get(self.json(), key@) is None,
    {
        match self {
            JsonValue::Object(m) => {
                let k = key.to_owned();
                proof {
                    lemma_json_members(m@);
                }
                let ghost jm = json_members(m@);
                assert(self.json() == Json::Object(jm));
                let mut i: usize = 0;
                while i < m.len()
                    invariant
                        i <= m@.len(),
                        self.json() == Json::Object(jm),
                        jm == json_members(m@),
                        jm.len() == m@.len(),
                        forall|j: int| 0 <= j < m@.len() ==> #[trigger] jm[j] == (m@[j].0@, m@[j].1.json()),
                        k@ == key@,
                        forall|j: int| 0 <= j < i ==> #[trigger] jm[j].0 != key@,
                    decreases m@.len() - i,
                {
                    if m[i].0 == k {
                        proof {
                            lemma_member_index(jm, key@);
                            let idx = member_index(jm, key@);
                            assert(jm[i as int].0 == key@);
                            if idx == -1 {
                                assert(jm[i as int].0 != key@);
                            } else if idx > i {
                                assert(jm[i as int].0 != key@);
                            }
                        }
                        return Some(&m[i].1);
                    }
                    i += 1;
                }
                proof {
                    lemma_member_index(jm, key@);
                    let idx = member_index(jm, key@);
                    if idx >= 0 {
                        assert(jm[idx].0 != key@);
                    }
                }
                None
            },
            _ => None,
        }
    }

    /// Element `i` of an array.
    pub fn index(&self, i: usize) -> (r: Option<&JsonValue>)
        ensures
            r matches Some(v) ==> json_index(self.json(), i as int) == Some(v.json()),
            r is None ==> json_index(self.json(), i as int) is None,
    {
        match self {
            JsonValue::Array(a) => {
                proof {
                    lemma_json_seq(a@);
                }
                if i < a.len() {
                    Some(&a[i])
                } else {
                    None
                }
            },
            _ => None,
        }
    }
}

// ----- Building -----

/// The members of an object built from `pairs` in order, a later pair
/// replacing the value of an earlier one with the same key.
pub open spec fn members_of(pairs: Seq<(&str, JsonValue)>) -> Seq<(Seq<char>, Json)>
    decreases pairs.len(),
{
    if pairs.len() == 0 {
        Seq::empty()
    } else {
        member_insert(members_of(pairs.drop_last()), pairs.last().0@, pairs.last().1.json())
    }
}

/// Builds an object from key-value pairs.
pub fn object(pairs: Vec<(&str, JsonValue)>) -> (v: JsonValue)
    ensures
        v.json() == Json::Object(members_of(pairs@)),
{
    let ghost all = pairs@;
    let mut rest = pairs;
    let mut map: Vec<(String, JsonValue)> = Vec::new();
    assert(json_members(map@) =~= Seq::<(Seq<char>, Json)>::empty());
    assert(all.take(0) =~= Seq::<(&str, JsonValue)>::empty());
    while rest.len() > 0
        invariant
            rest@.len() <= all.len(),
            rest@ == all.skip(all.len() - rest@.len()),
            json_members(map@) == members_of(all.take(all.len() - rest@.len())),
        decreases rest@.len(),
    {
        let ghost done = all.len() - rest@.len();
        let (k, v) = rest.remove(0);
        proof {
            assert(all[done] == (k, v));
            assert(all.take(done + 1).drop_last() =~= all.take(done));
            assert(rest@ =~= all.skip(done + 1));
        }
        insert_member(&mut map, k.to_owned(), v);
    }
    assert(all.take(all.len() as int) =~= all);
    JsonValue::Object(map)
}

/// Builds an array.
pub fn array(items: Vec<JsonValue>) -> (v: JsonValue)
    ensures
        v.json() == Json::Array(json_seq(items@)),
{
    JsonValue::Array(items)
}

/// Builds a string value.
pub fn string(s: &str) -> (v: JsonValue)
    ensures
        v.json() == Json::Str(s@),
{
    JsonValue::Str(s.to_owned())
}

// ----- Writing -----

/// The text of a value: `null`, `true`/`false`, a number's literal, a
/// quoted escaped string, `[a,b]`, `{"k":v}`, with no spaces.
pub open spec fn json_text(j: Json) -> Seq<char>
    decreases j,
{
    match j {
        Json::Null => seq!['n', 'u', 'l', 'l'],
        Json::Bool(b) => if b {
            seq!['t', 'r', 'u', 'e']
        } else {
            seq!['f', 'a', 'l', 's', 'e']
        },
        Json::Number(t) => t,
        Json::Str(t) => seq!['"'] + json_escape_all(t) + seq!['"'],
        Json::Array(a) => seq!['['] + items_text(a) + seq![']'],
        Json::Object(m) => seq!['{'] + members_text(m) + seq!['}'],
    }
}

/// The elements' texts separated by commas.
pub open spec fn items_text(a: Seq<Json>) -> Seq<char>
    decreases a,
{
    if a.len() == 0 {
        Seq::empty()
    } else if a.len() == 1 {
        json_text(a[0])
    } else {
        items_text(a.subrange(0, a.len() - 1)) + seq![','] + json_text(a[a.len() - 1])
    }
}

/// The members' texts `"k":v` separated by commas.
pub open spec fn members_text(m: Seq<(Seq<char>, Json)>) -> Seq<char>
    decreases m,
{
    if m.len() == 0 {
        Seq::empty()
    } else if m.len() == 1 {
        seq!['"'] + json_escape_all(m[0].0) + seq!['"', ':'] + json_text(m[0].1)
    } else {
        members_text(m.subrange(0, m.len() - 1)) + seq![','] + seq!['"'] + json_escape_all(m[m.len() - 1].0)
            + seq!['"', ':'] + json_text(m[m.len() - 1].1)
    }
}

/// Appends the text of `v` to `out`.
fn write_json(v: &JsonValue, out: &mut Vec<char>)
    ensures
        final(out)@ == old(out)@ + json_text(v.json()),
    decreases v,
{
    match v {
        JsonValue::Null => {
            extend_chars(out, "null");
            proof { reveal_strlit("null"); }
            assert(final(out)@ =~= old(out)@ + json_text(v.json()));
        },
        JsonValue::Bool(b) => {
            if *b {
                extend_chars(out, "true");
                proof { reveal_strlit("true"); }
            } else {
                extend_chars(out, "false");
                proof { reveal_strlit("false"); }
            }
            assert(final(out)@ =~= old(out)@ + json_text(v.json()));
        },
        JsonValue::Number(n) => {
            extend_chars(out, n.as_str());
        },
        JsonValue::Str(t) => {
            out.push('"');
            let e = escape_json_string(t.as_str());
            extend_chars(out, e.as_str());
            out.push('"');
            assert(final(out)@ =~= old(out)@ + json_text(v.json()));
        },
        JsonValue::Array(a) => {
            let ghost o0 = out@;
            out.push('[');
            proof {
                lemma_json_seq(a@);
            }
            let mut i: usize = 0;
            while i < a.len()
                invariant
                    *v == JsonValue::Array(*a),
                    i <= a@.len(),
                    json_seq(a@).len() == a@.len(),
                    forall|j: int| 0 <= j < a@.len() ==> #[trigger] json_seq(a@)[j] == a@[j].json(),
                    out@ == o0 + seq!['['] + items_text(json_seq(a@).subrange(0, i as int)),
                decreases a@.len() - i,
            {
                if i > 0 {
                    out.push(',');
                }
                proof {
                    assert(decreases_to!(*v => (*v)->Array_0));
                    assert(decreases_to!(*a => a@));
                    assert(decreases_to!(a@ => a@[i as int]));
                    assert(decreases_to!(v => a@[i as int]));
                }
                write_json(&a[i], out);
                proof {
                    let js = json_seq(a@);
                    let pre = js.subrange(0, i as int);
                    let nxt = js.subrange(0, i + 1);
                    assert(nxt.subrange(0, i as int) =~= pre);
                    assert(nxt[i as int] == a@[i as int].json());
                    if i == 0 {
                        assert(pre =~= Seq::<Json>::empty());
                    }
                }
                i += 1;
                assert(out@ =~= o0 + seq!['['] + items_text(json_seq(a@).subrange(0, i as int)));
            }
            out.push(']');
            assert(json_seq(a@).subrange(0, a@.len() as int) =~= json_seq(a@));
            assert(final(out)@ =~= old(out)@ + json_text(v.json()));
        },
        JsonValue::Object(m) => {
            let ghost o0 = out@;
            out.push('{');
            proof {
                lemma_json_members(m@);
            }
            let mut i: usize = 0;
            while i < m.len()
                invariant
                    *v == JsonValue::Object(*m),
                    i <= m@.len(),
                    json_members(m@).len() == m@.len(),
                    forall|j: int| 0 <= j < m@.len() ==> #[trigger] json_members(m@)[j] == (m@[j].0@, m@[j].1.json()),
                    out@ == o0 + seq!['{'] + members_text(json_members(m@).subrange(0, i as int)),
                decreases m@.len() - i,
            {
                if i > 0 {
                    out.push(',');
                }
                out.push('"');
                let e = escape_json_string(m[i].0.as_str());
                extend_chars(out, e.as_str());
                out.push('"');
                out.push(':');
                proof {
                    assert(decreases_to!(*v => (*v)->Object_0));
                    assert(decreases_to!(*m => m@));
                    assert(decreases_to!(m@ => m@[i as int]));
                    assert(decreases_to!(m@[i as int] => m@[i as int].1));
                    assert(decreases_to!(v => m@[i as int].1));
                }
                write_json(&m[i].1, out);
                proof {
                    let js = json_members(m@);
                    let pre = js.subrange(0, i as int);
                    let nxt = js.subrange(0, i + 1);
                    assert(nxt.subrange(0, i as int) =~= pre);
                    assert(nxt[i as int] == (m@[i as int].0@, m@[i as int].1.json()));
                    if i == 0 {
                        assert(pre =~= Seq::<(Seq<char>, Json)>::empty());
                    }
                }
                i += 1;
                assert(out@ =~= o0 + seq!['{'] + members_text(json_members(m@).subrange(0, i as int)));
            }
            out.push('}');
            assert(json_members(m@).subrange(0, m@.len() as int) =~= json_members(m@));
            assert(final(out)@ =~= old(out)@ + json_text(v.json()));
        },
    }
}

impl JsonValue {
    /// The JSON text of this value.
    pub fn to_json_string(&self) -> (s: String)
        ensures
            s@ == json_text(self.json()),
    {
        let mut out: Vec<char> = Vec::new();
        write_json(self, &mut out);
        assert(out@ =~= json_text(self.json()));
        string_of(&out)
    }
}

} // verus!

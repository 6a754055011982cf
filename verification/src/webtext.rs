//! Text encodings of the web dashboard: URL decoding of request paths and
//! escaping of strings placed in JSON responses.
use vstd::prelude::*;
use vstd::string::StringSliceAdditionalSpecFns;
use crate::text::{chars_of, string_of};

verus! {

/// The value of a hex digit; 0 for any other byte.
pub open spec fn hex_digit(b: u8) -> u8 {
    if 48 <= b <= 57 {
        (b - 48) as u8
    } else if 97 <= b <= 102 {
        (b - 97 + 10) as u8
    } else if 65 <= b <= 70 {
        (b - 65 + 10) as u8
    } else {
        0
    }
}

/// The value of a hex digit byte, 0 for anything else.
pub fn hex_byte(b: u8) -> (v: u8)
    ensures
        v == hex_digit(b),
        v < 16,
{
    if 48 <= b && b <= 57 {
        b - 48
    } else if 97 <= b && b <= 102 {
        b - 97 + 10
    } else if 65 <= b && b <= 70 {
        b - 65 + 10
    } else {
        0
    }
}

/// URL decoding of a byte string: `%XY` is the byte with hex value `XY` (a
/// missing digit reads as `0`), `+` is a space, and every byte becomes the
/// character with its value.
pub open spec fn url_decode(b: Seq<u8>) -> Seq<char>
    decreases b.len(),
{
    if b.len() == 0 {
        Seq::empty()
    } else if b[0] == 37 {
        let h = if b.len() > 1 {
            b[1]
        } else {
            48u8
        };
        let l = if b.len() > 2 {
            b[2]
        } else {
            48u8
        };
        let n = if b.len() >= 3 {
            3int
        } else {
            b.len() as int
        };
        seq![((hex_digit(h) * 16 + hex_digit(l)) as u8) as char] + url_decode(b.skip(n))
    } else if b[0] == 43 {
        seq![' '] + url_decode(b.skip(1))
    } else {
        seq![(b[0] as char)] + url_decode(b.skip(1))
    }
}

/// Decodes a URL-encoded string.
pub fn urldecode(s: &str) -> (r: String)
    ensures
        r@ == url_decode(s.spec_bytes()),
{
    let b = s.as_bytes();
    let mut out: Vec<char> = Vec::new();
    let mut i: usize = 0;
    assert(b@.skip(0) =~= b@);
    while i < b.len()
        invariant
            i <= b@.len(),
            b@ == s.spec_bytes(),
            url_decode(b@) == out@ + url_decode(b@.skip(i as int)),
        decreases b@.len() - i,
    {
        let ghost rest = b@.skip(i as int);
        let c = b[i];
        assert(rest[0] == c);
        if c == 37 {
            let h: u8 = if b.len() - i > 1 {
                b[i + 1]
            } else {
                48
            };
            let l: u8 = if b.len() - i > 2 {
                b[i + 2]
            } else {
                48
            };
            let v = hex_byte(h) * 16 + hex_byte(l);
            out.push(v as char);
            let next = if b.len() - i >= 3 {
                i + 3
            } else {
                b.len()
            };
            assert(rest.skip(next - i) =~= b@.skip(next as int));
            i = next;
        } else if c == 43 {
            out.push(' ');
            assert(rest.skip(1) =~= b@.skip(i + 1));
            i += 1;
        } else {
            out.push(c as char);
            assert(rest.skip(1) =~= b@.skip(i + 1));
            i += 1;
        }
    }
    assert(b@.skip(i as int) =~= Seq::<u8>::empty());
    string_of(&out)
}

/// The escaped form of one character in the dashboard's JSON strings.
pub open spec fn esc_char(c: char) -> Seq<char> {
    if c == '\\' {
        seq!['\\', '\\']
    } else if c == '"' {
        seq!['\\', '"']
    } else if c == '\n' {
        seq!['\\', 'n']
    } else if c == '\r' {
        seq!['\\', 'r']
    } else if c == '\t' {
        seq!['\\', 't']
    } else {
        seq![c]
    }
}

/// A string with each character escaped by `f`.
pub open spec fn escape_all(s: Seq<char>) -> Seq<char>
    decreases s.len(),
{
    if s.len() == 0 {
        Seq::empty()
    } else {
        escape_all(s.drop_last()) + esc_char(s.last())
    }
}

/// Escapes backslashes, quotes, newlines, carriage returns and tabs.
pub fn escape_json(s: &str) -> (r: String)
    ensures
        r@ == escape_all(s@),
{
    let c = chars_of(s);
    let mut out: Vec<char> = Vec::new();
    let mut i: usize = 0;
    while i < c.len()
        invariant
            i <= c@.len(),
            c@ == s@,
            out@ == escape_all(c@.take(i as int)),
        decreases c@.len() - i,
    {
        let ch = c[i];
        assert(c@.take(i + 1).drop_last() =~= c@.take(i as int));
        if ch == '\\' {
            out.push('\\');
            out.push('\\');
        } else if ch == '"' {
            out.push('\\');
            out.push('"');
        } else if ch == '\n' {
            out.push('\\');
            out.push('n');
        } else if ch == '\r' {
            out.push('\\');
            out.push('r');
        } else if ch == '\t' {
            out.push('\\');
            out.push('t');
        } else {
            out.push(ch);
        }
        i += 1;
        assert(out@ =~= escape_all(c@.take(i as int)));
    }
    assert(c@.take(c@.len() as int) =~= c@);
    string_of(&out)
}

/// Lowercase hex digit of `d < 16`.
pub open spec fn hex_lower(d: nat) -> char {
    if d < 10 {
        ((48 + d) as u8) as char
    } else {
        ((87 + d) as u8) as char
    }
}

/// The escaped form of one character in a JSON string: the two-character
/// escapes, `\u00XX` for other control characters.
pub open spec fn json_esc_char(c: char) -> Seq<char> {
    if c == '"' {
        seq!['\\', '"']
    } else if c == '\\' {
        seq!['\\', '\\']
    } else if c == '\n' {
        seq!['\\', 'n']
    } else if c == '\r' {
        seq!['\\', 'r']
    } else if c == '\t' {
        seq!['\\', 't']
    } else if (c as u32) < 0x20 {
        seq!['\\', 'u', '0', '0', hex_lower((c as u32 / 16) as nat), hex_lower((c as u32 % 16) as nat)]
    } else {
        seq![c]
    }
}

pub open spec fn json_escape_all(s: Seq<char>) -> Seq<char>
    decreases s.len(),
{
    if s.len() == 0 {
        Seq::empty()
    } else {
        json_escape_all(s.drop_last()) + json_esc_char(s.last())
    }
}

fn hex_lower_exec(d: u32) -> (c: char)
    requires
        d < 16,
    ensures
        c == hex_lower(d as nat),
{
    if d < 10 {
        ((48 + d) as u8) as char
    } else {
        ((87 + d) as u8) as char
    }
}

/// Escapes a string for inclusion in a JSON document.
pub fn escape_json_string(s: &str) -> (r: String)
    ensures
        r@ == json_escape_all(s@),
{
    let c = chars_of(s);
    let mut out: Vec<char> = Vec::new();
    let mut i: usize = 0;
    while i < c.len()
        invariant
            i <= c@.len(),
            c@ == s@,
            out@ == json_escape_all(c@.take(i as int)),
        decreases c@.len() - i,
    {
        let ch = c[i];
        assert(c@.take(i + 1).drop_last() =~= c@.take(i as int));
        if ch == '"' {
            out.push('\\');
            out.push('"');
        } else if ch == '\\' {
            out.push('\\');
            out.push('\\');
        } else if ch == '\n' {
            out.push('\\');
            out.push('n');
        } else if ch == '\r' {
            out.push('\\');
            out.push('r');
        } else if ch == '\t' {
            out.push('\\');
            out.push('t');
        } else if (ch as u32) < 0x20 {
            let v = ch as u32;
            out.push('\\');
            out.push('u');
            out.push('0');
            out.push('0');
            out.push(hex_lower_exec(v / 16));
            out.push(hex_lower_exec(v % 16));
        } else {
            out.push(ch);
        }
        i += 1;
        assert(out@ =~= json_escape_all(c@.take(i as int)));
    }
    assert(c@.take(c@.len() as int) =~= c@);
    string_of(&out)
}

} // verus!

//! Writing a JSON value and reading the text back gives the value again,
//! for values the grammar can hold: ASCII strings and keys, number literals
//! the grammar accepts, and objects without repeated keys.
use vstd::prelude::*;
use vstd::utf8::{encode_utf8, is_ascii_chars, is_ascii_chars_encode_utf8};
use crate::json::{
    Json, json_text, items_text, members_text, parse_json, value_at, elements_at, members_at, string_at,
    str_body, number_end, digits_end, skip_ws, is_json_ws, is_digit_byte, hex4_at, is_hex_byte, hex_byte_val,
    is_scalar, byte_text, member_index, member_insert, lemma_member_index,
};
use crate::webtext::{json_esc_char, json_escape_all, hex_lower};

verus! {

/// The characters `t` stand at `p` in `s`, one byte each.
pub open spec fn chars_at(s: Seq<u8>, p: int, t: Seq<char>) -> bool {
    &&& 0 <= p
    &&& p + t.len() <= s.len()
    &&& forall|k: int| 0 <= k < t.len() ==> s[p + k] == #[trigger] t[k] as u8
}

/// The bytes of ASCII characters.
pub open spec fn ascii_bytes(t: Seq<char>) -> Seq<u8> {
    t.map_values(|c: char| c as u8)
}

/// A number literal the grammar reads whole.
pub open spec fn number_lexeme(t: Seq<char>) -> bool {
    &&& is_ascii_chars(t)
    &&& number_end(ascii_bytes(t), 0) == Some(t.len() as int)
}

/// A value whose text reads back as itself: its strings and keys are ASCII,
/// its numbers are literals of the grammar, and no object repeats a key.
pub open spec fn json_wf(j: Json) -> bool
    decreases j,
{
    match j {
        Json::Null => true,
        Json::Bool(_) => true,
        Json::Number(t) => number_lexeme(t),
        Json::Str(t) => is_ascii_chars(t),
        Json::Array(a) => forall|i: int| 0 <= i < a.len() ==> json_wf(#[trigger] a[i]),
        Json::Object(m) => {
            &&& forall|i: int| 0 <= i < m.len() ==> is_ascii_chars(#[trigger] m[i].0) && json_wf(m[i].1)
            &&& forall|i: int, k: int| 0 <= i < k < m.len() ==> #[trigger] m[i].0 != #[trigger] m[k].0
        },
    }
}

/// A value may end at `e`: the text ends there or a separator follows.
pub open spec fn ends_value(s: Seq<u8>, e: int) -> bool {
    e == s.len() || (0 <= e < s.len() && (s[e] == 44 || s[e] == 93 || s[e] == 125))
}

proof fn lemma_chars_at_concat(s: Seq<u8>, p: int, a: Seq<char>, b: Seq<char>)
    ensures
        chars_at(s, p, a + b) <==> (chars_at(s, p, a) && chars_at(s, p + a.len(), b)),
{
    if chars_at(s, p, a + b) {
        assert forall|k: int| 0 <= k < a.len() implies s[p + k] == #[trigger] a[k] as u8 by {
            assert((a + b)[k] == a[k]);
        }
        assert forall|k: int| 0 <= k < b.len() implies s[p + a.len() + k] == #[trigger] b[k] as u8 by {
            assert((a + b)[a.len() + k] == b[k]);
        }
    }
    if chars_at(s, p, a) && chars_at(s, p + a.len(), b) {
        assert forall|k: int| 0 <= k < (a + b).len() implies s[p + k] == #[trigger] (a + b)[k] as u8 by {
            if k < a.len() {
                assert((a + b)[k] == a[k]);
            } else {
                assert((a + b)[k] == b[k - a.len()]);
                assert(s[p + a.len() + (k - a.len())] == b[k - a.len()] as u8);
            }
        }
    }
}

/// The escaped form of a string, taken from the front.
proof fn lemma_escape_first(t: Seq<char>)
    requires
        t.len() > 0,
    ensures
        json_escape_all(t) == json_esc_char(t[0]) + json_escape_all(t.drop_first()),
    decreases t.len(),
{
    if t.len() == 1 {
        assert(t.drop_last() =~= Seq::<char>::empty());
        assert(t.drop_first() =~= Seq::<char>::empty());
        assert(t.drop_last().len() == 0);
        assert(json_escape_all(t.drop_last()) == Seq::<char>::empty());
        assert(json_escape_all(t.drop_first()) == Seq::<char>::empty());
        assert(t.last() == t[0]);
        assert(json_escape_all(t) =~= json_esc_char(t[0]) + json_escape_all(t.drop_first()));
    } else {
        let d = t.drop_last();
        lemma_escape_first(d);
        assert(d.drop_first() =~= t.drop_first().drop_last());
        assert(t.drop_first().last() == t.last());
        assert(json_escape_all(t) =~= json_esc_char(t[0]) + json_escape_all(t.drop_first()));
    }
}

proof fn lemma_hex_lower(d: nat)
    requires
        d < 16,
    ensures
        is_hex_byte(hex_lower(d) as u8),
        hex_byte_val(hex_lower(d) as u8) == d,
        (hex_lower(d) as u32) < 128,
{
}

/// One escaped character of a string's text reads as that character.
proof fn lemma_str_step(s: Seq<u8>, q: int, c: char, acc: Seq<char>)
    requires
        (c as u32) < 128,
        chars_at(s, q, json_esc_char(c)),
    ensures
        str_body(s, q, acc) == str_body(s, q + json_esc_char(c).len(), acc.push(c)),
{
    let e = json_esc_char(c);
    assert(s[q + 0] == e[0] as u8);
    if c == '"' || c == '\\' || c == '\n' || c == '\r' || c == '\t' {
        assert(s[q + 1] == e[1] as u8);
        assert(s[q] == 92);
    } else if (c as u32) < 0x20 {
        let u = c as u32;
        lemma_hex_lower((u / 16) as nat);
        lemma_hex_lower((u % 16) as nat);
        assert(s[q + 1] == e[1] as u8);
        assert(s[q + 2] == e[2] as u8);
        assert(s[q + 3] == e[3] as u8);
        assert(s[q + 4] == e[4] as u8);
        assert(s[q + 5] == e[5] as u8);
        assert(s[q] == 92 && s[q + 1] == 117);
        assert(hex4_at(s, q + 2) == Some(u));
        assert(is_scalar(u));
        assert((u as char) == c);
    } else {
        assert(e.len() == 1);
        assert(s[q] != 34 && s[q] != 92);
        assert((s[q] as char) == c);
    }
}

/// The escaped text of an ASCII string, then a quote, reads as the string.
proof fn lemma_str_body(s: Seq<u8>, q: int, t: Seq<char>, acc: Seq<char>)
    requires
        is_ascii_chars(t),
        chars_at(s, q, json_escape_all(t)),
        q + json_escape_all(t).len() < s.len(),
        s[q + json_escape_all(t).len()] == 34,
    ensures
        str_body(s, q, acc) == Some((acc + t, q + json_escape_all(t).len() + 1)),
    decreases t.len(),
{
    if t.len() == 0 {
        assert(acc + t =~= acc);
    } else {
        lemma_escape_first(t);
        let e0 = json_esc_char(t[0]);
        let rest = t.drop_first();
        lemma_chars_at_concat(s, q, e0, json_escape_all(rest));
        assert(t[0] <= '\u{7f}');
        lemma_str_step(s, q, t[0], acc);
        assert(is_ascii_chars(rest)) by {
            assert forall|i: int| 0 <= i < rest.len() implies '\0' <= #[trigger] rest[i] <= '\u{7f}' by {
                assert(rest[i] == t[i + 1]);
            }
        }
        lemma_str_body(s, q + e0.len(), rest, acc.push(t[0]));
        assert(acc.push(t[0]) + rest =~= acc + t);
    }
}

/// A quoted, escaped ASCII string reads as the string.
proof fn lemma_string_at(s: Seq<u8>, p: int, t: Seq<char>)
    requires
        is_ascii_chars(t),
        chars_at(s, p, seq!['"'] + json_escape_all(t) + seq!['"']),
    ensures
        string_at(s, p) == Some((t, p + json_escape_all(t).len() + 2)),
{
    let e = json_escape_all(t);
    lemma_chars_at_concat(s, p, seq!['"'] + e, seq!['"']);
    lemma_chars_at_concat(s, p, seq!['"'], e);
    assert(s[p + 0] == seq!['"'][0] as u8);
    assert(s[p + 1 + e.len() + 0] == seq!['"'][0] as u8);
    lemma_str_body(s, p + 1, t, Seq::empty());
    assert(Seq::<char>::empty() + t =~= t);
}

proof fn lemma_digits_end_range(s: Seq<u8>, i: int)
    requires
        0 <= i <= s.len(),
    ensures
        i <= digits_end(s, i) <= s.len(),
    decreases s.len() - i,
{
    if i < s.len() && is_digit_byte(s[i]) {
        lemma_digits_end_range(s, i + 1);
    }
}

/// A run of digits inside a literal ends at the same place in the literal
/// and in a text that holds it before a separator.
proof fn lemma_digits_end_match(s: Seq<u8>, p: int, t: Seq<char>, i: int)
    requires
        chars_at(s, p, t),
        ends_value(s, p + t.len()),
        0 <= i <= t.len(),
    ensures
        digits_end(s, p + i) == p + digits_end(ascii_bytes(t), i),
    decreases t.len() - i,
{
    let x = ascii_bytes(t);
    if i < t.len() {
        assert(s[p + i] == x[i]);
        if is_digit_byte(x[i]) {
            lemma_digits_end_match(s, p, t, i + 1);
        }
    }
}

/// A number literal before a separator reads to its end.
proof fn lemma_number_end(s: Seq<u8>, p: int, t: Seq<char>)
    requires
        number_lexeme(t),
        chars_at(s, p, t),
        ends_value(s, p + t.len()),
    ensures
        number_end(s, p) == Some(p + t.len()),
        t.len() > 0,
        s[p] == 45 || is_digit_byte(s[p]),
        byte_text(s.subrange(p, p + t.len())) == t,
{
    let x = ascii_bytes(t);
    let n = t.len() as int;
    assert forall|i: int| 0 <= i < n implies s[p + i] == #[trigger] x[i] by {}
    assert forall|i: int| 0 <= i <= n implies digits_end(s, p + i) == p + #[trigger] digits_end(x, i) by {
        lemma_digits_end_match(s, p, t, i);
        lemma_digits_end_range(x, i);
    }
    assert(n > 0);
    assert(s[p] == x[0]);
    let ax: int = if x[0] == 45 { 1 } else { 0 };
    assert(ax < n);
    assert(s[p + ax] == x[ax]);
    let bx: int = if x[ax] == 48 { ax + 1 } else { digits_end(x, ax + 1) };
    assert(digits_end(s, p + ax + 1) == p + digits_end(x, ax + 1));
    lemma_digits_end_range(x, ax + 1);
    assert(bx <= n);
    let cx: int = if bx < n && x[bx] == 46 { digits_end(x, bx + 1) } else { bx };
    if bx < n {
        assert(s[p + bx] == x[bx]);
        if x[bx] == 46 {
            assert(digits_end(s, p + bx + 1) == p + digits_end(x, bx + 1));
            lemma_digits_end_range(x, bx + 1);
        }
    }
    assert(cx <= n);
    if cx < n {
        assert(s[p + cx] == x[cx]);
        if x[cx] == 101 || x[cx] == 69 {
            if cx + 1 < n {
                assert(s[p + cx + 1] == x[cx + 1]);
            }
            let e1: int = if cx + 1 < n && (x[cx + 1] == 43 || x[cx + 1] == 45) { cx + 2 } else { cx + 1 };
            assert(digits_end(s, p + e1) == p + digits_end(x, e1));
        }
    }
    assert(byte_text(s.subrange(p, p + n)) =~= t) by {
        assert forall|i: int| 0 <= i < n implies #[trigger] byte_text(s.subrange(p, p + n))[i] == t[i] by {
            assert(s.subrange(p, p + n)[i] == s[p + i]);
            assert(t[i] <= '\u{7f}');
        }
    }
}

/// A character a value's text can start with.
pub open spec fn starts_value(c: char) -> bool {
    c == 'n' || c == 't' || c == 'f' || c == '"' || c == '[' || c == '{' || c == '-' || ('0' <= c && c <= '9')
}

/// The text of one object member.
pub open spec fn member_entry(k: Seq<char>, v: Json) -> Seq<char> {
    seq!['"'] + json_escape_all(k) + seq!['"', ':'] + json_text(v)
}

proof fn lemma_ascii_concat(a: Seq<char>, b: Seq<char>)
    requires
        is_ascii_chars(a),
        is_ascii_chars(b),
    ensures
        is_ascii_chars(a + b),
{
    assert forall|i: int| 0 <= i < (a + b).len() implies '\0' <= #[trigger] (a + b)[i] <= '\u{7f}' by {
        if i < a.len() {
            assert((a + b)[i] == a[i]);
        } else {
            assert((a + b)[i] == b[i - a.len()]);
        }
    }
}

proof fn lemma_escape_ascii(t: Seq<char>)
    requires
        is_ascii_chars(t),
    ensures
        is_ascii_chars(json_escape_all(t)),
    decreases t.len(),
{
    if t.len() > 0 {
        let d = t.drop_last();
        assert(is_ascii_chars(d)) by {
            assert forall|i: int| 0 <= i < d.len() implies '\0' <= #[trigger] d[i] <= '\u{7f}' by {
                assert(d[i] == t[i]);
            }
        }
        lemma_escape_ascii(d);
        let c = t.last();
        let u = c as u32;
        if u < 0x20 {
            lemma_hex_lower((u / 16) as nat);
            lemma_hex_lower((u % 16) as nat);
        }
        assert(is_ascii_chars(json_esc_char(c)));
        lemma_ascii_concat(json_escape_all(d), json_esc_char(c));
    }
}

/// The elements' texts, taken from the front.
proof fn lemma_items_first(a: Seq<Json>)
    requires
        a.len() >= 2,
    ensures
        items_text(a) == json_text(a[0]) + seq![','] + items_text(a.subrange(1, a.len() as int)),
    decreases a.len(),
{
    let n = a.len() as int;
    let pre = a.subrange(0, n - 1);
    let rest = a.subrange(1, n);
    if n == 2 {
        assert(pre.len() == 1 && pre[0] == a[0]);
        assert(rest.len() == 1 && rest[0] == a[1]);
        assert(items_text(pre) == json_text(a[0]));
        assert(items_text(rest) == json_text(a[1]));
        assert(items_text(a) =~= json_text(a[0]) + seq![','] + items_text(rest));
    } else {
        lemma_items_first(pre);
        assert(pre[0] == a[0]);
        assert(pre.subrange(1, n - 1) =~= rest.subrange(0, n - 2));
        assert(rest[n - 2] == a[n - 1]);
        assert(items_text(a) =~= json_text(a[0]) + seq![','] + items_text(rest));
    }
}

/// The members' texts, taken from the front.
proof fn lemma_members_first(m: Seq<(Seq<char>, Json)>)
    requires
        m.len() >= 1,
    ensures
        m.len() == 1 ==> members_text(m) == member_entry(m[0].0, m[0].1),
        m.len() >= 2 ==> members_text(m) == member_entry(m[0].0, m[0].1) + seq![','] + members_text(
            m.subrange(1, m.len() as int),
        ),
    decreases m.len(),
{
    let n = m.len() as int;
    let pre = m.subrange(0, n - 1);
    let rest = m.subrange(1, n);
    if n == 1 {
        assert(members_text(m) =~= member_entry(m[0].0, m[0].1));
    } else if n == 2 {
        assert(pre.len() == 1 && pre[0] == m[0]);
        assert(rest.len() == 1 && rest[0] == m[1]);
        assert(members_text(pre) =~= member_entry(m[0].0, m[0].1));
        assert(members_text(rest) =~= member_entry(m[1].0, m[1].1));
        assert(members_text(m) =~= member_entry(m[0].0, m[0].1) + seq![','] + members_text(rest));
    } else {
        lemma_members_first(pre);
        assert(pre[0] == m[0]);
        assert(pre.subrange(1, n - 1) =~= rest.subrange(0, n - 2));
        assert(rest[n - 2] == m[n - 1]);
        assert(members_text(m) =~= member_entry(m[0].0, m[0].1) + seq![','] + members_text(rest));
    }
}

/// A readable value's text is ASCII, not empty, and starts as a value does.
proof fn lemma_text_ascii(j: Json)
    requires
        json_wf(j),
    ensures
        is_ascii_chars(json_text(j)),
        json_text(j).len() > 0,
        starts_value(json_text(j)[0]),
    decreases j,
{
    match j {
        Json::Null => {},
        Json::Bool(b) => {},
        Json::Number(t) => {
            let x = ascii_bytes(t);
            assert(t.len() > 0);
            assert(x[0] == t[0] as u8);
            assert(t[0] <= '\u{7f}');
        },
        Json::Str(t) => {
            lemma_escape_ascii(t);
            lemma_ascii_concat(seq!['"'], json_escape_all(t));
            lemma_ascii_concat(seq!['"'] + json_escape_all(t), seq!['"']);
        },
        Json::Array(a) => {
            assert(decreases_to!(j => a));
            lemma_items_ascii(a);
            lemma_ascii_concat(seq!['['], items_text(a));
            lemma_ascii_concat(seq!['['] + items_text(a), seq![']']);
        },
        Json::Object(m) => {
            assert(decreases_to!(j => m));
            lemma_members_ascii(m);
            lemma_ascii_concat(seq!['{'], members_text(m));
            lemma_ascii_concat(seq!['{'] + members_text(m), seq!['}']);
        },
    }
}

proof fn lemma_items_ascii(a: Seq<Json>)
    requires
        forall|i: int| 0 <= i < a.len() ==> json_wf(#[trigger] a[i]),
    ensures
        is_ascii_chars(items_text(a)),
    decreases a,
{
    let n = a.len() as int;
    if n == 1 {
        assert(decreases_to!(a => a[0]));
        lemma_text_ascii(a[0]);
    } else if n > 1 {
        let pre = a.subrange(0, n - 1);
        assert(decreases_to!(a => pre));
        assert(decreases_to!(a => a[n - 1]));
        assert forall|i: int| 0 <= i < pre.len() implies json_wf(#[trigger] pre[i]) by {
            assert(pre[i] == a[i]);
        }
        lemma_items_ascii(pre);
        lemma_text_ascii(a[n - 1]);
        lemma_ascii_concat(items_text(pre), seq![',']);
        lemma_ascii_concat(items_text(pre) + seq![','], json_text(a[n - 1]));
    }
}

proof fn lemma_entry_ascii(k: Seq<char>, v: Json)
    requires
        is_ascii_chars(k),
        is_ascii_chars(json_text(v)),
    ensures
        is_ascii_chars(member_entry(k, v)),
{
    lemma_escape_ascii(k);
    lemma_ascii_concat(seq!['"'], json_escape_all(k));
    lemma_ascii_concat(seq!['"'] + json_escape_all(k), seq!['"', ':']);
    lemma_ascii_concat(seq!['"'] + json_escape_all(k) + seq!['"', ':'], json_text(v));
}

proof fn lemma_members_ascii(m: Seq<(Seq<char>, Json)>)
    requires
        forall|i: int| 0 <= i < m.len() ==> is_ascii_chars(#[trigger] m[i].0) && json_wf(m[i].1),
    ensures
        is_ascii_chars(members_text(m)),
    decreases m,
{
    let n = m.len() as int;
    if n >= 1 {
        assert(decreases_to!(m => m[n - 1]));
        assert(decreases_to!(m[n - 1] => m[n - 1].1));
        assert(is_ascii_chars(m[n - 1].0) && json_wf(m[n - 1].1));
        lemma_text_ascii(m[n - 1].1);
        lemma_entry_ascii(m[n - 1].0, m[n - 1].1);
    }
    if n == 1 {
        assert(members_text(m) =~= member_entry(m[0].0, m[0].1));
    } else if n > 1 {
        let pre = m.subrange(0, n - 1);
        assert(decreases_to!(m => pre));
        assert forall|i: int| 0 <= i < pre.len() implies is_ascii_chars(#[trigger] pre[i].0) && json_wf(pre[i].1) by {
            assert(pre[i] == m[i]);
        }
        lemma_members_ascii(pre);
        lemma_ascii_concat(members_text(pre), seq![',']);
        lemma_ascii_concat(members_text(pre) + seq![','], member_entry(m[n - 1].0, m[n - 1].1));
        assert(members_text(m) =~= members_text(pre) + seq![','] + member_entry(m[n - 1].0, m[n - 1].1));
    }
}

/// A byte that starts a value or separates values is not whitespace.
proof fn lemma_skip_here(s: Seq<u8>, p: int)
    requires
        0 <= p < s.len(),
        !is_json_ws(s[p]),
    ensures
        skip_ws(s, p) == p,
{
}

/// The text of a readable value, followed by a separator or the end,
/// reads as the value.
proof fn lemma_value_at(s: Seq<u8>, p: int, j: Json)
    requires
        json_wf(j),
        chars_at(s, p, json_text(j)),
        ends_value(s, p + json_text(j).len()),
    ensures
        value_at(s, p) == Some((j, p + json_text(j).len())),
    decreases j,
{
    let jt = json_text(j);
    let n = jt.len() as int;
    lemma_text_ascii(j);
    assert(s[p + 0] == jt[0] as u8);
    assert(jt[0] <= '\u{7f}');
    lemma_skip_here(s, p);
    match j {
        Json::Null => {
            assert(s.subrange(p, p + 4) =~= seq![110u8, 117u8, 108u8, 108u8]) by {
                assert(s[p + 1] == jt[1] as u8);
                assert(s[p + 2] == jt[2] as u8);
                assert(s[p + 3] == jt[3] as u8);
            }
        },
        Json::Bool(b) => {
            assert(s[p + 1] == jt[1] as u8);
            assert(s[p + 2] == jt[2] as u8);
            assert(s[p + 3] == jt[3] as u8);
            if b {
                assert(s.subrange(p, p + 4) =~= seq![116u8, 114u8, 117u8, 101u8]);
            } else {
                assert(s[p + 4] == jt[4] as u8);
                assert(s.subrange(p, p + 5) =~= seq![102u8, 97u8, 108u8, 115u8, 101u8]);
                assert(s.subrange(p, p + 4) != seq![116u8, 114u8, 117u8, 101u8]) by {
                    assert(s.subrange(p, p + 4)[0] == 102u8);
                }
            }
        },
        Json::Number(t) => {
            lemma_number_end(s, p, t);
        },
        Json::Str(t) => {
            lemma_string_at(s, p, t);
        },
        Json::Array(a) => {
            assert(decreases_to!(j => a));
            let it = items_text(a);
            lemma_chars_at_concat(s, p, seq!['['] + it, seq![']']);
            lemma_chars_at_concat(s, p, seq!['['], it);
            assert(s[p + 1 + it.len() + 0] == seq![']'][0] as u8);
            if a.len() == 0 {
                assert(it.len() == 0);
                lemma_skip_here(s, p + 1);
                assert(a =~= Seq::<Json>::empty());
            } else {
                if a.len() >= 2 {
                    lemma_items_first(a);
                    lemma_chars_at_concat(s, p + 1, json_text(a[0]) + seq![','], items_text(a.subrange(1, a.len() as int)));
                    lemma_chars_at_concat(s, p + 1, json_text(a[0]), seq![',']);
                } else {
                    assert(it == json_text(a[0]));
                }
                lemma_text_ascii(a[0]);
                assert(s[p + 1 + 0] == json_text(a[0])[0] as u8);
                assert(json_text(a[0])[0] <= '\u{7f}');
                lemma_skip_here(s, p + 1);
                lemma_elements(s, p + 1, a, Seq::empty());
                assert(Seq::<Json>::empty() + a =~= a);
            }
        },
        Json::Object(m) => {
            assert(decreases_to!(j => m));
            let mt = members_text(m);
            lemma_chars_at_concat(s, p, seq!['{'] + mt, seq!['}']);
            lemma_chars_at_concat(s, p, seq!['{'], mt);
            assert(s[p + 1 + mt.len() + 0] == seq!['}'][0] as u8);
            if m.len() == 0 {
                assert(mt.len() == 0);
                lemma_skip_here(s, p + 1);
                assert(m =~= Seq::<(Seq<char>, Json)>::empty());
            } else {
                lemma_members_first(m);
                let e0 = member_entry(m[0].0, m[0].1);
                if m.len() >= 2 {
                    lemma_chars_at_concat(s, p + 1, e0 + seq![','], members_text(m.subrange(1, m.len() as int)));
                    lemma_chars_at_concat(s, p + 1, e0, seq![',']);
                }
                assert(s[p + 1 + 0] == e0[0] as u8);
                lemma_skip_here(s, p + 1);
                lemma_members(s, p + 1, m, Seq::empty());
                assert(Seq::<(Seq<char>, Json)>::empty() + m =~= m);
            }
        },
    }
}

/// The elements of an array, then its `]`, read as the elements.
proof fn lemma_elements(s: Seq<u8>, p: int, a: Seq<Json>, acc: Seq<Json>)
    requires
        a.len() >= 1,
        forall|i: int| 0 <= i < a.len() ==> json_wf(#[trigger] a[i]),
        chars_at(s, p, items_text(a)),
        p + items_text(a).len() < s.len(),
        s[p + items_text(a).len()] == 93,
    ensures
        elements_at(s, p, acc) == Some((Json::Array(acc + a), p + items_text(a).len() + 1)),
    decreases a,
{
    let n = a.len() as int;
    let j0 = a[0];
    let t0 = json_text(j0);
    assert(decreases_to!(a => a[0]));
    lemma_text_ascii(j0);
    if n == 1 {
        assert(items_text(a) == t0);
        lemma_value_at(s, p, j0);
        lemma_skip_here(s, p + t0.len());
        assert(acc.push(j0) =~= acc + a);
    } else {
        let rest = a.subrange(1, n);
        assert(decreases_to!(a => rest));
        lemma_items_first(a);
        lemma_chars_at_concat(s, p, t0 + seq![','], items_text(rest));
        lemma_chars_at_concat(s, p, t0, seq![',']);
        assert(s[p + t0.len() + 0] == seq![','][0] as u8);
        lemma_value_at(s, p, j0);
        lemma_skip_here(s, p + t0.len());
        assert forall|i: int| 0 <= i < rest.len() implies json_wf(#[trigger] rest[i]) by {
            assert(rest[i] == a[i + 1]);
        }
        lemma_elements(s, p + t0.len() + 1, rest, acc.push(j0));
        assert(acc.push(j0) + rest =~= acc + a);
    }
}

/// The members of an object, then its `}`, read as the members.
proof fn lemma_members(s: Seq<u8>, p: int, m: Seq<(Seq<char>, Json)>, acc: Seq<(Seq<char>, Json)>)
    requires
        m.len() >= 1,
        forall|i: int| 0 <= i < m.len() ==> is_ascii_chars(#[trigger] m[i].0) && json_wf(m[i].1),
        forall|i: int, k: int| 0 <= i < k < m.len() ==> #[trigger] m[i].0 != #[trigger] m[k].0,
        forall|i: int, k: int| 0 <= i < acc.len() && 0 <= k < m.len() ==> #[trigger] acc[i].0 != #[trigger] m[k].0,
        chars_at(s, p, members_text(m)),
        p + members_text(m).len() < s.len(),
        s[p + members_text(m).len()] == 125,
    ensures
        members_at(s, p, acc) == Some((Json::Object(acc + m), p + members_text(m).len() + 1)),
    decreases m,
{
    let n = m.len() as int;
    let k0 = m[0].0;
    let v0 = m[0].1;
    assert(is_ascii_chars(k0) && json_wf(v0));
    assert(decreases_to!(m => m[0]));
    assert(decreases_to!(m[0] => m[0].1));
    lemma_members_first(m);
    let key = seq!['"'] + json_escape_all(k0) + seq!['"'];
    let vt = json_text(v0);
    let e0 = member_entry(k0, v0);
    assert(e0 =~= key + seq![':'] + vt);
    if n >= 2 {
        lemma_chars_at_concat(s, p, e0 + seq![','], members_text(m.subrange(1, n)));
        lemma_chars_at_concat(s, p, e0, seq![',']);
        assert(s[p + e0.len() + 0] == seq![','][0] as u8);
    }
    lemma_chars_at_concat(s, p, key + seq![':'], vt);
    lemma_chars_at_concat(s, p, key, seq![':']);
    assert(s[p + 0] == key[0] as u8);
    lemma_skip_here(s, p);
    lemma_string_at(s, p, k0);
    let c = p + key.len();
    assert(s[c + 0] == seq![':'][0] as u8);
    lemma_skip_here(s, c);
    lemma_value_at(s, c + 1, v0);
    lemma_text_ascii(v0);
    let e2 = c + 1 + vt.len();
    lemma_skip_here(s, e2);
    lemma_member_index(acc, k0);
    assert(member_index(acc, k0) == -1) by {
        if member_index(acc, k0) >= 0 {
            assert(acc[member_index(acc, k0)].0 != m[0].0);
        }
    }
    assert(member_insert(acc, k0, v0) == acc.push((k0, v0)));
    if n == 1 {
        assert(acc.push((k0, v0)) =~= acc + m);
    } else {
        let rest = m.subrange(1, n);
        let acc2 = acc.push((k0, v0));
        assert(decreases_to!(m => rest));
        assert forall|i: int| 0 <= i < rest.len() implies is_ascii_chars(#[trigger] rest[i].0) && json_wf(rest[i].1) by {
            assert(rest[i] == m[i + 1]);
        }
        assert forall|i: int, k: int| 0 <= i < k < rest.len() implies #[trigger] rest[i].0 != #[trigger] rest[k].0 by {
            assert(rest[i] == m[i + 1]);
            assert(rest[k] == m[k + 1]);
        }
        assert forall|i: int, k: int| 0 <= i < acc2.len() && 0 <= k < rest.len() implies #[trigger] acc2[i].0 != #[trigger] rest[k].0 by {
            assert(rest[k] == m[k + 1]);
            if i < acc.len() {
                assert(acc2[i] == acc[i]);
            } else {
                assert(acc2[i] == m[0]);
            }
        }
        lemma_members(s, e2 + 1, rest, acc2);
        assert(acc2 + rest =~= acc + m);
    }
}

/// Writing a value and reading the text back gives the value again, for
/// every value whose strings and keys are ASCII, whose numbers are literals
/// of the grammar and whose objects repeat no key.
pub proof fn lemma_json_roundtrip(j: Json)
    requires
        json_wf(j),
    ensures
        parse_json(encode_utf8(json_text(j))) == Some(j),
{
    let jt = json_text(j);
    lemma_text_ascii(j);
    is_ascii_chars_encode_utf8(jt);
    let s = encode_utf8(jt);
    assert forall|k: int| 0 <= k < jt.len() implies s[0 + k] == #[trigger] jt[k] as u8 by {}
    lemma_value_at(s, 0, j);
}

} // verus!

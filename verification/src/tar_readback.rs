//! A header the archiver writes reads back, through the extractor's step,
//! as the entry it was written for: for ASCII names of at most 100 bytes
//! without a NUL or surrounding whitespace, and sizes of at most 11 octal
//! digits, whose names stay inside the destination.
use vstd::prelude::*;
use vstd::utf8::{encode_utf8, is_ascii_chars, is_ascii_chars_encode_utf8};
use crate::tar::{
    octal_ascii, padded_octal, write_at, octal_field, new_header_bytes, set_name_bytes, finalized, entry_header,
    nul_pos, field_text, ascii_only, byte_chars, octal_value, entry_name, all_zero, extract_step_of, ExtractView,
    confined, dotdot_at, split_from, name_split,
};
use crate::text::{trim, trim_start, trim_end, lead_ws, trail_ws, is_ws, parse_octal, all_octal, is_octal, octal_digits_value};

verus! {

/// `8^w`.
pub open spec fn pow8(w: nat) -> nat
    decreases w,
{
    if w == 0 {
        1
    } else {
        8 * pow8((w - 1) as nat)
    }
}

/// A name the header keeps as it is: ASCII, 1 to 100 bytes, no NUL, and no
/// whitespace at either end.
pub open spec fn plain_name(t: Seq<char>) -> bool {
    &&& is_ascii_chars(t)
    &&& 0 < t.len() <= 100
    &&& forall|i: int| 0 <= i < t.len() ==> #[trigger] t[i] != '\0'
    &&& !is_ws(t[0])
    &&& !is_ws(t.last())
}

proof fn lemma_write_at(h: Seq<u8>, off: int, x: Seq<u8>)
    requires
        0 <= off,
        off + x.len() <= h.len(),
    ensures
        write_at(h, off, x).len() == h.len(),
        forall|i: int| 0 <= i < h.len() ==> #[trigger] write_at(h, off, x)[i] == if off <= i < off + x.len() {
            x[i - off]
        } else {
            h[i]
        },
{
    let w = write_at(h, off, x);
    assert forall|i: int| 0 <= i < h.len() implies #[trigger] w[i] == if off <= i < off + x.len() {
        x[i - off]
    } else {
        h[i]
    } by {
        if i < off {
            assert(w[i] == h.take(off)[i]);
        } else if i < off + x.len() {
            assert(w[i] == x[i - off]);
        } else {
            assert(w[i] == h.skip(off + x.len())[i - off - x.len()]);
        }
    }
}

proof fn lemma_octal_ascii(n: nat, w: nat)
    requires
        n < pow8(w),
        w >= 1,
    ensures
        1 <= octal_ascii(n).len() <= w,
        forall|i: int| 0 <= i < octal_ascii(n).len() ==> 48 <= #[trigger] octal_ascii(n)[i] <= 55,
        octal_digits_value(byte_chars(octal_ascii(n))) == n,
    decreases n,
{
    let d = octal_ascii(n);
    if n < 8 {
        assert(byte_chars(d).drop_last() =~= Seq::<char>::empty());
        assert(octal_digits_value(Seq::<char>::empty()) == 0);
    } else {
        let p = octal_ascii(n / 8);
        assert(w >= 2) by {
            if w < 2 {
                assert(pow8(1) == 8) by {
                    assert(pow8(0) == 1);
                }
            }
        }
        assert(n / 8 < pow8((w - 1) as nat));
        lemma_octal_ascii(n / 8, (w - 1) as nat);
        assert(byte_chars(d).drop_last() =~= byte_chars(p));
        assert(byte_chars(d).last() == ((48 + n % 8) as u8) as char);
    }
}

proof fn lemma_zeros_value(k: nat, d: Seq<char>)
    ensures
        octal_digits_value(Seq::new(k, |i: int| '0') + d) == octal_digits_value(d),
    decreases d.len(), k,
{
    let z = Seq::new(k, |i: int| '0');
    if d.len() == 0 {
        assert(z + d =~= z);
        if k > 0 {
            assert(z.drop_last() =~= Seq::new((k - 1) as nat, |i: int| '0'));
            lemma_zeros_value((k - 1) as nat, d);
            assert(Seq::new((k - 1) as nat, |i: int| '0') + d =~= Seq::new((k - 1) as nat, |i: int| '0'));
        }
    } else {
        lemma_zeros_value(k, d.drop_last());
        assert((z + d).drop_last() =~= z + d.drop_last());
        assert((z + d).last() == d.last());
    }
}

/// A padded octal field reads back as its number.
proof fn lemma_padded_octal(n: nat, w: nat)
    requires
        n < pow8(w),
        w >= 1,
        n <= u64::MAX,
    ensures
        padded_octal(n, w).len() == w,
        forall|i: int| 0 <= i < w ==> 48 <= #[trigger] padded_octal(n, w)[i] <= 55,
        parse_octal(trim(byte_chars(padded_octal(n, w)))) == Some(n),
{
    let d = octal_ascii(n);
    lemma_octal_ascii(n, w);
    let p = padded_octal(n, w);
    let k = (w - d.len()) as nat;
    assert forall|i: int| 0 <= i < w implies 48 <= #[trigger] p[i] <= 55 by {
        if d.len() < w {
            if i >= k {
                assert(p[i] == d[i - k]);
            }
        }
    }
    let c = byte_chars(p);
    assert(byte_chars(p) =~= Seq::new(k, |i: int| '0') + byte_chars(d)) by {
        if d.len() >= w {
            assert(k == 0);
        }
        assert forall|i: int| 0 <= i < w implies #[trigger] byte_chars(p)[i] == (Seq::new(k, |i: int| '0') + byte_chars(d))[i] by {
            if i >= k {
                assert(p[i] == d[i - k]);
            }
        }
    }
    lemma_zeros_value(k, byte_chars(d));
    lemma_plain_trim(c);
    assert(all_octal(c)) by {
        assert forall|i: int| 0 <= i < c.len() implies is_octal(#[trigger] c[i]) by {
            assert(48 <= p[i] <= 55);
        }
    }
    assert(c[0] != '+');
}

/// A text with no whitespace at either end trims to itself.
proof fn lemma_plain_trim(s: Seq<char>)
    requires
        s.len() > 0,
        !is_ws(s[0]),
        !is_ws(s.last()),
    ensures
        trim(s) == s,
{
    assert(lead_ws(s) == 0);
    assert(trim_start(s) =~= s);
    assert(trail_ws(s) == 0);
    assert(trim_end(s) =~= s);
}

/// Where the first NUL is: after `k` bytes that are not NUL.
proof fn lemma_nul_pos_at(b: Seq<u8>, k: int)
    requires
        0 <= k <= b.len(),
        forall|i: int| 0 <= i < k ==> #[trigger] b[i] != 0,
        k == b.len() || b[k] == 0,
    ensures
        nul_pos(b) == k,
    decreases k,
{
    if k > 0 {
        let d = b.drop_first();
        assert forall|i: int| 0 <= i < k - 1 implies #[trigger] d[i] != 0 by {
            assert(d[i] == b[i + 1]);
        }
        if k < b.len() {
            assert(d[k - 1] == b[k]);
        }
        lemma_nul_pos_at(d, k - 1);
    }
}

/// A field holding ASCII text without NUL, then NULs to its end, reads as
/// that text.
proof fn lemma_field_text(f: Seq<u8>, t: Seq<char>)
    requires
        is_ascii_chars(t),
        t.len() <= f.len(),
        forall|i: int| 0 <= i < t.len() ==> #[trigger] t[i] != '\0',
        forall|i: int| 0 <= i < t.len() ==> #[trigger] f[i] == t[i] as u8,
        forall|i: int| t.len() <= i < f.len() ==> #[trigger] f[i] == 0,
    ensures
        field_text(f) == t,
{
    assert forall|i: int| 0 <= i < t.len() implies #[trigger] f[i] != 0 by {
        assert(t[i] <= '\u{7f}');
    }
    lemma_nul_pos_at(f, t.len() as int);
    let g = f.take(t.len() as int);
    assert(ascii_only(g)) by {
        assert forall|i: int| 0 <= i < g.len() implies g[i] < 128 by {
            assert(t[i] <= '\u{7f}');
        }
    }
    assert(byte_chars(g) =~= t) by {
        assert forall|i: int| 0 <= i < t.len() implies #[trigger] byte_chars(g)[i] == t[i] by {
            assert(t[i] <= '\u{7f}');
        }
    }
}

proof fn lemma_octal_field_frame(h: Seq<u8>, off: int, flen: int, n: nat, w: nat)
    requires
        0 <= off,
        1 <= flen,
        off + flen <= h.len(),
    ensures
        octal_field(h, off, flen, n, w).len() == h.len(),
        forall|i: int| 0 <= i < h.len() && !(off <= i < off + flen - 1) ==> #[trigger] octal_field(h, off, flen, n, w)[i] == h[i],
{
    let s = padded_octal(n, w);
    let len = if s.len() < flen - 1 { s.len() as int } else { flen - 1 };
    let x = s.skip(s.len() - len);
    lemma_write_at(h, off, x);
}

/// The checksum is written in its own field only.
proof fn lemma_finalized_frame(h: Seq<u8>)
    requires
        h.len() == 512,
    ensures
        finalized(h).len() == 512,
        forall|i: int| 0 <= i < 512 && !(148 <= i < 156) ==> #[trigger] finalized(h)[i] == h[i],
{
    let spaced = write_at(h, 148, Seq::new(8, |i: int| 32u8));
    lemma_write_at(h, 148, Seq::new(8, |i: int| 32u8));
    let o = octal_field(spaced, 148, 8, crate::tar::byte_sum(spaced), 6);
    lemma_octal_field_frame(spaced, 148, 8, crate::tar::byte_sum(spaced), 6);
    assert forall|i: int| 0 <= i < 512 && !(148 <= i < 156) implies #[trigger] finalized(h)[i] == h[i] by {
        assert(finalized(h)[i] == o[i]);
        assert(o[i] == spaced[i]);
    }
}

/// A number field written with `w` digits holds them, then a NUL.
proof fn lemma_octal_field_exact(h: Seq<u8>, off: int, n: nat, w: nat)
    requires
        0 <= off,
        off + w + 1 <= h.len(),
        w >= 1,
        n < pow8(w),
        n <= u64::MAX,
    ensures
        octal_field(h, off, (w + 1) as int, n, w).len() == h.len(),
        forall|i: int| off <= i < off + w ==> #[trigger] octal_field(h, off, (w + 1) as int, n, w)[i] == padded_octal(n, w)[i - off],
        forall|i: int| 0 <= i < h.len() && !(off <= i < off + w) ==> #[trigger] octal_field(h, off, (w + 1) as int, n, w)[i] == h[i],
{
    lemma_padded_octal(n, w);
    let s = padded_octal(n, w);
    assert(s.skip(0) =~= s);
    lemma_write_at(h, off, s);
}

/// What an archiver's header holds, field by field.
proof fn lemma_entry_header(name: Seq<u8>, mode: u32, size: u64, tf: u8, link: Option<Seq<u8>>)
    requires
        name.len() <= 100,
        (mode as nat) < pow8(7),
        (size as nat) < pow8(11),
        link matches Some(t) ==> t.len() <= 100,
    ensures
        ({
            let h = entry_header(name, mode, size, tf, link);
            &&& h.len() == 512
            &&& forall|i: int| 0 <= i < name.len() ==> #[trigger] h[i] == name[i]
            &&& forall|i: int| name.len() <= i < 100 ==> #[trigger] h[i] == 0
            &&& forall|i: int| 100 <= i < 107 ==> #[trigger] h[i] == padded_octal(mode as nat, 7)[i - 100]
            &&& h[107] == 0
            &&& forall|i: int| 124 <= i < 135 ==> #[trigger] h[i] == padded_octal(size as nat, 11)[i - 124]
            &&& h[135] == 0
            &&& h[156] == tf
            &&& forall|i: int| 345 <= i < 500 ==> #[trigger] h[i] == 0
            &&& match link {
                Some(t) => (forall|i: int| 157 <= i < 157 + t.len() ==> #[trigger] h[i] == t[i - 157]) && (forall|i: int|
                    157 + t.len() <= i < 257 ==> #[trigger] h[i] == 0),
                None => forall|i: int| 157 <= i < 257 ==> #[trigger] h[i] == 0,
            }
        }),
{
    let z = Seq::new(512, |i: int| 0u8);
    let z1 = write_at(z, 257, seq![117u8, 115u8, 116u8, 97u8, 114u8, 0u8]);
    let z2 = write_at(z1, 263, seq![48u8, 48u8]);
    let z3 = write_at(z2, 265, seq![114u8, 111u8, 111u8, 116u8]);
    let h0 = new_header_bytes();
    lemma_write_at(z, 257, seq![117u8, 115u8, 116u8, 97u8, 114u8, 0u8]);
    lemma_write_at(z1, 263, seq![48u8, 48u8]);
    lemma_write_at(z2, 265, seq![114u8, 111u8, 111u8, 116u8]);
    lemma_write_at(z3, 297, seq![114u8, 111u8, 111u8, 116u8]);
    assert(forall|i: int| (0 <= i < 257 || 345 <= i < 512) ==> #[trigger] h0[i] == 0);
    let h1 = set_name_bytes(h0, name);
    lemma_write_at(h0, 0, name);
    assert(h1 == write_at(h0, 0, name));
    let h2 = octal_field(h1, 100, 8, mode as nat, 7);
    lemma_octal_field_exact(h1, 100, mode as nat, 7);
    let h3 = octal_field(h2, 124, 12, size as nat, 11);
    lemma_octal_field_exact(h2, 124, size as nat, 11);
    let h4 = h3.update(156, tf);
    let h5 = match link {
        Some(t) => write_at(h4, 157, t.take(if t.len() < 100 { t.len() as int } else { 100 })),
        None => h4,
    };
    match link {
        Some(t) => {
            assert(t.take(if t.len() < 100 { t.len() as int } else { 100 }) =~= t);
            lemma_write_at(h4, 157, t);
        },
        None => {},
    }
    lemma_finalized_frame(h5);
    assert(entry_header(name, mode, size, tf, link) == finalized(h5));
}

proof fn lemma_pow8_facts()
    ensures
        pow8(7) == 2097152,
        pow8(11) == 8589934592,
{
    reveal_with_fuel(pow8, 12);
}

/// The text of a number field written with `w` digits is its number.
proof fn lemma_number_field(h: Seq<u8>, off: int, n: nat, w: nat)
    requires
        w >= 1,
        n < pow8(w),
        n <= u64::MAX,
        0 <= off,
        off + w + 1 <= h.len(),
        forall|i: int| off <= i < off + w ==> #[trigger] h[i] == padded_octal(n, w)[i - off],
        h[off + w] == 0,
    ensures
        octal_value(h.subrange(off, off + w + 1)) == n,
{
    lemma_padded_octal(n, w);
    let p = padded_octal(n, w);
    let t = byte_chars(p);
    let f = h.subrange(off, off + w + 1);
    assert(is_ascii_chars(t)) by {
        assert forall|i: int| 0 <= i < t.len() implies '\0' <= #[trigger] t[i] <= '\u{7f}' by {
            assert(48 <= p[i] <= 55);
        }
    }
    assert forall|i: int| 0 <= i < t.len() implies #[trigger] t[i] != '\0' by {
        assert(48 <= p[i] <= 55);
    }
    assert forall|i: int| 0 <= i < t.len() implies #[trigger] f[i] == t[i] as u8 by {
        assert(f[i] == h[off + i]);
        assert(48 <= p[i] <= 55);
    }
    assert forall|i: int| t.len() <= i < f.len() implies #[trigger] f[i] == 0 by {
        assert(f[i] == h[off + w]);
    }
    lemma_field_text(f, t);
}

/// The name fields of a header written for `name` read as `name`.
proof fn lemma_name_fields(h: Seq<u8>, name: Seq<char>)
    requires
        is_ascii_chars(name),
        0 < name.len() <= 100,
        forall|i: int| 0 <= i < name.len() ==> #[trigger] name[i] != '\0',
        !is_ws(name[0]),
        !is_ws(name.last()),
        h.len() == 512,
        forall|i: int| 0 <= i < name.len() ==> #[trigger] h[i] == name[i] as u8,
        forall|i: int| name.len() <= i < 100 ==> #[trigger] h[i] == 0,
        forall|i: int| 345 <= i < 500 ==> #[trigger] h[i] == 0,
    ensures
        entry_name(trim(field_text(h.subrange(345, 500))), trim(field_text(h.subrange(0, 100)))) == name,
        !all_zero(h),
{
    let pre = h.subrange(345, 500);
    lemma_field_text(pre, Seq::empty());
    assert(trim(Seq::<char>::empty()) =~= Seq::<char>::empty());
    let nf = h.subrange(0, 100);
    lemma_field_text(nf, name);
    lemma_plain_trim(name);
    assert(name[0] <= '\u{7f}');
    assert(h[0] != 0);
}

/// The header of a regular file reads back as that file: its name, size,
/// padding and mode.
pub proof fn lemma_file_header_read(name: Seq<char>, size: u64)
    requires
        plain_name(name),
        confined(name),
        (size as nat) < pow8(11),
    ensures
        extract_step_of(entry_header(encode_utf8(name), 0o644, size, 48, None)) == (ExtractView::File {
            name,
            size: size as nat,
            padding: (512 - size % 512) % 512,
            mode: 0o644,
        }),
{
    let b = encode_utf8(name);
    is_ascii_chars_encode_utf8(name);
    lemma_pow8_facts();
    lemma_entry_header(b, 0o644, size, 48, None);
    let h = entry_header(b, 0o644, size, 48, None);
    lemma_name_fields(h, name);
    lemma_number_field(h, 124, size as nat, 11);
    lemma_number_field(h, 100, 0o644, 7);
}

/// The header of a directory reads back as that directory, its name ending
/// in `/`.
pub proof fn lemma_dir_header_read(name: Seq<char>)
    requires
        plain_name(name),
        confined(name),
        name.len() < 100,
    ensures
        extract_step_of(entry_header(encode_utf8(name).push(47u8), 0o755, 0, 53, None)) == ExtractView::Dir(
            name.push('/'),
        ),
{
    let b = encode_utf8(name);
    is_ascii_chars_encode_utf8(name);
    lemma_pow8_facts();
    let nb = b.push(47u8);
    let n2 = name.push('/');
    lemma_entry_header(nb, 0o755, 0, 53, None);
    let h = entry_header(nb, 0o755, 0, 53, None);
    assert(is_ascii_chars(n2)) by {
        assert forall|i: int| 0 <= i < n2.len() implies '\0' <= #[trigger] n2[i] <= '\u{7f}' by {
            if i < name.len() {
                assert(n2[i] == name[i]);
            }
        }
    }
    assert forall|i: int| 0 <= i < n2.len() implies #[trigger] n2[i] != '\0' by {
        if i < name.len() {
            assert(n2[i] == name[i]);
        }
    }
    assert forall|i: int| 0 <= i < n2.len() implies #[trigger] h[i] == n2[i] as u8 by {
        if i < name.len() {
            assert(n2[i] == name[i]);
            assert(nb[i] == b[i]);
        }
    }
    assert(n2[0] == name[0]);
    assert forall|i: int| !dotdot_at(n2, i) by {
        if dotdot_at(n2, i) {
            assert(n2[i] == name[i] && n2[i + 1] == name[i + 1]);
            if i > 0 {
                assert(n2[i - 1] == name[i - 1]);
            }
            if i + 2 < name.len() {
                assert(n2[i + 2] == name[i + 2]);
            }
            assert(dotdot_at(name, i));
        }
    }
    lemma_name_fields(h, n2);
    lemma_number_field(h, 124, 0, 11);
}

/// The header of a symbolic link reads back as that link and its target.
pub proof fn lemma_symlink_header_read(name: Seq<char>, target: Seq<char>)
    requires
        plain_name(name),
        confined(name),
        plain_name(target),
    ensures
        extract_step_of(entry_header(encode_utf8(name), 0o777, 0, 50, Some(encode_utf8(target))))
            == (ExtractView::Symlink { name, target }),
{
    let b = encode_utf8(name);
    let tb = encode_utf8(target);
    is_ascii_chars_encode_utf8(name);
    is_ascii_chars_encode_utf8(target);
    lemma_pow8_facts();
    lemma_entry_header(b, 0o777, 0, 50, Some(tb));
    let h = entry_header(b, 0o777, 0, 50, Some(tb));
    lemma_name_fields(h, name);
    lemma_number_field(h, 124, 0, 11);
    let lf = h.subrange(157, 257);
    assert forall|i: int| 0 <= i < target.len() implies #[trigger] lf[i] == target[i] as u8 by {
        assert(lf[i] == h[157 + i]);
    }
    assert forall|i: int| target.len() <= i < lf.len() implies #[trigger] lf[i] == 0 by {
        assert(lf[i] == h[157 + i]);
    }
    lemma_field_text(lf, target);
    lemma_plain_trim(target);
}

/// A name `set_name` stores whole: ASCII without NUL or whitespace, and
/// either at most 100 bytes, or at most 255 bytes with a `/` after its first
/// byte that leaves at most 155 bytes before it and at most 100 after it.
pub open spec fn storable_name(s: Seq<char>) -> bool {
    &&& is_ascii_chars(s)
    &&& forall|i: int| 0 <= i < s.len() ==> #[trigger] s[i] != '\0' && !is_ws(s[i])
    &&& (s.len() <= 100 || (s.len() <= 255 && exists|i: int|
        1 <= i <= 155 && i < s.len() && #[trigger] s[i] == '/' && s.len() - i - 1 <= 100))
}

/// The split `split_from` finds is at or after any index that qualifies.
proof fn lemma_split_found(b: Seq<u8>, k: int, i: int)
    requires
        0 <= i <= k < b.len(),
        b[i] == 47,
        b.len() - i - 1 <= 100,
        i <= 155,
    ensures
        split_from(b, k) matches Some(j) && i <= j <= k && b[j] == 47 && b.len() - j - 1 <= 100 && j <= 155,
    decreases k,
{
    if !(b[k] == 47 && b.len() - k - 1 <= 100 && k <= 155) {
        lemma_split_found(b, k - 1, i);
    }
}

/// The fresh header's name and prefix fields are zero.
proof fn lemma_new_header_zero()
    ensures
        new_header_bytes().len() == 512,
        forall|i: int| (0 <= i < 257 || 345 <= i < 512) ==> #[trigger] new_header_bytes()[i] == 0,
{
    let z = Seq::new(512, |i: int| 0u8);
    let z1 = write_at(z, 257, seq![117u8, 115u8, 116u8, 97u8, 114u8, 0u8]);
    let z2 = write_at(z1, 263, seq![48u8, 48u8]);
    let z3 = write_at(z2, 265, seq![114u8, 111u8, 111u8, 116u8]);
    lemma_write_at(z, 257, seq![117u8, 115u8, 116u8, 97u8, 114u8, 0u8]);
    lemma_write_at(z1, 263, seq![48u8, 48u8]);
    lemma_write_at(z2, 265, seq![114u8, 111u8, 111u8, 116u8]);
    lemma_write_at(z3, 297, seq![114u8, 111u8, 111u8, 116u8]);
}

/// A name `set_name` stores in a fresh header is the name `parse_name`
/// reads back from it: the name field alone, or the prefix field, `/` and
/// the name field.
pub proof fn lemma_set_name_parse(s: Seq<char>)
    requires
        storable_name(s),
    ensures
        ({
            let h = set_name_bytes(new_header_bytes(), encode_utf8(s));
            entry_name(trim(field_text(h.subrange(345, 500))), trim(field_text(h.subrange(0, 100)))) == s
        }),
{
    let b = encode_utf8(s);
    is_ascii_chars_encode_utf8(s);
    let h0 = new_header_bytes();
    lemma_new_header_zero();
    let h = set_name_bytes(h0, b);
    let n = s.len() as int;
    if n <= 100 {
        lemma_write_at(h0, 0, b);
        if n == 0 {
            lemma_field_text(h.subrange(0, 100), Seq::empty());
            lemma_field_text(h.subrange(345, 500), Seq::empty());
            assert(trim(Seq::<char>::empty()) =~= Seq::<char>::empty());
            assert(s =~= Seq::<char>::empty());
        } else {
            lemma_name_fields(h, s);
        }
    } else {
        let w = choose|i: int| 1 <= i <= 155 && i < s.len() && #[trigger] s[i] == '/' && s.len() - i - 1 <= 100;
        assert(b[w] == 47);
        lemma_split_found(b, b.len() - 1, w);
        let j = name_split(b)->0;
        let pb = b.take(j);
        let qb = b.skip(j + 1);
        let h1 = write_at(h0, 345, pb);
        lemma_write_at(h0, 345, pb);
        lemma_write_at(h1, 0, qb);
        assert(h == write_at(h1, 0, qb));
        let p = s.subrange(0, j);
        let q = s.subrange(j + 1, n);
        let pf = h.subrange(345, 500);
        let qf = h.subrange(0, 100);
        assert(is_ascii_chars(p) && is_ascii_chars(q));
        assert forall|i: int| 0 <= i < p.len() implies #[trigger] pf[i] == p[i] as u8 by {
            assert(pf[i] == h[345 + i]);
            assert(h[345 + i] == h1[345 + i]);
        }
        assert forall|i: int| p.len() <= i < pf.len() implies #[trigger] pf[i] == 0 by {
            assert(pf[i] == h[345 + i]);
            assert(h[345 + i] == h1[345 + i]);
        }
        assert forall|i: int| 0 <= i < q.len() implies #[trigger] qf[i] == q[i] as u8 by {
            assert(qf[i] == h[i]);
            assert(h[i] == qb[i]);
        }
        assert forall|i: int| q.len() <= i < qf.len() implies #[trigger] qf[i] == 0 by {
            assert(qf[i] == h[i]);
            assert(h[i] == h1[i]);
        }
        lemma_field_text(pf, p);
        lemma_field_text(qf, q);
        lemma_plain_trim(p);
        if q.len() > 0 {
            lemma_plain_trim(q);
        } else {
            assert(trim(q) =~= q);
        }
        assert(s[j] == '/') by {
            assert(b[j] == s[j] as u8);
        }
        assert(p + seq!['/'] + q =~= s);
    }
}

} // verus!

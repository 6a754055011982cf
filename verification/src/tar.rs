//! UStar tar headers: a 512-byte block of fixed-width fields, numbers written
//! as zero-padded octal ASCII.
//!
//! | field    | offset | length |
//! |----------|--------|--------|
//! | name     | 0      | 100    |
//! | mode     | 100    | 8      |
//! | size     | 124    | 12     |
//! | checksum | 148    | 8      |
//! | typeflag | 156    | 1      |
//! | linkname | 157    | 100    |
//! | magic    | 257    | 6      |
//! | version  | 263    | 2      |
//! | uname    | 265    | 32     |
//! | gname    | 297    | 32     |
//! | prefix   | 345    | 155    |
use vstd::prelude::*;
use vstd::string::StringSliceAdditionalSpecFns;
use crate::http::{lossy_text, text_of_bytes};
use crate::text::{chars_of, parse_octal, parse_octal_exec, string_of, string_of_range, extend_chars, trim, trim_bounds};

verus! {

pub const TAR_BLOCK_SIZE: usize = 512;

/// Octal digits of `n` as ASCII, without leading zeros.
pub open spec fn octal_ascii(n: nat) -> Seq<u8>
    decreases n,
{
    if n < 8 {
        seq![(48 + n) as u8]
    } else {
        octal_ascii(n / 8).push((48 + n % 8) as u8)
    }
}

/// `format!("{:0>w$o}", n)`: octal digits of `n`, padded with `0` to at
/// least `w` characters.
pub open spec fn padded_octal(n: nat, w: nat) -> Seq<u8> {
    let d = octal_ascii(n);
    if d.len() < w {
        Seq::new((w - d.len()) as nat, |i: int| 48u8) + d
    } else {
        d
    }
}

/// `h` with `x` written from offset `off`.
pub open spec fn write_at(h: Seq<u8>, off: int, x: Seq<u8>) -> Seq<u8> {
    h.take(off) + x + h.skip(off + x.len())
}

/// The field `h[off..off + flen]` holding the last `flen - 1` characters of
/// the padded octal form of `n` (or all of it when shorter).
pub open spec fn octal_field(h: Seq<u8>, off: int, flen: int, n: nat, w: nat) -> Seq<u8> {
    let s = padded_octal(n, w);
    let len = if s.len() < flen - 1 {
        s.len() as int
    } else {
        flen - 1
    };
    write_at(h, off, s.skip(s.len() - len))
}

/// The bytes of a fresh header: zeros, with magic `ustar\0`, version `00`
/// and owner names `root`.
pub open spec fn new_header_bytes() -> Seq<u8> {
    let z = Seq::new(512, |i: int| 0u8);
    let h1 = write_at(z, 257, seq![117u8, 115u8, 116u8, 97u8, 114u8, 0u8]);
    let h2 = write_at(h1, 263, seq![48u8, 48u8]);
    let h3 = write_at(h2, 265, seq![114u8, 111u8, 111u8, 116u8]);
    write_at(h3, 297, seq![114u8, 111u8, 111u8, 116u8])
}

/// Sum of the bytes.
pub open spec fn byte_sum(s: Seq<u8>) -> nat
    decreases s.len(),
{
    if s.len() == 0 {
        0
    } else {
        byte_sum(s.drop_last()) + (s.last() as nat)
    }
}

/// The last index `i <= k` where `b` can be split into a prefix of at most
/// 155 bytes and a name of at most 100 bytes around a `/`.
pub open spec fn split_from(b: Seq<u8>, k: int) -> Option<int>
    decreases k + 1,
{
    if k < 0 {
        None
    } else if b[k] == 47 && b.len() - k - 1 <= 100 && k <= 155 {
        Some(k)
    } else {
        split_from(b, k - 1)
    }
}

pub open spec fn name_split(b: Seq<u8>) -> Option<int> {
    split_from(b, b.len() - 1)
}

/// The header after storing the name bytes `b`.
pub open spec fn set_name_bytes(h: Seq<u8>, b: Seq<u8>) -> Seq<u8> {
    if b.len() <= 100 {
        write_at(h, 0, b)
    } else if b.len() <= 255 {
        match name_split(b) {
            Some(i) => write_at(write_at(h, 345, b.take(i)), 0, b.skip(i + 1)),
            None => write_at(h, 0, b.take(100)),
        }
    } else {
        write_at(h, 0, b.take(100))
    }
}

/// Where a long name is split (see `name_split`).
fn find_split(b: &[u8]) -> (r: Option<usize>)
    ensures
        r matches Some(i) ==> name_split(b@) == Some(i as int) && i < b@.len() && b@.len() - i - 1
            <= 100 && i <= 155,
        r is None ==> name_split(b@) is None,
{
    let n = b.len();
    let mut i: usize = n;
    while i > 0
        invariant
            i <= n,
            n == b@.len(),
            name_split(b@) == split_from(b@, i - 1),
        decreases i,
    {
        let j = i - 1;
        if b[j] == 47 && n - j - 1 <= 100 && j <= 155 {
            return Some(j);
        }
        i = j;
    }
    None
}

/// A tar header block.
pub struct TarHeader {
    bytes: Vec<u8>,
}

impl View for TarHeader {
    type V = Seq<u8>;

    closed spec fn view(&self) -> Seq<u8> {
        self.bytes@
    }
}

/// Writes `x` into `h` from offset `off`.
fn write_bytes(h: &mut Vec<u8>, off: usize, x: &[u8], lo: usize, hi: usize)
    requires
        lo <= hi <= x.len(),
        off + (hi - lo) <= old(h)@.len(),
    ensures
        final(h)@ == write_at(old(h)@, off as int, x@.subrange(lo as int, hi as int)),
{
    let ghost h0 = h@;
    let n = h.len();
    let mut i = lo;
    while i < hi
        invariant
            lo <= i <= hi <= x.len(),
            n == h0.len(),
            off + (hi - lo) <= h0.len(),
            h@.len() == h0.len(),
            h@ == write_at(h0, off as int, x@.subrange(lo as int, i as int)),
        decreases hi - i,
    {
        h.set(off + (i - lo), x[i]);
        i += 1;
        assert(h@ =~= write_at(h0, off as int, x@.subrange(lo as int, i as int)));
    }
}

/// Appends the octal digits of `n`.
fn push_octal(out: &mut Vec<u8>, n: u64)
    ensures
        final(out)@ == old(out)@ + octal_ascii(n as nat),
    decreases n,
{
    if n >= 8 {
        push_octal(out, n / 8);
    }
    let d = (n % 8) as u8;
    out.push(48u8 + d);
    proof {
        if n >= 8 {
            assert(octal_ascii(n as nat) == octal_ascii((n / 8) as nat).push((48 + n % 8) as u8));
        }
    }
    assert(final(out)@ =~= old(out)@ + octal_ascii(n as nat));
}

/// The zero-padded octal form of `n`.
fn octal_padded(n: u64, w: usize) -> (s: Vec<u8>)
    requires
        w <= 64,
    ensures
        s@ == padded_octal(n as nat, w as nat),
{
    let mut d: Vec<u8> = Vec::new();
    push_octal(&mut d, n);
    assert(d@ =~= octal_ascii(n as nat));
    if d.len() < w {
        let mut s: Vec<u8> = Vec::new();
        let pad = w - d.len();
        let mut i: usize = 0;
        while i < pad
            invariant
                i <= pad,
                s@ == Seq::new(i as nat, |j: int| 48u8),
            decreases pad - i,
        {
            s.push(48u8);
            i += 1;
            assert(s@ =~= Seq::new(i as nat, |j: int| 48u8));
        }
        let mut k: usize = 0;
        let ghost s0 = s@;
        while k < d.len()
            invariant
                k <= d.len(),
                s@ == s0 + d@.take(k as int),
            decreases d.len() - k,
        {
            s.push(d[k]);
            k += 1;
            assert(s@ =~= s0 + d@.take(k as int));
        }
        assert(d@.take(d.len() as int) =~= d@);
        s
    } else {
        d
    }
}

/// Writes `val` in octal into the field at `off` of length `flen`, as
/// `{:0>width$o}` truncated to its last `flen - 1` characters.
fn write_octal(h: &mut Vec<u8>, off: usize, flen: usize, val: u64, width: usize)
    requires
        1 <= flen,
        off + flen <= old(h)@.len(),
        width <= 64,
    ensures
        final(h)@ == octal_field(old(h)@, off as int, flen as int, val as nat, width as nat),
{
    let s = octal_padded(val, width);
    let len = if s.len() < flen - 1 {
        s.len()
    } else {
        flen - 1
    };
    write_bytes(h, off, &s, s.len() - len, s.len());
    assert(s@.subrange(s.len() - len, s.len() as int) =~= s@.skip(s.len() - len));
}

impl TarHeader {
    /// A fresh header.
    pub fn new() -> (h: TarHeader)
        ensures
            h@ == new_header_bytes(),
    {
        let mut b: Vec<u8> = vec![0u8; 512];
        let magic: [u8; 6] = [117, 115, 116, 97, 114, 0];
        write_bytes(&mut b, 257, &magic, 0, 6);
        let version: [u8; 2] = [48, 48];
        write_bytes(&mut b, 263, &version, 0, 2);
        let root: [u8; 4] = [114, 111, 111, 116];
        write_bytes(&mut b, 265, &root, 0, 4);
        write_bytes(&mut b, 297, &root, 0, 4);
        proof {
            assert(magic@.subrange(0, 6) =~= seq![117u8, 115u8, 116u8, 97u8, 114u8, 0u8]);
            assert(version@.subrange(0, 2) =~= seq![48u8, 48u8]);
            assert(root@.subrange(0, 4) =~= seq![114u8, 111u8, 111u8, 116u8]);
            assert(b@ =~= new_header_bytes());
        }
        TarHeader { bytes: b }
    }

    /// Stores `name`: in the name field when it fits in 100 bytes; else, up
    /// to 255 bytes, split at the last `/` that leaves at most 100 bytes after
    /// it and at most 155 before it (the part before goes to the prefix
    /// field); otherwise its first 100 bytes go to the name field.
    pub fn set_name(&mut self, name: &str)
        requires
            old(self)@.len() == 512,
        ensures
            final(self)@ == set_name_bytes(old(self)@, name.spec_bytes()),
            final(self)@.len() == 512,
    {
        let b = name.as_bytes();
        let n = b.len();
        if n <= 100 {
            write_bytes(&mut self.bytes, 0, b, 0, n);
            assert(b@.subrange(0, n as int) =~= b@);
        } else if n <= 255 {
            let split = find_split(b);
            match split {
                Some(pos) => {
                    write_bytes(&mut self.bytes, 345, b, 0, pos);
                    write_bytes(&mut self.bytes, 0, b, pos + 1, n);
                    assert(b@.subrange(0, pos as int) =~= b@.take(pos as int));
                    assert(b@.subrange(pos + 1, n as int) =~= b@.skip(pos + 1));
                },
                None => {
                    write_bytes(&mut self.bytes, 0, b, 0, 100);
                    assert(b@.subrange(0, 100) =~= b@.take(100));
                },
            }
        } else {
            write_bytes(&mut self.bytes, 0, b, 0, 100);
            assert(b@.subrange(0, 100) =~= b@.take(100));
        }
    }

    /// Writes the mode field (7 octal digits).
    pub fn set_mode(&mut self, mode: u32)
        requires
            old(self)@.len() == 512,
        ensures
            final(self)@ == octal_field(old(self)@, 100, 8, mode as nat, 7),
            final(self)@.len() == 512,
    {
        write_octal(&mut self.bytes, 100, 8, mode as u64, 7);
    }

    /// Writes the size field (11 octal digits).
    pub fn set_size(&mut self, size: u64)
        requires
            old(self)@.len() == 512,
        ensures
            final(self)@ == octal_field(old(self)@, 124, 12, size as nat, 11),
            final(self)@.len() == 512,
    {
        write_octal(&mut self.bytes, 124, 12, size, 11);
    }

    /// Sets the type flag.
    pub fn set_typeflag(&mut self, t: u8)
        requires
            old(self)@.len() == 512,
        ensures
            final(self)@ == old(self)@.update(156, t),
    {
        self.bytes.set(156, t);
    }

    /// Stores at most the first 100 bytes of `target` in the link name field.
    pub fn set_linkname(&mut self, target: &str)
        requires
            old(self)@.len() == 512,
        ensures
            final(self)@ == write_at(old(self)@, 157, target.spec_bytes().take(
                if target.spec_bytes().len() < 100 { target.spec_bytes().len() as int } else { 100 },
            )),
            final(self)@.len() == 512,
    {
        let b = target.as_bytes();
        let len = if b.len() < 100 {
            b.len()
        } else {
            100
        };
        write_bytes(&mut self.bytes, 157, b, 0, len);
        assert(b@.subrange(0, len as int) =~= b@.take(len as int));
    }

    /// Computes and stores the checksum: the sum of all bytes with the
    /// checksum field read as spaces, in 6 octal digits, then a NUL.
    pub fn finalize(&mut self)
        requires
            old(self)@.len() == 512,
        ensures
            final(self)@ == finalized(old(self)@),
            final(self)@.len() == 512,
    {
        let spaces: [u8; 8] = [32; 8];
        write_bytes(&mut self.bytes, 148, &spaces, 0, 8);
        assert(spaces@.subrange(0, 8) =~= Seq::new(8, |i: int| 32u8));
        let ghost spaced = self.bytes@;
        let mut sum: u32 = 0;
        let mut i: usize = 0;
        while i < 512
            invariant
                i <= 512,
                self.bytes@ == spaced,
                spaced.len() == 512,
                sum as nat == byte_sum(spaced.take(i as int)),
                sum <= 255 * i,
            decreases 512 - i,
        {
            assert(spaced.take(i + 1).drop_last() =~= spaced.take(i as int));
            sum = sum + self.bytes[i] as u32;
            i += 1;
        }
        assert(spaced.take(512) =~= spaced);
        write_octal(&mut self.bytes, 148, 8, sum as u64, 6);
        self.bytes.set(155, 0);
    }

    /// The 512 bytes of the header.
    pub fn as_bytes(&self) -> (b: &[u8])
        ensures
            b@ == self@,
    {
        self.bytes.as_slice()
    }
}

/// A header with its checksum: the sum of all bytes with the checksum field
/// read as spaces, in 6 octal digits, then a NUL.
pub open spec fn finalized(h: Seq<u8>) -> Seq<u8> {
    let spaced = write_at(h, 148, Seq::new(8, |i: int| 32u8));
    octal_field(spaced, 148, 8, byte_sum(spaced), 6).update(155, 0u8)
}

/// The header the archiver writes for an entry: the name, mode, size and
/// type, the link target (its first 100 bytes) for a link, and the checksum.
pub open spec fn entry_header(name: Seq<u8>, mode: u32, size: u64, tf: u8, link: Option<Seq<u8>>) -> Seq<u8> {
    let h = octal_field(
        octal_field(set_name_bytes(new_header_bytes(), name), 100, 8, mode as nat, 7),
        124,
        12,
        size as nat,
        11,
    ).update(156, tf);
    let h2 = match link {
        Some(t) => write_at(h, 157, t.take(if t.len() < 100 { t.len() as int } else { 100 })),
        None => h,
    };
    finalized(h2)
}

/// The UTF-8 encoding of a concatenation is the concatenation of encodings.
pub proof fn lemma_encode_utf8_concat(a: Seq<char>, b: Seq<char>)
    ensures
        vstd::utf8::encode_utf8(a + b) == vstd::utf8::encode_utf8(a) + vstd::utf8::encode_utf8(b),
    decreases a.len(),
{
    if a.len() == 0 {
        assert(a + b =~= b);
        assert(vstd::utf8::encode_utf8(a) =~= Seq::<u8>::empty());
    } else {
        assert((a + b).drop_first() =~= a.drop_first() + b);
        assert((a + b)[0] == a[0]);
        lemma_encode_utf8_concat(a.drop_first(), b);
    }
}

/// The header of a directory entry `rel/`.
pub fn dir_header(rel: &str) -> (h: TarHeader)
    ensures
        h@ == entry_header(rel.spec_bytes().push(47u8), 0o755, 0, 53, None),
{
    let mut v: Vec<char> = chars_of(rel);
    v.push('/');
    let name = string_of(&v);
    proof {
        assert(name@ =~= rel@ + seq!['/']);
        lemma_encode_utf8_concat(rel@, seq!['/']);
        assert(vstd::utf8::encode_utf8(seq!['/']) =~= seq![47u8]) by {
            assert(seq!['/'].drop_first() =~= Seq::<char>::empty());
            assert((47u32 & 0x7Fu32) == 47u32) by (bit_vector);
            assert(('/' as u32) == 47u32);
            assert(vstd::utf8::encode_scalar(47u32) =~= seq![47u8]);
            assert(seq!['/'][0] == '/');
            assert(vstd::utf8::encode_utf8(Seq::<char>::empty()) =~= Seq::<u8>::empty());
            assert(vstd::utf8::encode_utf8(seq!['/']) == vstd::utf8::encode_scalar(seq!['/'][0] as u32)
                + vstd::utf8::encode_utf8(seq!['/'].drop_first()));
        }
        assert(vstd::utf8::encode_utf8(name@) =~= rel.spec_bytes().push(47u8));
    }
    let mut h = TarHeader::new();
    h.set_name(name.as_str());
    h.set_mode(0o755);
    h.set_size(0);
    h.set_typeflag(53);
    h.finalize();
    h
}

/// The header of a regular file entry of `size` bytes.
pub fn file_header(rel: &str, size: u64) -> (h: TarHeader)
    ensures
        h@ == entry_header(rel.spec_bytes(), 0o644, size, 48, None),
{
    let mut h = TarHeader::new();
    h.set_name(rel);
    h.set_mode(0o644);
    h.set_size(size);
    h.set_typeflag(48);
    h.finalize();
    h
}

/// The header of a symbolic link entry pointing at `target`.
pub fn symlink_header(rel: &str, target: &str) -> (h: TarHeader)
    ensures
        h@ == entry_header(rel.spec_bytes(), 0o777, 0, 50, Some(target.spec_bytes())),
{
    let mut h = TarHeader::new();
    h.set_name(rel);
    h.set_mode(0o777);
    h.set_size(0);
    h.set_typeflag(50);
    h.set_linkname(target);
    h.finalize();
    h
}

/// The zero bytes after `size` bytes of file data up to the next 512-byte
/// block.
pub fn block_padding(size: u64) -> (n: usize)
    ensures
        n as int == (512 - size % 512) % 512,
{
    ((512 - size % 512) % 512) as usize
}

/// The end of an archive: two zero blocks.
pub fn end_of_archive() -> (b: Vec<u8>)
    ensures
        b@ == Seq::new(1024, |i: int| 0u8),
{
    let b = vec![0u8; 1024];
    assert(b@ =~= Seq::new(1024, |i: int| 0u8));
    b
}

/// What the extractor of an archive file does with one header.
pub enum ExtractStep {
    /// The archive ends here.
    End,
    /// Create the directory.
    Dir(String),
    /// Copy `size` bytes into the file, skip `padding` bytes, and give the
    /// file `mode`.
    File { name: String, size: u64, padding: usize, mode: u64 },
    /// Create the link.
    Symlink { name: String, target: String },
    /// Skip `skip` bytes of data.
    Skip(usize),
}

/// The mathematical form of an [`ExtractStep`].
pub enum ExtractView {
    End,
    Dir(Seq<char>),
    File { name: Seq<char>, size: nat, padding: int, mode: nat },
    Symlink { name: Seq<char>, target: Seq<char> },
    Skip(int),
}

impl View for ExtractStep {
    type V = ExtractView;

    open spec fn view(&self) -> ExtractView {
        match self {
            ExtractStep::End => ExtractView::End,
            ExtractStep::Dir(n) => ExtractView::Dir(n@),
            ExtractStep::File { name, size, padding, mode } => ExtractView::File {
                name: name@,
                size: *size as nat,
                padding: *padding as int,
                mode: *mode as nat,
            },
            ExtractStep::Symlink { name, target } => ExtractView::Symlink { name: name@, target: target@ },
            ExtractStep::Skip(n) => ExtractView::Skip(*n as int),
        }
    }
}

/// The step for a header: an all-zero or nameless header ends the archive;
/// a directory (type `5`, or NUL with a name ending in `/`) is created; a
/// regular file (type `0` or NUL) is copied with its mode; a symbolic link
/// (type `2`) is made; any other entry's data is skipped.
/// A `..` component of `p` starts at `i`.
pub open spec fn dotdot_at(p: Seq<char>, i: int) -> bool {
    &&& 0 <= i
    &&& i + 2 <= p.len()
    &&& p[i] == '.'
    &&& p[i + 1] == '.'
    &&& (i == 0 || p[i - 1] == '/')
    &&& (i + 2 == p.len() || p[i + 2] == '/')
}

/// A path that stays inside the directory it is joined to: it does not
/// start with `/` and has no `..` component.
pub open spec fn confined(p: Seq<char>) -> bool {
    &&& !(p.len() > 0 && p[0] == '/')
    &&& forall|i: int| !dotdot_at(p, i)
}

/// Whether `s` is a path that stays inside the directory it is joined to.
pub fn is_confined(s: &str) -> (r: bool)
    ensures
        r == confined(s@),
{
    let c = chars_of(s);
    let n = c.len();
    if n > 0 && c[0] == '/' {
        return false;
    }
    let mut i: usize = 0;
    while n > 0 && i < n - 1
        invariant
            i <= n,
            n == c@.len(),
            c@ == s@,
            forall|k: int| 0 <= k < i ==> !dotdot_at(s@, k),
        decreases n - i,
    {
        if c[i] == '.' && c[i + 1] == '.' && (i == 0 || c[i - 1] == '/') && (i + 2 == n || c[i + 2] == '/') {
            assert(dotdot_at(s@, i as int));
            return false;
        }
        i += 1;
    }
    assert forall|k: int| !dotdot_at(s@, k) by {
        if 0 <= k < i {
        }
    }
    true
}

pub open spec fn extract_step_of(h: Seq<u8>) -> ExtractView {
    let name = entry_name(trim(field_text(h.subrange(345, 500))), trim(field_text(h.subrange(0, 100))));
    let size = octal_value(h.subrange(124, 136));
    let tf = h[156];
    if all_zero(h) || name.len() == 0 {
        ExtractView::End
    } else if !confined(name) {
        if size > 0 {
            ExtractView::Skip(((size + 511) / 512 * 512) as int)
        } else {
            ExtractView::Skip(0)
        }
    } else if (tf == 53 || tf == 0) && name[name.len() - 1] == '/' {
        ExtractView::Dir(name)
    } else if tf == 48 || tf == 0 {
        let pad = (512 - size % 512) % 512;
        ExtractView::File { name, size, padding: pad, mode: octal_value(h.subrange(100, 108)) }
    } else if tf == 50 {
        ExtractView::Symlink { name, target: trim(field_text(h.subrange(157, 257))) }
    } else if size > 0 {
        ExtractView::Skip(((size + 511) / 512 * 512) as int)
    } else {
        ExtractView::Skip(0)
    }
}

/// Decides what to do with one 512-byte header of an archive file.
pub fn extract_step(h: &[u8]) -> (r: ExtractStep)
    requires
        h@.len() == 512,
        octal_value(h@.subrange(124, 136)) + 511 <= usize::MAX,
    ensures
        r@ == extract_step_of(h@),
{
    let mut zero = true;
    let mut i: usize = 0;
    while i < 512
        invariant
            i <= 512,
            h@.len() == 512,
            zero == (forall|j: int| 0 <= j < i ==> #[trigger] h@[j] == 0),
        decreases 512 - i,
    {
        if h[i] != 0 {
            zero = false;
        }
        i += 1;
    }
    let name = parse_name(h);
    let nc = chars_of(name.as_str());
    if zero || nc.len() == 0 {
        proof {
            if zero {
                assert(all_zero(h@));
            }
        }
        return ExtractStep::End;
    }
    let size = parse_tar_octal(h, 124, 136);
    let tf = h[156];
    let ends_slash = nc.len() > 0 && nc[nc.len() - 1] == '/';
    if !is_confined(name.as_str()) {
        if size > 0 {
            ExtractStep::Skip(((size as usize) + 511) / 512 * 512)
        } else {
            ExtractStep::Skip(0)
        }
    } else if (tf == 53 || tf == 0) && ends_slash {
        ExtractStep::Dir(name)
    } else if tf == 48 || tf == 0 {
        let mode = parse_tar_octal(h, 100, 108);
        ExtractStep::File { name, size, padding: ((512 - size % 512) % 512) as usize, mode }
    } else if tf == 50 {
        ExtractStep::Symlink { name, target: parse_linkname(h) }
    } else if size > 0 {
        ExtractStep::Skip(((size as usize) + 511) / 512 * 512)
    } else {
        ExtractStep::Skip(0)
    }
}

/// Index of the first NUL in `b`, or its length.
pub open spec fn nul_pos(b: Seq<u8>) -> int
    decreases b.len(),
{
    if b.len() == 0 {
        0
    } else if b[0] == 0 {
        0
    } else {
        1 + nul_pos(b.drop_first())
    }
}

proof fn lemma_nul_pos(b: Seq<u8>)
    ensures
        0 <= nul_pos(b) <= b.len(),
    decreases b.len(),
{
    if b.len() > 0 && b[0] != 0 {
        lemma_nul_pos(b.drop_first());
    }
}

/// Whether every byte is ASCII.
pub open spec fn ascii_only(b: Seq<u8>) -> bool {
    forall|i: int| 0 <= i < b.len() ==> b[i] < 128
}

/// ASCII bytes as characters.
pub open spec fn byte_chars(b: Seq<u8>) -> Seq<char> {
    b.map_values(|x: u8| x as char)
}

/// The text of a NUL-terminated field: ASCII as it stands, other bytes
/// decoded as UTF-8 with invalid sequences replaced.
pub open spec fn field_text(b: Seq<u8>) -> Seq<char> {
    let f = b.take(nul_pos(b));
    if ascii_only(f) {
        byte_chars(f)
    } else {
        lossy_text(f)
    }
}

/// The text of `buf[lo..hi]` up to its first NUL, invalid UTF-8 replaced.
pub fn extract_tar_string(buf: &[u8], lo: usize, hi: usize) -> (s: String)
    requires
        lo <= hi <= buf.len(),
    ensures
        s@ == field_text(buf@.subrange(lo as int, hi as int)),
{
    let ghost f = buf@.subrange(lo as int, hi as int);
    let mut end = lo;
    assert(f.skip(0) =~= f);
    while end < hi && buf[end] != 0
        invariant
            lo <= end <= hi <= buf.len(),
            f == buf@.subrange(lo as int, hi as int),
            nul_pos(f) == (end - lo) + nul_pos(f.skip(end - lo)),
        decreases hi - end,
    {
        assert(f.skip(end - lo).drop_first() =~= f.skip(end - lo + 1));
        end += 1;
    }
    proof {
        if end < hi {
            assert(f.skip(end - lo)[0] == buf@[end as int]);
        }
        assert(f.take(nul_pos(f)) =~= buf@.subrange(lo as int, end as int));
    }
    let mut v: Vec<u8> = Vec::new();
    let mut i = lo;
    while i < end
        invariant
            lo <= i <= end <= buf.len(),
            v@ == buf@.subrange(lo as int, i as int),
        decreases end - i,
    {
        v.push(buf[i]);
        i += 1;
        assert(v@ =~= buf@.subrange(lo as int, i as int));
    }
    let mut ascii = true;
    let mut k: usize = 0;
    while k < v.len()
        invariant
            k <= v@.len(),
            ascii == (forall|j: int| 0 <= j < k ==> v@[j] < 128),
        decreases v@.len() - k,
    {
        if v[k] >= 128 {
            ascii = false;
        }
        k += 1;
    }
    if ascii {
        let mut c: Vec<char> = Vec::new();
        let mut k: usize = 0;
        while k < v.len()
            invariant
                k <= v@.len(),
                c@ == byte_chars(v@.take(k as int)),
            decreases v@.len() - k,
        {
            c.push(v[k] as char);
            k += 1;
            assert(c@ =~= byte_chars(v@.take(k as int)));
        }
        assert(v@.take(v@.len() as int) =~= v@);
        string_of(&c)
    } else {
        text_of_bytes(v.as_slice())
    }
}

/// The text of a field, trimmed.
pub fn extract_string(buf: &[u8], lo: usize, hi: usize) -> (s: String)
    requires
        lo <= hi <= buf.len(),
    ensures
        s@ == trim(field_text(buf@.subrange(lo as int, hi as int))),
{
    let t = extract_tar_string(buf, lo, hi);
    let c = chars_of(t.as_str());
    let (a, b) = trim_bounds(&c, 0, c.len());
    assert(c@.subrange(0, c.len() as int) =~= t@);
    let mut out: Vec<char> = Vec::new();
    let mut i = a;
    while i < b
        invariant
            a <= i <= b <= c.len(),
            out@ == c@.subrange(a as int, i as int),
        decreases b - i,
    {
        out.push(c[i]);
        i += 1;
        assert(out@ =~= c@.subrange(a as int, i as int));
    }
    string_of(&out)
}

/// A full entry name: `prefix/name` when the prefix field is set.
pub open spec fn entry_name(prefix: Seq<char>, name: Seq<char>) -> Seq<char> {
    if prefix.len() == 0 {
        name
    } else {
        prefix + seq!['/'] + name
    }
}

fn join_prefix(prefix: String, name: String) -> (s: String)
    ensures
        s@ == entry_name(prefix@, name@),
{
    if prefix.as_str().is_empty() {
        name
    } else {
        let mut out = chars_of(prefix.as_str());
        out.push('/');
        extend_chars(&mut out, name.as_str());
        string_of(&out)
    }
}

/// The entry name of a header (prefix and name fields, each trimmed).
pub fn parse_name(header: &[u8]) -> (s: String)
    requires
        header.len() >= 500,
    ensures
        s@ == entry_name(
            trim(field_text(header@.subrange(345, 500))),
            trim(field_text(header@.subrange(0, 100))),
        ),
{
    let prefix = extract_string(header, 345, 500);
    let name = extract_string(header, 0, 100);
    join_prefix(prefix, name)
}

/// The entry name of a header (prefix and name fields, untrimmed).
pub fn parse_tar_name(header: &[u8]) -> (s: String)
    requires
        header.len() >= 500,
    ensures
        s@ == entry_name(field_text(header@.subrange(345, 500)), field_text(header@.subrange(0, 100))),
{
    let prefix = extract_tar_string(header, 345, 500);
    let name = extract_tar_string(header, 0, 100);
    join_prefix(prefix, name)
}

/// The link target of a header, trimmed.
pub fn parse_linkname(header: &[u8]) -> (s: String)
    requires
        header.len() >= 257,
    ensures
        s@ == trim(field_text(header@.subrange(157, 257))),
{
    extract_string(header, 157, 257)
}

/// The link target of a header, untrimmed.
pub fn parse_tar_linkname(header: &[u8]) -> (s: String)
    requires
        header.len() >= 257,
    ensures
        s@ == field_text(header@.subrange(157, 257)),
{
    extract_tar_string(header, 157, 257)
}

/// The number an octal field holds: its trimmed text read in base 8, or 0
/// where that fails.
pub open spec fn octal_value(b: Seq<u8>) -> nat {
    match parse_octal(trim(field_text(b))) {
        Some(n) => n,
        None => 0,
    }
}

/// Reads the octal number in `buf[lo..hi]`; 0 where it is not one.
pub fn parse_tar_octal(buf: &[u8], lo: usize, hi: usize) -> (n: u64)
    requires
        lo <= hi <= buf.len(),
    ensures
        n as nat == octal_value(buf@.subrange(lo as int, hi as int)),
{
    let s = extract_tar_string(buf, lo, hi);
    let c = chars_of(s.as_str());
    let (a, b) = trim_bounds(&c, 0, c.len());
    assert(c@.subrange(0, c.len() as int) =~= s@);
    match parse_octal_exec(&c, a, b) {
        Some(v) => v,
        None => 0,
    }
}

/// What one archive entry asks of the extractor.
pub enum TarEntry {
    /// A `.wh.` whiteout: the entry's name and the name it hides.
    Whiteout { name: Seq<char>, target: Seq<char> },
    Dir(Seq<char>),
    /// A regular file and where its data lies in the archive.
    File { name: Seq<char>, start: int, end: int },
    Symlink { name: Seq<char>, target: Seq<char> },
    HardLink { name: Seq<char>, target: Seq<char> },
}

/// The part of a path after its last `/`.
pub open spec fn base_name(s: Seq<char>) -> Seq<char>
    decreases s.len(),
{
    if s.len() == 0 {
        s
    } else if s.last() == '/' {
        Seq::empty()
    } else {
        base_name(s.drop_last()).push(s.last())
    }
}

/// `s` with every leading `.wh.` removed.
pub open spec fn strip_wh(s: Seq<char>) -> Seq<char>
    decreases s.len(),
{
    if 4 <= s.len() && s.take(4) == seq!['.', 'w', 'h', '.'] {
        strip_wh(s.skip(4))
    } else {
        s
    }
}

pub open spec fn is_wh(s: Seq<char>) -> bool {
    4 <= s.len() && s.take(4) == seq!['.', 'w', 'h', '.']
}

pub open spec fn all_zero(h: Seq<u8>) -> bool {
    forall|i: int| 0 <= i < h.len() ==> #[trigger] h[i] == 0
}

/// A name a whiteout may hide: not empty, `.` or `..`.
pub open spec fn plain_target(t: Seq<char>) -> bool {
    t.len() > 0 && t != seq!['.'] && t != seq!['.', '.']
}

/// The entries of an archive from the header at `pos` on. The archive ends
/// at an all-zero header or where no whole header is left; a header without
/// a name is skipped; after a header come its data blocks. An entry whose
/// name leaves the destination (see `confined`), a whiteout hiding `.`,
/// `..` or nothing, and a hard link to a target outside the destination
/// give no entry.
pub open spec fn tar_walk(d: Seq<u8>, pos: int) -> Seq<TarEntry>
    decreases d.len() - pos,
{
    if pos < 0 || pos + 512 > d.len() {
        Seq::empty()
    } else {
        let h = d.subrange(pos, pos + 512);
        if all_zero(h) {
            Seq::empty()
        } else {
            let name = entry_name(field_text(h.subrange(345, 500)), field_text(h.subrange(0, 100)));
            let size = octal_value(h.subrange(124, 136));
            let tf = h[156];
            let blk: nat = ((size + 511) / 512) as nat;
            let next = pos + 512 + blk * 512;
            if name.len() == 0 {
                tar_walk(d, pos + 512)
            } else {
                let base = base_name(name);
                let here = if !confined(name) {
                    seq![]
                } else if is_wh(base) {
                    if plain_target(strip_wh(base)) {
                        seq![TarEntry::Whiteout { name, target: strip_wh(base) }]
                    } else {
                        seq![]
                    }
                } else if tf == 53 || tf == 47 {
                    seq![TarEntry::Dir(name)]
                } else if tf == 48 || tf == 0 {
                    if pos + 512 + size <= d.len() {
                        seq![TarEntry::File { name, start: pos + 512, end: pos + 512 + size }]
                    } else {
                        seq![]
                    }
                } else if tf == 50 {
                    seq![TarEntry::Symlink { name, target: field_text(h.subrange(157, 257)) }]
                } else if tf == 49 {
                    if confined(field_text(h.subrange(157, 257))) {
                        seq![TarEntry::HardLink { name, target: field_text(h.subrange(157, 257)) }]
                    } else {
                        seq![]
                    }
                } else {
                    seq![]
                };
                if next > d.len() {
                    here
                } else {
                    here + tar_walk(d, next)
                }
            }
        }
    }
}

/// A hard-link header becomes a hard-link entry: where a whole header at
/// `pos` is not all zeros, carries typeflag `1`, and both its entry name
/// (prefix and name fields) and its link name field stay inside the
/// destination and the name is no whiteout, the entries read from `pos` on
/// begin with a hard link of that name to the link name, followed by the
/// entries after the header's data.
pub proof fn lemma_tar_walk_hard_link(d: Seq<u8>, pos: int)
    requires
        0 <= pos,
        pos + 512 <= d.len(),
        !all_zero(d.subrange(pos, pos + 512)),
        d[pos + 156] == 49,
        ({
            let h = d.subrange(pos, pos + 512);
            let name = entry_name(field_text(h.subrange(345, 500)), field_text(h.subrange(0, 100)));
            &&& name.len() > 0
            &&& confined(name)
            &&& !is_wh(base_name(name))
            &&& confined(field_text(h.subrange(157, 257)))
        }),
    ensures
        ({
            let h = d.subrange(pos, pos + 512);
            let name = entry_name(field_text(h.subrange(345, 500)), field_text(h.subrange(0, 100)));
            let size = octal_value(h.subrange(124, 136));
            let next = pos + 512 + ((size + 511) / 512) as nat * 512;
            tar_walk(d, pos) == seq![TarEntry::HardLink { name, target: field_text(h.subrange(157, 257)) }] + (
            if next > d.len() {
                Seq::<TarEntry>::empty()
            } else {
                tar_walk(d, next)
            })
        }),
{
    let h = d.subrange(pos, pos + 512);
    assert(h[156] == 49);
    let size = octal_value(h.subrange(124, 136));
    let next = pos + 512 + ((size + 511) / 512) as nat * 512;
    let name = entry_name(field_text(h.subrange(345, 500)), field_text(h.subrange(0, 100)));
    let e = seq![TarEntry::HardLink { name, target: field_text(h.subrange(157, 257)) }];
    if next > d.len() {
        assert(tar_walk(d, pos) == e);
    } else {
        assert(tar_walk(d, pos) == e + tar_walk(d, next));
    }
}

/// Directory, regular-file and symbolic-link headers become entries of
/// their kind: where a whole header at `pos` is not all zeros and its entry
/// name is not empty, stays inside the destination and is no whiteout, the
/// entries read from `pos` on begin with a directory of that name for
/// typeflag `5` (or a `/`), a file whose data are the `size` bytes after
/// the header for typeflag `0` (or NUL) when they lie within the archive,
/// and a symbolic link to the link name field for typeflag `2`.
pub proof fn lemma_tar_walk_entry(d: Seq<u8>, pos: int)
    requires
        0 <= pos,
        pos + 512 <= d.len(),
        !all_zero(d.subrange(pos, pos + 512)),
        ({
            let h = d.subrange(pos, pos + 512);
            let name = entry_name(field_text(h.subrange(345, 500)), field_text(h.subrange(0, 100)));
            &&& name.len() > 0
            &&& confined(name)
            &&& !is_wh(base_name(name))
        }),
    ensures
        ({
            let h = d.subrange(pos, pos + 512);
            let name = entry_name(field_text(h.subrange(345, 500)), field_text(h.subrange(0, 100)));
            let size = octal_value(h.subrange(124, 136));
            let tf = d[pos + 156];
            &&& (tf == 53 || tf == 47) ==> tar_walk(d, pos)[0] == TarEntry::Dir(name)
            &&& ((tf == 48 || tf == 0) && pos + 512 + size <= d.len()) ==> tar_walk(d, pos)[0] == (TarEntry::File {
                name,
                start: pos + 512,
                end: pos + 512 + size,
            })
            &&& tf == 50 ==> tar_walk(d, pos)[0] == (TarEntry::Symlink { name, target: field_text(h.subrange(157, 257)) })
        }),
{
    let h = d.subrange(pos, pos + 512);
    assert(h[156] == d[pos + 156]);
    let size = octal_value(h.subrange(124, 136));
    let next = pos + 512 + ((size + 511) / 512) as nat * 512;
    let name = entry_name(field_text(h.subrange(345, 500)), field_text(h.subrange(0, 100)));
    let tf = h[156];
    let e = if tf == 53 || tf == 47 {
        TarEntry::Dir(name)
    } else if tf == 48 || tf == 0 {
        TarEntry::File { name, start: pos + 512, end: pos + 512 + size }
    } else {
        TarEntry::Symlink { name, target: field_text(h.subrange(157, 257)) }
    };
    if tf == 53 || tf == 47 || ((tf == 48 || tf == 0) && pos + 512 + size <= d.len()) || tf == 50 {
        if next > d.len() {
            assert(tar_walk(d, pos) == seq![e]);
        } else {
            assert(tar_walk(d, pos) == seq![e] + tar_walk(d, next));
        }
    }
}

/// An archive entry for the extractor.
#[derive(Debug)]
pub enum TarAction {
    Whiteout { name: String, target: String },
    Dir(String),
    File { name: String, start: usize, end: usize },
    Symlink { name: String, target: String },
    HardLink { name: String, target: String },
}

impl View for TarAction {
    type V = TarEntry;

    open spec fn view(&self) -> TarEntry {
        match self {
            TarAction::Whiteout { name, target } => TarEntry::Whiteout { name: name@, target: target@ },
            TarAction::Dir(n) => TarEntry::Dir(n@),
            TarAction::File { name, start, end } => TarEntry::File { name: name@, start: *start as int, end: *end as int },
            TarAction::Symlink { name, target } => TarEntry::Symlink { name: name@, target: target@ },
            TarAction::HardLink { name, target } => TarEntry::HardLink { name: name@, target: target@ },
        }
    }
}

pub open spec fn action_views(v: Seq<TarAction>) -> Seq<TarEntry> {
    v.map_values(|a: TarAction| a@)
}

/// The name after the last `/`, and with leading `.wh.` removed.
fn base_and_target(name: &String) -> (r: (bool, String))
    ensures
        r.0 == is_wh(base_name(name@)),
        r.0 ==> r.1@ == strip_wh(base_name(name@)),
{
    let c = chars_of(name.as_str());
    let n = c.len();
    let mut j = n;
    assert(c@.take(n as int) =~= c@);
    assert(base_name(c@) =~= base_name(c@.take(n as int)) + c@.subrange(n as int, n as int));
    while j > 0 && c[j - 1] != '/'
        invariant
            j <= n,
            n == c@.len(),
            c@ == name@,
            base_name(c@) == base_name(c@.take(j as int)) + c@.subrange(j as int, n as int),
        decreases j,
    {
        assert(c@.take(j as int).drop_last() =~= c@.take(j - 1));
        assert(c@.take(j as int).last() == c@[j - 1]);
        assert(c@.subrange(j - 1, n as int) =~= seq![c@[j - 1]] + c@.subrange(j as int, n as int));
        assert(base_name(c@.take(j as int)) == base_name(c@.take(j - 1)).push(c@[j - 1]));
        assert(base_name(c@.take(j - 1)).push(c@[j - 1]) + c@.subrange(j as int, n as int) =~= base_name(c@.take(j - 1)) + c@.subrange(j - 1, n as int));
        j -= 1;
    }
    proof {
        if j > 0 {
            assert(c@.take(j as int).last() == '/');
        } else {
            assert(c@.take(0) =~= Seq::<char>::empty());
        }
        assert(base_name(c@) =~= c@.subrange(j as int, n as int));
    }
    let mut k = j;
    let ghost b = c@.subrange(j as int, n as int);
    assert(b.skip(0) =~= b);
    let wh = n - j >= 4 && c[j] == '.' && c[j + 1] == 'w' && c[j + 2] == 'h' && c[j + 3] == '.';
    assert(wh == is_wh(b)) by {
        if n - j >= 4 {
            assert(b.take(4) =~= seq![c@[j as int], c@[j + 1], c@[j + 2], c@[j + 3]]);
        }
    }
    while n - k >= 4 && c[k] == '.' && c[k + 1] == 'w' && c[k + 2] == 'h' && c[k + 3] == '.'
        invariant
            j <= k <= n,
            n == c@.len(),
            b == c@.subrange(j as int, n as int),
            strip_wh(b) == strip_wh(c@.subrange(k as int, n as int)),
        decreases n - k,
    {
        let ghost t = c@.subrange(k as int, n as int);
        assert(t.take(4) =~= seq!['.', 'w', 'h', '.']);
        assert(t.skip(4) =~= c@.subrange(k + 4, n as int));
        k += 4;
    }
    proof {
        let t = c@.subrange(k as int, n as int);
        if n - k >= 4 {
            assert(t.take(4) =~= seq![c@[k as int], c@[k + 1], c@[k + 2], c@[k + 3]]);
        }
    }
    (wh, string_of_range(&c, k, n))
}

/// The entries of an archive held in memory.
#[verifier::rlimit(60)]
pub fn tar_entries(data: &[u8]) -> (r: Vec<TarAction>)
    requires
        data@.len() + 1024 <= usize::MAX,
    ensures
        action_views(r@) == tar_walk(data@, 0),
{
    let n = data.len();
    let mut out: Vec<TarAction> = Vec::new();
    let mut pos: usize = 0;
    while n - pos >= 512
        invariant
            n == data@.len(),
            n + 1024 <= usize::MAX,
            pos <= n,
            tar_walk(data@, 0) == action_views(out@) + tar_walk(data@, pos as int),
        decreases n - pos,
    {
        let ghost h = data@.subrange(pos as int, pos + 512);
        let mut zero = true;
        let mut q: usize = 0;
        while q < 512
            invariant
                q <= 512,
                pos + 512 <= n,
                n == data@.len(),
                h == data@.subrange(pos as int, pos + 512),
                zero == (forall|t: int| 0 <= t < q ==> #[trigger] h[t] == 0),
            decreases 512 - q,
        {
            assert(h[q as int] == data@[pos + q]);
            if data[pos + q] != 0 {
                zero = false;
            }
            q += 1;
        }
        if zero {
            assert(all_zero(h));
            return out;
        }
        let hb = bytes_of_range(data, pos, pos + 512);
        assert(hb@ == h);
        let name = parse_tar_name(&hb);
        let size = parse_tar_octal(&hb, 124, 136);
        let tf = hb[156];
        proof {
            assert(hb@.subrange(345, 500) == h.subrange(345, 500));
        }
        let ghost ov = out@;
        if name.as_str().is_empty() {
            pos = pos + 512;
            continue;
        }
        let (wh, target) = base_and_target(&name);
        let remaining = n - pos - 512;
        let inside = is_confined(name.as_str());
        if !inside {
        } else if wh {
            let tc = chars_of(target.as_str());
            let plain = tc.len() > 0 && !(tc.len() == 1 && tc[0] == '.') && !(tc.len() == 2 && tc[0] == '.' && tc[1] == '.');
            proof {
                if tc@.len() == 1 {
                    assert(tc@ =~= seq!['.'] <==> tc@[0] == '.');
                }
                if tc@.len() == 2 {
                    assert(tc@ =~= seq!['.', '.'] <==> (tc@[0] == '.' && tc@[1] == '.'));
                }
                assert(plain == plain_target(target@));
            }
            if plain {
                out.push(TarAction::Whiteout { name, target });
            }
        } else if tf == 53 || tf == 47 {
            out.push(TarAction::Dir(name));
        } else if tf == 48 || tf == 0 {
            if size <= remaining as u64 {
                out.push(TarAction::File { name, start: pos + 512, end: pos + 512 + size as usize });
            }
        } else if tf == 50 {
            let t = parse_tar_linkname(&hb);
            out.push(TarAction::Symlink { name, target: t });
        } else if tf == 49 {
            let t = parse_tar_linkname(&hb);
            if is_confined(t.as_str()) {
                out.push(TarAction::HardLink { name, target: t });
            }
        }
        assert(action_views(out@) =~= action_views(ov) + (if !confined(name@) {
            seq![]
        } else if is_wh(base_name(name@)) {
            if plain_target(strip_wh(base_name(name@))) {
                seq![TarEntry::Whiteout { name: name@, target: strip_wh(base_name(name@)) }]
            } else {
                seq![]
            }
        } else if tf == 53 || tf == 47 {
            seq![TarEntry::Dir(name@)]
        } else if tf == 48 || tf == 0 {
            if pos + 512 + size <= n {
                seq![TarEntry::File { name: name@, start: pos + 512, end: pos + 512 + size }]
            } else {
                seq![]
            }
        } else if tf == 50 {
            seq![TarEntry::Symlink { name: name@, target: field_text(h.subrange(157, 257)) }]
        } else if tf == 49 {
            if confined(field_text(h.subrange(157, 257))) {
                seq![TarEntry::HardLink { name: name@, target: field_text(h.subrange(157, 257)) }]
            } else {
                seq![]
            }
        } else {
            seq![]
        }));
        if size > remaining as u64 {
            return out;
        }
        let blocks = (size as usize + 511) / 512;
        pos = pos + 512 + blocks * 512;
        if pos > n {
            return out;
        }
    }
    out
}

/// Copies `data[lo..hi]`.
fn bytes_of_range(data: &[u8], lo: usize, hi: usize) -> (r: Vec<u8>)
    requires
        lo <= hi <= data.len(),
    ensures
        r@ == data@.subrange(lo as int, hi as int),
{
    let mut r: Vec<u8> = Vec::new();
    let mut i = lo;
    while i < hi
        invariant
            lo <= i <= hi <= data.len(),
            r@ == data@.subrange(lo as int, i as int),
        decreases hi - i,
    {
        r.push(data[i]);
        i += 1;
        assert(r@ =~= data@.subrange(lo as int, i as int));
    }
    r
}

} // verus!

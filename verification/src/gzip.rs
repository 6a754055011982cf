//! gzip (RFC 1952) around DEFLATE (RFC 1951): a bit reader, canonical
//! Huffman decoding, stored/fixed/dynamic blocks, LZ77 back-references,
//! CRC-32, and a writer that emits stored blocks.
use vstd::prelude::*;
use vstd::arithmetic::power2::{pow2, lemma_pow2_unfold, lemma_pow2_pos};
use crate::error::{ContainerError, IoKind, io_error};

verus! {

// ─── CRC-32 ────────────────────────────────────────────────────────────────

/// One bit step of the reflected CRC-32 (polynomial 0xEDB88320).
pub open spec fn crc_step(c: u32) -> u32 {
    if c & 1 != 0 {
        0xEDB88320u32 ^ (c >> 1u32)
    } else {
        c >> 1u32
    }
}

pub open spec fn crc_steps(c: u32, n: nat) -> u32
    decreases n,
{
    if n == 0 {
        c
    } else {
        crc_step(crc_steps(c, (n - 1) as nat))
    }
}

/// The CRC register after feeding one byte.
pub open spec fn crc_byte(c: u32, b: u8) -> u32 {
    crc_steps(c ^ (b as u32), 8)
}

/// The CRC register after feeding `data`, starting from `c`.
pub open spec fn crc_update(c: u32, data: Seq<u8>) -> u32
    decreases data.len(),
{
    if data.len() == 0 {
        c
    } else {
        crc_byte(crc_update(c, data.drop_last()), data.last())
    }
}

/// CRC-32 of `data` as used in the gzip trailer.
pub open spec fn spec_crc32(data: Seq<u8>) -> u32 {
    crc_update(0xFFFF_FFFFu32, data) ^ 0xFFFF_FFFFu32
}

fn crc_byte_exec(c: u32, b: u8) -> (r: u32)
    ensures
        r == crc_byte(c, b),
{
    let mut x = c ^ (b as u32);
    let mut j: u32 = 0;
    while j < 8
        invariant
            j <= 8,
            x == crc_steps(c ^ (b as u32), j as nat),
        decreases 8 - j,
    {
        x = if x & 1 != 0 {
            0xEDB88320u32 ^ (x >> 1u32)
        } else {
            x >> 1u32
        };
        j += 1;
    }
    x
}

/// CRC-32 (IEEE, reflected) of a byte buffer.
pub fn crc32(data: &[u8]) -> (r: u32)
    ensures
        r == spec_crc32(data@),
{
    let mut crc: u32 = 0xFFFF_FFFF;
    let mut i: usize = 0;
    while i < data.len()
        invariant
            i <= data.len(),
            crc == crc_update(0xFFFF_FFFFu32, data@.take(i as int)),
        decreases data.len() - i,
    {
        assert(data@.take(i + 1).drop_last() =~= data@.take(i as int));
        crc = crc_byte_exec(crc, data[i]);
        i += 1;
    }
    assert(data@.take(data.len() as int) =~= data@);
    crc ^ 0xFFFF_FFFF
}

// ─── Bits ──────────────────────────────────────────────────────────────────

/// Bit number `i` of `d`, counting from the least significant bit of `d[0]`.
pub open spec fn bit_at(d: Seq<u8>, i: nat) -> u8 {
    (d[(i / 8) as int] >> ((i % 8) as u8)) & 1u8
}

/// `n` bits starting at bit `p`, least significant first.
pub open spec fn bits_lsb(d: Seq<u8>, p: nat, n: nat) -> nat
    decreases n,
{
    if n == 0 {
        0
    } else {
        bits_lsb(d, p, (n - 1) as nat) + (bit_at(d, (p + n - 1) as nat) as nat) * pow2((n - 1) as nat)
    }
}

/// `n` bits starting at bit `p`, most significant first.
pub open spec fn bits_msb(d: Seq<u8>, p: nat, n: nat) -> nat
    decreases n,
{
    if n == 0 {
        0
    } else {
        bits_msb(d, p, (n - 1) as nat) * 2 + (bit_at(d, (p + n - 1) as nat) as nat)
    }
}

/// Reads `n` bits, least significant first, at bit position `bp`.
pub open spec fn read_bits(d: Seq<u8>, bp: nat, n: nat) -> Option<(nat, nat)> {
    if bp + n <= d.len() * 8 {
        Some((bits_lsb(d, bp, n), bp + n))
    } else {
        None
    }
}

/// The next byte boundary at or after `bp`.
pub open spec fn align(bp: nat) -> nat {
    if bp % 8 == 0 {
        bp
    } else {
        (bp / 8 + 1) * 8
    }
}

pub proof fn lemma_bit_le_1(d: Seq<u8>, i: nat)
    requires
        i / 8 < d.len(),
    ensures
        bit_at(d, i) <= 1,
{
    let b = d[(i / 8) as int];
    let s = (i % 8) as u8;
    assert((b >> s) & 1u8 <= 1u8) by (bit_vector);
}

pub proof fn lemma_bits_lsb_bound(d: Seq<u8>, p: nat, n: nat)
    requires
        p + n <= d.len() * 8,
    ensures
        bits_lsb(d, p, n) < pow2(n),
    decreases n,
{
    vstd::arithmetic::power2::lemma2_to64();
    if n > 0 {
        lemma_bits_lsb_bound(d, p, (n - 1) as nat);
        lemma_bit_le_1(d, (p + n - 1) as nat);
        lemma_pow2_unfold(n);
        lemma_pow2_pos((n - 1) as nat);
        assert(bits_lsb(d, p, n) < pow2(n)) by (nonlinear_arith)
            requires
                bits_lsb(d, p, n) == bits_lsb(d, p, (n - 1) as nat) + (bit_at(
                    d,
                    (p + n - 1) as nat,
                ) as nat) * pow2((n - 1) as nat),
                bits_lsb(d, p, (n - 1) as nat) < pow2((n - 1) as nat),
                bit_at(d, (p + n - 1) as nat) <= 1,
                pow2(n) == 2 * pow2((n - 1) as nat),
        ;
    }
}

pub proof fn lemma_read_bits_bound(d: Seq<u8>, bp: nat, n: nat)
    ensures
        read_bits(d, bp, n) matches Some((v, np)) ==> v < pow2(n) && np == bp + n,
{
    if bp + n <= d.len() * 8 {
        lemma_bits_lsb_bound(d, bp, n);
    }
}

pub proof fn lemma_lsb_step(d: Seq<u8>, p: nat, i: nat, value: nat, mult: nat)
    requires
        p + i < d.len() * 8,
        i < 32,
        value == bits_lsb(d, p, i),
        mult == pow2(i),
        value < mult,
    ensures
        value + (bit_at(d, p + i) as nat) * mult == bits_lsb(d, p, i + 1),
        mult * 2 == pow2(i + 1),
        value + (bit_at(d, p + i) as nat) * mult < mult * 2,
        mult * 2 <= 0x1_0000_0000,
{
    lemma_pow2_unfold(i + 1);
    lemma_bit_le_1(d, p + i);
    vstd::arithmetic::power2::lemma2_to64();
    if i < 31 {
        vstd::arithmetic::power2::lemma_pow2_strictly_increases(i + 1, 32);
    }
    assert(value + (bit_at(d, p + i) as nat) * mult < mult * 2) by (nonlinear_arith)
        requires
            value < mult,
            bit_at(d, p + i) <= 1,
    ;
}

pub proof fn lemma_u32_fits(v: nat, n: nat)
    requires
        n <= 32,
        v < pow2(n),
    ensures
        v <= u32::MAX,
{
    vstd::arithmetic::power2::lemma2_to64();
    if n < 32 {
        vstd::arithmetic::power2::lemma_pow2_strictly_increases(n, 32);
    }
}

pub proof fn lemma_bits_msb_bound(d: Seq<u8>, p: nat, n: nat)
    requires
        p + n <= d.len() * 8,
    ensures
        bits_msb(d, p, n) < pow2(n),
    decreases n,
{
    vstd::arithmetic::power2::lemma2_to64();
    if n > 0 {
        lemma_bits_msb_bound(d, p, (n - 1) as nat);
        lemma_bit_le_1(d, (p + n - 1) as nat);
        lemma_pow2_unfold(n);
    }
}

// ─── Bit Reader ────────────────────────────────────────────────────────────

/// Reads bits from a byte buffer, least significant bit of each byte first.
pub struct BitReader<'a> {
    data: &'a [u8],
    pos: usize,
    bit_pos: u8,
}

impl<'a> BitReader<'a> {
    /// The bytes being read.
    pub closed spec fn bytes(&self) -> Seq<u8> {
        self.data@
    }

    /// The current position, in bits.
    pub closed spec fn bitpos(&self) -> nat {
        self.pos as nat * 8 + self.bit_pos as nat
    }

    pub closed spec fn wf(&self) -> bool {
        &&& self.bit_pos < 8
        &&& self.pos <= self.data@.len()
        &&& self.pos == self.data@.len() ==> self.bit_pos == 0
    }

    pub fn new(data: &'a [u8]) -> (r: Self)
        ensures
            r.wf(),
            r.bytes() == data@,
            r.bitpos() == 0,
    {
        BitReader { data, pos: 0, bit_pos: 0 }
    }

    fn next_bit(&mut self) -> (b: u8)
        requires
            old(self).wf(),
            old(self).bitpos() < old(self).bytes().len() * 8,
        ensures
            final(self).wf(),
            final(self).bytes() == old(self).bytes(),
            final(self).bitpos() == old(self).bitpos() + 1,
            b == bit_at(old(self).bytes(), old(self).bitpos()),
            b <= 1,
    {
        let b = (self.data[self.pos] >> self.bit_pos) & 1;
        proof {
            let bb = self.data@[self.pos as int];
            let sh = self.bit_pos;
            assert((bb >> sh) & 1u8 <= 1u8) by (bit_vector);
            assert((self.bitpos() / 8) == self.pos as nat);
            assert((self.bitpos() % 8) == self.bit_pos as nat);
        }
        self.bit_pos += 1;
        if self.bit_pos == 8 {
            self.bit_pos = 0;
            self.pos += 1;
        }
        b
    }

    /// Reads `count` bits, least significant first.
    pub fn read_bits(&mut self, count: u8) -> (r: Result<u32, ContainerError>)
        requires
            old(self).wf(),
            count <= 32,
        ensures
            final(self).wf(),
            final(self).bytes() == old(self).bytes(),
            match read_bits(old(self).bytes(), old(self).bitpos(), count as nat) {
                Some((v, np)) => r == Ok::<u32, ContainerError>(v as u32) && final(self).bitpos()
                    == np,
                None => r is Err && r->Err_0 is Io && final(self).bitpos() == old(self).bytes().len()
                    * 8,
            },
    {
        let ghost d = self.data@;
        let ghost p0 = self.bitpos();
        let mut value: u64 = 0;
        let mut mult: u64 = 1;
        proof {
            vstd::arithmetic::power2::lemma2_to64();
        }
        let mut i: u8 = 0;
        while i < count
            invariant
                self.wf(),
                self.data@ == d,
                d == old(self).bytes(),
                p0 == old(self).bitpos(),
                i <= count <= 32,
                self.bitpos() == p0 + i,
                p0 + i <= d.len() * 8,
                value == bits_lsb(d, p0, i as nat),
                mult == pow2(i as nat),
                value < mult,
                mult <= 0x1_0000_0000,
            decreases count - i,
        {
            if self.pos >= self.data.len() {
                return Err(io_error(IoKind::UnexpectedEof, "unexpected end of compressed data"));
            }
            let bit = self.next_bit();
            proof {
                lemma_lsb_step(d, p0, i as nat, value as nat, mult as nat);
            }
            value = value + (bit as u64) * mult;
            mult = mult * 2;
            i += 1;
        }
        proof {
            lemma_u32_fits(value as nat, count as nat);
        }
        Ok(value as u32)
    }

    /// Reads `count` bits, most significant first (Huffman code order).
    pub fn read_bits_msb(&mut self, count: u8) -> (r: Result<u32, ContainerError>)
        requires
            old(self).wf(),
            count <= 32,
        ensures
            final(self).wf(),
            final(self).bytes() == old(self).bytes(),
            old(self).bitpos() + count <= old(self).bytes().len() * 8 ==> r == Ok::<
                u32,
                ContainerError,
            >(bits_msb(old(self).bytes(), old(self).bitpos(), count as nat) as u32)
                && final(self).bitpos() == old(self).bitpos() + count,
            old(self).bitpos() + count > old(self).bytes().len() * 8 ==> r is Err && r->Err_0 is Io
                && final(self).bitpos() == old(self).bytes().len() * 8,
    {
        let ghost d = self.data@;
        let ghost p0 = self.bitpos();
        let mut value: u64 = 0;
        let mut i: u8 = 0;
        proof {
            vstd::arithmetic::power2::lemma2_to64();
        }
        while i < count
            invariant
                self.wf(),
                self.data@ == d,
                d == old(self).bytes(),
                p0 == old(self).bitpos(),
                i <= count <= 32,
                self.bitpos() == p0 + i,
                p0 + i <= d.len() * 8,
                value == bits_msb(d, p0, i as nat),
                value < pow2(i as nat),
            decreases count - i,
        {
            if self.pos >= self.data.len() {
                return Err(io_error(IoKind::UnexpectedEof, "unexpected end of compressed data"));
            }
            let bit = self.next_bit();
            proof {
                lemma_pow2_unfold((i + 1) as nat);
                assert(pow2(i as nat) <= 0x8000_0000) by {
                    if i < 31 {
                        vstd::arithmetic::power2::lemma_pow2_strictly_increases(i as nat, 31);
                    }
                    vstd::arithmetic::power2::lemma2_to64();
                }
            }
            value = value * 2 + bit as u64;
            i += 1;
        }
        proof {
            vstd::arithmetic::power2::lemma2_to64();
            if count < 32 {
                vstd::arithmetic::power2::lemma_pow2_strictly_increases(count as nat, 32);
            }
        }
        Ok(value as u32)
    }

    /// Skips to the next byte boundary.
    #[verifier::spinoff_prover]
    pub fn byte_align(&mut self)
        requires
            old(self).wf(),
        ensures
            final(self).wf(),
            final(self).bytes() == old(self).bytes(),
            final(self).bitpos() == align(old(self).bitpos()),
    {
        if self.bit_pos != 0 {
            let n = self.data.len();
            assert(self.pos < n);
            self.bit_pos = 0;
            self.pos += 1;
        }
    }

    /// Reads a little-endian 16-bit value after aligning to a byte boundary.
    pub fn read_u16_le(&mut self) -> (r: Result<u16, ContainerError>)
        requires
            old(self).wf(),
        ensures
            final(self).wf(),
            final(self).bytes() == old(self).bytes(),
            ({
                let d = old(self).bytes();
                let b = align(old(self).bitpos()) / 8;
                if b + 2 <= d.len() {
                    r == Ok::<u16, ContainerError>((d[b as int] as nat + d[(b + 1) as int] as nat * 256) as u16)
                        && final(self).bitpos() == (b + 2) * 8
                } else {
                    r is Err && r->Err_0 is Io && final(self).bitpos() == align(old(self).bitpos())
                }
            }),
    {
        self.byte_align();
        if self.data.len() - self.pos < 2 {
            return Err(io_error(IoKind::UnexpectedEof, "unexpected end"));
        }
        let lo = self.data[self.pos] as u16;
        let hi = self.data[self.pos + 1] as u16;
        self.pos += 2;
        Ok(lo + hi * 256)
    }

    /// Returns the next `count` bytes after aligning to a byte boundary.
    pub fn read_bytes(&mut self, count: usize) -> (r: Result<&'a [u8], ContainerError>)
        requires
            old(self).wf(),
        ensures
            final(self).wf(),
            final(self).bytes() == old(self).bytes(),
            ({
                let d = old(self).bytes();
                let b = align(old(self).bitpos()) / 8;
                if b + count <= d.len() {
                    r is Ok && r->Ok_0@ == d.subrange(b as int, b + count) && final(self).bitpos()
                        == (b + count) * 8
                } else {
                    r is Err && r->Err_0 is Io && final(self).bitpos() == align(old(self).bitpos())
                }
            }),
    {
        self.byte_align();
        if self.data.len() - self.pos < count {
            return Err(io_error(IoKind::UnexpectedEof, "unexpected end"));
        }
        let bytes = &self.data[self.pos..self.pos + count];
        self.pos += count;
        Ok(bytes)
    }

    /// The number of bytes consumed, counting a partly read byte.
    pub fn total_byte_pos(&self) -> (n: usize)
        requires
            self.wf(),
        ensures
            n == align(self.bitpos()) / 8,
    {
        if self.bit_pos == 0 {
            self.pos
        } else {
            let n = self.data.len();
            assert(self.pos < n);
            self.pos + 1
        }
    }
}

// ─── Canonical Huffman codes ───────────────────────────────────────────────

/// Largest code length, in bits.
pub const MAX_HUFFMAN_BITS: usize = 16;

/// Largest number of code lengths a table is built from.
pub const MAX_CODE_LENGTHS: usize = 1024;

/// The symbols whose code length is `l`, in increasing symbol order.
pub open spec fn syms_of_len(lens: Seq<u8>, l: nat) -> Seq<nat>
    decreases lens.len(),
{
    if lens.len() == 0 {
        seq![]
    } else {
        let r = syms_of_len(lens.drop_last(), l);
        if lens.last() as nat == l {
            r.push((lens.len() - 1) as nat)
        } else {
            r
        }
    }
}

/// How many symbols have code length `l` (length 0 means "unused").
pub open spec fn count_len(lens: Seq<u8>, l: nat) -> nat {
    if l == 0 {
        0
    } else {
        syms_of_len(lens, l).len()
    }
}

/// The first code of length `l` (RFC 1951, 3.2.2, step 2).
pub open spec fn first_code(lens: Seq<u8>, l: nat) -> nat
    decreases l,
{
    if l == 0 {
        0
    } else {
        (first_code(lens, (l - 1) as nat) + count_len(lens, (l - 1) as nat)) * 2
    }
}

/// How many symbols have a code shorter than `l` (and not unused).
pub open spec fn offset_of(lens: Seq<u8>, l: nat) -> nat
    decreases l,
{
    if l == 0 {
        0
    } else {
        offset_of(lens, (l - 1) as nat) + count_len(lens, (l - 1) as nat)
    }
}

/// Decoding continues with `l` bits read so far, forming `code`.
pub open spec fn decode_from(lens: Seq<u8>, d: Seq<u8>, bp: nat, l: nat, code: nat) -> Option<
    (nat, nat),
>
    decreases 17 - l,
{
    if l > 16 || l == 0 {
        None
    } else if bp >= d.len() * 8 {
        None
    } else {
        let c = code * 2 + bit_at(d, bp) as nat;
        let f = first_code(lens, l);
        if count_len(lens, l) > 0 && f <= c && c < f + count_len(lens, l) {
            Some((syms_of_len(lens, l)[c - f], bp + 1))
        } else {
            decode_from(lens, d, bp + 1, l + 1, c)
        }
    }
}

/// Decodes one symbol of the canonical code given by `lens` at bit `bp`:
/// the symbol and the position after its code.
pub open spec fn huff_decode(lens: Seq<u8>, d: Seq<u8>, bp: nat) -> Option<(nat, nat)> {
    decode_from(lens, d, bp, 1, 0)
}

/// `code` is the canonical code of `sym` under the lengths `lens`
/// (RFC 1951, 3.2.2): `sym` has a length `l` from 1 to 16, and among the
/// symbols of length `l`, in increasing order, it stands `code - first_code`
/// places after the first.
pub open spec fn canonical_code(lens: Seq<u8>, sym: nat, code: nat) -> bool {
    let l = lens[sym as int] as nat;
    &&& sym < lens.len()
    &&& 1 <= l <= 16
    &&& first_code(lens, l) <= code < first_code(lens, l) + count_len(lens, l)
    &&& syms_of_len(lens, l)[code - first_code(lens, l)] == sym
}

proof fn lemma_decode_from_code(lens: Seq<u8>, d: Seq<u8>, b0: nat, l: nat, code: nat)
    requires
        1 <= l,
        code == bits_msb(d, b0, (l - 1) as nat),
        decode_from(lens, d, (b0 + l - 1) as nat, l, code) is Some,
    ensures
        ({
            let (sym, end) = decode_from(lens, d, (b0 + l - 1) as nat, l, code)->0;
            let n = lens[sym as int] as nat;
            &&& canonical_code(lens, sym, bits_msb(d, b0, n))
            &&& end == b0 + n
        }),
    decreases 17 - l,
{
    let bp = (b0 + l - 1) as nat;
    let c = code * 2 + bit_at(d, bp) as nat;
    assert(c == bits_msb(d, b0, l));
    let f = first_code(lens, l);
    if count_len(lens, l) > 0 && f <= c && c < f + count_len(lens, l) {
        lemma_syms_of_len(lens, l);
        assert(syms_of_len(lens, l)[c - f] < lens.len());
    } else {
        lemma_decode_from_code(lens, d, b0, l + 1, c);
    }
}

/// What one decoding step reads is a code word: where `huff_decode` yields
/// a symbol, that symbol has a length from 1 to 16, exactly that many bits
/// were read, and those bits, the first read most significant, are its
/// canonical code.
pub proof fn lemma_decode_reads_canonical_code(lens: Seq<u8>, d: Seq<u8>, bp: nat)
    requires
        huff_decode(lens, d, bp) is Some,
    ensures
        ({
            let (sym, end) = huff_decode(lens, d, bp)->0;
            let n = lens[sym as int] as nat;
            &&& canonical_code(lens, sym, bits_msb(d, bp, n))
            &&& end == bp + n
        }),
{
    lemma_decode_from_code(lens, d, bp, 1, 0);
}

pub proof fn lemma_syms_of_len(lens: Seq<u8>, l: nat)
    ensures
        forall|k: int|
            0 <= k < syms_of_len(lens, l).len() ==> #[trigger] syms_of_len(lens, l)[k] < lens.len()
                && lens[syms_of_len(lens, l)[k] as int] as nat == l,
        syms_of_len(lens, l).len() <= lens.len(),
    decreases lens.len(),
{
    if lens.len() > 0 {
        lemma_syms_of_len(lens.drop_last(), l);
        let r = syms_of_len(lens.drop_last(), l);
        assert forall|k: int| 0 <= k < syms_of_len(lens, l).len() implies #[trigger] syms_of_len(
            lens,
            l,
        )[k] < lens.len() && lens[syms_of_len(lens, l)[k] as int] as nat == l by {
            if k < r.len() {
                assert(syms_of_len(lens, l)[k] == r[k]);
                assert(lens.drop_last()[r[k] as int] == lens[r[k] as int]);
            }
        }
    }
}

/// Taking a longer prefix only appends to each per-length symbol list.
pub proof fn lemma_syms_prefix(lens: Seq<u8>, i: int, l: nat)
    requires
        0 <= i <= lens.len(),
    ensures
        syms_of_len(lens.take(i), l).len() <= syms_of_len(lens, l).len(),
        forall|k: int|
            0 <= k < syms_of_len(lens.take(i), l).len() ==> #[trigger] syms_of_len(lens.take(i), l)[k]
                == syms_of_len(lens, l)[k],
    decreases lens.len() - i,
{
    if i == lens.len() {
        assert(lens.take(i) =~= lens);
    } else {
        lemma_syms_prefix(lens, i + 1, l);
        assert(lens.take(i + 1).drop_last() =~= lens.take(i));
        let a = syms_of_len(lens.take(i), l);
        let b = syms_of_len(lens.take(i + 1), l);
        assert(b == (if lens.take(i + 1).last() as nat == l {
            a.push(i as nat)
        } else {
            a
        }));
        assert forall|k: int| 0 <= k < a.len() implies #[trigger] a[k] == syms_of_len(lens, l)[k] by {
            assert(a[k] == b[k]);
        }
    }
}

/// Removing the last length changes exactly one count.
pub proof fn lemma_offset_drop_last(lens: Seq<u8>, l: nat)
    requires
        lens.len() > 0,
    ensures
        offset_of(lens, l) == offset_of(lens.drop_last(), l) + (if 1 <= lens.last() && (
        lens.last() as nat) < l {
            1nat
        } else {
            0nat
        }),
    decreases l,
{
    if l > 0 {
        lemma_offset_drop_last(lens, (l - 1) as nat);
    }
}

pub proof fn lemma_offset_bound(lens: Seq<u8>, l: nat)
    ensures
        offset_of(lens, l) <= lens.len(),
    decreases lens.len(),
{
    if lens.len() == 0 {
        lemma_offset_empty(lens, l);
    } else {
        lemma_offset_drop_last(lens, l);
        lemma_offset_bound(lens.drop_last(), l);
    }
}

pub proof fn lemma_offset_empty(lens: Seq<u8>, l: nat)
    requires
        lens.len() == 0,
    ensures
        offset_of(lens, l) == 0,
    decreases l,
{
    if l > 0 {
        lemma_offset_empty(lens, (l - 1) as nat);
    }
}

pub proof fn lemma_offset_mono(lens: Seq<u8>, l1: nat, l2: nat)
    requires
        l1 <= l2,
    ensures
        offset_of(lens, l1) + (if l1 < l2 {
            count_len(lens, l1)
        } else {
            0
        }) <= offset_of(lens, l2),
    decreases l2 - l1,
{
    if l1 < l2 {
        lemma_offset_mono(lens, l1, (l2 - 1) as nat);
    }
}

pub proof fn lemma_first_code_bound(lens: Seq<u8>, l: nat)
    ensures
        first_code(lens, l) <= offset_of(lens, l) * pow2(l),
    decreases l,
{
    vstd::arithmetic::power2::lemma2_to64();
    if l > 0 {
        lemma_first_code_bound(lens, (l - 1) as nat);
        lemma_pow2_unfold(l);
        lemma_pow2_pos((l - 1) as nat);
        let f = first_code(lens, (l - 1) as nat);
        let o = offset_of(lens, (l - 1) as nat);
        let c = count_len(lens, (l - 1) as nat);
        let p = pow2((l - 1) as nat);
        assert((f + c) * 2 <= (o + c) * (p * 2)) by (nonlinear_arith)
            requires
                f <= o * p,
                p >= 1,
        ;
    }
}

/// A canonical Huffman decoding table.
pub struct HuffmanTree {
    counts: Vec<u32>,
    symbols: Vec<u16>,
    min_code: Vec<u32>,
    offsets: Vec<u32>,
    lens: Ghost<Seq<u8>>,
}

impl HuffmanTree {
    /// The code lengths the table was built from.
    pub closed spec fn lengths(&self) -> Seq<u8> {
        self.lens@
    }

    pub closed spec fn wf(&self) -> bool {
        let lens = self.lens@;
        &&& self.counts@.len() == 17
        &&& self.min_code@.len() == 17
        &&& self.offsets@.len() == 17
        &&& lens.len() <= MAX_CODE_LENGTHS
        &&& forall|l: int|
            1 <= l <= 16 ==> {
                &&& #[trigger] self.counts@[l] as nat == count_len(lens, l as nat)
                &&& self.min_code@[l] as nat == first_code(lens, l as nat)
                &&& self.offsets@[l] as nat == offset_of(lens, l as nat)
            }
        &&& self.symbols@.len() == offset_of(lens, 17)
        &&& forall|l: int, k: int|
            1 <= l <= 16 && 0 <= k < count_len(lens, l as nat) ==> #[trigger] self.symbols@[offset_of(
                lens,
                l as nat,
            ) + k] as nat == syms_of_len(lens, l as nat)[k]
    }

    /// Builds the canonical decoding table for the given code lengths
    /// (lengths 0 and above 16 are unused).
    pub fn from_lengths(code_lengths: &[u8]) -> (t: HuffmanTree)
        requires
            code_lengths@.len() <= MAX_CODE_LENGTHS,
        ensures
            t.wf(),
            t.lengths() == code_lengths@,
    {
        let ghost lens = code_lengths@;
        let n = code_lengths.len();
        // Count the codes of each length.
        let mut counts: Vec<u32> = vec![0u32; 17];
        let mut i: usize = 0;
        while i < n
            invariant
                n == lens.len() <= MAX_CODE_LENGTHS,
                lens == code_lengths@,
                i <= n,
                counts@.len() == 17,
                counts@[0] == 0,
                forall|l: int| 1 <= l <= 16 ==> #[trigger] counts@[l] as nat == count_len(lens.take(i as int), l as nat),
                forall|l: int| 1 <= l <= 16 ==> #[trigger] counts@[l] <= i,
            decreases n - i,
        {
            let len = code_lengths[i];
            assert(lens.take(i + 1).drop_last() =~= lens.take(i as int));
            if len > 0 && (len as usize) <= MAX_HUFFMAN_BITS {
                let c = counts[len as usize];
                counts.set(len as usize, c + 1);
            }
            i += 1;
        }
        assert(lens.take(n as int) =~= lens);
        // First code and offset of each length.
        let mut min_code: Vec<u32> = vec![0u32; 17];
        let mut offsets: Vec<u32> = vec![0u32; 17];
        let mut code: u32 = 0;
        let mut offset: u32 = 0;
        let mut bits: usize = 1;
        proof {
            vstd::arithmetic::power2::lemma2_to64();
        }
        while bits <= MAX_HUFFMAN_BITS
            invariant
                1 <= bits <= 17,
                n == lens.len() <= MAX_CODE_LENGTHS,
                counts@.len() == 17,
                counts@[0] == 0,
                forall|l: int| 1 <= l <= 16 ==> #[trigger] counts@[l] as nat == count_len(lens, l as nat),
                min_code@.len() == 17,
                offsets@.len() == 17,
                code as nat == first_code(lens, (bits - 1) as nat),
                offset as nat == offset_of(lens, (bits - 1) as nat),
                forall|l: int| 1 <= l < bits ==> #[trigger] min_code@[l] as nat == first_code(lens, l as nat),
                forall|l: int| 1 <= l < bits ==> #[trigger] offsets@[l] as nat == offset_of(lens, l as nat),
            decreases 17 - bits,
        {
            proof {
                vstd::arithmetic::power2::lemma2_to64();
                lemma_offset_bound(lens, bits as nat);
                lemma_first_code_bound(lens, bits as nat);
                lemma_offset_bound(lens, (bits - 1) as nat);
                lemma_syms_of_len(lens, (bits - 1) as nat);
                assert(pow2(bits as nat) <= 0x10000) by {
                    if bits < 16 {
                        vstd::arithmetic::power2::lemma_pow2_strictly_increases(bits as nat, 16);
                    }
                }
                assert(offset_of(lens, bits as nat) * pow2(bits as nat) <= 1024 * 0x10000)
                    by (nonlinear_arith)
                    requires
                        offset_of(lens, bits as nat) <= 1024,
                        pow2(bits as nat) <= 0x10000,
                ;
            }
            code = (code + counts[bits - 1]) * 2;
            min_code.set(bits, code);
            offsets.set(bits, offset + counts[bits - 1]);
            offset = offset + counts[bits - 1];
            bits += 1;
        }
        // Place each symbol after the shorter codes and the earlier symbols of its length.
        proof {
            lemma_offset_bound(lens, 17);
        }
        let total = offset + counts[16];
        let mut symbols: Vec<u16> = vec![0u16; total as usize];
        let mut fill: Vec<u32> = vec![0u32; 17];
        let mut s: usize = 0;
        while s < n
            invariant
                n == lens.len() <= MAX_CODE_LENGTHS,
                lens == code_lengths@,
                s <= n,
                counts@.len() == 17,
                forall|l: int| 1 <= l <= 16 ==> #[trigger] counts@[l] as nat == count_len(lens, l as nat),
                offsets@.len() == 17,
                forall|l: int| 1 <= l <= 16 ==> #[trigger] offsets@[l] as nat == offset_of(lens, l as nat),
                total as nat == offset_of(lens, 17),
                symbols@.len() == total,
                fill@.len() == 17,
                forall|l: int| 1 <= l <= 16 ==> #[trigger] fill@[l] as nat == count_len(lens.take(s as int), l as nat),
                forall|l: int, k: int|
                    1 <= l <= 16 && 0 <= k < count_len(lens.take(s as int), l as nat) ==> #[trigger] symbols@[offset_of(
                        lens,
                        l as nat,
                    ) + k] as nat == syms_of_len(lens.take(s as int), l as nat)[k],
            decreases n - s,
        {
            let len = code_lengths[s];
            assert(lens.take(s + 1).drop_last() =~= lens.take(s as int));
            if len > 0 && (len as usize) <= MAX_HUFFMAN_BITS {
                let l = len as usize;
                proof {
                    lemma_syms_prefix(lens, s + 1, l as nat);
                    lemma_offset_mono(lens, l as nat, 17);
                }
                let idx = (offsets[l] + fill[l]) as usize;
                let old_fill = fill[l];
                let ghost old_sym = symbols@;
                symbols.set(idx, s as u16);
                fill.set(l, old_fill + 1);
                proof {
                    assert(lens.take(s + 1).last() == lens[s as int]);
                    assert forall|l2: int, k: int|
                        1 <= l2 <= 16 && 0 <= k < count_len(lens.take(s + 1), l2 as nat) implies #[trigger] symbols@[offset_of(
                            lens,
                            l2 as nat,
                        ) + k] as nat == syms_of_len(lens.take(s + 1), l2 as nat)[k] by {
                        lemma_syms_prefix(lens, s + 1, l2 as nat);
                        lemma_offset_mono(lens, l2 as nat, 17);
                        let a = syms_of_len(lens.take(s as int), l2 as nat);
                        let b = syms_of_len(lens.take(s + 1), l2 as nat);
                        assert(b == (if lens[s as int] as nat == l2 {
                            a.push(s as nat)
                        } else {
                            a
                        }));
                        if l2 != l {
                            if l2 < l {
                                lemma_offset_mono(lens, l2 as nat, l as nat);
                            } else {
                                lemma_offset_mono(lens, l as nat, l2 as nat);
                            }
                            assert(offset_of(lens, l2 as nat) + k != idx);
                            assert(old_sym[offset_of(lens, l2 as nat) + k] as nat == a[k]);
                            assert(symbols@[offset_of(lens, l2 as nat) + k] == old_sym[offset_of(lens, l2 as nat) + k]);
                            assert(b == a);
                        } else if k < a.len() {
                            assert(offset_of(lens, l2 as nat) + k != idx);
                            assert(old_sym[offset_of(lens, l2 as nat) + k] as nat == a[k]);
                        } else {
                            assert(k == a.len());
                            assert(offset_of(lens, l2 as nat) + k == idx);
                            assert(symbols@[idx as int] == s as u16);
                            assert(b[k] == s as nat);
                        }
                    }
                }
            } else {
                proof {
                    assert forall|l2: int, k: int|
                        1 <= l2 <= 16 && 0 <= k < count_len(lens.take(s + 1), l2 as nat) implies #[trigger] symbols@[offset_of(
                            lens,
                            l2 as nat,
                        ) + k] as nat == syms_of_len(lens.take(s + 1), l2 as nat)[k] by {}
                }
            }
            s += 1;
        }
        assert(lens.take(n as int) =~= lens);
        HuffmanTree { counts, symbols, min_code, offsets, lens: Ghost(lens) }
    }

    /// Decodes one symbol, reading its code bit by bit.
    pub fn decode(&self, reader: &mut BitReader) -> (r: Result<u16, ContainerError>)
        requires
            self.wf(),
            old(reader).wf(),
        ensures
            final(reader).wf(),
            final(reader).bytes() == old(reader).bytes(),
            match huff_decode(self.lengths(), old(reader).bytes(), old(reader).bitpos()) {
                Some((sym, np)) => r == Ok::<u16, ContainerError>(sym as u16)
                    && final(reader).bitpos() == np,
                None => r is Err && r->Err_0 is Io,
            },
    {
        let ghost lens = self.lens@;
        let ghost d = reader.bytes();
        let ghost bp0 = reader.bitpos();
        let mut code: u32 = 0;
        let mut bits: usize = 1;
        proof {
            vstd::arithmetic::power2::lemma2_to64();
        }
        while bits <= MAX_HUFFMAN_BITS
            invariant
                self.wf(),
                lens == self.lens@,
                reader.wf(),
                reader.bytes() == d,
                d == old(reader).bytes(),
                bp0 == old(reader).bitpos(),
                1 <= bits <= 17,
                reader.bitpos() == bp0 + bits - 1,
                code < pow2((bits - 1) as nat),
                huff_decode(lens, d, bp0) == decode_from(lens, d, reader.bitpos(), bits as nat, code as nat),
            decreases 17 - bits,
        {
            let ghost bp = reader.bitpos();
            let bit = match reader.read_bits_msb(1) {
                Ok(b) => b,
                Err(e) => {
                    return Err(e);
                },
            };
            proof {
                vstd::arithmetic::power2::lemma2_to64();
                reveal_with_fuel(bits_msb, 2);
                assert(bits_msb(d, bp, 1) == bit_at(d, bp) as nat);
                lemma_bit_le_1(d, bp);
                lemma_pow2_unfold(bits as nat);
                assert(pow2((bits - 1) as nat) <= 0x8000) by {
                    if bits < 16 {
                        vstd::arithmetic::power2::lemma_pow2_strictly_increases((bits - 1) as nat, 15);
                    }
                }
            }
            code = code * 2 + bit;
            let cnt = self.counts[bits];
            let minc = self.min_code[bits];
            if cnt > 0 && code >= minc && code - minc < cnt {
                proof {
                    lemma_offset_mono(lens, bits as nat, 17);
                    lemma_offset_bound(lens, 17);
                    lemma_syms_of_len(lens, bits as nat);
                }
                let idx = (self.offsets[bits] + (code - minc)) as usize;
                proof {
                    assert(self.symbols@[offset_of(lens, bits as nat) + (code - minc)] as nat
                        == syms_of_len(lens, bits as nat)[code - minc]);
                }
                return Ok(self.symbols[idx]);
            }
            bits += 1;
        }
        Err(io_error(IoKind::InvalidData, "invalid huffman code"))
    }
}

// ─── DEFLATE blocks ────────────────────────────────────────────────────────

pub open spec fn length_base(i: nat) -> nat {
    seq![3nat, 4, 5, 6, 7, 8, 9, 10, 11, 13, 15, 17, 19, 23, 27, 31, 35, 43, 51, 59, 67, 83, 99,
        115, 131, 163, 195, 227, 258][i as int]
}

pub open spec fn length_extra(i: nat) -> nat {
    seq![0nat, 0, 0, 0, 0, 0, 0, 0, 1, 1, 1, 1, 2, 2, 2, 2, 3, 3, 3, 3, 4, 4, 4, 4, 5, 5, 5, 5, 0][i as int]
}

pub open spec fn dist_base(i: nat) -> nat {
    seq![1nat, 2, 3, 4, 5, 7, 9, 13, 17, 25, 33, 49, 65, 97, 129, 193, 257, 385, 513, 769, 1025,
        1537, 2049, 3073, 4097, 6145, 8193, 12289, 16385, 24577][i as int]
}

pub open spec fn dist_extra(i: nat) -> nat {
    seq![0nat, 0, 0, 0, 1, 1, 2, 2, 3, 3, 4, 4, 5, 5, 6, 6, 7, 7, 8, 8, 9, 9, 10, 10, 11, 11, 12,
        12, 13, 13][i as int]
}

/// The order in which code-length code lengths are stored.
pub open spec fn codelen_order(i: nat) -> nat {
    seq![16nat, 17, 18, 0, 8, 7, 9, 6, 10, 5, 11, 4, 12, 3, 13, 2, 14, 1, 15][i as int]
}

fn length_base_exec(i: usize) -> (r: u16)
    requires
        i < 29,
    ensures
        r as nat == length_base(i as nat),
{
    let t: [u16; 29] = [
        3, 4, 5, 6, 7, 8, 9, 10, 11, 13, 15, 17, 19, 23, 27, 31, 35, 43, 51, 59, 67, 83, 99, 115,
        131, 163, 195, 227, 258,
    ];
    assert(t@ =~= seq![3u16, 4, 5, 6, 7, 8, 9, 10, 11, 13, 15, 17, 19, 23, 27, 31, 35, 43, 51, 59, 67, 83, 99, 115,
        131, 163, 195, 227, 258]);
    t[i]
}

fn length_extra_exec(i: usize) -> (r: u8)
    requires
        i < 29,
    ensures
        r as nat == length_extra(i as nat),
{
    let t: [u8; 29] = [
        0, 0, 0, 0, 0, 0, 0, 0, 1, 1, 1, 1, 2, 2, 2, 2, 3, 3, 3, 3, 4, 4, 4, 4, 5, 5, 5, 5, 0,
    ];
    assert(t@ =~= seq![0u8, 0, 0, 0, 0, 0, 0, 0, 1, 1, 1, 1, 2, 2, 2, 2, 3, 3, 3, 3, 4, 4, 4, 4, 5, 5, 5, 5, 0]);
    t[i]
}

fn dist_base_exec(i: usize) -> (r: u16)
    requires
        i < 30,
    ensures
        r as nat == dist_base(i as nat),
{
    let t: [u16; 30] = [
        1, 2, 3, 4, 5, 7, 9, 13, 17, 25, 33, 49, 65, 97, 129, 193, 257, 385, 513, 769, 1025, 1537,
        2049, 3073, 4097, 6145, 8193, 12289, 16385, 24577,
    ];
    assert(t@ =~= seq![1u16, 2, 3, 4, 5, 7, 9, 13, 17, 25, 33, 49, 65, 97, 129, 193, 257, 385, 513, 769, 1025, 1537,
        2049, 3073, 4097, 6145, 8193, 12289, 16385, 24577]);
    t[i]
}

fn dist_extra_exec(i: usize) -> (r: u8)
    requires
        i < 30,
    ensures
        r as nat == dist_extra(i as nat),
{
    let t: [u8; 30] = [
        0, 0, 0, 0, 1, 1, 2, 2, 3, 3, 4, 4, 5, 5, 6, 6, 7, 7, 8, 8, 9, 9, 10, 10, 11, 11, 12, 12,
        13, 13,
    ];
    assert(t@ =~= seq![0u8, 0, 0, 0, 1, 1, 2, 2, 3, 3, 4, 4, 5, 5, 6, 6, 7, 7, 8, 8, 9, 9, 10, 10, 11, 11, 12, 12,
        13, 13]);
    t[i]
}

fn codelen_order_exec(i: usize) -> (r: usize)
    requires
        i < 19,
    ensures
        r as nat == codelen_order(i as nat),
        r < 19,
{
    let t: [usize; 19] = [16, 17, 18, 0, 8, 7, 9, 6, 10, 5, 11, 4, 12, 3, 13, 2, 14, 1, 15];
    assert(t@ =~= seq![16usize, 17, 18, 0, 8, 7, 9, 6, 10, 5, 11, 4, 12, 3, 13, 2, 14, 1, 15]);
    t[i]
}

/// Code lengths of the fixed literal/length code (RFC 1951, 3.2.6).
pub open spec fn fixed_lit_lengths() -> Seq<u8> {
    Seq::new(
        288,
        |i: int|
            if i <= 143 {
                8u8
            } else if i <= 255 {
                9u8
            } else if i <= 279 {
                7u8
            } else {
                8u8
            },
    )
}

/// Code lengths of the fixed distance code.
pub open spec fn fixed_dist_lengths() -> Seq<u8> {
    Seq::new(32, |i: int| 5u8)
}

/// `out` followed by `length` bytes copied from `distance` bytes back
/// (the copy may overlap the bytes it produces).
pub open spec fn back_copy(out: Seq<u8>, distance: nat, length: nat) -> Seq<u8> {
    out + Seq::new(length, |i: int| out[out.len() - distance + (i % (distance as int))])
}

pub proof fn lemma_decode_advances(lens: Seq<u8>, d: Seq<u8>, bp: nat, l: nat, code: nat)
    ensures
        decode_from(lens, d, bp, l, code) matches Some((s, np)) ==> bp < np <= d.len() * 8
            && s < lens.len(),
    decreases 17 - l,
{
    if !(l > 16 || l == 0) && bp < d.len() * 8 {
        let c = code * 2 + bit_at(d, bp) as nat;
        lemma_syms_of_len(lens, l);
        lemma_decode_advances(lens, d, bp + 1, l + 1, c);
    }
}

/// The symbols of one Huffman-coded block, up to and including the end-of-block
/// code, appended to `out`; returns the output and the position after the block.
#[verifier::opaque]
pub open spec fn block_loop(lit: Seq<u8>, dist: Seq<u8>, d: Seq<u8>, bp: nat, out: Seq<u8>) -> Option<
    (Seq<u8>, nat),
>
    decreases d.len() * 8 - bp,
{
    if bp > d.len() * 8 {
        None
    } else {
        match huff_decode(lit, d, bp) {
            None => None,
            Some((sym, bp1)) => {
                proof {
                    lemma_decode_advances(lit, d, bp, 1, 0);
                }
                if sym < 256 {
                    block_loop(lit, dist, d, bp1, out.push(sym as u8))
                } else if sym == 256 {
                    Some((out, bp1))
                } else if sym - 257 >= 29 {
                    None
                } else {
                    let li = (sym - 257) as nat;
                    match read_bits(d, bp1, length_extra(li)) {
                        None => None,
                        Some((e, bp2)) => {
                            let length = length_base(li) + e;
                            match huff_decode(dist, d, bp2) {
                                None => None,
                                Some((ds, bp3)) => {
                                    proof {
                                        lemma_decode_advances(dist, d, bp2, 1, 0);
                                    }
                                    if ds >= 30 {
                                        None
                                    } else {
                                        match read_bits(d, bp3, dist_extra(ds)) {
                                            None => None,
                                            Some((e2, bp4)) => {
                                                let distance = dist_base(ds) + e2;
                                                if distance > out.len() {
                                                    None
                                                } else {
                                                    block_loop(
                                                        lit,
                                                        dist,
                                                        d,
                                                        bp4,
                                                        back_copy(out, distance, length),
                                                    )
                                                }
                                            },
                                        }
                                    }
                                },
                            }
                        },
                    }
                }
            },
        }
    }
}

/// A stored (uncompressed) block.
pub open spec fn stored_block(d: Seq<u8>, bp: nat, out: Seq<u8>) -> Option<(Seq<u8>, nat)> {
    let b = align(bp) / 8;
    if b + 2 > d.len() {
        None
    } else if b + 4 > d.len() {
        None
    } else {
        let len = d[b as int] as nat + d[(b + 1) as int] as nat * 256;
        if b + 4 + len > d.len() {
            None
        } else {
            Some((out + d.subrange((b + 4) as int, (b + 4 + len) as int), (b + 4 + len) * 8))
        }
    }
}

/// Reads the code-length code lengths `i..hclen` (3 bits each, in `codelen_order`).
pub open spec fn read_codelen_lengths(d: Seq<u8>, bp: nat, hclen: nat, i: nat, acc: Seq<u8>) -> Option<
    (Seq<u8>, nat),
>
    decreases hclen - i,
{
    if i >= hclen || i >= 19 {
        Some((acc, bp))
    } else {
        match read_bits(d, bp, 3) {
            None => None,
            Some((v, bp1)) => read_codelen_lengths(
                d,
                bp1,
                hclen,
                i + 1,
                acc.update(codelen_order(i) as int, v as u8),
            ),
        }
    }
}

/// Decodes literal/length and distance code lengths until at least `total` are known.
pub open spec fn read_lengths(cl: Seq<u8>, d: Seq<u8>, bp: nat, total: nat, acc: Seq<u8>) -> Option<
    (Seq<u8>, nat),
>
    decreases d.len() * 8 - bp,
{
    if acc.len() >= total {
        Some((acc, bp))
    } else if bp > d.len() * 8 {
        None
    } else {
        match huff_decode(cl, d, bp) {
            None => None,
            Some((sym, bp1)) => {
                proof {
                    lemma_decode_advances(cl, d, bp, 1, 0);
                }
                if sym <= 15 {
                    read_lengths(cl, d, bp1, total, acc.push(sym as u8))
                } else if sym == 16 {
                    match read_bits(d, bp1, 2) {
                        None => None,
                        Some((r, bp2)) => {
                            let prev = if acc.len() == 0 {
                                0u8
                            } else {
                                acc.last()
                            };
                            read_lengths(cl, d, bp2, total, acc + Seq::new(r + 3, |j: int| prev))
                        },
                    }
                } else if sym == 17 {
                    match read_bits(d, bp1, 3) {
                        None => None,
                        Some((r, bp2)) => read_lengths(
                            cl,
                            d,
                            bp2,
                            total,
                            acc + Seq::new(r + 3, |j: int| 0u8),
                        ),
                    }
                } else if sym == 18 {
                    match read_bits(d, bp1, 7) {
                        None => None,
                        Some((r, bp2)) => read_lengths(
                            cl,
                            d,
                            bp2,
                            total,
                            acc + Seq::new(r + 11, |j: int| 0u8),
                        ),
                    }
                } else {
                    None
                }
            },
        }
    }
}

/// A block compressed with dynamic Huffman codes.
#[verifier::opaque]
pub open spec fn dynamic_block(d: Seq<u8>, bp: nat, out: Seq<u8>) -> Option<(Seq<u8>, nat)> {
    match read_bits(d, bp, 5) {
        None => None,
        Some((a, bp1)) => match read_bits(d, bp1, 5) {
            None => None,
            Some((b, bp2)) => match read_bits(d, bp2, 4) {
                None => None,
                Some((c, bp3)) => {
                    let hlit = a + 257;
                    let hdist = b + 1;
                    let hclen = c + 4;
                    match read_codelen_lengths(d, bp3, hclen, 0, Seq::new(19, |j: int| 0u8)) {
                        None => None,
                        Some((cl, bp4)) => match read_lengths(cl, d, bp4, hlit + hdist, seq![]) {
                            None => None,
                            Some((lens, bp5)) => block_loop(
                                lens.take(hlit as int),
                                lens.skip(hlit as int),
                                d,
                                bp5,
                                out,
                            ),
                        },
                    }
                },
            },
        },
    }
}

pub proof fn lemma_block_loop_advances(lit: Seq<u8>, dist: Seq<u8>, d: Seq<u8>, bp: nat, out: Seq<u8>)
    ensures
        block_loop(lit, dist, d, bp, out) matches Some((o, np)) ==> bp < np <= d.len() * 8,
    decreases d.len() * 8 - bp,
{
    reveal(block_loop);
    if bp <= d.len() * 8 {
        lemma_decode_advances(lit, d, bp, 1, 0);
        if let Some((sym, bp1)) = huff_decode(lit, d, bp) {
            if sym < 256 {
                lemma_block_loop_advances(lit, dist, d, bp1, out.push(sym as u8));
            } else if sym != 256 && sym - 257 < 29 {
                let li = (sym - 257) as nat;
                if let Some((e, bp2)) = read_bits(d, bp1, length_extra(li)) {
                    let length = length_base(li) + e;
                    lemma_decode_advances(dist, d, bp2, 1, 0);
                    if let Some((ds, bp3)) = huff_decode(dist, d, bp2) {
                        if ds < 30 {
                            if let Some((e2, bp4)) = read_bits(d, bp3, dist_extra(ds)) {
                                let distance = dist_base(ds) + e2;
                                if distance <= out.len() {
                                    lemma_block_loop_advances(
                                        lit,
                                        dist,
                                        d,
                                        bp4,
                                        back_copy(out, distance, length),
                                    );
                                }
                            }
                        }
                    }
                }
            }
        }
    }
}

/// The length codes cover the lengths 3 to 258 without gap or overlap
/// (RFC 1951, 3.2.5): code 257 stands for 3, each code's range begins
/// where the one before ends, its extra bits counting within it, and code
/// 285 stands for 258 alone.
pub proof fn lemma_length_codes_cover()
    ensures
        length_base(0) == 3,
        forall|i: nat| i < 27 ==> #[trigger] length_base(i + 1) == length_base(i) + pow2(length_extra(i)),
        length_base(28) == 258 && length_extra(28) == 0,
        forall|i: nat| i < 29 ==> 3 <= #[trigger] length_base(i) && length_base(i) + pow2(length_extra(i)) - 1 <= 258,
{
    vstd::arithmetic::power2::lemma2_to64();
    assert forall|i: nat| i < 27 implies #[trigger] length_base(i + 1) == length_base(i) + pow2(length_extra(i)) by {
        if i == 0 {} else if i == 1 {} else if i == 2 {} else if i == 3 {} else if i == 4 {} else if i == 5 {} else if i == 6 {} else if i == 7 {} else if i == 8 {} else if i == 9 {} else if i == 10 {} else if i == 11 {} else if i == 12 {} else if i == 13 {} else if i == 14 {} else if i == 15 {} else if i == 16 {} else if i == 17 {} else if i == 18 {} else if i == 19 {} else if i == 20 {} else if i == 21 {} else if i == 22 {} else if i == 23 {} else if i == 24 {} else if i == 25 {} else if i == 26 {}
    }
    assert forall|i: nat| i < 29 implies 3 <= #[trigger] length_base(i) && length_base(i) + pow2(length_extra(i)) - 1 <= 258 by {
        if i == 0 {} else if i == 1 {} else if i == 2 {} else if i == 3 {} else if i == 4 {} else if i == 5 {} else if i == 6 {} else if i == 7 {} else if i == 8 {} else if i == 9 {} else if i == 10 {} else if i == 11 {} else if i == 12 {} else if i == 13 {} else if i == 14 {} else if i == 15 {} else if i == 16 {} else if i == 17 {} else if i == 18 {} else if i == 19 {} else if i == 20 {} else if i == 21 {} else if i == 22 {} else if i == 23 {} else if i == 24 {} else if i == 25 {} else if i == 26 {} else if i == 27 {} else if i == 28 {}
    }
}

/// The distance codes cover the distances 1 to 32768 without gap or
/// overlap (RFC 1951, 3.2.5): code 0 stands for 1, each code's range begins
/// where the one before ends, its extra bits counting within it, and the
/// last code's range ends at 32768.
pub proof fn lemma_distance_codes_cover()
    ensures
        dist_base(0) == 1,
        forall|i: nat| i < 29 ==> #[trigger] dist_base(i + 1) == dist_base(i) + pow2(dist_extra(i)),
        dist_base(29) + pow2(dist_extra(29)) - 1 == 32768,
{
    vstd::arithmetic::power2::lemma2_to64();
    assert forall|i: nat| i < 29 implies #[trigger] dist_base(i + 1) == dist_base(i) + pow2(dist_extra(i)) by {
        if i == 0 {} else if i == 1 {} else if i == 2 {} else if i == 3 {} else if i == 4 {} else if i == 5 {} else if i == 6 {} else if i == 7 {} else if i == 8 {} else if i == 9 {} else if i == 10 {} else if i == 11 {} else if i == 12 {} else if i == 13 {} else if i == 14 {} else if i == 15 {} else if i == 16 {} else if i == 17 {} else if i == 18 {} else if i == 19 {} else if i == 20 {} else if i == 21 {} else if i == 22 {} else if i == 23 {} else if i == 24 {} else if i == 25 {} else if i == 26 {} else if i == 27 {} else if i == 28 {}
    }
}

/// A literal code appends its byte and decoding goes on after it; the
/// end-of-block code ends the block with the output as it stands, just
/// after that code.
pub proof fn lemma_block_literal_and_end(lit: Seq<u8>, dist: Seq<u8>, d: Seq<u8>, bp: nat, out: Seq<u8>)
    requires
        bp <= d.len() * 8,
        huff_decode(lit, d, bp) is Some,
    ensures
        ({
            let (sym, bp1) = huff_decode(lit, d, bp)->0;
            &&& sym < 256 ==> block_loop(lit, dist, d, bp, out) == block_loop(lit, dist, d, bp1, out.push(sym as u8))
            &&& sym == 256 ==> block_loop(lit, dist, d, bp, out) == Some((out, bp1))
        }),
{
    reveal(block_loop);
}

/// A length/distance pair copies exactly `length_base` of its code plus
/// the value of the code's extra bits, taken from `distance` bytes back:
/// where the literal/length code at `bp` is a length code whose extra
/// bits, distance code and distance extra bits follow in the data, the
/// block decodes as if those bytes had been written out directly, each
/// copied byte repeating the one `distance` places before it.
pub proof fn lemma_block_length_copy(lit: Seq<u8>, dist: Seq<u8>, d: Seq<u8>, bp: nat, out: Seq<u8>)
    requires
        bp <= d.len() * 8,
        huff_decode(lit, d, bp) is Some,
        ({
            let (sym, bp1) = huff_decode(lit, d, bp)->0;
            let bp2 = bp1 + length_extra((sym - 257) as nat);
            &&& 257 <= sym < 286
            &&& bp2 <= d.len() * 8
            &&& huff_decode(dist, d, bp2) is Some
            &&& ({
                let (ds, bp3) = huff_decode(dist, d, bp2)->0;
                &&& ds < 30
                &&& bp3 + dist_extra(ds) <= d.len() * 8
                &&& 1 <= dist_base(ds) + bits_lsb(d, bp3, dist_extra(ds)) <= out.len()
            })
        }),
    ensures
        ({
            let (sym, bp1) = huff_decode(lit, d, bp)->0;
            let li = (sym - 257) as nat;
            let length = length_base(li) + bits_lsb(d, bp1, length_extra(li));
            let (ds, bp3) = huff_decode(dist, d, bp1 + length_extra(li))->0;
            let distance = dist_base(ds) + bits_lsb(d, bp3, dist_extra(ds));
            let copied = Seq::new(length, |i: int| out[out.len() - distance + (i % (distance as int))]);
            &&& copied.len() == length
            &&& forall|i: int| 0 <= i < length ==> #[trigger] (out + copied)[out.len() + i] == (out + copied)[out.len() + i - distance]
            &&& block_loop(lit, dist, d, bp, out) == block_loop(lit, dist, d, bp3 + dist_extra(ds), out + copied)
        }),
{
    reveal(block_loop);
    let (sym, bp1) = huff_decode(lit, d, bp)->0;
    let li = (sym - 257) as nat;
    let length = length_base(li) + bits_lsb(d, bp1, length_extra(li));
    let (ds, bp3) = huff_decode(dist, d, bp1 + length_extra(li))->0;
    let distance = dist_base(ds) + bits_lsb(d, bp3, dist_extra(ds));
    let copied = Seq::new(length, |i: int| out[out.len() - distance + (i % (distance as int))]);
    let o2 = out + copied;
    assert(back_copy(out, distance, length) == o2);
    assert forall|i: int| 0 <= i < length implies #[trigger] o2[out.len() + i] == o2[out.len() + i - distance] by {
        let dd = distance as int;
        assert(o2[out.len() + i] == out[out.len() - dd + (i % dd)]);
        if i < dd {
            assert(i % dd == i) by (nonlinear_arith)
                requires
                    0 <= i < dd,
            ;
            assert(o2[out.len() + i - dd] == out[out.len() - dd + i]);
        } else {
            assert((i - dd) % dd == i % dd) by (nonlinear_arith)
                requires
                    dd <= i,
                    dd >= 1,
            {
                vstd::arithmetic::div_mod::lemma_mod_sub_multiples_vanish(i, dd);
            }
            assert(o2[out.len() + i - dd] == copied[i - dd]);
        }
    }
}

pub proof fn lemma_codelen_advances(d: Seq<u8>, bp: nat, hclen: nat, i: nat, acc: Seq<u8>)
    ensures
        read_codelen_lengths(d, bp, hclen, i, acc) matches Some((a, np)) ==> bp <= np <= (if bp
            <= d.len() * 8 {
            d.len() * 8
        } else {
            bp
        }),
    decreases hclen - i,
{
    if !(i >= hclen || i >= 19) {
        if let Some((v, bp1)) = read_bits(d, bp, 3) {
            lemma_codelen_advances(d, bp1, hclen, i + 1, acc.update(codelen_order(i) as int, v as u8));
        }
    }
}

pub proof fn lemma_read_lengths_advances(cl: Seq<u8>, d: Seq<u8>, bp: nat, total: nat, acc: Seq<u8>)
    ensures
        read_lengths(cl, d, bp, total, acc) matches Some((a, np)) ==> bp <= np && (bp <= d.len() * 8
            ==> np <= d.len() * 8) && a.len() >= total && a.len() <= (if acc.len() >= total {
            acc.len()
        } else {
            total + 138
        }) && a.len() >= acc.len(),
    decreases d.len() * 8 - bp,
{
    if acc.len() < total && bp <= d.len() * 8 {
        lemma_decode_advances(cl, d, bp, 1, 0);
        if let Some((sym, bp1)) = huff_decode(cl, d, bp) {
            if sym <= 15 {
                lemma_read_lengths_advances(cl, d, bp1, total, acc.push(sym as u8));
            } else if sym == 16 {
                if let Some((r, bp2)) = read_bits(d, bp1, 2) {
                    lemma_bits_lsb_bound(d, bp1, 2);
                    vstd::arithmetic::power2::lemma2_to64();
                    let prev = if acc.len() == 0 {
                        0u8
                    } else {
                        acc.last()
                    };
                    lemma_read_lengths_advances(cl, d, bp2, total, acc + Seq::new(r + 3, |j: int| prev));
                }
            } else if sym == 17 {
                if let Some((r, bp2)) = read_bits(d, bp1, 3) {
                    lemma_bits_lsb_bound(d, bp1, 3);
                    vstd::arithmetic::power2::lemma2_to64();
                    lemma_read_lengths_advances(cl, d, bp2, total, acc + Seq::new(r + 3, |j: int| 0u8));
                }
            } else if sym == 18 {
                if let Some((r, bp2)) = read_bits(d, bp1, 7) {
                    lemma_bits_lsb_bound(d, bp1, 7);
                    vstd::arithmetic::power2::lemma2_to64();
                    lemma_read_lengths_advances(cl, d, bp2, total, acc + Seq::new(r + 11, |j: int| 0u8));
                }
            }
        }
    }
}

pub proof fn lemma_dynamic_advances(d: Seq<u8>, bp: nat, out: Seq<u8>)
    ensures
        dynamic_block(d, bp, out) matches Some((o, np)) ==> bp < np <= d.len() * 8,
{
    reveal(dynamic_block);
    if let Some((a, bp1)) = read_bits(d, bp, 5) {
        if let Some((b, bp2)) = read_bits(d, bp1, 5) {
            if let Some((c, bp3)) = read_bits(d, bp2, 4) {
                let hlit = a + 257;
                let hdist = b + 1;
                let hclen = c + 4;
                lemma_codelen_advances(d, bp3, hclen, 0, Seq::new(19, |j: int| 0u8));
                if let Some((cl, bp4)) = read_codelen_lengths(d, bp3, hclen, 0, Seq::new(19, |j: int| 0u8)) {
                    lemma_read_lengths_advances(cl, d, bp4, hlit + hdist, seq![]);
                    if let Some((lens, bp5)) = read_lengths(cl, d, bp4, hlit + hdist, seq![]) {
                        lemma_block_loop_advances(lens.take(hlit as int), lens.skip(hlit as int), d, bp5, out);
                    }
                }
            }
        }
    }
}

/// One block of any type, after its 3-bit header.
pub open spec fn one_block(btype: nat, d: Seq<u8>, bp: nat, out: Seq<u8>) -> Option<(Seq<u8>, nat)> {
    if btype == 0 {
        stored_block(d, bp, out)
    } else if btype == 1 {
        block_loop(fixed_lit_lengths(), fixed_dist_lengths(), d, bp, out)
    } else if btype == 2 {
        dynamic_block(d, bp, out)
    } else {
        None
    }
}

pub proof fn lemma_one_block_advances(btype: nat, d: Seq<u8>, bp: nat, out: Seq<u8>)
    requires
        bp <= d.len() * 8,
    ensures
        one_block(btype, d, bp, out) matches Some((o, np)) ==> bp <= np <= d.len() * 8,
{
    if btype == 0 {
    } else if btype == 1 {
        lemma_block_loop_advances(fixed_lit_lengths(), fixed_dist_lengths(), d, bp, out);
    } else if btype == 2 {
        lemma_dynamic_advances(d, bp, out);
    }
}

/// Blocks from bit `bp` until one marked final, appended to `out`.
pub open spec fn inflate_blocks(d: Seq<u8>, bp: nat, out: Seq<u8>) -> Option<Seq<u8>>
    decreases d.len() * 8 - bp,
{
    if bp > d.len() * 8 {
        None
    } else {
        match read_bits(d, bp, 1) {
            None => None,
            Some((bfinal, bp1)) => match read_bits(d, bp1, 2) {
                None => None,
                Some((btype, bp2)) => match one_block(btype, d, bp2, out) {
                    None => None,
                    Some((out2, bp3)) => {
                        proof {
                            lemma_one_block_advances(btype, d, bp2, out);
                        }
                        if bfinal == 1 {
                            Some(out2)
                        } else {
                            inflate_blocks(d, bp3, out2)
                        }
                    },
                },
            },
        }
    }
}

/// The data a DEFLATE stream decodes to, if it is well formed.
pub open spec fn spec_inflate(d: Seq<u8>) -> Option<Seq<u8>> {
    inflate_blocks(d, 0, seq![])
}

// ─── DEFLATE decoding ──────────────────────────────────────────────────────

/// The fixed literal/length code.
pub fn fixed_literal_tree() -> (t: HuffmanTree)
    ensures
        t.wf(),
        t.lengths() == fixed_lit_lengths(),
{
    let mut lengths: Vec<u8> = Vec::new();
    let mut i: usize = 0;
    while i < 288
        invariant
            i <= 288,
            lengths@.len() == i,
            forall|j: int| 0 <= j < i ==> lengths@[j] == #[trigger] fixed_lit_lengths()[j],
        decreases 288 - i,
    {
        let v: u8 = if i <= 143 {
            8
        } else if i <= 255 {
            9
        } else if i <= 279 {
            7
        } else {
            8
        };
        lengths.push(v);
        i += 1;
    }
    assert(lengths@ =~= fixed_lit_lengths());
    HuffmanTree::from_lengths(&lengths)
}

/// The fixed distance code.
pub fn fixed_distance_tree() -> (t: HuffmanTree)
    ensures
        t.wf(),
        t.lengths() == fixed_dist_lengths(),
{
    let lengths: Vec<u8> = vec![5u8; 32];
    assert(lengths@ =~= fixed_dist_lengths());
    HuffmanTree::from_lengths(&lengths)
}

/// Appends `bytes` to `out`.
fn extend_bytes(out: &mut Vec<u8>, bytes: &[u8])
    ensures
        final(out)@ == old(out)@ + bytes@,
{
    let ghost start = out@;
    let mut i: usize = 0;
    while i < bytes.len()
        invariant
            i <= bytes.len(),
            out@ == start + bytes@.take(i as int),
        decreases bytes.len() - i,
    {
        out.push(bytes[i]);
        i += 1;
        assert(out@ =~= start + bytes@.take(i as int));
    }
    assert(bytes@.take(bytes.len() as int) =~= bytes@);
}

/// Decodes a stored block.
pub fn inflate_stored(reader: &mut BitReader, output: &mut Vec<u8>) -> (r: Result<(), ContainerError>)
    requires
        old(reader).wf(),
    ensures
        final(reader).wf(),
        final(reader).bytes() == old(reader).bytes(),
        match stored_block(old(reader).bytes(), old(reader).bitpos(), old(output)@) {
            Some((o, np)) => r is Ok && final(output)@ == o && final(reader).bitpos() == np,
            None => r is Err && r->Err_0 is Io,
        },
{
    let len = match reader.read_u16_le() {
        Ok(v) => v,
        Err(e) => return Err(e),
    };
    let _nlen = match reader.read_u16_le() {
        Ok(v) => v,
        Err(e) => return Err(e),
    };
    let bytes = match reader.read_bytes(len as usize) {
        Ok(b) => b,
        Err(e) => return Err(e),
    };
    extend_bytes(output, bytes);
    Ok(())
}

/// Decodes the symbols of one Huffman-coded block, through its end-of-block code.
#[verifier::spinoff_prover]
#[verifier::rlimit(50)]
pub fn inflate_block(
    reader: &mut BitReader,
    lit_tree: &HuffmanTree,
    dist_tree: &HuffmanTree,
    output: &mut Vec<u8>,
) -> (r: Result<(), ContainerError>)
    requires
        old(reader).wf(),
        lit_tree.wf(),
        dist_tree.wf(),
    ensures
        final(reader).wf(),
        final(reader).bytes() == old(reader).bytes(),
        match block_loop(
            lit_tree.lengths(),
            dist_tree.lengths(),
            old(reader).bytes(),
            old(reader).bitpos(),
            old(output)@,
        ) {
            Some((o, np)) => r is Ok && final(output)@ == o && final(reader).bitpos() == np,
            None => r is Err && r->Err_0 is Io,
        },
{
    let ghost d = reader.bytes();
    let ghost lit = lit_tree.lengths();
    let ghost dist = dist_tree.lengths();
    let ghost goal = block_loop(lit, dist, d, reader.bitpos(), output@);
    loop
        invariant
            reader.wf(),
            reader.bytes() == d,
            d == old(reader).bytes(),
            lit_tree.wf(),
            dist_tree.wf(),
            lit == lit_tree.lengths(),
            dist == dist_tree.lengths(),
            goal == block_loop(lit, dist, d, old(reader).bitpos(), old(output)@),
            goal == block_loop(lit, dist, d, reader.bitpos(), output@),
            reader.bitpos() <= d.len() * 8,
        decreases d.len() * 8 - reader.bitpos(),
    {
        let ghost bp = reader.bitpos();
        let ghost out = output@;
        proof {
            reveal(block_loop);
            lemma_decode_advances(lit, d, bp, 1, 0);
        }
        let sym = match lit_tree.decode(reader) {
            Ok(s) => s,
            Err(e) => return Err(e),
        };
        if sym < 256 {
            output.push(sym as u8);
        } else if sym == 256 {
            return Ok(());
        } else {
            let len_idx = (sym - 257) as usize;
            if len_idx >= 29 {
                return Err(io_error(IoKind::InvalidData, "invalid length code"));
            }
            let ghost bp1 = reader.bitpos();
            let extra = match reader.read_bits(length_extra_exec(len_idx)) {
                Ok(v) => v,
                Err(e) => return Err(e),
            };
            proof {
                lemma_bits_lsb_bound(d, bp1, length_extra(len_idx as nat));
                vstd::arithmetic::power2::lemma2_to64();
            }
            let length = length_base_exec(len_idx) as usize + extra as usize;
            let ghost bp2 = reader.bitpos();
            proof {
                lemma_decode_advances(dist, d, bp2, 1, 0);
            }
            let dist_sym = match dist_tree.decode(reader) {
                Ok(s) => s as usize,
                Err(e) => return Err(e),
            };
            if dist_sym >= 30 {
                return Err(io_error(IoKind::InvalidData, "invalid distance code"));
            }
            let ghost bp3 = reader.bitpos();
            let extra2 = match reader.read_bits(dist_extra_exec(dist_sym)) {
                Ok(v) => v,
                Err(e) => return Err(e),
            };
            proof {
                lemma_bits_lsb_bound(d, bp3, dist_extra(dist_sym as nat));
                vstd::arithmetic::power2::lemma2_to64();
            }
            let distance = dist_base_exec(dist_sym) as usize + extra2 as usize;
            if distance > output.len() {
                return Err(io_error(IoKind::InvalidData, "distance exceeds output"));
            }
            let olen = output.len();
            let start = olen - distance;
            let ghost before = output@;
            assert(before.len() == olen);
            let mut i: usize = 0;
            while i < length
                invariant
                    i <= length,
                    start + distance == before.len(),
                    before.len() <= usize::MAX,
                    distance >= 1,
                    output@ == before + Seq::new(
                        i as nat,
                        |j: int| before[before.len() - distance + (j % (distance as int))],
                    ),
                decreases length - i,
            {
                assert(i % distance < distance);
                let byte = output[start + (i % distance)];
                output.push(byte);
                i += 1;
                assert(output@ =~= before + Seq::new(
                    i as nat,
                    |j: int| before[before.len() - distance + (j % (distance as int))],
                ));
            }
            assert(output@ =~= back_copy(before, distance as nat, length as nat));
        }
    }
}

/// Decodes a block compressed with the fixed codes.
pub fn inflate_fixed(reader: &mut BitReader, output: &mut Vec<u8>) -> (r: Result<(), ContainerError>)
    requires
        old(reader).wf(),
    ensures
        final(reader).wf(),
        final(reader).bytes() == old(reader).bytes(),
        match block_loop(
            fixed_lit_lengths(),
            fixed_dist_lengths(),
            old(reader).bytes(),
            old(reader).bitpos(),
            old(output)@,
        ) {
            Some((o, np)) => r is Ok && final(output)@ == o && final(reader).bitpos() == np,
            None => r is Err && r->Err_0 is Io,
        },
{
    let lit_tree = fixed_literal_tree();
    let dist_tree = fixed_distance_tree();
    inflate_block(reader, &lit_tree, &dist_tree, output)
}

/// Appends `n` copies of `val`.
fn push_repeat(v: &mut Vec<u8>, val: u8, n: usize)
    ensures
        final(v)@ == old(v)@ + Seq::new(n as nat, |j: int| val),
{
    let ghost acc = v@;
    let mut k: usize = 0;
    while k < n
        invariant
            k <= n,
            v@ == acc + Seq::new(k as nat, |j: int| val),
        decreases n - k,
    {
        v.push(val);
        k += 1;
        assert(v@ =~= acc + Seq::new(k as nat, |j: int| val));
    }
}

/// Decodes a block compressed with dynamic codes (code lengths come first).
pub fn inflate_dynamic(reader: &mut BitReader, output: &mut Vec<u8>) -> (r: Result<(), ContainerError>)
    requires
        old(reader).wf(),
    ensures
        final(reader).wf(),
        final(reader).bytes() == old(reader).bytes(),
        match dynamic_block(old(reader).bytes(), old(reader).bitpos(), old(output)@) {
            Some((o, np)) => r is Ok && final(output)@ == o && final(reader).bitpos() == np,
            None => r is Err && r->Err_0 is Io,
        },
{
    let ghost d = reader.bytes();
    let ghost bp0 = reader.bitpos();
    let ghost top = dynamic_block(d, bp0, output@);
    proof {
        reveal(dynamic_block);
        vstd::arithmetic::power2::lemma2_to64();
        lemma_read_bits_bound(d, bp0, 5);
        lemma_read_bits_bound(d, bp0 + 5, 5);
        lemma_read_bits_bound(d, bp0 + 10, 4);
    }
    let hlit = match reader.read_bits(5) {
        Ok(v) => v as usize + 257,
        Err(e) => return Err(e),
    };
    let hdist = match reader.read_bits(5) {
        Ok(v) => v as usize + 1,
        Err(e) => return Err(e),
    };
    let hclen = match reader.read_bits(4) {
        Ok(v) => v as usize + 4,
        Err(e) => return Err(e),
    };
    let ghost bp3 = reader.bitpos();
    let mut codelen_lengths: Vec<u8> = vec![0u8; 19];
    let ghost zeros = codelen_lengths@;
    assert(zeros =~= Seq::new(19, |j: int| 0u8));
    let ghost goal1 = read_codelen_lengths(d, bp3, hclen as nat, 0, zeros);
    assert(top == match goal1 {
        None => None,
        Some((cl, bp4)) => match read_lengths(cl, d, bp4, (hlit + hdist) as nat, seq![]) {
            None => None,
            Some((lens, bp5)) => block_loop(
                lens.take(hlit as int),
                lens.skip(hlit as int),
                d,
                bp5,
                output@,
            ),
        },
    });
    let mut i: usize = 0;
    while i < hclen
        invariant
            reader.wf(),
            reader.bytes() == d,
            hclen <= 19,
            i <= hclen,
            codelen_lengths@.len() == 19,
            d == old(reader).bytes(),
            bp0 == old(reader).bitpos(),
            output@ == old(output)@,
            pow2(3) == 8,
            goal1 is None ==> top is None,
            top == dynamic_block(old(reader).bytes(), old(reader).bitpos(), old(output)@),
            goal1 == read_codelen_lengths(
                d,
                reader.bitpos(),
                hclen as nat,
                i as nat,
                codelen_lengths@,
            ),
        decreases hclen - i,
    {
        let idx = codelen_order_exec(i);
        proof {
            lemma_read_bits_bound(d, reader.bitpos(), 3);
        }
        let v = match reader.read_bits(3) {
            Ok(v) => v as u8,
            Err(e) => return Err(e),
        };
        codelen_lengths.set(idx, v);
        i += 1;
    }
    let ghost cl = codelen_lengths@;
    assert(goal1 == Some((cl, reader.bitpos())));
    assert(top == match read_lengths(cl, d, reader.bitpos(), (hlit + hdist) as nat, seq![]) {
        None => None,
        Some((lens, bp5)) => block_loop(lens.take(hlit as int), lens.skip(hlit as int), d, bp5, output@),
    });
    let codelen_tree = HuffmanTree::from_lengths(&codelen_lengths);
    let total = hlit + hdist;
    let ghost goal2 = read_lengths(cl, d, reader.bitpos(), total as nat, seq![]);
    let mut lengths: Vec<u8> = Vec::new();
    proof {
        lemma_codelen_advances(d, bp3, hclen as nat, 0, zeros);
    }
    while lengths.len() < total
        invariant
            reader.wf(),
            reader.bytes() == d,
            codelen_tree.wf(),
            codelen_tree.lengths() == cl,
            total == hlit + hdist,
            hlit <= 288,
            hdist <= 32,
            lengths@.len() <= total + 138,
            reader.bitpos() <= d.len() * 8,
            d == old(reader).bytes(),
            output@ == old(output)@,
            pow2(2) == 4,
            pow2(3) == 8,
            pow2(7) == 128,
            goal2 is None ==> top is None,
            top == dynamic_block(old(reader).bytes(), old(reader).bitpos(), old(output)@),
            goal2 == read_lengths(cl, d, reader.bitpos(), total as nat, lengths@),
        decreases d.len() * 8 - reader.bitpos(),
    {
        let ghost bp = reader.bitpos();
        let ghost acc = lengths@;
        proof {
            lemma_decode_advances(cl, d, bp, 1, 0);
        }
        let sym = match codelen_tree.decode(reader) {
            Ok(s) => s,
            Err(e) => return Err(e),
        };
        proof {
            lemma_read_bits_bound(d, reader.bitpos(), 2);
            lemma_read_bits_bound(d, reader.bitpos(), 3);
            lemma_read_bits_bound(d, reader.bitpos(), 7);
        }
        if sym <= 15 {
            lengths.push(sym as u8);
        } else if sym == 16 {
            let repeat = match reader.read_bits(2) {
                Ok(v) => v as usize + 3,
                Err(e) => return Err(e),
            };
            let prev = if lengths.len() == 0 {
                0u8
            } else {
                lengths[lengths.len() - 1]
            };
            push_repeat(&mut lengths, prev, repeat);
        } else if sym == 17 {
            let repeat = match reader.read_bits(3) {
                Ok(v) => v as usize + 3,
                Err(e) => return Err(e),
            };
            push_repeat(&mut lengths, 0, repeat);
        } else if sym == 18 {
            let repeat = match reader.read_bits(7) {
                Ok(v) => v as usize + 11,
                Err(e) => return Err(e),
            };
            push_repeat(&mut lengths, 0, repeat);
        } else {
            return Err(io_error(IoKind::InvalidData, "invalid code length symbol"));
        }
    }
    assert(goal2 == Some((lengths@, reader.bitpos())));
    let lit_tree = HuffmanTree::from_lengths(&lengths.as_slice()[0..hlit]);
    let dist_tree = HuffmanTree::from_lengths(&lengths.as_slice()[hlit..lengths.len()]);
    assert(lengths@.subrange(0, hlit as int) =~= lengths@.take(hlit as int));
    assert(lengths@.subrange(hlit as int, lengths@.len() as int) =~= lengths@.skip(hlit as int));
    inflate_block(reader, &lit_tree, &dist_tree, output)
}

/// Decodes blocks until the final one.
pub fn inflate(reader: &mut BitReader) -> (r: Result<Vec<u8>, ContainerError>)
    requires
        old(reader).wf(),
    ensures
        final(reader).wf(),
        final(reader).bytes() == old(reader).bytes(),
        match inflate_blocks(old(reader).bytes(), old(reader).bitpos(), seq![]) {
            Some(o) => r is Ok && r->Ok_0@ == o,
            None => r is Err && r->Err_0 is Io,
        },
{
    let ghost d = reader.bytes();
    let ghost goal = inflate_blocks(d, reader.bitpos(), seq![]);
    let mut output: Vec<u8> = Vec::new();
    proof {
        vstd::arithmetic::power2::lemma2_to64();
    }
    loop
        invariant
            reader.wf(),
            reader.bytes() == d,
            d == old(reader).bytes(),
            goal == inflate_blocks(d, old(reader).bitpos(), seq![]),
            goal == inflate_blocks(d, reader.bitpos(), output@),
            reader.bitpos() <= d.len() * 8,
        decreases d.len() * 8 - reader.bitpos(),
    {
        let ghost bp = reader.bitpos();
        let ghost out = output@;
        proof {
            lemma_read_bits_bound(d, bp, 1);
            lemma_read_bits_bound(d, bp + 1, 2);
            vstd::arithmetic::power2::lemma2_to64();
        }
        let bfinal = match reader.read_bits(1) {
            Ok(v) => v,
            Err(e) => return Err(e),
        };
        let btype = match reader.read_bits(2) {
            Ok(v) => v,
            Err(e) => return Err(e),
        };
        proof {
            lemma_one_block_advances(btype as nat, d, reader.bitpos(), out);
        }
        let res = if btype == 0 {
            inflate_stored(reader, &mut output)
        } else if btype == 1 {
            inflate_fixed(reader, &mut output)
        } else if btype == 2 {
            inflate_dynamic(reader, &mut output)
        } else {
            Err(io_error(IoKind::InvalidData, "invalid block type 3"))
        };
        match res {
            Ok(()) => {},
            Err(e) => return Err(e),
        }
        if bfinal == 1 {
            return Ok(output);
        }
    }
}

// ─── gzip container ────────────────────────────────────────────────────────

/// Position after a zero-terminated field starting at `pos` (one past the
/// end of the data when there is no terminator).
pub open spec fn skip_zero_terminated(data: Seq<u8>, pos: int) -> int
    decreases data.len() - pos,
{
    if 0 <= pos < data.len() && data[pos] != 0 {
        skip_zero_terminated(data, pos + 1)
    } else {
        pos + 1
    }
}

/// Where the DEFLATE stream of a gzip member starts, if the header is valid.
pub open spec fn gzip_payload_start(data: Seq<u8>) -> Option<int> {
    if data.len() < 10 || data[0] != 0x1f || data[1] != 0x8b || data[2] != 8 {
        None
    } else {
        let flags = data[3];
        if flags & 4 != 0 && 12 > data.len() {
            None
        } else {
            let p1: int = if flags & 4 != 0 {
                12 + data[10] as int + data[11] as int * 256
            } else {
                10
            };
            let p2 = if flags & 8 != 0 {
                skip_zero_terminated(data, p1)
            } else {
                p1
            };
            let p3 = if flags & 16 != 0 {
                skip_zero_terminated(data, p2)
            } else {
                p2
            };
            let p4 = if flags & 2 != 0 {
                p3 + 2
            } else {
                p3
            };
            if p4 >= data.len() {
                None
            } else {
                Some(p4)
            }
        }
    }
}

/// Whether the trailer (the last eight bytes) records the CRC-32 and the
/// size (modulo 2^32) of `out`.
pub open spec fn trailer_matches(data: Seq<u8>, out: Seq<u8>) -> bool {
    &&& data.len() >= 8
    &&& le32_at(data, data.len() - 8) == spec_crc32(out)
    &&& le32_at(data, data.len() - 4) == out.len() as u32
}

/// The data a gzip member decompresses to, if it is well formed and its
/// trailer's CRC-32 and size match what it decompresses to.
pub open spec fn spec_decompress(data: Seq<u8>) -> Option<Seq<u8>> {
    match gzip_payload_start(data) {
        None => None,
        Some(p) => match spec_inflate(data.skip(p)) {
            Some(out) => if trailer_matches(data, out) {
                Some(out)
            } else {
                None
            },
            None => None,
        },
    }
}

pub proof fn lemma_skip_zero_terminated(data: Seq<u8>, pos: int)
    ensures
        skip_zero_terminated(data, pos) > pos,
        pos >= data.len() ==> skip_zero_terminated(data, pos) == pos + 1,
    decreases data.len() - pos,
{
    if 0 <= pos < data.len() && data[pos] != 0 {
        lemma_skip_zero_terminated(data, pos + 1);
    }
}

fn skip_zero_terminated_exec(data: &[u8], pos: usize) -> (r: usize)
    requires
        pos <= data@.len(),
    ensures
        r as int + 1 == skip_zero_terminated(data@, pos as int),
        r <= data@.len(),
{
    let mut p = pos;
    while p < data.len() && data[p] != 0
        invariant
            pos <= p <= data@.len(),
            skip_zero_terminated(data@, pos as int) == skip_zero_terminated(data@, p as int),
        decreases data.len() - p,
    {
        p += 1;
    }
    p
}

/// Parses the gzip header and returns where the DEFLATE stream starts.
#[verifier::spinoff_prover]
fn payload_start(data: &[u8]) -> (r: Result<usize, ContainerError>)
    ensures
        match gzip_payload_start(data@) {
            Some(p) => r == Ok::<usize, ContainerError>(p as usize) && 0 <= p < data@.len(),
            None => r is Err && r->Err_0 is Io,
        },
{
    let n = data.len();
    if n < 10 {
        return Err(io_error(IoKind::InvalidData, "gzip data too short"));
    }
    if data[0] != 0x1f || data[1] != 0x8b {
        return Err(io_error(IoKind::InvalidData, "not gzip format"));
    }
    if data[2] != 8 {
        return Err(io_error(IoKind::InvalidData, "unsupported compression method"));
    }
    let flags = data[3];
    let mut pos: usize = 10;
    if flags & 0x04 != 0 {
        if 12 > n {
            return Err(io_error(IoKind::UnexpectedEof, "truncated extra field"));
        }
        let xlen = data[10] as usize + (data[11] as usize) * 256;
        if xlen > n - 12 {
            proof {
                let p1 = 12 + data@[10] as int + data@[11] as int * 256;
                lemma_skip_zero_terminated(data@, p1);
                lemma_skip_zero_terminated(data@, skip_zero_terminated(data@, p1));
                lemma_skip_zero_terminated(data@, p1 + 1);
            }
            return Err(io_error(IoKind::UnexpectedEof, "truncated gzip data"));
        }
        pos = 12 + xlen;
    }
    let ghost p1 = pos as int;
    if flags & 0x08 != 0 {
        let z = skip_zero_terminated_exec(data, pos);
        if z >= n {
            proof {
                lemma_skip_zero_terminated(data@, z + 1);
            }
            return Err(io_error(IoKind::UnexpectedEof, "truncated gzip data"));
        }
        pos = z + 1;
    }
    if flags & 0x10 != 0 {
        let z = skip_zero_terminated_exec(data, pos);
        if z >= n {
            return Err(io_error(IoKind::UnexpectedEof, "truncated gzip data"));
        }
        pos = z + 1;
    }
    if flags & 0x02 != 0 {
        if pos >= n - 1 {
            return Err(io_error(IoKind::UnexpectedEof, "truncated gzip data"));
        }
        pos += 2;
    }
    if pos >= n {
        return Err(io_error(IoKind::UnexpectedEof, "truncated gzip data"));
    }
    Ok(pos)
}

/// Decompresses a gzip member (RFC 1952 around RFC 1951) and checks the
/// CRC-32 and size in its trailer.
pub fn decompress(data: &[u8]) -> (r: Result<Vec<u8>, ContainerError>)
    ensures
        match spec_decompress(data@) {
            Some(o) => r is Ok && r->Ok_0@ == o,
            None => r is Err && r->Err_0 is Io,
        },
{
    let pos = match payload_start(data) {
        Ok(p) => p,
        Err(e) => return Err(e),
    };
    let payload = &data[pos..data.len()];
    assert(payload@ =~= data@.skip(pos as int));
    let mut reader = BitReader::new(payload);
    let out = match inflate(&mut reader) {
        Ok(o) => o,
        Err(e) => return Err(e),
    };
    match gzip_trailer(data) {
        Some((crc, size)) => {
            if crc != crc32(&out) {
                return Err(io_error(IoKind::InvalidData, "gzip CRC-32 mismatch"));
            }
            if size != out.len() as u32 {
                return Err(io_error(IoKind::InvalidData, "gzip size mismatch"));
            }
            Ok(out)
        },
        None => Err(io_error(IoKind::UnexpectedEof, "truncated gzip data")),
    }
}

/// A little-endian 32-bit value at byte `i`.
pub open spec fn le32_at(d: Seq<u8>, i: int) -> u32 {
    (d[i] as nat + d[i + 1] as nat * 0x100 + d[i + 2] as nat * 0x10000 + d[i + 3] as nat
        * 0x1000000) as u32
}

/// The CRC-32 and size recorded in a gzip trailer (its last eight bytes).
pub fn gzip_trailer(data: &[u8]) -> (r: Option<(u32, u32)>)
    ensures
        data@.len() >= 8 ==> r == Some((le32_at(data@, data@.len() - 8), le32_at(data@, data@.len() - 4))),
        data@.len() < 8 ==> r is None,
{
    let n = data.len();
    if n < 8 {
        return None;
    }
    let t = n - 8;
    let crc = (data[t] as u32) + (data[t + 1] as u32) * 0x100 + (data[t + 2] as u32) * 0x10000
        + (data[t + 3] as u32) * 0x1000000;
    let size = (data[t + 4] as u32) + (data[t + 5] as u32) * 0x100 + (data[t + 6] as u32) * 0x10000
        + (data[t + 7] as u32) * 0x1000000;
    Some((crc, size))
}

// ─── gzip writer (stored blocks) ───────────────────────────────────────────

/// The fixed gzip header written by `compress_simple`.
pub open spec fn gzip_header() -> Seq<u8> {
    seq![0x1fu8, 0x8b, 0x08, 0x00, 0x00, 0x00, 0x00, 0x00, 0x00, 0xff]
}

/// A stored-block header: the BFINAL/BTYPE byte, then LEN and NLEN.
pub open spec fn stored_header(last: bool, len: nat) -> Seq<u8> {
    seq![
        if last { 1u8 } else { 0u8 },
        (len % 256) as u8,
        (len / 256) as u8,
        ((65535 - len) % 256) as u8,
        ((65535 - len) / 256) as u8,
    ]
}

/// Stored blocks of at most 65535 bytes carrying `d[pos..]`.
pub open spec fn blocks_from(d: Seq<u8>, pos: nat) -> Seq<u8>
    decreases d.len() - pos,
{
    if pos >= d.len() {
        seq![]
    } else if d.len() - pos <= 65535 {
        stored_header(true, (d.len() - pos) as nat) + d.subrange(pos as int, d.len() as int)
    } else {
        stored_header(false, 65535) + d.subrange(pos as int, (pos + 65535) as int) + blocks_from(
            d,
            pos + 65535,
        )
    }
}

/// The DEFLATE stream `compress_simple` writes: stored blocks, or one empty
/// final block for empty input.
pub open spec fn stored_blocks(d: Seq<u8>) -> Seq<u8> {
    if d.len() == 0 {
        stored_header(true, 0)
    } else {
        blocks_from(d, 0)
    }
}

/// Little-endian bytes of a 32-bit value.
pub open spec fn le32_bytes(v: u32) -> Seq<u8> {
    seq![
        (v % 0x100) as u8,
        ((v / 0x100) % 0x100) as u8,
        ((v / 0x10000) % 0x100) as u8,
        (v / 0x1000000) as u8,
    ]
}

/// The gzip member `compress_simple` writes for `d`.
pub open spec fn spec_compress(d: Seq<u8>) -> Seq<u8> {
    gzip_header() + stored_blocks(d) + le32_bytes(spec_crc32(d)) + le32_bytes(d.len() as u32)
}

fn push_le32(out: &mut Vec<u8>, v: u32)
    ensures
        final(out)@ == old(out)@ + le32_bytes(v),
{
    out.push((v % 0x100) as u8);
    out.push(((v / 0x100) % 0x100) as u8);
    out.push(((v / 0x10000) % 0x100) as u8);
    out.push((v / 0x1000000) as u8);
    assert(final(out)@ =~= old(out)@ + le32_bytes(v));
}

fn push_stored_header(out: &mut Vec<u8>, last: bool, len: usize)
    requires
        len <= 65535,
    ensures
        final(out)@ == old(out)@ + stored_header(last, len as nat),
{
    out.push(if last {
        1u8
    } else {
        0u8
    });
    out.push((len % 256) as u8);
    out.push((len / 256) as u8);
    out.push(((65535 - len) % 256) as u8);
    out.push(((65535 - len) / 256) as u8);
    assert(final(out)@ =~= old(out)@ + stored_header(last, len as nat));
}

/// Wraps `data` in a gzip member made of stored (uncompressed) DEFLATE blocks.
pub fn compress_simple(data: &[u8]) -> (out: Vec<u8>)
    ensures
        out@ == spec_compress(data@),
{
    let mut output: Vec<u8> = Vec::new();
    output.push(0x1f);
    output.push(0x8b);
    output.push(0x08);
    output.push(0x00);
    output.push(0x00);
    output.push(0x00);
    output.push(0x00);
    output.push(0x00);
    output.push(0x00);
    output.push(0xff);
    assert(output@ =~= gzip_header());
    let n = data.len();
    let mut pos: usize = 0;
    while pos < n
        invariant
            n == data@.len(),
            pos <= n,
            pos < n ==> output@ + blocks_from(data@, pos as nat) == gzip_header() + blocks_from(
                data@,
                0,
            ),
            pos == n ==> output@ == gzip_header() + blocks_from(data@, 0),
        decreases n - pos,
    {
        let remaining = n - pos;
        let block_size = if remaining < 65535 {
            remaining
        } else {
            65535
        };
        let is_last = block_size == remaining;
        let ghost before = output@;
        push_stored_header(&mut output, is_last, block_size);
        extend_bytes(&mut output, &data[pos..pos + block_size]);
        assert(blocks_from(data@, pos as nat) == stored_header(is_last, block_size as nat)
            + data@.subrange(pos as int, pos + block_size) + blocks_from(data@, (pos + block_size) as nat));
        pos += block_size;
        assert(output@ + blocks_from(data@, pos as nat) =~= before + blocks_from(data@, (pos - block_size) as nat));
    }
    if n == 0 {
        push_stored_header(&mut output, true, 0);
    }
    assert(output@ =~= gzip_header() + stored_blocks(data@));
    let crc = crc32(data);
    push_le32(&mut output, crc);
    push_le32(&mut output, n as u32);
    output
}

// ─── Round trip ────────────────────────────────────────────────────────────

proof fn lemma_stored_header_bits(e: Seq<u8>, k: nat)
    requires
        k < e.len(),
        e[k as int] == 0 || e[k as int] == 1,
    ensures
        read_bits(e, 8 * k, 1) == Some((e[k as int] as nat, 8 * k + 1)),
        read_bits(e, 8 * k + 1, 2) == Some((0nat, 8 * k + 3)),
{
    let x = e[k as int];
    assert((x == 0u8 || x == 1u8) ==> ((x >> 0u8) & 1u8) == x && ((x >> 1u8) & 1u8) == 0u8 && ((x
        >> 2u8) & 1u8) == 0u8) by (bit_vector);
    assert((8 * k) / 8 == k && (8 * k) % 8 == 0);
    assert((8 * k + 1) / 8 == k && (8 * k + 1) % 8 == 1);
    assert((8 * k + 2) / 8 == k && (8 * k + 2) % 8 == 2);
    vstd::arithmetic::power2::lemma2_to64();
    reveal_with_fuel(bits_lsb, 3);
    assert(bit_at(e, 8 * k) == x);
    assert(bit_at(e, 8 * k + 1) == 0);
    assert(bit_at(e, 8 * k + 2) == 0);
    assert(bits_lsb(e, 8 * k, 0) == 0);
    assert(bits_lsb(e, 8 * k, 1) == bits_lsb(e, 8 * k, 0) + (bit_at(e, 8 * k) as nat) * pow2(0));
    assert(bits_lsb(e, 8 * k, 1) == x as nat);
    assert(bits_lsb(e, 8 * k + 1, 0) == 0);
    assert(bits_lsb(e, 8 * k + 1, 1) == bits_lsb(e, 8 * k + 1, 0) + (bit_at(e, 8 * k + 1) as nat) * pow2(0));
    assert(bits_lsb(e, 8 * k + 1, 2) == bits_lsb(e, 8 * k + 1, 1) + (bit_at(e, 8 * k + 2) as nat) * pow2(1));
    assert(bits_lsb(e, 8 * k + 1, 2) == 0);
}

#[verifier::spinoff_prover]
proof fn lemma_stored_block_at(e: Seq<u8>, k: nat, out: Seq<u8>, last: bool, len: nat, payload: Seq<u8>)
    requires
        len <= 65535,
        payload.len() == len,
        k + 5 + len <= e.len(),
        e.subrange(k as int, (k + 5 + len) as int) == stored_header(last, len) + payload,
    ensures
        read_bits(e, 8 * k, 1) == Some(((if last { 1nat } else { 0nat }), 8 * k + 1)),
        read_bits(e, 8 * k + 1, 2) == Some((0nat, 8 * k + 3)),
        stored_block(e, 8 * k + 3, out) == Some((out + payload, (k + 5 + len) * 8)),
{
    let h = stored_header(last, len) + payload;
    assert(e[k as int] == h[0]);
    assert(e[(k + 1) as int] == h[1]);
    assert(e[(k + 2) as int] == h[2]);
    lemma_stored_header_bits(e, k);
    assert(align(8 * k + 3) == 8 * k + 8);
    assert((8 * k + 8) / 8 == k + 1);
    assert(((len % 256) as u8) as nat == len % 256);
    assert(((len / 256) as u8) as nat == len / 256);
    assert(e[(k + 1) as int] as nat + e[(k + 2) as int] as nat * 256 == len);
    assert(e.subrange((k + 5) as int, (k + 5 + len) as int) =~= payload) by {
        assert forall|i: int| 0 <= i < len implies e.subrange((k + 5) as int, (k + 5 + len) as int)[i]
            == payload[i] by {
            assert(e[k + 5 + i] == h[5 + i]);
        }
    }
}

#[verifier::spinoff_prover]
#[verifier::rlimit(40)]
proof fn lemma_blocks_inflate(d: Seq<u8>, pos: nat, e: Seq<u8>, k: nat, out: Seq<u8>)
    requires
        pos < d.len(),
        k + blocks_from(d, pos).len() <= e.len(),
        e.subrange(k as int, (k + blocks_from(d, pos).len()) as int) == blocks_from(d, pos),
    ensures
        inflate_blocks(e, 8 * k, out) == Some(out + d.subrange(pos as int, d.len() as int)),
    decreases d.len() - pos,
{
    let b = blocks_from(d, pos);
    if d.len() - pos <= 65535 {
        let len = (d.len() - pos) as nat;
        let payload = d.subrange(pos as int, d.len() as int);
        assert(e.subrange(k as int, (k + 5 + len) as int) =~= stored_header(true, len) + payload);
        lemma_stored_block_at(e, k, out, true, len, payload);
    } else {
        let len = 65535nat;
        let payload = d.subrange(pos as int, (pos + 65535) as int);
        let rest = blocks_from(d, pos + 65535);
        assert(b == stored_header(false, 65535) + payload + rest);
        assert(e.subrange(k as int, (k + 5 + len) as int) =~= stored_header(false, len) + payload) by {
            assert forall|i: int| 0 <= i < 5 + len implies e.subrange(k as int, (k + 5 + len) as int)[i]
                == (stored_header(false, len) + payload)[i] by {
                assert(e.subrange(k as int, (k + b.len()) as int)[i] == b[i]);
            }
        }
        lemma_stored_block_at(e, k, out, false, len, payload);
        let k2 = k + 5 + len;
        assert(e.subrange(k2 as int, (k2 + rest.len()) as int) =~= rest) by {
            assert forall|i: int| 0 <= i < rest.len() implies e.subrange(k2 as int, (k2 + rest.len()) as int)[i]
                == rest[i] by {
                assert(e.subrange(k as int, (k + b.len()) as int)[5 + len + i] == b[5 + len + i]);
            }
        }
        lemma_blocks_inflate(d, pos + 65535, e, k2, out + payload);
        assert(out + payload + d.subrange((pos + 65535) as int, d.len() as int) =~= out + d.subrange(
            pos as int,
            d.len() as int,
        ));
        assert(8 * k2 == (k + 5 + len) * 8);
    }
}

proof fn lemma_payload_start(c: Seq<u8>)
    requires
        c.len() > 10,
        c[0] == 0x1f,
        c[1] == 0x8b,
        c[2] == 8,
        c[3] == 0,
    ensures
        gzip_payload_start(c) == Some(10int),
{
    assert(0u8 & 4u8 == 0u8 && 0u8 & 8u8 == 0u8 && 0u8 & 16u8 == 0u8 && 0u8 & 2u8 == 0u8) by (bit_vector);
}

/// A 32-bit value read back from its little-endian bytes.
proof fn lemma_le32(v: u32)
    ensures
        le32_at(le32_bytes(v), 0) == v,
{
    let b = le32_bytes(v);
    assert(b[0] as nat + b[1] as nat * 0x100 + b[2] as nat * 0x10000 + b[3] as nat * 0x1000000 == v) by (nonlinear_arith)
        requires
            b[0] == (v % 0x100) as u8,
            b[1] == ((v / 0x100) % 0x100) as u8,
            b[2] == ((v / 0x10000) % 0x100) as u8,
            b[3] == (v / 0x1000000) as u8,
    ;
}

/// Decompressing what `compress_simple` writes gives back the original bytes.
#[verifier::spinoff_prover]
#[verifier::rlimit(60)]
pub proof fn lemma_gzip_roundtrip(d: Seq<u8>)
    ensures
        spec_decompress(spec_compress(d)) == Some(d),
{
    let c = spec_compress(d);
    let blocks = stored_blocks(d);
    let tail = le32_bytes(spec_crc32(d)) + le32_bytes(d.len() as u32);
    assert(c == gzip_header() + (blocks + tail)) by {
        assert(c =~= gzip_header() + (blocks + tail));
    }
    assert(blocks.len() >= 5) by {
        if d.len() > 0 {
            reveal_with_fuel(blocks_from, 1);
        }
    }
    assert(c[0] == 0x1f && c[1] == 0x8b && c[2] == 8 && c[3] == 0);
    lemma_payload_start(c);
    let e = c.skip(10);
    assert(e =~= blocks + tail);
    assert(e.subrange(0, blocks.len() as int) =~= blocks);
    lemma_le32(spec_crc32(d));
    lemma_le32(d.len() as u32);
    assert(c.len() >= 8);
    assert(c.subrange(c.len() - 8, c.len() as int) =~= tail);
    assert(c[c.len() - 8] == tail[0] && c[c.len() - 7] == tail[1] && c[c.len() - 6] == tail[2] && c[c.len() - 5] == tail[3]);
    assert(c[c.len() - 4] == tail[4] && c[c.len() - 3] == tail[5] && c[c.len() - 2] == tail[6] && c[c.len() - 1] == tail[7]);
    assert(trailer_matches(c, d));
    if d.len() == 0 {
        assert(e.subrange(0, 5) =~= stored_header(true, 0) + Seq::<u8>::empty());
        lemma_stored_block_at(e, 0, seq![], true, 0, seq![]);
        assert(d =~= Seq::<u8>::empty());
        assert(Seq::<u8>::empty() + Seq::<u8>::empty() =~= d);
        assert(inflate_blocks(e, 0, seq![]) == Some(d));
    } else {
        lemma_blocks_inflate(d, 0, e, 0, seq![]);
        assert(Seq::<u8>::empty() + d.subrange(0, d.len() as int) =~= d);
    }
}

} // verus!

//! Small encodings used when setting up Linux devices and networking:
//! device numbers, netlink attribute alignment and IPv4 addresses.
use vstd::prelude::*;
use crate::error::ContainerError;
use crate::text::{chars_of, parse_uint_exec, parse_uint_max, ranges_view, split_char, split_ranges, concat_str, prefixed_range,
};

verus! {

/// The device number of `(major, minor)`, in glibc's encoding.
pub open spec fn dev_number(major: u32, minor: u32) -> u64 {
    let ma = major as u64;
    let mi = minor as u64;
    ((ma & 0xfffff000u64) << 32u64) | ((ma & 0x00000fffu64) << 8u64) | ((mi & 0xffffff00u64) << 12u64) | (
    mi & 0x000000ffu64)
}

/// The major number of a device number.
pub open spec fn dev_major(dev: u64) -> u64 {
    ((dev >> 32u64) & 0xfffff000u64) | ((dev >> 8u64) & 0x00000fffu64)
}

/// The minor number of a device number.
pub open spec fn dev_minor(dev: u64) -> u64 {
    ((dev >> 12u64) & 0xffffff00u64) | (dev & 0x000000ffu64)
}

/// Combines a major and a minor number into a device number.
pub fn makedev(major: u32, minor: u32) -> (d: u64)
    ensures
        d == dev_number(major, minor),
{
    let major = major as u64;
    let minor = minor as u64;
    ((major & 0xfffff000) << 32) | ((major & 0x00000fff) << 8) | ((minor & 0xffffff00) << 12) | (minor
        & 0x000000ff)
}

/// A device number gives back the major and minor numbers it was made from.
pub proof fn lemma_makedev_roundtrip(major: u32, minor: u32)
    ensures
        dev_major(dev_number(major, minor)) == major as u64,
        dev_minor(dev_number(major, minor)) == minor as u64,
{
    let ma = major as u64;
    let mi = minor as u64;
    assert(ma <= 0xffffffffu64 && mi <= 0xffffffffu64);
    assert(((((ma & 0xfffff000u64) << 32u64) | ((ma & 0x00000fffu64) << 8u64) | ((mi & 0xffffff00u64)
        << 12u64) | (mi & 0x000000ffu64)) >> 32u64 & 0xfffff000u64) | (((((ma & 0xfffff000u64) << 32u64)
        | ((ma & 0x00000fffu64) << 8u64) | ((mi & 0xffffff00u64) << 12u64) | (mi & 0x000000ffu64))
        >> 8u64) & 0x00000fffu64) == ma) by (bit_vector)
        requires
            ma <= 0xffffffffu64,
            mi <= 0xffffffffu64,
    ;
    assert(((((((ma & 0xfffff000u64) << 32u64) | ((ma & 0x00000fffu64) << 8u64) | ((mi & 0xffffff00u64)
        << 12u64) | (mi & 0x000000ffu64)) >> 12u64) & 0xffffff00u64) | ((((ma & 0xfffff000u64) << 32u64)
        | ((ma & 0x00000fffu64) << 8u64) | ((mi & 0xffffff00u64) << 12u64) | (mi & 0x000000ffu64))
        & 0x000000ffu64)) == mi) by (bit_vector)
        requires
            ma <= 0xffffffffu64,
            mi <= 0xffffffffu64,
    ;
}

/// Rounds a netlink attribute length up to a multiple of 4.
pub fn rta_align(len: usize) -> (r: usize)
    requires
        len <= usize::MAX - 3,
    ensures
        r == ((len + 3) as usize) & !3usize,
        r % 4 == 0,
        len <= r < len + 4,
{
    let l3: usize = len + 3;
    let r = l3 & !3;
    assert((l3 & !3usize) % 4 == 0 && (l3 & !3usize) <= l3 && l3 < (l3 & !3usize) + 4) by (bit_vector)
        requires
            l3 >= 3,
    ;
    r
}

/// The four octets of a dotted IPv4 address: exactly four `.`-separated
/// pieces, each a `u8`.
pub open spec fn ipv4_of(ip: Seq<char>) -> Option<Seq<u8>> {
    let p = split_char(ip, '.');
    if p.len() != 4 {
        None
    } else {
        match (
            parse_uint_max(p[0], 255),
            parse_uint_max(p[1], 255),
            parse_uint_max(p[2], 255),
            parse_uint_max(p[3], 255),
        ) {
            (Some(a), Some(b), Some(c), Some(d)) => Some(seq![a as u8, b as u8, c as u8, d as u8]),
            _ => None,
        }
    }
}

/// Parses a dotted IPv4 address.
pub fn parse_ipv4(ip: &str) -> (r: Result<[u8; 4], ContainerError>)
    ensures
        match ipv4_of(ip@) {
            Some(o) => r is Ok && r->Ok_0@ == o,
            None => r is Err && r->Err_0 is Network,
        },
{
    let c = chars_of(ip);
    let parts = split_ranges(&c, 0, c.len(), '.');
    assert(c@.subrange(0, c.len() as int) =~= ip@);
    let ghost p = ranges_view(c@, parts@);
    if parts.len() != 4 {
        return Err(ContainerError::Network(concat_str("bad ip: ", ip)));
    }
    let mut b: [u8; 4] = [0u8; 4];
    let mut i: usize = 0;
    while i < 4
        invariant
            i <= 4,
            parts@.len() == 4,
            p == ranges_view(c@, parts@),
            p == split_char(ip@, '.'),
            forall|k: int| 0 <= k < parts@.len() ==> 0 <= (#[trigger] parts@[k]).0 <= parts@[k].1 <= c@.len(),
            forall|k: int| 0 <= k < i ==> parse_uint_max(p[k], 255) == Some(#[trigger] b@[k] as nat),
        decreases 4 - i,
    {
        let (lo, hi) = parts[i];
        assert(p[i as int] == c@.subrange(lo as int, hi as int));
        match parse_uint_exec(&c, lo, hi, 255) {
            Some(v) => {
                b[i] = v as u8;
            },
            None => {
                return Err(ContainerError::Network(prefixed_range("bad octet: ", &c, lo, hi)));
            },
        }
        i += 1;
    }
    assert(b@ =~= seq![b@[0], b@[1], b@[2], b@[3]]);
    Ok(b)
}

} // verus!

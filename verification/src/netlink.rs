//! The rtnetlink messages that set up container networking (a bridge, a
//! veth pair, an address, link state, bridge membership, namespace moves),
//! the reading of the kernel's acknowledgement, and interface requests.
//!
//! Netlink speaks the host's byte order; the messages here are laid out
//! little-endian, the order of the x86_64 hosts this runtime targets.
use vstd::prelude::*;
use vstd::string::StringSliceAdditionalSpecFns;
use vstd::utf8::{decode_utf8, encode_utf8, is_char_boundary};
use crate::error::ContainerError;
use crate::text::{decimal, extend_chars, push_decimal, string_of};
use crate::virtio::le_bytes;

verus! {

pub const RTM_NEWLINK: u16 = 16;
pub const RTM_SETLINK: u16 = 19;
pub const RTM_NEWADDR: u16 = 20;
pub const NLM_F_REQUEST: u16 = 1;
pub const NLM_F_CREATE: u16 = 0x400;
pub const NLM_F_EXCL: u16 = 0x200;
pub const NLM_F_ACK: u16 = 4;
pub const IFF_UP: u32 = 1;
pub const IFLA_IFNAME: u16 = 3;
pub const IFLA_MASTER: u16 = 10;
pub const IFLA_LINKINFO: u16 = 18;
pub const IFLA_INFO_KIND: u16 = 1;
pub const IFLA_INFO_DATA: u16 = 2;
pub const IFLA_NET_NS_PID: u16 = 19;
pub const IFA_ADDRESS: u16 = 1;
pub const IFA_LOCAL: u16 = 2;
pub const AF_INET: u8 = 2;
pub const NLMSG_ERROR: u16 = 2;

/// `n` rounded up to a multiple of 4.
pub open spec fn align4(n: nat) -> nat {
    ((n + 3) / 4 * 4) as nat
}

/// `n` zero bytes.
pub open spec fn zeros(n: nat) -> Seq<u8> {
    Seq::new(n, |i: int| 0u8)
}

/// A route attribute: its length (header and payload), its type, the
/// payload, and zero padding to a multiple of 4.
pub open spec fn attr(ty: u16, payload: Seq<u8>) -> Seq<u8> {
    le_bytes((4 + payload.len()) as nat, 2) + le_bytes(ty as nat, 2) + payload + zeros(
        (align4((4 + payload.len()) as nat) - 4 - payload.len()) as nat,
    )
}

/// A netlink message: the 16-byte header (length, type, flags, sequence,
/// port 0) and the body.
pub open spec fn nl_msg(ty: u16, flags: u16, seq: u32, body: Seq<u8>) -> Seq<u8> {
    le_bytes((16 + body.len()) as nat, 4) + le_bytes(ty as nat, 2) + le_bytes(flags as nat, 2) + le_bytes(
        seq as nat,
        4,
    ) + le_bytes(0, 4) + body
}

/// An interface-information record for interface `index`.
pub open spec fn ifinfo(index: i32, flags: u32, change: u32) -> Seq<u8> {
    seq![0u8, 0u8] + le_bytes(0, 2) + le_bytes((index as u32) as nat, 4) + le_bytes(flags as nat, 4)
        + le_bytes(change as nat, 4)
}

/// A name as a NUL-terminated byte string.
pub open spec fn cstr(name: Seq<char>) -> Seq<u8> {
    encode_utf8(name).push(0u8)
}

/// Creates a bridge named `name`.
pub open spec fn bridge_message(name: Seq<char>) -> Seq<u8> {
    nl_msg(
        RTM_NEWLINK,
        0x605,
        1,
        ifinfo(0, 0, 0) + attr(IFLA_IFNAME, cstr(name)) + attr(
            IFLA_LINKINFO,
            attr(IFLA_INFO_KIND, seq![98u8, 114u8, 105u8, 100u8, 103u8, 101u8, 0u8]),
        ),
    )
}

/// Creates a veth pair `n1`/`n2`.
pub open spec fn veth_message(n1: Seq<char>, n2: Seq<char>) -> Seq<u8> {
    nl_msg(
        RTM_NEWLINK,
        0x605,
        2,
        ifinfo(0, 0, 0) + attr(IFLA_IFNAME, cstr(n1)) + attr(
            IFLA_LINKINFO,
            attr(IFLA_INFO_KIND, seq![118u8, 101u8, 116u8, 104u8, 0u8]) + attr(
                IFLA_INFO_DATA,
                ifinfo(0, 0, 0) + attr(IFLA_IFNAME, cstr(n2)),
            ),
        ),
    )
}

/// Gives interface `index` the IPv4 address `ip` with prefix length `prefix`.
pub open spec fn addr_message(index: i32, ip: Seq<u8>, prefix: u8) -> Seq<u8> {
    nl_msg(
        RTM_NEWADDR,
        0x605,
        3,
        seq![AF_INET, prefix, 0u8, 0u8] + le_bytes((index as u32) as nat, 4) + attr(IFA_ADDRESS, ip) + attr(
            IFA_LOCAL,
            ip,
        ),
    )
}

/// Brings interface `index` up.
pub open spec fn link_up_message(index: i32) -> Seq<u8> {
    nl_msg(RTM_SETLINK, 5, 4, ifinfo(index, IFF_UP, IFF_UP))
}

/// Attaches interface `index` to the bridge `bridge_index`.
pub open spec fn master_message(index: i32, bridge_index: i32) -> Seq<u8> {
    nl_msg(RTM_SETLINK, 5, 5, ifinfo(index, 0, 0) + attr(IFLA_MASTER, le_bytes((bridge_index as u32) as nat, 4)))
}

/// Moves interface `index` into the network namespace of process `pid`.
pub open spec fn netns_message(index: i32, pid: u32) -> Seq<u8> {
    nl_msg(RTM_SETLINK, 5, 6, ifinfo(index, 0, 0) + attr(IFLA_NET_NS_PID, le_bytes(pid as nat, 4)))
}

/// Appends `n` as `k` little-endian bytes.
fn push_le(v: &mut Vec<u8>, n: u64, k: usize)
    requires
        k <= 8,
    ensures
        final(v)@ == old(v)@ + le_bytes(n as nat, k as nat),
        final(v)@.len() == old(v)@.len() + k,
    decreases k,
{
    if k > 0 {
        v.push((n % 256) as u8);
        let ghost mid = v@;
        push_le(v, n / 256, k - 1);
        assert(final(v)@ =~= old(v)@ + le_bytes(n as nat, k as nat));
    } else {
        assert(final(v)@ =~= old(v)@ + le_bytes(n as nat, k as nat));
    }
}

fn push_bytes(v: &mut Vec<u8>, b: &[u8])
    ensures
        final(v)@ == old(v)@ + b@,
        final(v)@.len() == old(v)@.len() + b@.len(),
{
    let ghost v0 = v@;
    let mut i: usize = 0;
    while i < b.len()
        invariant
            i <= b@.len(),
            v@ == v0 + b@.take(i as int),
        decreases b@.len() - i,
    {
        v.push(b[i]);
        i += 1;
        assert(v@ =~= v0 + b@.take(i as int));
    }
    assert(b@.take(b@.len() as int) =~= b@);
}

fn push_zeros(v: &mut Vec<u8>, n: usize)
    ensures
        final(v)@ == old(v)@ + zeros(n as nat),
{
    let ghost v0 = v@;
    let mut i: usize = 0;
    while i < n
        invariant
            i <= n,
            v@ == v0 + zeros(i as nat),
        decreases n - i,
    {
        v.push(0);
        i += 1;
        assert(v@ =~= v0 + zeros(i as nat));
    }
}

/// Appends a route attribute.
fn push_attr(v: &mut Vec<u8>, ty: u16, payload: &[u8])
    requires
        payload@.len() + 4 <= u16::MAX,
    ensures
        final(v)@ == old(v)@ + attr(ty, payload@),
        final(v)@.len() == old(v)@.len() + align4((4 + payload@.len()) as nat),
{
    let len = payload.len() + 4;
    push_le(v, len as u64, 2);
    push_le(v, ty as u64, 2);
    push_bytes(v, payload);
    let padded = (len + 3) / 4 * 4;
    push_zeros(v, padded - len);
    assert(final(v)@ =~= old(v)@ + attr(ty, payload@));
}

/// Appends an interface-information record.
fn push_ifinfo(v: &mut Vec<u8>, index: i32, flags: u32, change: u32)
    ensures
        final(v)@ == old(v)@ + ifinfo(index, flags, change),
        final(v)@.len() == old(v)@.len() + 16,
{
    v.push(0);
    v.push(0);
    push_le(v, 0, 2);
    push_le(v, (index as u32) as u64, 4);
    push_le(v, flags as u64, 4);
    push_le(v, change as u64, 4);
    assert(final(v)@ =~= old(v)@ + ifinfo(index, flags, change));
}

/// Wraps a body in a netlink header.
fn message(ty: u16, flags: u16, seq: u32, body: &[u8]) -> (m: Vec<u8>)
    requires
        16 + body@.len() <= u32::MAX,
    ensures
        m@ == nl_msg(ty, flags, seq, body@),
{
    let mut m: Vec<u8> = Vec::new();
    push_le(&mut m, (16 + body.len()) as u64, 4);
    push_le(&mut m, ty as u64, 2);
    push_le(&mut m, flags as u64, 2);
    push_le(&mut m, seq as u64, 4);
    push_le(&mut m, 0, 4);
    push_bytes(&mut m, body);
    assert(m@ =~= nl_msg(ty, flags, seq, body@));
    m
}

/// A name's bytes and a NUL.
fn cstr_bytes(name: &str) -> (b: Vec<u8>)
    ensures
        b@ == cstr(name@),
        b@.len() == encode_utf8(name@).len() + 1,
{
    let mut b: Vec<u8> = Vec::new();
    push_bytes(&mut b, name.as_bytes());
    b.push(0);
    b
}

proof fn lemma_align4_bound(n: nat)
    ensures
        n <= align4(n) < n + 4,
{
}

/// The message that creates bridge `name`; the sender's buffer holds 512 bytes.
pub fn bridge_msg(name: &str) -> (m: Vec<u8>)
    requires
        48 + align4((5 + encode_utf8(name@).len()) as nat) <= 512,
    ensures
        m@ == bridge_message(name@),
{
    let nb = cstr_bytes(name);
    proof {
        lemma_align4_bound((5 + encode_utf8(name@).len()) as nat);
    }
    let mut kind: Vec<u8> = Vec::new();
    push_attr(&mut kind, IFLA_INFO_KIND, &[98u8, 114u8, 105u8, 100u8, 103u8, 101u8, 0u8]);
    assert([98u8, 114u8, 105u8, 100u8, 103u8, 101u8, 0u8]@ =~= seq![98u8, 114u8, 105u8, 100u8, 103u8, 101u8, 0u8]);
    let mut body: Vec<u8> = Vec::new();
    push_ifinfo(&mut body, 0, 0, 0);
    push_attr(&mut body, IFLA_IFNAME, &nb);
    push_attr(&mut body, IFLA_LINKINFO, &kind);
    assert(body@ =~= ifinfo(0, 0, 0) + attr(IFLA_IFNAME, cstr(name@)) + attr(
        IFLA_LINKINFO,
        attr(IFLA_INFO_KIND, seq![98u8, 114u8, 105u8, 100u8, 103u8, 101u8, 0u8]),
    ));
    assert(1u16 | 0x400u16 | 0x200u16 | 4u16 == 0x605u16) by (bit_vector);
    message(RTM_NEWLINK, NLM_F_REQUEST | NLM_F_CREATE | NLM_F_EXCL | NLM_F_ACK, 1, &body)
}

/// The message that creates the veth pair `n1`/`n2`; the sender's buffer
/// holds 1024 bytes.
pub fn veth_msg(n1: &str, n2: &str) -> (m: Vec<u8>)
    requires
        68 + align4((5 + encode_utf8(n1@).len()) as nat) + align4((5 + encode_utf8(n2@).len()) as nat) <= 1024,
    ensures
        m@ == veth_message(n1@, n2@),
{
    proof {
        lemma_align4_bound((5 + encode_utf8(n1@).len()) as nat);
        lemma_align4_bound((5 + encode_utf8(n2@).len()) as nat);
    }
    let b1 = cstr_bytes(n1);
    let b2 = cstr_bytes(n2);
    let mut peer: Vec<u8> = Vec::new();
    push_ifinfo(&mut peer, 0, 0, 0);
    push_attr(&mut peer, IFLA_IFNAME, &b2);
    let mut info: Vec<u8> = Vec::new();
    push_attr(&mut info, IFLA_INFO_KIND, &[118u8, 101u8, 116u8, 104u8, 0u8]);
    assert([118u8, 101u8, 116u8, 104u8, 0u8]@ =~= seq![118u8, 101u8, 116u8, 104u8, 0u8]);
    push_attr(&mut info, IFLA_INFO_DATA, &peer);
    let mut body: Vec<u8> = Vec::new();
    push_ifinfo(&mut body, 0, 0, 0);
    push_attr(&mut body, IFLA_IFNAME, &b1);
    push_attr(&mut body, IFLA_LINKINFO, &info);
    assert(body@ =~= ifinfo(0, 0, 0) + attr(IFLA_IFNAME, cstr(n1@)) + attr(
        IFLA_LINKINFO,
        attr(IFLA_INFO_KIND, seq![118u8, 101u8, 116u8, 104u8, 0u8]) + attr(
            IFLA_INFO_DATA,
            ifinfo(0, 0, 0) + attr(IFLA_IFNAME, cstr(n2@)),
        ),
    ));
    assert(1u16 | 0x400u16 | 0x200u16 | 4u16 == 0x605u16) by (bit_vector);
    message(RTM_NEWLINK, NLM_F_REQUEST | NLM_F_CREATE | NLM_F_EXCL | NLM_F_ACK, 2, &body)
}

/// The message that sets an interface's IPv4 address.
pub fn addr_msg(index: i32, ip: [u8; 4], prefix: u8) -> (m: Vec<u8>)
    ensures
        m@ == addr_message(index, ip@, prefix),
{
    let mut body: Vec<u8> = Vec::new();
    body.push(AF_INET);
    body.push(prefix);
    body.push(0);
    body.push(0);
    push_le(&mut body, (index as u32) as u64, 4);
    push_attr(&mut body, IFA_ADDRESS, &ip);
    push_attr(&mut body, IFA_LOCAL, &ip);
    assert(body@ =~= seq![AF_INET, prefix, 0u8, 0u8] + le_bytes((index as u32) as nat, 4) + attr(IFA_ADDRESS, ip@)
        + attr(IFA_LOCAL, ip@));
    assert(1u16 | 0x400u16 | 0x200u16 | 4u16 == 0x605u16) by (bit_vector);
    message(RTM_NEWADDR, NLM_F_REQUEST | NLM_F_CREATE | NLM_F_EXCL | NLM_F_ACK, 3, &body)
}

/// The message that brings an interface up.
pub fn link_up_msg(index: i32) -> (m: Vec<u8>)
    ensures
        m@ == link_up_message(index),
{
    let mut body: Vec<u8> = Vec::new();
    push_ifinfo(&mut body, index, IFF_UP, IFF_UP);
    assert(body@ =~= ifinfo(index, IFF_UP, IFF_UP));
    assert(1u16 | 4u16 == 5u16) by (bit_vector);
    message(RTM_SETLINK, NLM_F_REQUEST | NLM_F_ACK, 4, &body)
}

/// The message that attaches an interface to a bridge.
pub fn master_msg(index: i32, bridge_index: i32) -> (m: Vec<u8>)
    ensures
        m@ == master_message(index, bridge_index),
{
    let mut body: Vec<u8> = Vec::new();
    push_ifinfo(&mut body, index, 0, 0);
    let mut b: Vec<u8> = Vec::new();
    push_le(&mut b, (bridge_index as u32) as u64, 4);
    push_attr(&mut body, IFLA_MASTER, &b);
    assert(body@ =~= ifinfo(index, 0, 0) + attr(IFLA_MASTER, le_bytes((bridge_index as u32) as nat, 4)));
    assert(1u16 | 4u16 == 5u16) by (bit_vector);
    message(RTM_SETLINK, NLM_F_REQUEST | NLM_F_ACK, 5, &body)
}

/// The message that moves an interface into another process's namespace.
pub fn netns_msg(index: i32, pid: u32) -> (m: Vec<u8>)
    ensures
        m@ == netns_message(index, pid),
{
    let mut body: Vec<u8> = Vec::new();
    push_ifinfo(&mut body, index, 0, 0);
    let mut b: Vec<u8> = Vec::new();
    push_le(&mut b, pid as u64, 4);
    push_attr(&mut body, IFLA_NET_NS_PID, &b);
    assert(body@ =~= ifinfo(index, 0, 0) + attr(IFLA_NET_NS_PID, le_bytes(pid as nat, 4)));
    assert(1u16 | 4u16 == 5u16) by (bit_vector);
    message(RTM_SETLINK, NLM_F_REQUEST | NLM_F_ACK, 6, &body)
}

/// The little-endian value of `b[i..i+k]`.
pub open spec fn le_value(b: Seq<u8>, i: int, k: nat) -> nat
    decreases k,
{
    if k == 0 {
        0
    } else {
        b[i] as nat + 256 * le_value(b, i + 1, (k - 1) as nat)
    }
}

/// The error number a netlink reply reports: a reply of at least 20 bytes
/// whose type is `NLMSG_ERROR` and whose code (bytes 16..20, signed) is
/// negative reports its negation.
pub open spec fn reply_errno(reply: Seq<u8>) -> Option<int> {
    if reply.len() >= 20 && le_value(reply, 4, 2) == NLMSG_ERROR {
        let raw = le_value(reply, 16, 4);
        let code = if raw >= 0x8000_0000 { raw - 0x1_0000_0000 } else { raw as int };
        if code < 0 {
            Some(-code)
        } else {
            None
        }
    } else {
        None
    }
}

/// Reads the kernel's answer to a request: an error reply becomes a
/// `Syscall` error carrying its error number.
pub fn check_reply(reply: &[u8]) -> (r: Result<(), ContainerError>)
    requires
        reply_errno(reply@) != Some(0x8000_0000int),
    ensures
        match reply_errno(reply@) {
            None => r is Ok,
            Some(e) => (r matches Err(ContainerError::Syscall { call: c, code: k, detail: d }) && c@ == "netlink"@ && k
                == e && d@ == "errno "@ + decimal(e as nat)),
        },
{
    if reply.len() >= 20 && (reply[4] as u16 + 256 * reply[5] as u16) == NLMSG_ERROR {
        let raw: u32 = reply[16] as u32 + 256 * (reply[17] as u32 + 256 * (reply[18] as u32 + 256 * reply[19] as u32));
        proof {
            reveal_with_fuel(le_value, 5);
        }
        assert(le_value(reply@, 16, 4) == raw as nat);
        assert(le_value(reply@, 4, 2) == reply@[4] + 256 * reply@[5]);
        if raw >= 0x8000_0000 {
            let neg: u32 = 0u32.wrapping_sub(raw);
            assert(neg == 0x1_0000_0000 - raw);
            let e: i32 = neg as i32;
            let mut v: Vec<char> = Vec::new();
            extend_chars(&mut v, "errno ");
            push_decimal(&mut v, neg as u64);
            return Err(ContainerError::Syscall { call: "netlink".to_owned(), code: e, detail: string_of(&v) });
        }
        Ok(())
    } else {
        proof {
            reveal_with_fuel(le_value, 3);
            if reply@.len() >= 20 {
                assert(le_value(reply@, 4, 2) == reply@[4] + 256 * reply@[5]);
            }
        }
        Ok(())
    }
}

/// Whether an error says that the object already exists (error 17), which
/// creating a bridge or an address tolerates.
pub fn tolerate_exists(r: Result<(), ContainerError>) -> (out: Result<(), ContainerError>)
    ensures
        (r matches Err(ContainerError::Syscall { code: k, .. }) && k == 17) ==> out is Ok,
        !(r matches Err(ContainerError::Syscall { code: k, .. }) && k == 17) ==> out == r,
{
    let exists = match &r {
        Err(ContainerError::Syscall { code, .. }) => *code == 17,
        _ => false,
    };
    if exists {
        Ok(())
    } else {
        r
    }
}

/// The host end of a container's veth pair: `veth_` and the first eight
/// bytes of the container's name.
pub open spec fn veth_host_of(name: Seq<char>) -> Seq<char> {
    let b = encode_utf8(name);
    "veth_"@ + decode_utf8(b.take(if b.len() < 8 { b.len() as int } else { 8 }))
}

/// Names the host end of a container's veth pair.
pub fn veth_host_name(name: &str) -> (r: String)
    requires
        is_char_boundary(encode_utf8(name@), if encode_utf8(name@).len() < 8 { encode_utf8(name@).len() as int } else { 8 }),
    ensures
        r@ == veth_host_of(name@),
{
    let n = name.as_bytes().len();
    let k = if n < 8 { n } else { 8 };
    let (head, _) = name.split_at(k);
    proof {
        vstd::utf8::encode_utf8_decode_utf8(head@);
        assert(encode_utf8(name@).subrange(0, k as int) =~= encode_utf8(name@).take(k as int));
    }
    let mut v: Vec<char> = Vec::new();
    extend_chars(&mut v, "veth_");
    extend_chars(&mut v, head);
    string_of(&v)
}

/// The interface request that asks for an interface's index: its name's
/// first 15 bytes, the rest zero.
pub open spec fn ifreq_of(name: Seq<char>) -> Seq<u8> {
    let b = encode_utf8(name);
    let k = if b.len() < 15 { b.len() as int } else { 15 };
    b.take(k) + zeros((40 - k) as nat)
}

/// Builds the request for an interface's index.
pub fn ifreq_for(name: &str) -> (r: Vec<u8>)
    ensures
        r@ == ifreq_of(name@),
        r@.len() == 40,
{
    let b = name.as_bytes();
    let k = if b.len() < 15 { b.len() } else { 15 };
    let mut r: Vec<u8> = Vec::new();
    let mut i: usize = 0;
    while i < k
        invariant
            i <= k,
            k <= b@.len(),
            k <= 15,
            r@ == b@.take(i as int),
        decreases k - i,
    {
        r.push(b[i]);
        i += 1;
        assert(r@ =~= b@.take(i as int));
    }
    push_zeros(&mut r, 40 - k);
    r
}

/// The interface index the kernel wrote into a request (bytes 16..20).
pub fn index_from_ifreq(ifr: &[u8]) -> (idx: i32)
    requires
        ifr@.len() >= 20,
    ensures
        idx as int == (if le_value(ifr@, 16, 4) >= 0x8000_0000 {
            le_value(ifr@, 16, 4) - 0x1_0000_0000
        } else {
            le_value(ifr@, 16, 4) as int
        }),
{
    let raw: u32 = ifr[16] as u32 + 256 * (ifr[17] as u32 + 256 * (ifr[18] as u32 + 256 * ifr[19] as u32));
    proof {
        reveal_with_fuel(le_value, 5);
    }
    assert(le_value(ifr@, 16, 4) == raw as nat);
    if raw >= 0x8000_0000 {
        let m: u32 = raw - 0x8000_0000;
        (m as i32) - 0x4000_0000 - 0x4000_0000
    } else {
        raw as i32
    }
}

} // verus!

//! Virtio device models for the micro-VM: a console (byte queues in both
//! directions), a block device over an in-memory disk image, and a network
//! device (packet queues), with their virtqueue structures.
use vstd::prelude::*;
use std::collections::VecDeque;
use crate::http::{lossy_text, text_of_bytes};

verus! {

pub const VIRTIO_VENDOR_ID: u32 = 0x554D4551;
pub const VIRTIO_CONSOLE_DEVICE_ID: u16 = 3;
pub const VIRTIO_BLOCK_DEVICE_ID: u16 = 2;
pub const VIRTIO_NET_DEVICE_ID: u16 = 1;

pub const VRING_DESC_F_NEXT: u16 = 1;
pub const VRING_DESC_F_WRITE: u16 = 2;
pub const VRING_DESC_F_INDIRECT: u16 = 4;

pub const VIRTIO_BLK_T_IN: u32 = 0;
pub const VIRTIO_BLK_T_OUT: u32 = 1;
pub const VIRTIO_BLK_T_FLUSH: u32 = 4;
pub const VIRTIO_BLK_T_GET_ID: u32 = 8;

pub const VIRTIO_BLK_S_OK: u8 = 0;
pub const VIRTIO_BLK_S_IOERR: u8 = 1;
pub const VIRTIO_BLK_S_UNSUPP: u8 = 2;

/// Virtqueue descriptor (16 bytes).
#[derive(Copy, Clone, Debug)]
pub struct VringDesc {
    /// Guest physical address.
    pub addr: u64,
    /// Length in bytes.
    pub len: u32,
    /// `VRING_DESC_F_*`.
    pub flags: u16,
    /// Next descriptor index, if `VRING_DESC_F_NEXT` is set.
    pub next: u16,
}

/// Virtqueue available ring header.
#[derive(Copy, Clone, Debug)]
pub struct VringAvailHeader {
    pub flags: u16,
    pub idx: u16,
}

/// Virtqueue used ring header.
#[derive(Copy, Clone, Debug)]
pub struct VringUsedHeader {
    pub flags: u16,
    pub idx: u16,
}

/// Virtqueue used element.
#[derive(Copy, Clone, Debug)]
pub struct VringUsedElem {
    pub id: u32,
    pub len: u32,
}

/// A console bridging the guest's serial port and the host.
pub struct VirtioConsole {
    /// Host to guest.
    input_queue: VecDeque<u8>,
    /// Guest to host.
    output_queue: VecDeque<u8>,
    /// Terminal mode.
    raw_mode: bool,
}

impl VirtioConsole {
    /// Bytes queued for the guest, oldest first.
    pub closed spec fn input(&self) -> Seq<u8> {
        self.input_queue@
    }

    /// Bytes the guest wrote and the host has not collected, oldest first.
    pub closed spec fn output(&self) -> Seq<u8> {
        self.output_queue@
    }

    pub fn new() -> (c: VirtioConsole)
        ensures
            c.input() == Seq::<u8>::empty(),
            c.output() == Seq::<u8>::empty(),
    {
        VirtioConsole { input_queue: VecDeque::new(), output_queue: VecDeque::new(), raw_mode: false }
    }

    /// Records a byte written by the guest.
    pub fn record_output(&mut self, byte: u8)
        ensures
            final(self).output() == old(self).output().push(byte),
            final(self).input() == old(self).input(),
    {
        self.output_queue.push_back(byte);
    }

    /// Queues input from the host for the guest to read.
    pub fn queue_input(&mut self, data: &[u8])
        ensures
            final(self).input() == old(self).input() + data@,
            final(self).output() == old(self).output(),
    {
        let ghost start = self.input_queue@;
        let mut i: usize = 0;
        while i < data.len()
            invariant
                i <= data@.len(),
                self.input_queue@ == start + data@.take(i as int),
                self.output_queue@ == old(self).output_queue@,
            decreases data@.len() - i,
        {
            self.input_queue.push_back(data[i]);
            i += 1;
            assert(self.input_queue@ =~= start + data@.take(i as int));
        }
        assert(data@.take(data@.len() as int) =~= data@);
    }

    /// The next byte for the guest to read, oldest first.
    pub fn read_byte(&mut self) -> (r: Option<u8>)
        ensures
            old(self).input().len() == 0 ==> r is None && final(self).input() == old(self).input(),
            old(self).input().len() > 0 ==> r == Some(old(self).input()[0]) && final(self).input()
                == old(self).input().drop_first(),
            final(self).output() == old(self).output(),
    {
        self.input_queue.pop_front()
    }

    /// Whether input is waiting for the guest.
    pub fn has_input(&self) -> (b: bool)
        ensures
            b == (self.input().len() > 0),
    {
        self.input_queue.len() > 0
    }

    /// Collects all output so far, as text; the output queue is emptied.
    pub fn get_output(&mut self) -> (s: String)
        ensures
            s@ == lossy_text(old(self).output()),
            final(self).output() == Seq::<u8>::empty(),
            final(self).input() == old(self).input(),
    {
        let mut bytes: Vec<u8> = Vec::new();
        let mut i: usize = 0;
        let n = self.output_queue.len();
        while i < n
            invariant
                i <= n,
                n == self.output_queue@.len(),
                self.output_queue@ == old(self).output_queue@,
                self.input_queue@ == old(self).input_queue@,
                bytes@ == self.output_queue@.take(i as int),
            decreases n - i,
        {
            bytes.push(self.output_queue[i]);
            i += 1;
            assert(bytes@ =~= self.output_queue@.take(i as int));
        }
        assert(self.output_queue@.take(n as int) =~= self.output_queue@);
        self.output_queue.clear();
        text_of_bytes(bytes.as_slice())
    }
}

/// Virtio block request header.
#[derive(Copy, Clone, Debug)]
pub struct VirtioBlkReq {
    pub req_type: u32,
    pub reserved: u32,
    pub sector: u64,
}

/// A block device over an in-memory disk image of 512-byte sectors.
pub struct VirtioBlock {
    data: Vec<u8>,
    block_size: u32,
    read_only: bool,
}

/// `n` as `k` little-endian bytes.
pub open spec fn le_bytes(n: nat, k: nat) -> Seq<u8>
    decreases k,
{
    if k == 0 {
        Seq::empty()
    } else {
        seq![(n % 256) as u8] + le_bytes(n / 256, (k - 1) as nat)
    }
}

/// Writes `n` as `k` little-endian bytes at `off`.
fn put_le(buf: &mut Vec<u8>, off: usize, n: u64, k: usize)
    requires
        off + k <= old(buf)@.len(),
        k <= 8,
    ensures
        final(buf)@.len() == old(buf)@.len(),
        final(buf)@.subrange(off as int, off + k) == le_bytes(n as nat, k as nat),
        forall|j: int| 0 <= j < final(buf)@.len() && !(off <= j < off + k) ==> final(buf)@[j] == old(buf)@[j],
{
    let ghost b0 = buf@;
    let len = buf.len();
    let mut i: usize = 0;
    let mut v = n;
    while i < k
        invariant
            i <= k,
            len == b0.len(),
            off + k <= b0.len(),
            buf@.len() == b0.len(),
            buf@.subrange(off as int, off + i) + le_bytes(v as nat, (k - i) as nat) == le_bytes(
                n as nat,
                k as nat,
            ),
            forall|j: int| 0 <= j < b0.len() && !(off <= j < off + i) ==> buf@[j] == b0[j],
        decreases k - i,
    {
        let ghost before = buf@;
        buf.set(off + i, (v % 256) as u8);
        assert(buf@.subrange(off as int, off + i + 1) =~= before.subrange(off as int, off + i).push(
            (v % 256) as u8,
        ));
        assert(le_bytes(v as nat, (k - i) as nat) == seq![(v % 256) as u8] + le_bytes(
            (v / 256) as nat,
            (k - i - 1) as nat,
        ));
        assert(buf@.subrange(off as int, off + i + 1) + le_bytes((v / 256) as nat, (k - i - 1) as nat)
            =~= before.subrange(off as int, off + i) + le_bytes(v as nat, (k - i) as nat));
        v = v / 256;
        i += 1;
    }
    assert(le_bytes(v as nat, 0) =~= Seq::<u8>::empty());
    assert(buf@.subrange(off as int, off + k) =~= buf@.subrange(off as int, off + k) + le_bytes(
        v as nat,
        0,
    ));
}

/// `n` as `k` little-endian bytes.
pub fn le_vec(n: u64, k: usize) -> (v: Vec<u8>)
    requires
        k <= 8,
    ensures
        v@ == le_bytes(n as nat, k as nat),
        v@.len() == k,
{
    let mut v: Vec<u8> = vec![0u8; k];
    put_le(&mut v, 0, n, k);
    assert(v@ =~= v@.subrange(0, k as int));
    v
}

/// The image grown with zeros to hold `len` bytes from `off`.
pub open spec fn grown_to(c: Seq<u8>, off: int, len: int) -> Seq<u8> {
    if off + len > c.len() {
        c + Seq::new((off + len - c.len()) as nat, |i: int| 0u8)
    } else {
        c
    }
}

/// The image after `data` is written at byte `off`.
pub open spec fn after_write(c: Seq<u8>, off: int, data: Seq<u8>) -> Seq<u8> {
    let g = grown_to(c, off, data.len() as int);
    g.take(off) + data + g.skip(off + data.len())
}

/// Reading back the bytes just written gives the written bytes; every other
/// byte of the image keeps its value, and the image never shrinks.
pub proof fn lemma_write_then_read(c: Seq<u8>, off: int, data: Seq<u8>)
    requires
        0 <= off,
    ensures
        after_write(c, off, data).len() >= off + data.len(),
        after_write(c, off, data).len() >= c.len(),
        after_write(c, off, data).subrange(off, off + data.len()) == data,
        forall|i: int| 0 <= i < c.len() && !(off <= i < off + data.len()) ==> #[trigger] after_write(c, off, data)[i] == c[i],
{
    let g = grown_to(c, off, data.len() as int);
    let w = after_write(c, off, data);
    assert(w.subrange(off, off + data.len()) =~= data);
    assert forall|i: int| 0 <= i < c.len() && !(off <= i < off + data.len()) implies #[trigger] w[i] == c[i] by {
        assert(g[i] == c[i]);
        if i < off {
            assert(w[i] == g.take(off)[i]);
        } else {
            assert(w[i] == g.skip(off + data.len())[i - off - data.len()]);
        }
    }
}

impl VirtioBlock {
    /// The disk image.
    pub closed spec fn contents(&self) -> Seq<u8> {
        self.data@
    }

    pub closed spec fn is_read_only(&self) -> bool {
        self.read_only
    }

    /// A block device over `data`.
    pub fn new(data: Vec<u8>, read_only: bool) -> (b: VirtioBlock)
        ensures
            b.contents() == data@,
            b.is_read_only() == read_only,
            b.block_size() == 512,
    {
        VirtioBlock { data, block_size: 512, read_only }
    }

    pub closed spec fn block_size(&self) -> u32 {
        self.block_size
    }

    /// Number of whole sectors.
    pub fn capacity_sectors(&self) -> (n: u64)
        requires
            self.block_size() == 512,
        ensures
            n == self.contents().len() / 512,
    {
        self.data.len() as u64 / self.block_size as u64
    }

    /// Reads `count` sectors from `sector`; fails with `VIRTIO_BLK_S_IOERR`
    /// past the end of the image.
    pub fn read_sectors(&self, sector: u64, count: u32) -> (r: Result<Vec<u8>, u8>)
        requires
            self.block_size() == 512,
            sector * 512 + count * 512 <= usize::MAX,
        ensures
            sector * 512 + count * 512 > self.contents().len() ==> r == Err::<Vec<u8>, u8>(
                VIRTIO_BLK_S_IOERR,
            ),
            sector * 512 + count * 512 <= self.contents().len() ==> r is Ok && r->Ok_0@
                == self.contents().subrange(sector * 512, sector * 512 + count * 512),
    {
        let offset = sector as usize * self.block_size as usize;
        let len = count as usize * self.block_size as usize;
        if offset + len > self.data.len() {
            return Err(VIRTIO_BLK_S_IOERR);
        }
        let mut out: Vec<u8> = Vec::new();
        let mut i = offset;
        let end = offset + len;
        while i < end
            invariant
                end == offset + len,
                offset <= i <= offset + len <= self.data@.len(),
                out@ == self.data@.subrange(offset as int, i as int),
            decreases end - i,
        {
            out.push(self.data[i]);
            i += 1;
            assert(out@ =~= self.data@.subrange(offset as int, i as int));
        }
        Ok(out)
    }

    /// Writes `data` from `sector`, growing the image with zeros when it
    /// reaches past the end; fails with `VIRTIO_BLK_S_IOERR` on a read-only
    /// device.
    pub fn write_sectors(&mut self, sector: u64, data: &[u8]) -> (r: Result<(), u8>)
        requires
            old(self).block_size() == 512,
            sector * 512 + data@.len() <= usize::MAX,
        ensures
            final(self).block_size() == 512,
            final(self).is_read_only() == old(self).is_read_only(),
            old(self).is_read_only() ==> r == Err::<(), u8>(VIRTIO_BLK_S_IOERR) && final(self).contents()
                == old(self).contents(),
            !old(self).is_read_only() ==> r is Ok && final(self).contents() == after_write(
                old(self).contents(),
                sector * 512,
                data@,
            ),
    {
        if self.read_only {
            return Err(VIRTIO_BLK_S_IOERR);
        }
        let offset = sector as usize * self.block_size as usize;
        let ghost d0 = self.data@;
        if offset + data.len() > self.data.len() {
            let extra = offset + data.len() - self.data.len();
            let mut k: usize = 0;
            while k < extra
                invariant
                    k <= extra,
                    self.data@ == d0 + Seq::new(k as nat, |i: int| 0u8),
                    self.block_size == 512,
                    !self.read_only,
                decreases extra - k,
            {
                self.data.push(0);
                k += 1;
                assert(self.data@ =~= d0 + Seq::new(k as nat, |i: int| 0u8));
            }
        }
        let ghost grown = self.data@;
        let mut i: usize = 0;
        while i < data.len()
            invariant
                i <= data@.len(),
                offset + data@.len() <= grown.len(),
                self.data@.len() == grown.len(),
                self.data.len() == grown.len(),
                self.data@ == grown.take(offset as int) + data@.take(i as int) + grown.skip(
                    offset + i,
                ),
                self.block_size == 512,
                !self.read_only,
            decreases data@.len() - i,
        {
            self.data.set(offset + i, data[i]);
            i += 1;
            assert(self.data@ =~= grown.take(offset as int) + data@.take(i as int) + grown.skip(
                offset + i,
            ));
        }
        assert(data@.take(data@.len() as int) =~= data@);
        Ok(())
    }

    /// The virtio block config space: capacity in sectors (8 bytes), the
    /// largest segment size 4096 (4 bytes), at most 128 segments (4 bytes),
    /// and the block size at offset 20 (4 bytes), little-endian; 60 bytes.
    pub fn config_space(&self) -> (c: Vec<u8>)
        requires
            self.block_size() == 512,
        ensures
            c@.len() == 60,
            c@.subrange(0, 8) == le_bytes(self.contents().len() / 512, 8),
            c@.subrange(8, 12) == le_bytes(4096, 4),
            c@.subrange(12, 16) == le_bytes(128, 4),
            c@.subrange(16, 20) == Seq::new(4, |i: int| 0u8),
            c@.subrange(20, 24) == le_bytes(512, 4),
            c@.subrange(24, 60) == Seq::new(36, |i: int| 0u8),
    {
        let mut config: Vec<u8> = vec![0u8; 60];
        let ghost z = config@;
        let capacity = self.capacity_sectors();
        let ghost c1 = config@;
        put_le(&mut config, 0, capacity, 8);
        let ghost c2 = config@;
        put_le(&mut config, 8, 4096, 4);
        let ghost c3 = config@;
        put_le(&mut config, 12, 128, 4);
        let ghost c4 = config@;
        put_le(&mut config, 20, self.block_size as u64, 4);
        proof {
            assert(config@.subrange(0, 8) =~= c2.subrange(0, 8));
            assert(config@.subrange(8, 12) =~= c3.subrange(8, 12));
            assert(config@.subrange(12, 16) =~= c4.subrange(12, 16));
            assert(config@.subrange(16, 20) =~= Seq::new(4, |i: int| 0u8));
            assert(config@.subrange(24, 60) =~= Seq::new(36, |i: int| 0u8));
        }
        config
    }
}

/// A minimal network device: packet queues in both directions.
pub struct VirtioNet {
    /// MAC address.
    pub mac: [u8; 6],
    rx_queue: VecDeque<Vec<u8>>,
    tx_queue: VecDeque<Vec<u8>>,
}

impl VirtioNet {
    /// The MAC address.
    pub closed spec fn mac_bytes(&self) -> Seq<u8> {
        self.mac@
    }

    /// Packets waiting for the guest, oldest first.
    pub closed spec fn rx(&self) -> Seq<Vec<u8>> {
        self.rx_queue@
    }

    /// Packets the guest sent that the host has not taken, oldest first.
    pub closed spec fn tx(&self) -> Seq<Vec<u8>> {
        self.tx_queue@
    }

    /// A device with MAC 52:54:00:12:34:56 and empty queues.
    pub fn new() -> (n: VirtioNet)
        ensures
            n.mac_bytes() == seq![0x52u8, 0x54u8, 0x00u8, 0x12u8, 0x34u8, 0x56u8],
            n.rx() == Seq::<Vec<u8>>::empty(),
            n.tx() == Seq::<Vec<u8>>::empty(),
    {
        let n = VirtioNet {
            mac: [0x52, 0x54, 0x00, 0x12, 0x34, 0x56],
            rx_queue: VecDeque::new(),
            tx_queue: VecDeque::new(),
        };
        assert(n.mac@ =~= seq![0x52u8, 0x54u8, 0x00u8, 0x12u8, 0x34u8, 0x56u8]);
        n
    }

    /// Queues a packet for the guest to receive.
    pub fn inject_packet(&mut self, packet: Vec<u8>)
        ensures
            final(self).rx() == old(self).rx().push(packet),
            final(self).tx() == old(self).tx(),
            final(self).mac_bytes() == old(self).mac_bytes(),
    {
        self.rx_queue.push_back(packet);
    }

    /// The oldest packet the guest sent, if any.
    pub fn get_tx_packet(&mut self) -> (r: Option<Vec<u8>>)
        ensures
            old(self).tx().len() == 0 ==> r is None && final(self).tx() == old(self).tx(),
            old(self).tx().len() > 0 ==> r == Some(old(self).tx()[0]) && final(self).tx()
                == old(self).tx().drop_first(),
            final(self).rx() == old(self).rx(),
            final(self).mac_bytes() == old(self).mac_bytes(),
    {
        self.tx_queue.pop_front()
    }

    /// Records a packet sent by the guest.
    pub fn handle_tx(&mut self, packet: Vec<u8>)
        ensures
            final(self).tx() == old(self).tx().push(packet),
            final(self).rx() == old(self).rx(),
            final(self).mac_bytes() == old(self).mac_bytes(),
    {
        self.tx_queue.push_back(packet);
    }

    /// The virtio-net config space: the MAC address.
    pub fn config_space(&self) -> (c: Vec<u8>)
        ensures
            c@ == self.mac_bytes(),
    {
        let mut c: Vec<u8> = Vec::new();
        let mut i: usize = 0;
        while i < 6
            invariant
                i <= 6,
                c@ == self.mac@.take(i as int),
            decreases 6 - i,
        {
            c.push(self.mac[i]);
            i += 1;
            assert(c@ =~= self.mac@.take(i as int));
        }
        assert(self.mac@.take(6) =~= self.mac@);
        c
    }
}

} // verus!

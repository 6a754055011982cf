//! Guest memory of the micro-VM and the x86_64 boot structures written into
//! it: identity-mapping page tables, the GDT and the Linux boot parameters.
use vstd::prelude::*;
use vstd::string::StringSliceAdditionalSpecFns;
use crate::error::ContainerError;
use crate::tar::write_at;
use crate::virtio::{le_bytes, le_vec};
use crate::winhv::{
    WHV_REGISTER_NAME, WHV_REGISTER_VALUE, WHV_X64_SEGMENT_REGISTER, WHV_RUN_VP_EXIT_CONTEXT,
    WHV_RUN_VP_EXIT_DETAILS, WHV_RUN_VP_EXIT_REASON, reg_val64, seg_val, table_val,
};

verus! {

pub const PAGE_SIZE: u64 = 4096;
pub const MB: u64 = 0x100000;
pub const GUEST_MEM_SIZE: u64 = 0x10000000;
pub const KERNEL_LOAD_ADDR: u64 = 0x100000;
pub const INITRD_LOAD_ADDR: u64 = 0x1000000;
pub const CMDLINE_ADDR: u64 = 0x20000;
pub const BOOT_PARAMS_ADDR: u64 = 0x10000;
pub const GDT_ADDR: u64 = 0x1000;
pub const PML4_ADDR: u64 = 0x2000;
pub const PDPT_ADDR: u64 = 0x3000;
pub const PD_ADDR: u64 = 0x4000;

pub const SERIAL_PORT: u16 = 0x3F8;
pub const VIRTIO_CONSOLE_PORT: u16 = 0x500;
pub const SHUTDOWN_PORT: u16 = 0x604;

/// The memory of a virtual machine.
pub struct VirtualMachine {
    memory: Vec<u8>,
}

/// Applies writes `(address, bytes)` in order, stopping at the first that
/// does not fit; returns the memory and whether every write fitted.
pub open spec fn apply_writes(mem: Seq<u8>, ws: Seq<(u64, Seq<u8>)>) -> (Seq<u8>, bool)
    decreases ws.len(),
{
    if ws.len() == 0 {
        (mem, true)
    } else if ws[0].0 + ws[0].1.len() > mem.len() {
        (mem, false)
    } else {
        apply_writes(write_at(mem, ws[0].0 as int, ws[0].1), ws.drop_first())
    }
}

proof fn lemma_apply_writes_push(mem: Seq<u8>, ws: Seq<(u64, Seq<u8>)>, w: (u64, Seq<u8>))
    requires
        apply_writes(mem, ws).1,
    ensures
        apply_writes(mem, ws.push(w)) == (if w.0 + w.1.len() > apply_writes(mem, ws).0.len() {
            (apply_writes(mem, ws).0, false)
        } else {
            (write_at(apply_writes(mem, ws).0, w.0 as int, w.1), true)
        }),
    decreases ws.len(),
{
    lemma_write_at_len_all(mem, ws);
    if ws.len() == 0 {
        assert(ws.push(w).drop_first() =~= Seq::<(u64, Seq<u8>)>::empty());
        let m2 = write_at(mem, w.0 as int, w.1);
        assert(apply_writes(m2, Seq::<(u64, Seq<u8>)>::empty()) == (m2, true));
    } else {
        assert(ws.push(w).drop_first() =~= ws.drop_first().push(w));
        lemma_apply_writes_push(write_at(mem, ws[0].0 as int, ws[0].1), ws.drop_first(), w);
    }
}

proof fn lemma_write_at_len_all(mem: Seq<u8>, ws: Seq<(u64, Seq<u8>)>)
    ensures
        apply_writes(mem, ws).0.len() == mem.len(),
    decreases ws.len(),
{
    if ws.len() > 0 && ws[0].0 + ws[0].1.len() <= mem.len() {
        let m2 = write_at(mem, ws[0].0 as int, ws[0].1);
        assert(m2.len() == mem.len());
        lemma_write_at_len_all(m2, ws.drop_first());
    }
}

/// The identity map of the first GiB with 2 MiB pages: PML4 entry 0 to the
/// PDPT, PDPT entry 0 to the PD, and 512 PD entries.
pub open spec fn page_table_writes() -> Seq<(u64, Seq<u8>)> {
    seq![
        (PML4_ADDR, le_bytes((PDPT_ADDR | 0x03u64) as nat, 8)),
        (PDPT_ADDR, le_bytes((PD_ADDR | 0x03u64) as nat, 8)),
    ] + Seq::new(
        512,
        |i: int| ((PD_ADDR + i * 8) as u64, le_bytes((((i * 0x200000) as u64) | 0x83u64) as nat, 8)),
    )
}

/// The GDT: a null descriptor, a 64-bit code segment and a data segment.
pub open spec fn gdt_writes() -> Seq<(u64, Seq<u8>)> {
    seq![
        (GDT_ADDR, le_bytes(0, 8)),
        (0x1008u64, le_bytes(0x00AF9A000000FFFFnat, 8)),
        (0x1010u64, le_bytes(0x00CF92000000FFFFnat, 8)),
    ]
}

/// The Linux `boot_params` page.
pub open spec fn boot_params_bytes(initrd_size: u64, mem_size: u64) -> Seq<u8> {
    let p0 = Seq::new(4096, |i: int| 0u8);
    let p1 = write_at(p0, 0x202, seq![72u8, 100u8, 114u8, 83u8, 0x0Fu8, 0x02u8]);
    let p2 = write_at(p1, 0x210, seq![0xFFu8, 0x81u8]);
    let p3 = write_at(p2, 0x228, le_bytes(CMDLINE_ADDR as nat, 4));
    let p4 = write_at(p3, 0x218, le_bytes(INITRD_LOAD_ADDR as nat, 4));
    let p5 = write_at(p4, 0x21C, le_bytes((initrd_size as u32) as nat, 4));
    let p6 = p5.update(0x1E8, 2u8);
    let p7 = write_at(p6, 0x2D0, le_bytes(0, 8));
    let p8 = write_at(p7, 0x2D8, le_bytes(0x9FC00, 8));
    let p9 = write_at(p8, 0x2E0, le_bytes(1, 4));
    let p10 = write_at(p9, 0x2E4, le_bytes(0x100000, 8));
    let p11 = write_at(p10, 0x2EC, le_bytes((mem_size - 0x100000) as nat, 8));
    write_at(p11, 0x2F4, le_bytes(1, 4))
}

/// The boot parameters, then the NUL-terminated command line.
pub open spec fn boot_writes(initrd_size: u64, mem_size: u64, cmdline: Seq<u8>) -> Seq<(u64, Seq<u8>)> {
    seq![
        (BOOT_PARAMS_ADDR, boot_params_bytes(initrd_size, mem_size)),
        (CMDLINE_ADDR, cmdline.push(0u8)),
    ]
}

/// Writes `x` at `off` in `buf` (exec form of `write_at`).
fn put_bytes(buf: &mut Vec<u8>, off: usize, x: &[u8])
    requires
        off + x@.len() <= old(buf)@.len(),
    ensures
        final(buf)@ == write_at(old(buf)@, off as int, x@),
{
    let ghost b0 = buf@;
    let n = buf.len();
    let mut i: usize = 0;
    while i < x.len()
        invariant
            i <= x@.len(),
            n == b0.len(),
            off + x@.len() <= b0.len(),
            buf@.len() == b0.len(),
            buf@ == write_at(b0, off as int, x@.take(i as int)),
        decreases x@.len() - i,
    {
        buf.set(off + i, x[i]);
        i += 1;
        assert(buf@ =~= write_at(b0, off as int, x@.take(i as int)));
    }
    assert(x@.take(x@.len() as int) =~= x@);
}

/// Reading guest memory just written gives the written bytes back; every
/// other byte keeps its value and the memory keeps its size.
pub proof fn lemma_guest_write_read(m: Seq<u8>, off: int, d: Seq<u8>)
    requires
        0 <= off,
        off + d.len() <= m.len(),
    ensures
        write_at(m, off, d).len() == m.len(),
        write_at(m, off, d).subrange(off, off + d.len()) == d,
        forall|i: int| 0 <= i < m.len() && !(off <= i < off + d.len()) ==> #[trigger] write_at(m, off, d)[i] == m[i],
{
    let w = write_at(m, off, d);
    assert(w.subrange(off, off + d.len()) =~= d);
    assert forall|i: int| 0 <= i < m.len() && !(off <= i < off + d.len()) implies #[trigger] w[i] == m[i] by {
        if i < off {
            assert(w[i] == m.take(off)[i]);
        } else {
            assert(w[i] == m.skip(off + d.len())[i - off - d.len()]);
        }
    }
}

impl VirtualMachine {
    /// The guest memory.
    pub closed spec fn mem(&self) -> Seq<u8> {
        self.memory@
    }

    /// A machine whose guest memory is `memory`.
    pub fn from_memory(memory: Vec<u8>) -> (vm: VirtualMachine)
        ensures
            vm.mem() == memory@,
    {
        VirtualMachine { memory }
    }

    /// Size of the guest memory in bytes.
    pub fn guest_mem_size(&self) -> (n: u64)
        ensures
            n == self.mem().len(),
    {
        self.memory.len() as u64
    }

    /// Writes `data` at guest address `offset`; fails when it does not fit.
    pub fn write_guest_mem(&mut self, offset: u64, data: &[u8]) -> (r: Result<(), ContainerError>)
        requires
            offset + data@.len() <= u64::MAX,
        ensures
            offset + data@.len() > old(self).mem().len() ==> r is Err && r->Err_0 is Config
                && final(self).mem() == old(self).mem(),
            offset + data@.len() <= old(self).mem().len() ==> r is Ok && final(self).mem()
                == write_at(old(self).mem(), offset as int, data@),
    {
        if offset + data.len() as u64 > self.memory.len() as u64 {
            return Err(ContainerError::Config("write exceeds guest memory".to_string()));
        }
        put_bytes(&mut self.memory, offset as usize, data);
        Ok(())
    }

    /// Reads `len` bytes at guest address `offset`; fails when they do not fit.
    pub fn read_guest_mem(&self, offset: u64, len: usize) -> (r: Result<Vec<u8>, ContainerError>)
        requires
            offset + len <= u64::MAX,
        ensures
            offset + len > self.mem().len() ==> r is Err && r->Err_0 is Config,
            offset + len <= self.mem().len() ==> r is Ok && r->Ok_0@ == self.mem().subrange(
                offset as int,
                offset + len,
            ),
    {
        if offset + len as u64 > self.memory.len() as u64 {
            return Err(ContainerError::Config("read exceeds guest memory".to_string()));
        }
        let start = offset as usize;
        let n = self.memory.len();
        let mut out: Vec<u8> = Vec::new();
        let mut i: usize = 0;
        while i < len
            invariant
                i <= len,
                n == self.memory@.len(),
                start + len <= self.memory@.len(),
                out@ == self.memory@.subrange(start as int, start + i),
            decreases len - i,
        {
            out.push(self.memory[start + i]);
            i += 1;
            assert(out@ =~= self.memory@.subrange(start as int, start + i));
        }
        Ok(out)
    }

    /// One write of a sequence of boot-structure writes.
    fn write_step(&mut self, offset: u64, data: &[u8], Ghost(m0): Ghost<Seq<u8>>, Ghost(ws): Ghost<Seq<(u64, Seq<u8>)>>) -> (r: Result<(), ContainerError>)
        requires
            apply_writes(m0, ws) == (old(self).mem(), true),
            offset + data@.len() <= u64::MAX,
        ensures
            apply_writes(m0, ws.push((offset, data@))) == (final(self).mem(), r is Ok),
            r is Err ==> r->Err_0 is Config,
    {
        proof {
            lemma_apply_writes_push(m0, ws, (offset, data@));
        }
        self.write_guest_mem(offset, data)
    }

    /// Writes the page tables identity-mapping the first GiB.
    pub fn setup_page_tables(&mut self) -> (r: Result<(), ContainerError>)
        ensures
            apply_writes(old(self).mem(), page_table_writes()) == (final(self).mem(), r is Ok),
            r is Err ==> r->Err_0 is Config,
    {
        let ghost m0 = self.mem();
        let ghost mut ws: Seq<(u64, Seq<u8>)> = Seq::empty();
        let pml4_offset = PML4_ADDR;
        let pdpt_offset = PDPT_ADDR;
        let pd_offset = PD_ADDR;
        let e1 = le_vec(pdpt_offset | 0x03, 8);
        match self.write_step(pml4_offset, &e1, Ghost(m0), Ghost(ws)) {
            Ok(()) => {},
            Err(e) => {
                assert(ws.push((pml4_offset, e1@)) =~= page_table_writes().take(1));
                proof { lemma_apply_writes_prefix_fail(m0, page_table_writes(), 1); }
                return Err(e);
            },
        }
        proof { ws = ws.push((pml4_offset, e1@)); }
        let e2 = le_vec(pd_offset | 0x03, 8);
        match self.write_step(pdpt_offset, &e2, Ghost(m0), Ghost(ws)) {
            Ok(()) => {},
            Err(e) => {
                assert(ws.push((pdpt_offset, e2@)) =~= page_table_writes().take(2));
                proof { lemma_apply_writes_prefix_fail(m0, page_table_writes(), 2); }
                return Err(e);
            },
        }
        proof { ws = ws.push((pdpt_offset, e2@)); }
        assert(ws =~= page_table_writes().take(2));
        assert(page_table_writes().len() == 514);
        let mut i: u64 = 0;
        while i < 512
            invariant
                i <= 512,
                ws == page_table_writes().take(2 + i),
                apply_writes(m0, ws) == (self.mem(), true),
                pd_offset == PD_ADDR,
                page_table_writes().len() == 514,
                m0 == old(self).mem(),
            decreases 512 - i,
        {
            let entry: u64 = (i * 2 * MB) | 0x83;
            let e = le_vec(entry, 8);
            assert(page_table_writes()[2 + i as int] == ((pd_offset + i * 8) as u64, e@));
            match self.write_step(pd_offset + i * 8, &e, Ghost(m0), Ghost(ws)) {
                Ok(()) => {},
                Err(err) => {
                    assert(ws.push(((pd_offset + i * 8) as u64, e@)) =~= page_table_writes().take(3 + i));
                    proof { lemma_apply_writes_prefix_fail(m0, page_table_writes(), 3 + i); }
                    return Err(err);
                },
            }
            proof { ws = ws.push(((pd_offset + i * 8) as u64, e@)); }
            i += 1;
            assert(ws =~= page_table_writes().take(2 + i));
        }
        assert(page_table_writes().take(514) =~= page_table_writes());
        Ok(())
    }

    /// Writes the GDT.
    pub fn setup_gdt(&mut self) -> (r: Result<(), ContainerError>)
        ensures
            apply_writes(old(self).mem(), gdt_writes()) == (final(self).mem(), r is Ok),
            r is Err ==> r->Err_0 is Config,
    {
        let ghost m0 = self.mem();
        let ghost mut ws: Seq<(u64, Seq<u8>)> = Seq::empty();
        let d0 = le_vec(0, 8);
        match self.write_step(GDT_ADDR, &d0, Ghost(m0), Ghost(ws)) {
            Ok(()) => {},
            Err(e) => {
                assert(ws.push((GDT_ADDR, d0@)) =~= gdt_writes().take(1));
                proof { lemma_apply_writes_prefix_fail(m0, gdt_writes(), 1); }
                return Err(e);
            },
        }
        proof { ws = ws.push((GDT_ADDR, d0@)); }
        let d1 = le_vec(0x00AF9A000000FFFF, 8);
        match self.write_step(GDT_ADDR + 8, &d1, Ghost(m0), Ghost(ws)) {
            Ok(()) => {},
            Err(e) => {
                assert(ws.push((0x1008u64, d1@)) =~= gdt_writes().take(2));
                proof { lemma_apply_writes_prefix_fail(m0, gdt_writes(), 2); }
                return Err(e);
            },
        }
        proof { ws = ws.push((0x1008u64, d1@)); }
        let d2 = le_vec(0x00CF92000000FFFF, 8);
        let r = self.write_step(GDT_ADDR + 16, &d2, Ghost(m0), Ghost(ws));
        assert(ws.push((0x1010u64, d2@)) =~= gdt_writes());
        r
    }

    /// Writes the Linux boot parameters (boot protocol 2.15, the command
    /// line and initrd locations, a two-entry E820 map) and the command line.
    pub fn setup_boot_params(&mut self, kernel_size: u64, initrd_size: u64, cmdline: &str) -> (r: Result<(), ContainerError>)
        requires
            old(self).mem().len() >= 0x100000,
            CMDLINE_ADDR + cmdline.spec_bytes().len() + 1 <= u64::MAX,
        ensures
            apply_writes(old(self).mem(), boot_writes(initrd_size, old(self).mem().len() as u64, cmdline.spec_bytes()))
                == (final(self).mem(), r is Ok),
            r is Err ==> r->Err_0 is Config,
    {
        let ghost m0 = self.mem();
        let mem_size = self.guest_mem_size();
        let mut params: Vec<u8> = vec![0u8; 4096];
        let ghost p0 = Seq::new(4096, |i: int| 0u8);
        assert(params@ =~= p0);
        let sig: [u8; 6] = [72, 100, 114, 83, 0x0F, 0x02];
        assert(sig@ =~= seq![72u8, 100u8, 114u8, 83u8, 0x0Fu8, 0x02u8]);
        put_bytes(&mut params, 0x202, &sig);
        let ghost p1 = params@;
        let lf: [u8; 2] = [0xFF, 0x81];
        assert(lf@ =~= seq![0xFFu8, 0x81u8]);
        put_bytes(&mut params, 0x210, &lf);
        let ghost p2 = params@;
        let v = le_vec(CMDLINE_ADDR as u32 as u64, 4);
        put_bytes(&mut params, 0x228, &v);
        let ghost p3 = params@;
        let v = le_vec(INITRD_LOAD_ADDR as u32 as u64, 4);
        put_bytes(&mut params, 0x218, &v);
        let ghost p4 = params@;
        let v = le_vec((#[verifier::truncate] (initrd_size as u32)) as u64, 4);
        put_bytes(&mut params, 0x21C, &v);
        let ghost p5 = params@;
        params.set(0x1E8, 2);
        let ghost p6 = params@;
        let v = le_vec(0, 8);
        put_bytes(&mut params, 0x2D0, &v);
        let ghost p7 = params@;
        let v = le_vec(0x9FC00, 8);
        put_bytes(&mut params, 0x2D8, &v);
        let ghost p8 = params@;
        let v = le_vec(1, 4);
        put_bytes(&mut params, 0x2E0, &v);
        let ghost p9 = params@;
        let v = le_vec(0x100000, 8);
        put_bytes(&mut params, 0x2E4, &v);
        let ghost p10 = params@;
        let v = le_vec(mem_size - 0x100000, 8);
        put_bytes(&mut params, 0x2EC, &v);
        let ghost p11 = params@;
        let v = le_vec(1, 4);
        put_bytes(&mut params, 0x2F4, &v);
        assert(params@ == boot_params_bytes(initrd_size, mem_size));
        let ghost ws: Seq<(u64, Seq<u8>)> = Seq::empty();
        match self.write_step(BOOT_PARAMS_ADDR, &params, Ghost(m0), Ghost(ws)) {
            Ok(()) => {},
            Err(e) => {
                assert(ws.push((BOOT_PARAMS_ADDR, params@)) =~= boot_writes(initrd_size, mem_size, cmdline.spec_bytes()).take(1));
                proof { lemma_apply_writes_prefix_fail(m0, boot_writes(initrd_size, mem_size, cmdline.spec_bytes()), 1); }
                return Err(e);
            },
        }
        let ghost ws2 = ws.push((BOOT_PARAMS_ADDR, params@));
        let b = cmdline.as_bytes();
        let mut cmd: Vec<u8> = Vec::new();
        let mut i: usize = 0;
        while i < b.len()
            invariant
                i <= b@.len(),
                cmd@ == b@.take(i as int),
            decreases b@.len() - i,
        {
            cmd.push(b[i]);
            i += 1;
            assert(cmd@ =~= b@.take(i as int));
        }
        cmd.push(0);
        assert(cmd@ =~= b@.push(0u8));
        let r = self.write_step(CMDLINE_ADDR, &cmd, Ghost(m0), Ghost(ws2));
        assert(ws2.push((CMDLINE_ADDR, cmd@)) =~= boot_writes(initrd_size, mem_size, cmdline.spec_bytes()));
        r
    }
}

/// When the writes up to `k` fail at write `k - 1`, the whole list fails there.
proof fn lemma_apply_writes_prefix_fail(mem: Seq<u8>, ws: Seq<(u64, Seq<u8>)>, k: int)
    requires
        0 < k <= ws.len(),
        !apply_writes(mem, ws.take(k)).1,
    ensures
        apply_writes(mem, ws) == apply_writes(mem, ws.take(k)),
    decreases k,
{
    assert(ws.take(k)[0] == ws[0]);
    if ws[0].0 + ws[0].1.len() > mem.len() {
    } else {
        let m2 = write_at(mem, ws[0].0 as int, ws[0].1);
        assert(ws.take(k).drop_first() =~= ws.drop_first().take(k - 1));
        assert(apply_writes(mem, ws.take(k)) == apply_writes(m2, ws.drop_first().take(k - 1)));
        if k > 1 {
            lemma_apply_writes_prefix_fail(m2, ws.drop_first(), k - 1);
        } else {
            assert(ws.drop_first().take(0) =~= Seq::<(u64, Seq<u8>)>::empty());
            assert(apply_writes(m2, Seq::<(u64, Seq<u8>)>::empty()) == (m2, true));
        }
    }
}


pub const CR0_PE: u64 = 0x1;
pub const CR0_MP: u64 = 0x2;
pub const CR0_ET: u64 = 0x10;
pub const CR0_NE: u64 = 0x20;
pub const CR0_WP: u64 = 0x10000;
pub const CR0_AM: u64 = 0x40000;
pub const CR0_PG: u64 = 0x80000000;
pub const CR4_PAE: u64 = 0x20;
pub const CR4_PGE: u64 = 0x80;
pub const EFER_LME: u64 = 0x100;
pub const EFER_LMA: u64 = 0x400;
pub const EFER_SCE: u64 = 0x1;

/// The size in bytes of a bzImage's real-mode setup: its setup-sector count
/// (header byte 0x1F1, where 0 means 4) plus the boot sector, times 512.
pub open spec fn bzimage_setup_size(k: Seq<u8>) -> int {
    ((if k[0x1F1] == 0 { 4int } else { k[0x1F1] as int }) + 1) * 512
}

/// An image at least 0x250 bytes long that carries "HdrS" at 0x202.
pub open spec fn is_bzimage(k: Seq<u8>) -> bool {
    k.len() >= 0x250 && k.subrange(0x202, 0x206) == seq![72u8, 100u8, 114u8, 83u8]
}

impl VirtualMachine {
    /// Checks a bzImage and writes its protected-mode part at
    /// `KERNEL_LOAD_ADDR`; returns the size of that part.
    pub fn load_kernel_image(&mut self, kernel_data: &[u8]) -> (r: Result<u64, ContainerError>)
        requires
            is_bzimage(kernel_data@) ==> bzimage_setup_size(kernel_data@) <= kernel_data@.len(),
            kernel_data@.len() <= u64::MAX - KERNEL_LOAD_ADDR,
        ensures
            !is_bzimage(kernel_data@) ==> r is Err && r->Err_0 is Config && final(self).mem() == old(self).mem(),
            is_bzimage(kernel_data@) ==> {
                let start = bzimage_setup_size(kernel_data@);
                let part = kernel_data@.subrange(start, kernel_data@.len() as int);
                if KERNEL_LOAD_ADDR + part.len() > old(self).mem().len() {
                    r is Err && r->Err_0 is Config && final(self).mem() == old(self).mem()
                } else {
                    r == Ok::<u64, ContainerError>(part.len() as u64)
                        && final(self).mem() == write_at(old(self).mem(), KERNEL_LOAD_ADDR as int, part)
                }
            },
    {
        if kernel_data.len() < 0x250 {
            return Err(ContainerError::Config("kernel image too small".to_string()));
        }
        if !(kernel_data[0x202] == 72 && kernel_data[0x203] == 100 && kernel_data[0x204] == 114 && kernel_data[0x205] == 83) {
            proof {
                assert(!is_bzimage(kernel_data@)) by {
                    if is_bzimage(kernel_data@) {
                        assert(kernel_data@.subrange(0x202, 0x206)[0] == kernel_data@[0x202]);
                        assert(kernel_data@.subrange(0x202, 0x206)[1] == kernel_data@[0x203]);
                        assert(kernel_data@.subrange(0x202, 0x206)[2] == kernel_data@[0x204]);
                        assert(kernel_data@.subrange(0x202, 0x206)[3] == kernel_data@[0x205]);
                    }
                }
            }
            return Err(ContainerError::Config("not a valid Linux bzImage (missing HdrS signature)".to_string()));
        }
        assert(kernel_data@.subrange(0x202, 0x206) =~= seq![72u8, 100u8, 114u8, 83u8]);
        let setup_sects: usize = if kernel_data[0x1F1] == 0 { 4 } else { kernel_data[0x1F1] as usize };
        let kernel_start = (setup_sects + 1) * 512;
        let part = vstd::slice::slice_subrange(kernel_data, kernel_start, kernel_data.len());
        let kernel_size = kernel_data.len() - kernel_start;
        match self.write_guest_mem(KERNEL_LOAD_ADDR, part) {
            Ok(()) => Ok(kernel_size as u64),
            Err(e) => Err(e),
        }
    }

    /// Writes an initramfs at `INITRD_LOAD_ADDR`; returns its size.
    pub fn load_initrd_image(&mut self, initrd_data: &[u8]) -> (r: Result<u64, ContainerError>)
        requires
            initrd_data@.len() <= u64::MAX - INITRD_LOAD_ADDR,
        ensures
            INITRD_LOAD_ADDR + initrd_data@.len() > old(self).mem().len() ==> r is Err && r->Err_0 is Config
                && final(self).mem() == old(self).mem(),
            INITRD_LOAD_ADDR + initrd_data@.len() <= old(self).mem().len() ==> r == Ok::<u64, ContainerError>(
                initrd_data@.len() as u64,
            ) && final(self).mem() == write_at(old(self).mem(), INITRD_LOAD_ADDR as int, initrd_data@),
    {
        match self.write_guest_mem(INITRD_LOAD_ADDR, initrd_data) {
            Ok(()) => Ok(initrd_data.len() as u64),
            Err(e) => Err(e),
        }
    }
}

/// The registers, and their values, that put the processor in 64-bit long
/// mode at the kernel entry point, with boot parameters in RSI.
pub open spec fn long_mode_register_table() -> Seq<(WHV_REGISTER_NAME, WHV_REGISTER_VALUE)> {
    seq![
        (WHV_REGISTER_NAME::Cr0, WHV_REGISTER_VALUE::Reg64(0x80050033u64)),
        (WHV_REGISTER_NAME::Cr3, WHV_REGISTER_VALUE::Reg64(PML4_ADDR)),
        (WHV_REGISTER_NAME::Cr4, WHV_REGISTER_VALUE::Reg64(0xA0u64)),
        (WHV_REGISTER_NAME::Efer, WHV_REGISTER_VALUE::Reg64(0x501u64)),
        (WHV_REGISTER_NAME::Rip, WHV_REGISTER_VALUE::Reg64(KERNEL_LOAD_ADDR)),
        (WHV_REGISTER_NAME::Rsp, WHV_REGISTER_VALUE::Reg64(0x80000u64)),
        (WHV_REGISTER_NAME::Rsi, WHV_REGISTER_VALUE::Reg64(BOOT_PARAMS_ADDR)),
        (WHV_REGISTER_NAME::Rflags, WHV_REGISTER_VALUE::Reg64(0x02u64)),
        (WHV_REGISTER_NAME::Cs, code_segment()),
        (WHV_REGISTER_NAME::Ds, data_segment()),
        (WHV_REGISTER_NAME::Es, data_segment()),
        (WHV_REGISTER_NAME::Ss, data_segment()),
    ]
}

/// The flat 64-bit code segment, selector 0x08.
pub open spec fn code_segment() -> WHV_REGISTER_VALUE {
    WHV_REGISTER_VALUE::Segment(WHV_X64_SEGMENT_REGISTER { Base: 0, Limit: 0xFFFFFFFF, Selector: 0x08, Attributes: 0xA09B })
}

/// The flat data segment, selector 0x10.
pub open spec fn data_segment() -> WHV_REGISTER_VALUE {
    WHV_REGISTER_VALUE::Segment(WHV_X64_SEGMENT_REGISTER { Base: 0, Limit: 0xFFFFFFFF, Selector: 0x10, Attributes: 0xC093 })
}

/// The long-mode register setup: the names and values handed to the
/// hypervisor in one call; the last entry is GDTR, covering the three GDT entries.
pub fn long_mode_registers() -> (r: (Vec<WHV_REGISTER_NAME>, Vec<WHV_REGISTER_VALUE>))
    ensures
        r.0@.len() == 13,
        r.1@.len() == 13,
        forall|i: int| 0 <= i < 12 ==> r.0@[i] == long_mode_register_table()[i].0 && r.1@[i]
            == long_mode_register_table()[i].1,
        r.0@[12] == WHV_REGISTER_NAME::Gdtr,
        r.1@[12] matches WHV_REGISTER_VALUE::Table(t) && t.Base == GDT_ADDR && t.Limit == 23,
{
    let cr0 = CR0_PE | CR0_MP | CR0_ET | CR0_NE | CR0_WP | CR0_AM | CR0_PG;
    assert(cr0 == 0x80050033u64) by (bit_vector)
        requires cr0 == 0x1u64 | 0x2u64 | 0x10u64 | 0x20u64 | 0x10000u64 | 0x40000u64 | 0x80000000u64;
    let cr4 = CR4_PAE | CR4_PGE;
    assert(cr4 == 0xA0u64) by (bit_vector)
        requires cr4 == 0x20u64 | 0x80u64;
    let efer = EFER_LME | EFER_LMA | EFER_SCE;
    assert(efer == 0x501u64) by (bit_vector)
        requires efer == 0x100u64 | 0x400u64 | 0x1u64;
    let names = vec![
        WHV_REGISTER_NAME::Cr0,
        WHV_REGISTER_NAME::Cr3,
        WHV_REGISTER_NAME::Cr4,
        WHV_REGISTER_NAME::Efer,
        WHV_REGISTER_NAME::Rip,
        WHV_REGISTER_NAME::Rsp,
        WHV_REGISTER_NAME::Rsi,
        WHV_REGISTER_NAME::Rflags,
        WHV_REGISTER_NAME::Cs,
        WHV_REGISTER_NAME::Ds,
        WHV_REGISTER_NAME::Es,
        WHV_REGISTER_NAME::Ss,
        WHV_REGISTER_NAME::Gdtr,
    ];
    let values = vec![
        reg_val64(cr0),
        reg_val64(PML4_ADDR),
        reg_val64(cr4),
        reg_val64(efer),
        reg_val64(KERNEL_LOAD_ADDR),
        reg_val64(0x80000),
        reg_val64(BOOT_PARAMS_ADDR),
        reg_val64(0x02),
        seg_val(0, 0xFFFFFFFF, 0x08, 0xA09B),
        seg_val(0, 0xFFFFFFFF, 0x10, 0xC093),
        seg_val(0, 0xFFFFFFFF, 0x10, 0xC093),
        seg_val(0, 0xFFFFFFFF, 0x10, 0xC093),
        table_val(GDT_ADDR, 23),
    ];
    (names, values)
}

/// Why the run loop stopped the machine.
#[derive(Copy, Clone, Debug)]
pub enum StopReason {
    /// The guest wrote to the ACPI shutdown port.
    Shutdown,
    /// The guest executed HLT.
    Halt,
    /// A memory access the loop does not handle, at this guest physical
    /// address when the exit carried one.
    UnhandledMemoryAccess(Option<u64>),
    /// A triple fault.
    UnrecoverableException,
    /// The hypervisor refused a register value.
    InvalidVpRegisterValue,
    /// Any other exit.
    Unhandled(WHV_RUN_VP_EXIT_REASON),
}

/// What the run loop does after one exit of the virtual processor.
pub enum ExitAction {
    /// Set RIP to `rip` and run on; `line` is a completed line of console
    /// output to show, when the exit completed one.
    Resume { rip: u64, line: Option<Vec<u8>> },
    /// Stop the machine.
    Stop(StopReason),
}

/// The mathematical form of an [`ExitAction`].
pub enum ExitActionView {
    Resume { rip: u64, line: Option<Seq<u8>> },
    Stop(StopReason),
}

impl View for ExitAction {
    type V = ExitActionView;

    open spec fn view(&self) -> ExitActionView {
        match self {
            ExitAction::Resume { rip, line } => ExitActionView::Resume {
                rip: *rip,
                line: match line {
                    Some(l) => Some(l@),
                    None => None,
                },
            },
            ExitAction::Stop(s) => ExitActionView::Stop(*s),
        }
    }
}

/// The instruction pointer past the instruction that caused the exit.
pub open spec fn rip_after(exit: WHV_RUN_VP_EXIT_CONTEXT) -> int {
    exit.VpContext.Rip + (exit.VpContext.InstructionLength_Cr8 & 0xF)
}

/// The port and byte of an I/O port write, if the exit is one.
pub open spec fn port_write(exit: WHV_RUN_VP_EXIT_CONTEXT) -> Option<(u16, u8)> {
    match exit.Anonymous {
        WHV_RUN_VP_EXIT_DETAILS::IoPortAccess(io) => if io.AccessInfo & 1 != 0 {
            Some((io.PortNumber, (io.Rax & 0xFF) as u8))
        } else {
            None
        },
        _ => None,
    }
}

/// One step of the run loop: from an exit and the pending console output,
/// the action and the pending output after it. Console and serial writes
/// collect bytes and hand out a line at each newline; a write to the
/// shutdown port stops; other port accesses, MSR and CPUID exits resume past
/// the instruction; every other exit stops.
pub open spec fn exit_step(exit: WHV_RUN_VP_EXIT_CONTEXT, pending: Seq<u8>) -> (ExitActionView, Seq<u8>) {
    let resume = ExitActionView::Resume { rip: rip_after(exit) as u64, line: None };
    match exit.ExitReason {
        WHV_RUN_VP_EXIT_REASON::X64IoPortAccess => match port_write(exit) {
            Some((port, byte)) => if port == SERIAL_PORT || port == VIRTIO_CONSOLE_PORT {
                if byte == 10 {
                    (ExitActionView::Resume { rip: rip_after(exit) as u64, line: Some(pending.push(byte)) }, Seq::empty())
                } else {
                    (resume, pending.push(byte))
                }
            } else if port == SHUTDOWN_PORT {
                (ExitActionView::Stop(StopReason::Shutdown), pending)
            } else {
                (resume, pending)
            },
            None => (resume, pending),
        },
        WHV_RUN_VP_EXIT_REASON::X64MsrAccess => (resume, pending),
        WHV_RUN_VP_EXIT_REASON::X64Cpuid => (resume, pending),
        WHV_RUN_VP_EXIT_REASON::X64Halt => (ExitActionView::Stop(StopReason::Halt), pending),
        WHV_RUN_VP_EXIT_REASON::MemoryAccess => (ExitActionView::Stop(StopReason::UnhandledMemoryAccess(
            match exit.Anonymous {
                WHV_RUN_VP_EXIT_DETAILS::MemoryAccess(m) => Some(m.Gpa),
                _ => None,
            },
        )), pending),
        WHV_RUN_VP_EXIT_REASON::UnrecoverableException => (ExitActionView::Stop(StopReason::UnrecoverableException), pending),
        WHV_RUN_VP_EXIT_REASON::InvalidVpRegisterValue => (ExitActionView::Stop(StopReason::InvalidVpRegisterValue), pending),
        other => (ExitActionView::Stop(StopReason::Unhandled(other)), pending),
    }
}

/// Decides what to do after a virtual-processor exit; `pending` holds the
/// console output not yet shown and is updated as `exit_step` says.
pub fn handle_exit(exit: &WHV_RUN_VP_EXIT_CONTEXT, pending: &mut Vec<u8>) -> (a: ExitAction)
    requires
        rip_after(*exit) <= u64::MAX,
    ensures
        (a@, final(pending)@) == exit_step(*exit, old(pending)@),
{
    let ilen = (exit.VpContext.InstructionLength_Cr8 & 0x0F) as u64;
    let rip = exit.VpContext.Rip + ilen;
    match exit.ExitReason {
        WHV_RUN_VP_EXIT_REASON::X64IoPortAccess => {
            match exit.Anonymous {
                WHV_RUN_VP_EXIT_DETAILS::IoPortAccess(io) => {
                    if io.AccessInfo & 1 != 0 {
                        let port = io.PortNumber;
                        let byte = (io.Rax & 0xFF) as u8;
                        if port == SERIAL_PORT || port == VIRTIO_CONSOLE_PORT {
                            pending.push(byte);
                            if byte == 10 {
                                let mut line: Vec<u8> = Vec::new();
                                std::mem::swap(&mut line, pending);
                                assert(pending@ =~= Seq::<u8>::empty());
                                return ExitAction::Resume { rip, line: Some(line) };
                            }
                            return ExitAction::Resume { rip, line: None };
                        } else if port == SHUTDOWN_PORT {
                            return ExitAction::Stop(StopReason::Shutdown);
                        }
                    }
                    ExitAction::Resume { rip, line: None }
                },
                _ => ExitAction::Resume { rip, line: None },
            }
        },
        WHV_RUN_VP_EXIT_REASON::X64MsrAccess => ExitAction::Resume { rip, line: None },
        WHV_RUN_VP_EXIT_REASON::X64Cpuid => ExitAction::Resume { rip, line: None },
        WHV_RUN_VP_EXIT_REASON::X64Halt => ExitAction::Stop(StopReason::Halt),
        WHV_RUN_VP_EXIT_REASON::MemoryAccess => {
            let gpa = match exit.Anonymous {
                WHV_RUN_VP_EXIT_DETAILS::MemoryAccess(m) => Some(m.Gpa),
                _ => None,
            };
            ExitAction::Stop(StopReason::UnhandledMemoryAccess(gpa))
        },
        WHV_RUN_VP_EXIT_REASON::UnrecoverableException => ExitAction::Stop(StopReason::UnrecoverableException),
        WHV_RUN_VP_EXIT_REASON::InvalidVpRegisterValue => ExitAction::Stop(StopReason::InvalidVpRegisterValue),
        other => ExitAction::Stop(StopReason::Unhandled(other)),
    }
}

} // verus!

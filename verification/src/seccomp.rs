//! The seccomp BPF program that denies a list of dangerous system calls
//! inside a container and allows every other one (x86_64 only).
use vstd::prelude::*;

verus! {

pub const BPF_LD: u16 = 0x00;
pub const BPF_W: u16 = 0x00;
pub const BPF_ABS: u16 = 0x20;
pub const BPF_JMP: u16 = 0x05;
pub const BPF_JEQ: u16 = 0x10;
pub const BPF_K: u16 = 0x00;
pub const BPF_RET: u16 = 0x06;

pub const SECCOMP_RET_ALLOW: u32 = 0x7fff0000;
pub const SECCOMP_RET_KILL: u32 = 0x00000000;
pub const SECCOMP_RET_ERRNO: u32 = 0x00050000;
pub const AUDIT_ARCH_X86_64: u32 = 0xC000003E;

/// Offsets in `seccomp_data`.
pub const SECCOMP_DATA_NR_OFFSET: u32 = 0;
pub const SECCOMP_DATA_ARCH_OFFSET: u32 = 4;

/// A classic BPF instruction.
#[derive(Copy, Clone, Debug, PartialEq, Eq, Structural)]
pub struct BpfInsn {
    pub code: u16,
    pub jt: u8,
    pub jf: u8,
    pub k: u32,
}

/// The blocked x86_64 system calls: reboot, init_module, delete_module,
/// kexec_load, open_by_handle_at, process_vm_readv, process_vm_writev,
/// sysfs, _sysctl, setdomainname, mq_getsetattr, kexec_file_load, chroot,
/// swapon, swapoff, syslog.
pub open spec fn blocked() -> Seq<u32> {
    seq![169u32, 175, 176, 246, 304, 310, 311, 139, 156, 171, 245, 320, 161, 167, 168, 103]
}

pub fn blocked_syscalls() -> (v: Vec<u32>)
    ensures
        v@ == blocked(),
{
    let v = vec![169u32, 175, 176, 246, 304, 310, 311, 139, 156, 171, 245, 320, 161, 167, 168, 103];
    assert(v@ =~= blocked());
    v
}

pub open spec fn ld_abs(k: u32) -> BpfInsn {
    BpfInsn { code: (BPF_LD | BPF_W | BPF_ABS) as u16, jt: 0, jf: 0, k }
}

pub open spec fn ret_k(k: u32) -> BpfInsn {
    BpfInsn { code: (BPF_RET | BPF_K) as u16, jt: 0, jf: 0, k }
}

pub open spec fn jeq(k: u32, jt: u8, jf: u8) -> BpfInsn {
    BpfInsn { code: (BPF_JMP | BPF_JEQ | BPF_K) as u16, jt, jf, k }
}

/// The program: check the architecture (kill on another), load the system
/// call number, jump to the final `EPERM` return on each blocked number,
/// otherwise allow.
pub open spec fn filter_program() -> Seq<BpfInsn> {
    seq![
        ld_abs(SECCOMP_DATA_ARCH_OFFSET),
        jeq(AUDIT_ARCH_X86_64, 1, 0),
        ret_k(SECCOMP_RET_KILL),
        ld_abs(SECCOMP_DATA_NR_OFFSET),
    ] + Seq::new(16, |i: int| jeq(blocked()[i], (16 - i) as u8, 0)) + seq![
        ret_k(SECCOMP_RET_ALLOW),
        ret_k(SECCOMP_RET_ERRNO | 1u32),
    ]
}

/// Builds the filter program.
pub fn seccomp_filter() -> (p: Vec<BpfInsn>)
    ensures
        p@ == filter_program(),
{
    let mut insns: Vec<BpfInsn> = Vec::new();
    insns.push(BpfInsn { code: BPF_LD | BPF_W | BPF_ABS, jt: 0, jf: 0, k: SECCOMP_DATA_ARCH_OFFSET });
    insns.push(BpfInsn { code: BPF_JMP | BPF_JEQ | BPF_K, jt: 1, jf: 0, k: AUDIT_ARCH_X86_64 });
    insns.push(BpfInsn { code: BPF_RET | BPF_K, jt: 0, jf: 0, k: SECCOMP_RET_KILL });
    insns.push(BpfInsn { code: BPF_LD | BPF_W | BPF_ABS, jt: 0, jf: 0, k: SECCOMP_DATA_NR_OFFSET });
    let b = blocked_syscalls();
    let num_blocked = b.len();
    let mut i: usize = 0;
    while i < num_blocked
        invariant
            i <= num_blocked,
            num_blocked == 16,
            b@ == blocked(),
            insns@ == filter_program().take(4 + i),
        decreases num_blocked - i,
    {
        let jump_to_kill = (num_blocked - i) as u8;
        insns.push(BpfInsn { code: BPF_JMP | BPF_JEQ | BPF_K, jt: jump_to_kill, jf: 0, k: b[i] });
        i += 1;
        assert(insns@ =~= filter_program().take(4 + i));
    }
    insns.push(BpfInsn { code: BPF_RET | BPF_K, jt: 0, jf: 0, k: SECCOMP_RET_ALLOW });
    insns.push(BpfInsn { code: BPF_RET | BPF_K, jt: 0, jf: 0, k: SECCOMP_RET_ERRNO | 1 });
    assert(insns@ =~= filter_program());
    insns
}

/// Runs a program made of absolute loads, equality jumps and returns on the
/// `seccomp_data` of a call with number `nr` on architecture `arch`, for at
/// most `fuel` steps; `None` where it does not return.
pub open spec fn bpf_run(p: Seq<BpfInsn>, pc: int, acc: u32, arch: u32, nr: u32, fuel: nat) -> Option<u32>
    decreases fuel,
{
    if fuel == 0 || pc < 0 || pc >= p.len() {
        None
    } else {
        let ins = p[pc];
        if ins.code == (BPF_LD | BPF_W | BPF_ABS) as u16 {
            let v = if ins.k == SECCOMP_DATA_NR_OFFSET {
                nr
            } else if ins.k == SECCOMP_DATA_ARCH_OFFSET {
                arch
            } else {
                0u32
            };
            bpf_run(p, pc + 1, v, arch, nr, (fuel - 1) as nat)
        } else if ins.code == (BPF_JMP | BPF_JEQ | BPF_K) as u16 {
            if acc == ins.k {
                bpf_run(p, pc + 1 + ins.jt, acc, arch, nr, (fuel - 1) as nat)
            } else {
                bpf_run(p, pc + 1 + ins.jf, acc, arch, nr, (fuel - 1) as nat)
            }
        } else if ins.code == (BPF_RET | BPF_K) as u16 {
            Some(ins.k)
        } else {
            None
        }
    }
}

proof fn lemma_checks(arch: u32, nr: u32, i: int)
    requires
        0 <= i <= 16,
    ensures
        bpf_run(filter_program(), 4 + i, nr, arch, nr, (18 - i) as nat) == Some(
            if blocked().skip(i).contains(nr) {
                SECCOMP_RET_ERRNO | 1u32
            } else {
                SECCOMP_RET_ALLOW
            },
        ),
    decreases 16 - i,
{
    let p = filter_program();
    assert((BPF_LD | BPF_W | BPF_ABS) == 0x20u16) by (bit_vector);
    assert((BPF_JMP | BPF_JEQ | BPF_K) == 0x15u16) by (bit_vector);
    assert((BPF_RET | BPF_K) == 0x06u16) by (bit_vector);
    assert(p.len() == 22);
    assert(p[20] == ret_k(SECCOMP_RET_ALLOW));
    assert(p[21] == ret_k(SECCOMP_RET_ERRNO | 1u32));
    if i == 16 {
        assert(blocked().skip(16) =~= Seq::<u32>::empty());
    } else {
        lemma_checks(arch, nr, i + 1);
        assert(p[4 + i] == jeq(blocked()[i], (16 - i) as u8, 0));
        assert(blocked().skip(i) =~= seq![blocked()[i]] + blocked().skip(i + 1));
        if nr == blocked()[i] {
            assert(blocked().skip(i).contains(nr)) by {
                assert(blocked().skip(i)[0] == nr);
            }
            assert(bpf_run(p, 21, nr, arch, nr, (17 - i) as nat) == Some(SECCOMP_RET_ERRNO | 1u32));
        } else {
            assert(blocked().skip(i).contains(nr) == blocked().skip(i + 1).contains(nr)) by {
                let s0 = blocked().skip(i);
                let s1 = blocked().skip(i + 1);
                if s0.contains(nr) {
                    let q = choose|q: int| 0 <= q < s0.len() && #[trigger] s0[q] == nr;
                    assert(q > 0);
                    assert(s1[q - 1] == nr);
                }
                if s1.contains(nr) {
                    let q = choose|q: int| 0 <= q < s1.len() && #[trigger] s1[q] == nr;
                    assert(s0[q + 1] == nr);
                }
            }
        }
    }
}

/// On x86_64 the filter returns `EPERM` for exactly the blocked calls and
/// allows every other call; on any other architecture it kills the process.
pub proof fn lemma_filter_decision(arch: u32, nr: u32)
    ensures
        bpf_run(filter_program(), 0, 0, arch, nr, 30) == Some(
            if arch != AUDIT_ARCH_X86_64 {
                SECCOMP_RET_KILL
            } else if blocked().contains(nr) {
                SECCOMP_RET_ERRNO | 1u32
            } else {
                SECCOMP_RET_ALLOW
            },
        ),
{
    let p = filter_program();
    assert((BPF_LD | BPF_W | BPF_ABS) == 0x20u16) by (bit_vector);
    assert((BPF_JMP | BPF_JEQ | BPF_K) == 0x15u16) by (bit_vector);
    assert((BPF_RET | BPF_K) == 0x06u16) by (bit_vector);
    assert(p[0] == ld_abs(SECCOMP_DATA_ARCH_OFFSET));
    assert(p[1] == jeq(AUDIT_ARCH_X86_64, 1, 0));
    assert(p[2] == ret_k(SECCOMP_RET_KILL));
    assert(p[3] == ld_abs(SECCOMP_DATA_NR_OFFSET));
    lemma_checks(arch, nr, 0);
    assert(blocked().skip(0) =~= blocked());
    lemma_fuel_enough(p, 4, nr, arch, nr, 18, 26);
    assert(bpf_run(p, 3, arch, arch, nr, 27) == bpf_run(p, 4, nr, arch, nr, 26));
    assert(bpf_run(p, 1, arch, arch, nr, 29) == if arch == AUDIT_ARCH_X86_64 {
        bpf_run(p, 3, arch, arch, nr, 28)
    } else {
        bpf_run(p, 2, arch, arch, nr, 28)
    });
    lemma_fuel_enough(p, 3, arch, arch, nr, 27, 28);
}

/// More steps do not change a program run that already returned.
proof fn lemma_fuel_enough(p: Seq<BpfInsn>, pc: int, acc: u32, arch: u32, nr: u32, f1: nat, f2: nat)
    requires
        f1 <= f2,
        bpf_run(p, pc, acc, arch, nr, f1) is Some,
    ensures
        bpf_run(p, pc, acc, arch, nr, f2) == bpf_run(p, pc, acc, arch, nr, f1),
    decreases f1,
{
    if f1 > 0 && 0 <= pc < p.len() {
        let ins = p[pc];
        if ins.code == (BPF_LD | BPF_W | BPF_ABS) as u16 {
            let v = if ins.k == SECCOMP_DATA_NR_OFFSET {
                nr
            } else if ins.k == SECCOMP_DATA_ARCH_OFFSET {
                arch
            } else {
                0u32
            };
            lemma_fuel_enough(p, pc + 1, v, arch, nr, (f1 - 1) as nat, (f2 - 1) as nat);
        } else if ins.code == (BPF_JMP | BPF_JEQ | BPF_K) as u16 {
            if acc == ins.k {
                lemma_fuel_enough(p, pc + 1 + ins.jt, acc, arch, nr, (f1 - 1) as nat, (f2 - 1) as nat);
            } else {
                lemma_fuel_enough(p, pc + 1 + ins.jf, acc, arch, nr, (f1 - 1) as nat, (f2 - 1) as nat);
            }
        }
    }
}

} // verus!

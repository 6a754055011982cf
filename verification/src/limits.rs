//! Resource limits as the kernels take them: cgroup v2 files and their
//! contents on Linux, job-object limit records on Windows.
use vstd::prelude::*;
use crate::config::ResourceLimits;
use crate::error::ContainerError;
use crate::text::{
    chars_of, decimal, extend_chars, join_path, path_join, parse_uint_exec, parse_uint_max,
    push_decimal, string_of, trim, trim_bounds,
};
use crate::winapi::{
    IO_COUNTERS, JOBOBJECT_BASIC_LIMIT_INFORMATION, JOBOBJECT_CPU_RATE_CONTROL_INFORMATION,
    JOBOBJECT_EXTENDED_LIMIT_INFORMATION,
};

verus! {

pub const JOB_OBJECT_LIMIT_PROCESS_MEMORY: u32 = 0x00000100;
pub const JOB_OBJECT_LIMIT_JOB_MEMORY: u32 = 0x00000200;
pub const JOB_OBJECT_LIMIT_ACTIVE_PROCESS: u32 = 0x00000008;
pub const JOB_OBJECT_LIMIT_KILL_ON_JOB_CLOSE: u32 = 0x00002000;
pub const JOB_OBJECT_LIMIT_BREAKAWAY_OK: u32 = 0x00000800;
pub const JOB_OBJECT_CPU_RATE_CONTROL_ENABLE: u32 = 0x1;
pub const JOB_OBJECT_CPU_RATE_CONTROL_HARD_CAP: u32 = 0x4;
pub const JOBOBJECTCLASS_EXTENDED_LIMIT: u32 = 9;
pub const JOBOBJECTCLASS_CPU_RATE: u32 = 15;

/// The cgroup directory of a container: `/sys/fs/cgroup/holycontainer/<name>`.
pub open spec fn cgroup_dir_of(name: Seq<char>) -> Seq<char> {
    path_join(path_join("/sys/fs/cgroup"@, "holycontainer"@), name)
}

/// Where a container's cgroup lives.
pub fn cgroup_dir(name: &str) -> (p: String)
    ensures
        p@ == cgroup_dir_of(name@),
{
    let root = join_path("/sys/fs/cgroup", "holycontainer");
    join_path(root.as_str(), name)
}

/// The `cpu.max` quota for a CPU percentage over a 100 ms period.
pub open spec fn cpu_quota(percent: u32) -> nat {
    (percent * 100000 / 100) as nat
}

/// The files a container's limits are written to, with their contents:
/// `memory.max` (bytes), `cpu.max` (`quota period`) and `pids.max`, each
/// only for a limit that is set (non-zero).
pub open spec fn cgroup_writes_of(name: Seq<char>, l: ResourceLimits) -> Seq<(Seq<char>, Seq<char>)> {
    let dir = cgroup_dir_of(name);
    let m = if l.memory_bytes > 0 {
        seq![(path_join(dir, "memory.max"@), decimal(l.memory_bytes as nat))]
    } else {
        Seq::empty()
    };
    let c = if l.cpu_percent > 0 {
        seq![(path_join(dir, "cpu.max"@), decimal(cpu_quota(l.cpu_percent)) + seq![' '] + decimal(100000))]
    } else {
        Seq::empty()
    };
    let p = if l.max_pids > 0 {
        seq![(path_join(dir, "pids.max"@), decimal(l.max_pids as nat))]
    } else {
        Seq::empty()
    };
    m + c + p
}

/// Each limit is written only where it is set: the file for a limit is
/// among the writes exactly when that limit is non-zero (0 means
/// unlimited), `cpu.max` holds a quota of 1000 per percent over a 100000
/// period, and with no limit set nothing is written.
pub proof fn lemma_cgroup_writes_set_limits(name: Seq<char>, l: ResourceLimits)
    ensures
        cpu_quota(l.cpu_percent) == l.cpu_percent * 1000,
        cgroup_writes_of(name, l).len() == (if l.memory_bytes > 0 { 1nat } else { 0nat }) + (if l.cpu_percent
            > 0 {
            1nat
        } else {
            0nat
        }) + (if l.max_pids > 0 {
            1nat
        } else {
            0nat
        }),
        l.memory_bytes > 0 ==> cgroup_writes_of(name, l)[0] == (
            path_join(cgroup_dir_of(name), "memory.max"@),
            decimal(l.memory_bytes as nat),
        ),
        l.memory_bytes == 0 && l.cpu_percent == 0 && l.max_pids == 0 ==> cgroup_writes_of(name, l)
            =~= Seq::<(Seq<char>, Seq<char>)>::empty(),
{
    assert(l.cpu_percent * 100000 / 100 == l.cpu_percent * 1000) by (nonlinear_arith);
}

fn number_text(n: u64) -> (s: String)
    ensures
        s@ == decimal(n as nat),
{
    let mut v: Vec<char> = Vec::new();
    push_decimal(&mut v, n);
    string_of(&v)
}

/// The cgroup files to write for a container's limits, in order.
pub fn cgroup_writes(name: &str, limits: &ResourceLimits) -> (w: Vec<(String, String)>)
    ensures
        w@.map_values(|p: (String, String)| (p.0@, p.1@)) == cgroup_writes_of(name@, *limits),
{
    let dir = cgroup_dir(name);
    let ghost d = cgroup_dir_of(name@);
    let mut w: Vec<(String, String)> = Vec::new();
    if limits.memory_bytes > 0 {
        let p = join_path(dir.as_str(), "memory.max");
        let t = number_text(limits.memory_bytes);
        w.push((p, t));
    }
    let ghost w1 = w@;
    assert(w1.map_values(|p: (String, String)| (p.0@, p.1@)) =~= (if limits.memory_bytes > 0 {
        seq![(path_join(d, "memory.max"@), decimal(limits.memory_bytes as nat))]
    } else {
        Seq::empty()
    }));
    if limits.cpu_percent > 0 {
        let p = join_path(dir.as_str(), "cpu.max");
        let period: u64 = 100000;
        let quota: u64 = (limits.cpu_percent as u64) * 100000 / 100;
        assert(quota as nat == cpu_quota(limits.cpu_percent));
        let mut v: Vec<char> = Vec::new();
        push_decimal(&mut v, quota);
        v.push(' ');
        push_decimal(&mut v, period);
        let t = string_of(&v);
        assert(t@ =~= decimal(cpu_quota(limits.cpu_percent)) + seq![' '] + decimal(100000));
        let ghost pv = p@;
        let ghost tv = t@;
        w.push((p, t));
        assert(w@.map_values(|p: (String, String)| (p.0@, p.1@)) =~= w1.map_values(|p: (String, String)| (p.0@, p.1@)).push((pv, tv)));
    }
    let ghost w2 = w@;
    assert(w2.map_values(|p: (String, String)| (p.0@, p.1@)) =~= w1.map_values(|p: (String, String)| (p.0@, p.1@)) + (if limits.cpu_percent > 0 {
        seq![(path_join(d, "cpu.max"@), decimal(cpu_quota(limits.cpu_percent)) + seq![' '] + decimal(100000))]
    } else {
        Seq::empty()
    }));
    if limits.max_pids > 0 {
        let p = join_path(dir.as_str(), "pids.max");
        let t = number_text(limits.max_pids as u64);
        w.push((p, t));
    }
    assert(w@.map_values(|p: (String, String)| (p.0@, p.1@)) =~= w2.map_values(|p: (String, String)| (p.0@, p.1@)) + (if limits.max_pids > 0 {
        seq![(path_join(d, "pids.max"@), decimal(limits.max_pids as nat))]
    } else {
        Seq::empty()
    }));
    w
}

/// Reads `memory.current`: a trimmed unsigned number.
pub fn parse_memory_current(data: &str) -> (r: Result<u64, ContainerError>)
    ensures
        match parse_uint_max(trim(data@), u64::MAX as nat) {
            Some(n) => r == Ok::<u64, ContainerError>(n as u64),
            None => r is Err && r->Err_0 is Syscall,
        },
{
    let c = chars_of(data);
    let (lo, hi) = trim_bounds(&c, 0, c.len());
    assert(c@.subrange(0, c@.len() as int) =~= data@);
    match parse_uint_exec(&c, lo, hi, u64::MAX) {
        Some(n) => Ok(n),
        None => Err(
            ContainerError::Syscall {
                call: "get_memory_usage".to_owned(),
                code: 0,
                detail: "failed to parse memory.current".to_owned(),
            },
        ),
    }
}

/// The limit flags of a job object: kill on close, plus job memory and
/// active-process limits when set.
pub open spec fn limit_flags(memory: bool, pids: bool) -> u32 {
    0x2000u32 | (if memory { 0x200u32 } else { 0u32 }) | (if pids { 0x8u32 } else { 0u32 })
}

/// The extended limits of a container's job object: kill the processes
/// when the job closes, plus a job memory limit and an active-process limit
/// for each limit that is set; every other field zero.
pub fn extended_limits(limits: &ResourceLimits) -> (info: JOBOBJECT_EXTENDED_LIMIT_INFORMATION)
    ensures
        info.BasicLimitInformation.LimitFlags == limit_flags(limits.memory_bytes > 0, limits.max_pids > 0),
        info.JobMemoryLimit == (if limits.memory_bytes > 0 { limits.memory_bytes as usize } else { 0 }),
        info.BasicLimitInformation.ActiveProcessLimit == (if limits.max_pids > 0 { limits.max_pids } else { 0 }),
        info.ProcessMemoryLimit == 0,
        info.BasicLimitInformation.PerProcessUserTimeLimit == 0,
        info.BasicLimitInformation.PerJobUserTimeLimit == 0,
        info.BasicLimitInformation.MinimumWorkingSetSize == 0,
        info.BasicLimitInformation.MaximumWorkingSetSize == 0,
        info.BasicLimitInformation.Affinity == 0,
        info.BasicLimitInformation.PriorityClass == 0,
        info.BasicLimitInformation.SchedulingClass == 0,
{
    let mut flags: u32 = JOB_OBJECT_LIMIT_KILL_ON_JOB_CLOSE;
    let mut job_memory: usize = 0;
    let mut active: u32 = 0;
    if limits.memory_bytes > 0 {
        flags = flags | JOB_OBJECT_LIMIT_JOB_MEMORY;
        job_memory = limits.memory_bytes as usize;
    }
    if limits.max_pids > 0 {
        flags = flags | JOB_OBJECT_LIMIT_ACTIVE_PROCESS;
        active = limits.max_pids;
    }
    let mem = limits.memory_bytes > 0;
    let pids = limits.max_pids > 0;
    assert(flags == limit_flags(mem, pids)) by (bit_vector)
        requires
            flags == (if mem && pids {
                0x2000u32 | 0x200u32 | 0x8u32
            } else if mem {
                0x2000u32 | 0x200u32
            } else if pids {
                0x2000u32 | 0x8u32
            } else {
                0x2000u32
            }),
    ;
    JOBOBJECT_EXTENDED_LIMIT_INFORMATION {
        BasicLimitInformation: JOBOBJECT_BASIC_LIMIT_INFORMATION {
            PerProcessUserTimeLimit: 0,
            PerJobUserTimeLimit: 0,
            LimitFlags: flags,
            MinimumWorkingSetSize: 0,
            MaximumWorkingSetSize: 0,
            ActiveProcessLimit: active,
            Affinity: 0,
            PriorityClass: 0,
            SchedulingClass: 0,
        },
        IoInfo: IO_COUNTERS {
            ReadOperationCount: 0,
            WriteOperationCount: 0,
            OtherOperationCount: 0,
            ReadTransferCount: 0,
            WriteTransferCount: 0,
            OtherTransferCount: 0,
        },
        ProcessMemoryLimit: 0,
        JobMemoryLimit: job_memory,
        PeakProcessMemoryUsed: 0,
        PeakJobMemoryUsed: 0,
    }
}

/// The hard CPU cap of a job object: the rate in hundredths of a percent.
pub fn cpu_rate_info(percent: u32) -> (info: JOBOBJECT_CPU_RATE_CONTROL_INFORMATION)
    requires
        percent * 100 <= u32::MAX,
    ensures
        info.ControlFlags == JOB_OBJECT_CPU_RATE_CONTROL_ENABLE | JOB_OBJECT_CPU_RATE_CONTROL_HARD_CAP,
        info.Value == percent * 100,
        info._pad@ == seq![0u32, 0u32],
{
    let info = JOBOBJECT_CPU_RATE_CONTROL_INFORMATION {
        ControlFlags: JOB_OBJECT_CPU_RATE_CONTROL_ENABLE | JOB_OBJECT_CPU_RATE_CONTROL_HARD_CAP,
        Value: percent * 100,
        _pad: [0; 2],
    };
    assert(info._pad@ =~= seq![0u32, 0u32]);
    info
}

} // verus!

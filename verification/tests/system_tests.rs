use holycontainer::config::ResourceLimits;
use holycontainer::error::ContainerError;
use holycontainer::limits::{cgroup_dir, cgroup_writes, cpu_rate_info, extended_limits, parse_memory_current};
use holycontainer::netlink::{
    addr_msg, bridge_msg, check_reply, ifreq_for, index_from_ifreq, link_up_msg, master_msg, netns_msg,
    tolerate_exists, veth_host_name, veth_msg,
};
use holycontainer::sandbox::{
    cap_drop_error_is_fatal, caps_to_drop, device_steps, exec_env, id_map, in_rootfs, is_wanted_library,
    namespace_entries, proc_path, rootfs_setup_after, rootfs_setup_before, RootfsStep, ALL_NAMESPACES,
};
use holycontainer::netdev::{makedev, parse_ipv4, rta_align};
use holycontainer::seccomp::{blocked_syscalls, seccomp_filter};
use holycontainer::winapi::{build_env_block, command_line, job_name, to_wide, windows_env};

#[test]
fn cgroup_files() {
    assert_eq!(cgroup_dir("web"), "/sys/fs/cgroup/holycontainer/web");
    let l = ResourceLimits { memory_bytes: 268435456, cpu_percent: 50, max_pids: 64 };
    assert_eq!(
        cgroup_writes("web", &l),
        vec![
            ("/sys/fs/cgroup/holycontainer/web/memory.max".to_string(), "268435456".to_string()),
            ("/sys/fs/cgroup/holycontainer/web/cpu.max".to_string(), "50000 100000".to_string()),
            ("/sys/fs/cgroup/holycontainer/web/pids.max".to_string(), "64".to_string()),
        ]
    );
    let none = ResourceLimits { memory_bytes: 0, cpu_percent: 0, max_pids: 0 };
    assert!(cgroup_writes("web", &none).is_empty());
    assert_eq!(parse_memory_current(" 4096\n").unwrap(), 4096);
    assert!(matches!(parse_memory_current("x"), Err(ContainerError::Syscall { .. })));
}

#[test]
fn job_object_limits() {
    let l = ResourceLimits { memory_bytes: 1 << 20, cpu_percent: 25, max_pids: 8 };
    let info = extended_limits(&l);
    assert_eq!(info.BasicLimitInformation.LimitFlags, 0x2000 | 0x200 | 0x8);
    assert_eq!(info.JobMemoryLimit, 1 << 20);
    assert_eq!(info.BasicLimitInformation.ActiveProcessLimit, 8);
    let none = extended_limits(&ResourceLimits { memory_bytes: 0, cpu_percent: 0, max_pids: 0 });
    assert_eq!(none.BasicLimitInformation.LimitFlags, 0x2000);
    assert_eq!(none.JobMemoryLimit, 0);
    let cpu = cpu_rate_info(25);
    assert_eq!(cpu.ControlFlags, 0x5);
    assert_eq!(cpu.Value, 2500);
    assert_eq!(job_name("web"), "HolyContainer_web");
}

#[test]
fn netlink_messages() {
    assert_eq!(
        bridge_msg("holy0"),
        vec![60, 0, 0, 0, 16, 0, 5, 6, 1, 0, 0, 0, 0, 0, 0, 0, 0, 0, 0, 0, 0, 0, 0, 0, 0, 0, 0, 0, 0, 0, 0, 0, 10, 0, 3, 0,
            104, 111, 108, 121, 48, 0, 0, 0, 16, 0, 18, 0, 11, 0, 1, 0, 98, 114, 105, 100, 103, 101, 0, 0]
    );
    assert_eq!(
        link_up_msg(7),
        vec![32, 0, 0, 0, 19, 0, 5, 0, 4, 0, 0, 0, 0, 0, 0, 0, 0, 0, 0, 0, 7, 0, 0, 0, 1, 0, 0, 0, 1, 0, 0, 0]
    );
    assert_eq!(
        addr_msg(3, [10, 0, 0, 1], 24),
        vec![40, 0, 0, 0, 20, 0, 5, 6, 3, 0, 0, 0, 0, 0, 0, 0, 2, 24, 0, 0, 3, 0, 0, 0, 8, 0, 1, 0, 10, 0, 0, 1, 8, 0, 2, 0,
            10, 0, 0, 1]
    );
    let v = veth_msg("veth_web", "eth0");
    assert_eq!(v.len(), 16 + 16 + 16 + (4 + 12 + (4 + 16 + 12)));
    assert_eq!(u32::from_le_bytes([v[0], v[1], v[2], v[3]]) as usize, v.len());
    let m = master_msg(5, 2);
    assert_eq!(m.len(), 40);
    assert_eq!(&m[32..40], &[8, 0, 10, 0, 2, 0, 0, 0]);
    let n = netns_msg(5, 1234);
    assert_eq!(&n[32..40], &[8, 0, 19, 0, 0xd2, 0x04, 0, 0]);
}

#[test]
fn netlink_replies() {
    let mut reply = vec![0u8; 36];
    reply[4] = 2;
    reply[16..20].copy_from_slice(&(-17i32).to_le_bytes());
    match check_reply(&reply) {
        Err(ContainerError::Syscall { call, code, detail }) => {
            assert_eq!((call.as_str(), code, detail.as_str()), ("netlink", 17, "errno 17"));
        },
        other => panic!("{:?}", other),
    }
    assert!(tolerate_exists(check_reply(&reply)).is_ok());
    let mut other = reply.clone();
    other[16..20].copy_from_slice(&(-1i32).to_le_bytes());
    assert!(tolerate_exists(check_reply(&other)).is_err());
    let mut ack = reply.clone();
    ack[16..20].copy_from_slice(&0i32.to_le_bytes());
    assert!(check_reply(&ack).is_ok());
    assert!(check_reply(&[0u8; 10]).is_ok());
    assert_eq!(veth_host_name("averyveryverylongname"), "veth_averyver");
    assert_eq!(veth_host_name("db"), "veth_db");
    let ifr = ifreq_for("a-very-long-interface-name");
    assert_eq!(ifr.len(), 40);
    assert_eq!(&ifr[..15], b"a-very-long-int");
    assert_eq!(ifr[15], 0);
    let mut ifr2 = vec![0u8; 40];
    ifr2[16..20].copy_from_slice(&(-2i32).to_le_bytes());
    assert_eq!(index_from_ifreq(&ifr2), -2);
    ifr2[16..20].copy_from_slice(&9i32.to_le_bytes());
    assert_eq!(index_from_ifreq(&ifr2), 9);
}

#[test]
fn namespaces_and_identity() {
    assert_eq!(ALL_NAMESPACES, 0x00020000 | 0x04000000 | 0x08000000 | 0x20000000 | 0x40000000 | 0x02000000);
    assert_eq!(id_map(1000), "0 1000 1\n");
    assert_eq!(proc_path(42, "uid_map"), "/proc/42/uid_map");
    let ns = namespace_entries(7);
    assert_eq!(ns[0], ("/proc/7/ns/pid".to_string(), 0x20000000));
    assert_eq!(ns[4], ("/proc/7/ns/ipc".to_string(), 0x08000000));
    assert_eq!(exec_env(&[("A".to_string(), "b=c".to_string())]), vec!["A=b=c".to_string()]);
}

#[test]
fn capabilities_dropped() {
    let caps = caps_to_drop();
    assert_eq!(caps, vec![2, 9, 11, 12, 13, 14, 15, 16, 17, 19, 20, 21, 22, 23, 24, 25, 26, 28, 30, 32, 33, 34, 35, 36, 37]);
    assert!(!cap_drop_error_is_fatal(22));
    assert!(cap_drop_error_is_fatal(1));
}

#[test]
fn rootfs_preparation() {
    assert!(is_wanted_library("libc.so.6"));
    assert!(is_wanted_library("ld-linux-x86-64.so.2"));
    assert!(!is_wanted_library("libssl.so.3"));
    assert!(!is_wanted_library("libm"));
    assert_eq!(in_rootfs("/r", "//lib64/ld.so"), "/r/lib64/ld.so");
    let before = rootfs_setup_before("/r");
    assert_eq!(before.len(), 15);
    match &before[1] {
        RootfsStep::Mount { source, target, fstype, flags, data } => {
            assert_eq!(source.as_deref(), Some("/r"));
            assert_eq!(target, "/r");
            assert!(fstype.is_none() && data.is_none());
            assert_eq!(*flags, 4096 | 16384);
        },
        _ => panic!("expected a mount"),
    }
    match &before[5] {
        RootfsStep::MakeDirs(p) => assert_eq!(p, "/r/dev/pts"),
        _ => panic!("expected a directory"),
    }
    let after = rootfs_setup_after("/r");
    match &after[6] {
        RootfsStep::WriteFile(p, c) => assert_eq!((p.as_str(), c.as_str()), ("/r/etc/hostname", "holycontainer\n")),
        _ => panic!("expected a file"),
    }
    let dev = device_steps("/r");
    match &dev[0] {
        RootfsStep::MakeDevice(p, mode, d) => {
            assert_eq!(p, "/r/dev/null");
            assert_eq!(*mode, 0o020666);
            assert_eq!(*d, makedev(1, 3));
        },
        _ => panic!("expected a device"),
    }
    match &dev[10] {
        RootfsStep::Symlink(t, l) => assert_eq!((t.as_str(), l.as_str()), ("/dev/pts/ptmx", "/r/dev/ptmx")),
        _ => panic!("expected a link"),
    }
}

#[test]
fn device_numbers_and_addresses() {
    assert_eq!(makedev(1, 3), 0x103);
    assert_eq!(makedev(0x1234, 0x56789), (0x1234u64 & 0xfff) << 8 | ((0x1234u64 & 0xfffff000) << 32) | ((0x56789u64 & 0xffffff00) << 12) | (0x56789u64 & 0xff));
    assert_eq!(rta_align(5), 8);
    assert_eq!(rta_align(8), 8);
    assert_eq!(parse_ipv4("10.0.0.1").unwrap(), [10, 0, 0, 1]);
    assert!(matches!(parse_ipv4("10.0.0"), Err(ContainerError::Network(_))));
    assert!(matches!(parse_ipv4("10.0.0.256"), Err(ContainerError::Network(_))));
}

#[test]
fn seccomp_program_shape() {
    let p = seccomp_filter();
    let blocked = blocked_syscalls();
    assert_eq!(blocked.len(), 16);
    assert_eq!(p.len(), 4 + blocked.len() + 2);
    assert_eq!((p[0].code, p[0].k), (0x20, 4));
    assert_eq!(p[1].k, 0xC000003E);
    assert_eq!(p[21].k, 0x0005_0001);
}

/// Runs the filter the way the kernel does, for loads, equality jumps and returns.
fn run_filter(arch: u32, nr: u32) -> u32 {
    let p = seccomp_filter();
    let mut pc = 0usize;
    let mut acc = 0u32;
    loop {
        let ins = &p[pc];
        match ins.code {
            0x20 => {
                acc = if ins.k == 0 { nr } else if ins.k == 4 { arch } else { 0 };
                pc += 1;
            },
            0x15 => {
                pc += 1 + if acc == ins.k { ins.jt as usize } else { ins.jf as usize };
            },
            0x06 => return ins.k,
            other => panic!("unexpected opcode {}", other),
        }
    }
}

#[test]
fn seccomp_decisions() {
    // reboot and kexec_load are refused with EPERM; ptrace and read are allowed
    assert_eq!(run_filter(0xC000003E, 169), 0x0005_0001);
    assert_eq!(run_filter(0xC000003E, 246), 0x0005_0001);
    assert_eq!(run_filter(0xC000003E, 101), 0x7fff_0000);
    assert_eq!(run_filter(0xC000003E, 0), 0x7fff_0000);
    // another architecture is killed
    assert_eq!(run_filter(0x4000_00B7, 0), 0);
}

#[test]
fn windows_process_setup() {
    assert_eq!(command_line(&vec!["cmd.exe".to_string(), "/c".to_string(), "echo hi".to_string()]), "cmd.exe /c \"echo hi\"");
    assert_eq!(command_line(&vec!["a\"b".to_string()]), "\"a\\\"b\"");
    let env = windows_env(&vec![("PATH".to_string(), "C:\\x".to_string())]);
    assert_eq!(env, vec![("PATH".to_string(), "C:\\x".to_string()), ("SYSTEMROOT".to_string(), "C:\\Windows".to_string())]);
    assert_eq!(to_wide("A\u{1F600}"), vec![0x41, 0xD83D, 0xDE00, 0]);
    assert_eq!(build_env_block(&[("A".to_string(), "1".to_string())]), vec![0x41, 0x3D, 0x31, 0, 0]);
}

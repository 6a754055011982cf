//! What a Linux container process is set up with: namespaces, identity
//! maps, capabilities kept, the mounts and devices of its root filesystem,
//! the libraries copied into a minimal one, and its `execve` environment.
use vstd::prelude::*;
use crate::compose::pair_views;
use crate::config::string_views;
use crate::netdev::{dev_number, makedev};
use crate::text::{chars_of, decimal, extend_chars, join_path, path_join, push_decimal, string_of};

verus! {

pub const CLONE_NEWNS: u64 = 0x00020000;
pub const CLONE_NEWUTS: u64 = 0x04000000;
pub const CLONE_NEWIPC: u64 = 0x08000000;
pub const CLONE_NEWUSER: u64 = 0x10000000;
pub const CLONE_NEWPID: u64 = 0x20000000;
pub const CLONE_NEWNET: u64 = 0x40000000;
pub const CLONE_NEWCGROUP: u64 = 0x02000000;

/// Every namespace a container gets: mount, UTS, IPC, PID, network, cgroup.
pub const ALL_NAMESPACES: u64 = 0x6E020000;

pub const MS_RDONLY: u64 = 1;
pub const MS_NOSUID: u64 = 2;
pub const MS_NODEV: u64 = 4;
pub const MS_NOEXEC: u64 = 8;
pub const MS_BIND: u64 = 4096;
pub const MS_REC: u64 = 16384;
pub const MS_PRIVATE: u64 = 0x40000;
pub const S_IFCHR: u32 = 0o020000;
pub const CAP_LAST_CAP: u32 = 37;

/// The namespace flags of a container are the union of its six namespaces.
pub proof fn lemma_all_namespaces()
    ensures
        ALL_NAMESPACES == CLONE_NEWNS | CLONE_NEWUTS | CLONE_NEWIPC | CLONE_NEWPID | CLONE_NEWNET | CLONE_NEWCGROUP,
{
    assert(0x6E020000u64 == 0x00020000u64 | 0x04000000u64 | 0x08000000u64 | 0x20000000u64 | 0x40000000u64
        | 0x02000000u64) by (bit_vector);
}

/// A user- or group-id map that makes id 0 inside the host id `id`.
pub fn id_map(id: u32) -> (s: String)
    ensures
        s@ == "0 "@ + decimal(id as nat) + " 1\n"@,
{
    let mut v: Vec<char> = Vec::new();
    extend_chars(&mut v, "0 ");
    push_decimal(&mut v, id as u64);
    extend_chars(&mut v, " 1\n");
    string_of(&v)
}

/// `/proc/<pid>/<leaf>`.
pub fn proc_path(pid: u32, leaf: &str) -> (s: String)
    ensures
        s@ == "/proc/"@ + decimal(pid as nat) + seq!['/'] + leaf@,
{
    let mut v: Vec<char> = Vec::new();
    extend_chars(&mut v, "/proc/");
    push_decimal(&mut v, pid as u64);
    v.push('/');
    extend_chars(&mut v, leaf);
    string_of(&v)
}

/// The namespaces `exec` joins, in order, with their flags.
pub open spec fn joined_namespaces() -> Seq<(Seq<char>, u64)> {
    seq![("pid"@, CLONE_NEWPID), ("mnt"@, CLONE_NEWNS), ("net"@, CLONE_NEWNET), ("uts"@, CLONE_NEWUTS), ("ipc"@, CLONE_NEWIPC)]
}

/// The namespace files of process `pid` that `exec` joins, with their flags.
pub fn namespace_entries(pid: u32) -> (r: Vec<(String, u64)>)
    ensures
        r@.len() == 5,
        forall|i: int| 0 <= i < 5 ==> (#[trigger] r@[i]).0@ == "/proc/"@ + decimal(pid as nat) + "/ns/"@
            + joined_namespaces()[i].0 && r@[i].1 == joined_namespaces()[i].1,
{
    let mut r: Vec<(String, u64)> = Vec::new();
    r.push((proc_path(pid, "ns/pid"), CLONE_NEWPID));
    r.push((proc_path(pid, "ns/mnt"), CLONE_NEWNS));
    r.push((proc_path(pid, "ns/net"), CLONE_NEWNET));
    r.push((proc_path(pid, "ns/uts"), CLONE_NEWUTS));
    r.push((proc_path(pid, "ns/ipc"), CLONE_NEWIPC));
    proof {
        reveal_strlit("ns/pid");
        reveal_strlit("ns/mnt");
        reveal_strlit("ns/net");
        reveal_strlit("ns/uts");
        reveal_strlit("ns/ipc");
        reveal_strlit("/ns/");
        reveal_strlit("pid");
        reveal_strlit("mnt");
        reveal_strlit("net");
        reveal_strlit("uts");
        reveal_strlit("ipc");
        let pre = "/proc/"@ + decimal(pid as nat);
        assert(r@[0].0@ =~= pre + "/ns/"@ + "pid"@);
        assert(r@[1].0@ =~= pre + "/ns/"@ + "mnt"@);
        assert(r@[2].0@ =~= pre + "/ns/"@ + "net"@);
        assert(r@[3].0@ =~= pre + "/ns/"@ + "uts"@);
        assert(r@[4].0@ =~= pre + "/ns/"@ + "ipc"@);
    }
    r
}

/// The `NAME=value` strings of an `execve` environment.
pub fn exec_env(env: &[(String, String)]) -> (r: Vec<String>)
    ensures
        r@.len() == env@.len(),
        forall|i: int| 0 <= i < env@.len() ==> (#[trigger] r@[i])@ == env@[i].0@ + seq!['='] + env@[i].1@,
{
    let mut r: Vec<String> = Vec::new();
    let mut i: usize = 0;
    while i < env.len()
        invariant
            i <= env@.len(),
            r@.len() == i,
            forall|j: int| 0 <= j < i ==> (#[trigger] r@[j])@ == env@[j].0@ + seq!['='] + env@[j].1@,
        decreases env@.len() - i,
    {
        let mut v: Vec<char> = Vec::new();
        extend_chars(&mut v, env[i].0.as_str());
        v.push('=');
        extend_chars(&mut v, env[i].1.as_str());
        r.push(string_of(&v));
        i += 1;
    }
    r
}

/// The capabilities a container keeps.
pub open spec fn retained_cap(c: u32) -> bool {
    c == 0 || c == 1 || c == 3 || c == 4 || c == 5 || c == 6 || c == 7 || c == 8 || c == 10 || c == 18 || c == 27
        || c == 29 || c == 31
}

fn is_retained(c: u32) -> (r: bool)
    ensures
        r == retained_cap(c),
{
    c == 0 || c == 1 || c == 3 || c == 4 || c == 5 || c == 6 || c == 7 || c == 8 || c == 10 || c == 18 || c == 27
        || c == 29 || c == 31
}

/// The capabilities dropped from a container's bounding set, in ascending
/// order: every one up to `CAP_LAST_CAP` it does not keep.
pub fn caps_to_drop() -> (r: Vec<u32>)
    ensures
        forall|i: int, j: int| 0 <= i < j < r@.len() ==> r@[i] < r@[j],
        forall|c: u32| c <= CAP_LAST_CAP && !retained_cap(c) <==> r@.contains(c),
{
    let mut r: Vec<u32> = Vec::new();
    let mut c: u32 = 0;
    while c <= CAP_LAST_CAP
        invariant
            c <= CAP_LAST_CAP + 1,
            forall|i: int, j: int| 0 <= i < j < r@.len() ==> r@[i] < r@[j],
            forall|i: int| 0 <= i < r@.len() ==> r@[i] < c,
            forall|x: u32| x < c && !retained_cap(x) <==> r@.contains(x),
        decreases CAP_LAST_CAP + 1 - c,
    {
        if !is_retained(c) {
            let ghost before = r@;
            r.push(c);
            assert forall|x: u32| x < c + 1 && !retained_cap(x) <==> r@.contains(x) by {
                if r@.contains(x) && x != c {
                    let k = choose|k: int| 0 <= k < r@.len() && r@[k] == x;
                    assert(before[k] == x);
                }
                if x < c && !retained_cap(x) {
                    let k = choose|k: int| 0 <= k < before.len() && before[k] == x;
                    assert(r@[k] == x);
                }
                if x == c && !retained_cap(x) {
                    assert(r@[r@.len() - 1] == x);
                }
            }
        } else {
            assert forall|x: u32| x < c + 1 && !retained_cap(x) <==> r@.contains(x) by {
                if r@.contains(x) {
                    let k = choose|k: int| 0 <= k < r@.len() && r@[k] == x;
                    assert(r@[k] < c);
                }
            }
        }
        c += 1;
    }
    r
}

/// Whether a failed capability drop stops the setup: every error but
/// `EINVAL` (22), which an older kernel gives for a capability it lacks.
pub fn cap_drop_error_is_fatal(errno: i32) -> (r: bool)
    ensures
        r == (errno != 22),
{
    errno != 22
}

/// The name prefixes of the shared libraries a minimal root filesystem gets.
pub open spec fn lib_prefixes() -> Seq<Seq<char>> {
    seq![
        "ld-linux"@, "libc."@, "libc-"@, "libdl"@, "libpthread"@, "librt"@, "libm."@, "libm-"@, "libresolv"@,
        "libnss"@, "libtinfo"@, "libncurses"@, "libreadline"@,
    ]
}

/// Whether `s` begins with `p`.
pub open spec fn starts_with(s: Seq<char>, p: Seq<char>) -> bool {
    p.len() <= s.len() && s.take(p.len() as int) == p
}

fn starts_with_lit(s: &[char], lit: &str) -> (r: bool)
    ensures
        r == starts_with(s@, lit@),
{
    let l = chars_of(lit);
    if l.len() > s.len() {
        return false;
    }
    let mut i: usize = 0;
    while i < l.len()
        invariant
            i <= l@.len(),
            l@ == lit@,
            l@.len() <= s@.len(),
            forall|j: int| 0 <= j < i ==> s@[j] == l@[j],
        decreases l@.len() - i,
    {
        if s[i] != l[i] {
            assert(s@.take(l@.len() as int)[i as int] != l@[i as int]);
            return false;
        }
        i += 1;
    }
    assert(s@.take(l@.len() as int) =~= l@);
    true
}

/// Whether a file in a library directory is copied into a minimal root
/// filesystem: its name starts with one of `lib_prefixes`.
pub fn is_wanted_library(name: &str) -> (r: bool)
    ensures
        r == exists|i: int| 0 <= i < lib_prefixes().len() && starts_with(name@, #[trigger] lib_prefixes()[i]),
{
    let c = chars_of(name);
    let names = [
        "ld-linux", "libc.", "libc-", "libdl", "libpthread", "librt", "libm.", "libm-", "libresolv", "libnss",
        "libtinfo", "libncurses", "libreadline",
    ];
    let mut i: usize = 0;
    proof {
        reveal_strlit("ld-linux");
        reveal_strlit("libc.");
        reveal_strlit("libc-");
        reveal_strlit("libdl");
        reveal_strlit("libpthread");
        reveal_strlit("librt");
        reveal_strlit("libm.");
        reveal_strlit("libm-");
        reveal_strlit("libresolv");
        reveal_strlit("libnss");
        reveal_strlit("libtinfo");
        reveal_strlit("libncurses");
        reveal_strlit("libreadline");
    }
    assert(names@.map_values(|s: &str| s@) =~= lib_prefixes());
    while i < names.len()
        invariant
            i <= 13,
            names@.len() == 13,
            c@ == name@,
            names@.map_values(|s: &str| s@) == lib_prefixes(),
            forall|j: int| 0 <= j < i ==> !starts_with(name@, #[trigger] lib_prefixes()[j]),
        decreases 13 - i,
    {
        assert(names@.map_values(|s: &str| s@)[i as int] == names@[i as int]@);
        if starts_with_lit(&c, names[i]) {
            return true;
        }
        i += 1;
    }
    false
}

/// A host path inside a root filesystem: the root joined with the path
/// stripped of its leading slashes.
pub open spec fn strip_slashes(p: Seq<char>) -> Seq<char>
    decreases p.len(),
{
    if p.len() > 0 && p[0] == '/' {
        strip_slashes(p.drop_first())
    } else {
        p
    }
}

/// Where a host path lands inside the root filesystem `rootfs`.
pub fn in_rootfs(rootfs: &str, host_path: &str) -> (r: String)
    ensures
        r@ == path_join(rootfs@, strip_slashes(host_path@)),
{
    let c = chars_of(host_path);
    let mut k: usize = 0;
    assert(c@.skip(0) =~= c@);
    while k < c.len() && c[k] == '/'
        invariant
            k <= c@.len(),
            c@ == host_path@,
            strip_slashes(c@.skip(k as int)) == strip_slashes(host_path@),
        decreases c@.len() - k,
    {
        assert(c@.skip(k as int).drop_first() =~= c@.skip(k + 1));
        k += 1;
    }
    assert(c@.skip(0) =~= c@);
    let mut rest: Vec<char> = Vec::new();
    let mut i = k;
    while i < c.len()
        invariant
            k <= i <= c@.len(),
            rest@ == c@.subrange(k as int, i as int),
        decreases c@.len() - i,
    {
        rest.push(c[i]);
        i += 1;
        assert(rest@ =~= c@.subrange(k as int, i as int));
    }
    assert(rest@ =~= c@.skip(k as int));
    let rs = string_of(&rest);
    join_path(rootfs, rs.as_str())
}

/// One step of preparing a container's root filesystem.
pub enum RootfsStep {
    /// `mount(source, target, fstype, flags, data)`.
    Mount { source: Option<String>, target: String, fstype: Option<String>, flags: u64, data: Option<String> },
    /// Create a directory and its parents.
    MakeDirs(String),
    /// Create a character device node `(path, mode, device number)`.
    MakeDevice(String, u32, u64),
    /// Create a symbolic link `(target, link)`.
    Symlink(String, String),
    /// Write a file, ignoring failure.
    WriteFile(String, String),
}

/// The character devices of a container: name, major, minor.
pub open spec fn device_table() -> Seq<(Seq<char>, u32, u32)> {
    seq![("null"@, 1u32, 3u32), ("zero"@, 1u32, 5u32), ("full"@, 1u32, 7u32), ("random"@, 1u32, 8u32), ("urandom"@, 1u32, 9u32), ("tty"@, 5u32, 0u32)]
}

/// The symbolic links under `/dev`: target, link name.
pub open spec fn dev_links() -> Seq<(Seq<char>, Seq<char>)> {
    seq![("/proc/self/fd"@, "fd"@), ("/proc/self/fd/0"@, "stdin"@), ("/proc/self/fd/1"@, "stdout"@), ("/proc/self/fd/2"@, "stderr"@), ("/dev/pts/ptmx"@, "ptmx"@)]
}

/// The device nodes and links of a container's `/dev`.
pub fn device_steps(rootfs: &str) -> (r: Vec<RootfsStep>)
    ensures
        r@.len() == 11,
        forall|i: int| 0 <= i < 6 ==> ((#[trigger] r@[i]) matches RootfsStep::MakeDevice(p, mode, dev) && p@ == path_join(
            path_join(rootfs@, "dev"@),
            device_table()[i].0,
        ) && mode == (S_IFCHR | 0o666) && dev == dev_number(device_table()[i].1, device_table()[i].2)),
        forall|i: int| 6 <= i < 11 ==> ((#[trigger] r@[i]) matches RootfsStep::Symlink(t, l) && t@ == dev_links()[i - 6].0
            && l@ == path_join(path_join(rootfs@, "dev"@), dev_links()[i - 6].1)),
{
    let dev = join_path(rootfs, "dev");
    let mode: u32 = S_IFCHR | 0o666;
    let mut r: Vec<RootfsStep> = Vec::new();
    r.push(RootfsStep::MakeDevice(join_path(dev.as_str(), "null"), mode, makedev(1, 3)));
    r.push(RootfsStep::MakeDevice(join_path(dev.as_str(), "zero"), mode, makedev(1, 5)));
    r.push(RootfsStep::MakeDevice(join_path(dev.as_str(), "full"), mode, makedev(1, 7)));
    r.push(RootfsStep::MakeDevice(join_path(dev.as_str(), "random"), mode, makedev(1, 8)));
    r.push(RootfsStep::MakeDevice(join_path(dev.as_str(), "urandom"), mode, makedev(1, 9)));
    r.push(RootfsStep::MakeDevice(join_path(dev.as_str(), "tty"), mode, makedev(5, 0)));
    r.push(RootfsStep::Symlink("/proc/self/fd".to_owned(), join_path(dev.as_str(), "fd")));
    r.push(RootfsStep::Symlink("/proc/self/fd/0".to_owned(), join_path(dev.as_str(), "stdin")));
    r.push(RootfsStep::Symlink("/proc/self/fd/1".to_owned(), join_path(dev.as_str(), "stdout")));
    r.push(RootfsStep::Symlink("/proc/self/fd/2".to_owned(), join_path(dev.as_str(), "stderr")));
    r.push(RootfsStep::Symlink("/dev/pts/ptmx".to_owned(), join_path(dev.as_str(), "ptmx")));
    r
}


/// The mathematical form of a [`RootfsStep`].
pub enum StepView {
    Mount { source: Option<Seq<char>>, target: Seq<char>, fstype: Option<Seq<char>>, flags: u64, data: Option<Seq<char>> },
    MakeDirs(Seq<char>),
    MakeDevice(Seq<char>, u32, u64),
    Symlink(Seq<char>, Seq<char>),
    WriteFile(Seq<char>, Seq<char>),
}

pub open spec fn opt_view(o: Option<String>) -> Option<Seq<char>> {
    match o {
        Some(s) => Some(s@),
        None => None,
    }
}

impl View for RootfsStep {
    type V = StepView;

    open spec fn view(&self) -> StepView {
        match self {
            RootfsStep::Mount { source, target, fstype, flags, data } => StepView::Mount {
                source: opt_view(*source),
                target: target@,
                fstype: opt_view(*fstype),
                flags: *flags,
                data: opt_view(*data),
            },
            RootfsStep::MakeDirs(p) => StepView::MakeDirs(p@),
            RootfsStep::MakeDevice(p, m, d) => StepView::MakeDevice(p@, *m, *d),
            RootfsStep::Symlink(t, l) => StepView::Symlink(t@, l@),
            RootfsStep::WriteFile(p, c) => StepView::WriteFile(p@, c@),
        }
    }
}

/// The directories created inside a container's root filesystem.
pub open spec fn rootfs_dirs() -> Seq<Seq<char>> {
    seq!["proc"@, "sys"@, "dev"@, "dev/pts"@, "dev/shm"@, "tmp"@, "run"@, "etc"@, "root"@, "var"@]
}

/// A mount step.
pub open spec fn mount_view(source: Option<Seq<char>>, target: Seq<char>, fstype: Option<Seq<char>>, flags: u64, data: Option<Seq<char>>) -> StepView {
    StepView::Mount { source, target, fstype, flags, data }
}

/// How a container's root filesystem is prepared, before and after its
/// devices: the host root made private, the root filesystem bind-mounted
/// onto itself, its directories made, then `/proc`, a read-only `/sys`, a
/// `tmpfs` `/dev`; after the devices, `devpts`, `/dev/shm` and `/tmp`, and the
/// DNS and host name files.
pub open spec fn rootfs_steps_before(r: Seq<char>) -> Seq<StepView> {
    seq![
        mount_view(None, "/"@, None, MS_REC | MS_PRIVATE, None),
        mount_view(Some(r), r, None, MS_BIND | MS_REC, None),
    ] + rootfs_dirs().map_values(|d: Seq<char>| StepView::MakeDirs(path_join(r, d))) + seq![
        mount_view(Some("proc"@), path_join(r, "proc"@), Some("proc"@), MS_NOSUID | MS_NOEXEC | MS_NODEV, None),
        mount_view(Some("sysfs"@), path_join(r, "sys"@), Some("sysfs"@), MS_NOSUID | MS_NOEXEC | MS_NODEV | MS_RDONLY, None),
        mount_view(Some("tmpfs"@), path_join(r, "dev"@), Some("tmpfs"@), MS_NOSUID, Some("mode=755,size=65536k"@)),
    ]
}

pub open spec fn rootfs_steps_after(r: Seq<char>) -> Seq<StepView> {
    seq![
        StepView::MakeDirs(path_join(r, "dev/pts"@)),
        mount_view(Some("devpts"@), path_join(r, "dev/pts"@), Some("devpts"@), MS_NOSUID | MS_NOEXEC, Some("newinstance,ptmxmode=0666,mode=620"@)),
        StepView::MakeDirs(path_join(r, "dev/shm"@)),
        mount_view(Some("shm"@), path_join(r, "dev/shm"@), Some("tmpfs"@), MS_NOSUID | MS_NODEV | MS_NOEXEC, Some("mode=1777,size=65536k"@)),
        mount_view(Some("tmpfs"@), path_join(r, "tmp"@), Some("tmpfs"@), MS_NOSUID | MS_NODEV, Some("mode=1777"@)),
        StepView::WriteFile(path_join(r, "etc/resolv.conf"@), "nameserver 8.8.8.8\nnameserver 8.8.4.4\n"@),
        StepView::WriteFile(path_join(r, "etc/hostname"@), "holycontainer\n"@),
    ]
}

fn mount_step(source: Option<&str>, target: String, fstype: Option<&str>, flags: u64, data: Option<&str>) -> (s: RootfsStep)
    ensures
        s@ == mount_view(
            match source { Some(x) => Some(x@), None => None },
            target@,
            match fstype { Some(x) => Some(x@), None => None },
            flags,
            match data { Some(x) => Some(x@), None => None },
        ),
{
    RootfsStep::Mount {
        source: match source { Some(x) => Some(x.to_owned()), None => None },
        target,
        fstype: match fstype { Some(x) => Some(x.to_owned()), None => None },
        flags,
        data: match data { Some(x) => Some(x.to_owned()), None => None },
    }
}

/// The steps that prepare a container's root filesystem up to its devices.
pub fn rootfs_setup_before(rootfs: &str) -> (v: Vec<RootfsStep>)
    ensures
        v@.map_values(|s: RootfsStep| s@) == rootfs_steps_before(rootfs@),
{
    let mut v: Vec<RootfsStep> = Vec::new();
    v.push(mount_step(None, "/".to_owned(), None, MS_REC | MS_PRIVATE, None));
    v.push(mount_step(Some(rootfs), rootfs.to_owned(), None, MS_BIND | MS_REC, None));
    let dirs = ["proc", "sys", "dev", "dev/pts", "dev/shm", "tmp", "run", "etc", "root", "var"];
    assert(dirs@.map_values(|s: &str| s@) =~= rootfs_dirs());
    let mut i: usize = 0;
    while i < dirs.len()
        invariant
            i <= 10,
            dirs@.len() == 10,
            dirs@.map_values(|s: &str| s@) == rootfs_dirs(),
            v@.map_values(|s: RootfsStep| s@) == seq![
                mount_view(None, "/"@, None, MS_REC | MS_PRIVATE, None),
                mount_view(Some(rootfs@), rootfs@, None, MS_BIND | MS_REC, None),
            ] + rootfs_dirs().take(i as int).map_values(|d: Seq<char>| StepView::MakeDirs(path_join(rootfs@, d))),
        decreases 10 - i,
    {
        let ghost before = v@;
        assert(dirs@.map_values(|s: &str| s@)[i as int] == dirs@[i as int]@);
        v.push(RootfsStep::MakeDirs(join_path(rootfs, dirs[i])));
        assert(rootfs_dirs().take(i + 1).map_values(|d: Seq<char>| StepView::MakeDirs(path_join(rootfs@, d)))
            =~= rootfs_dirs().take(i as int).map_values(|d: Seq<char>| StepView::MakeDirs(path_join(rootfs@, d))).push(
            StepView::MakeDirs(path_join(rootfs@, rootfs_dirs()[i as int]))));
        assert(v@.map_values(|s: RootfsStep| s@) =~= before.map_values(|s: RootfsStep| s@).push(
            StepView::MakeDirs(path_join(rootfs@, rootfs_dirs()[i as int]))));
        i += 1;
    }
    assert(rootfs_dirs().take(10) =~= rootfs_dirs());
    let ghost mid = v@;
    v.push(mount_step(Some("proc"), join_path(rootfs, "proc"), Some("proc"), MS_NOSUID | MS_NOEXEC | MS_NODEV, None));
    v.push(mount_step(Some("sysfs"), join_path(rootfs, "sys"), Some("sysfs"), MS_NOSUID | MS_NOEXEC | MS_NODEV | MS_RDONLY, None));
    v.push(mount_step(Some("tmpfs"), join_path(rootfs, "dev"), Some("tmpfs"), MS_NOSUID, Some("mode=755,size=65536k")));
    assert(v@.map_values(|s: RootfsStep| s@) =~= mid.map_values(|s: RootfsStep| s@) + seq![
        mount_view(Some("proc"@), path_join(rootfs@, "proc"@), Some("proc"@), MS_NOSUID | MS_NOEXEC | MS_NODEV, None),
        mount_view(Some("sysfs"@), path_join(rootfs@, "sys"@), Some("sysfs"@), MS_NOSUID | MS_NOEXEC | MS_NODEV | MS_RDONLY, None),
        mount_view(Some("tmpfs"@), path_join(rootfs@, "dev"@), Some("tmpfs"@), MS_NOSUID, Some("mode=755,size=65536k"@)),
    ]);
    v
}

/// The steps that finish a container's root filesystem after its devices.
pub fn rootfs_setup_after(rootfs: &str) -> (v: Vec<RootfsStep>)
    ensures
        v@.map_values(|s: RootfsStep| s@) == rootfs_steps_after(rootfs@),
{
    let mut v: Vec<RootfsStep> = Vec::new();
    v.push(RootfsStep::MakeDirs(join_path(rootfs, "dev/pts")));
    v.push(mount_step(Some("devpts"), join_path(rootfs, "dev/pts"), Some("devpts"), MS_NOSUID | MS_NOEXEC, Some("newinstance,ptmxmode=0666,mode=620")));
    v.push(RootfsStep::MakeDirs(join_path(rootfs, "dev/shm")));
    v.push(mount_step(Some("shm"), join_path(rootfs, "dev/shm"), Some("tmpfs"), MS_NOSUID | MS_NODEV | MS_NOEXEC, Some("mode=1777,size=65536k")));
    v.push(mount_step(Some("tmpfs"), join_path(rootfs, "tmp"), Some("tmpfs"), MS_NOSUID | MS_NODEV, Some("mode=1777")));
    v.push(RootfsStep::WriteFile(join_path(rootfs, "etc/resolv.conf"), "nameserver 8.8.8.8\nnameserver 8.8.4.4\n".to_owned()));
    v.push(RootfsStep::WriteFile(join_path(rootfs, "etc/hostname"), "holycontainer\n".to_owned()));
    assert(v@.map_values(|s: RootfsStep| s@) =~= rootfs_steps_after(rootfs@));
    v
}

} // verus!

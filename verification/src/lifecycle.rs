//! The container lifecycle: which operations each state allows, what each
//! changes in the stored configuration, the environment a container starts
//! with, and the rows of the status table.
use vstd::prelude::*;
use vstd::string::StringSliceAdditionalSpecFns;
use vstd::utf8::{decode_utf8, encode_utf8, is_char_boundary};
use crate::compose::pair_views;
use crate::config::{ContainerConfig, ContainerState, ConfigView, state_name, string_views};
use crate::error::ContainerError;
use crate::text::{chars_of, decimal, extend_chars, push_decimal, string_of};

verus! {

/// The platform whose defaults apply.
#[derive(Copy, Clone, Debug, PartialEq, Eq, Structural)]
pub enum Platform {
    Linux,
    Windows,
}

/// A container may be started unless it is running.
pub open spec fn start_allowed(s: ContainerState) -> bool {
    s != ContainerState::Running
}

/// A container may be stopped only while it is running.
pub open spec fn stop_allowed(s: ContainerState) -> bool {
    s == ContainerState::Running
}

/// A container may be deleted unless it is running.
pub open spec fn delete_allowed(s: ContainerState) -> bool {
    s != ContainerState::Running
}

/// `NotFound(name)` unless the container's state directory exists.
pub fn require_exists(name: &str, exists: bool) -> (r: Result<(), ContainerError>)
    ensures
        exists ==> r is Ok,
        !exists ==> (r matches Err(ContainerError::NotFound(n)) && n@ == name@),
{
    if !exists {
        return Err(ContainerError::NotFound(name.to_owned()));
    }
    Ok(())
}

/// The checks before a container is created: its state directory must not
/// exist yet and its root filesystem must.
pub fn check_create(name: &str, rootfs: &str, state_dir_exists: bool, rootfs_exists: bool) -> (r: Result<(), ContainerError>)
    ensures
        state_dir_exists ==> (r matches Err(ContainerError::Config(m)) && m@ == "container '"@ + name@
            + "' already exists"@),
        !state_dir_exists && !rootfs_exists ==> (r matches Err(ContainerError::Filesystem(m)) && m@
            == "rootfs does not exist: "@ + rootfs@),
        !state_dir_exists && rootfs_exists ==> r is Ok,
{
    if state_dir_exists {
        let mut v: Vec<char> = Vec::new();
        extend_chars(&mut v, "container '");
        extend_chars(&mut v, name);
        extend_chars(&mut v, "' already exists");
        return Err(ContainerError::Config(string_of(&v)));
    }
    if !rootfs_exists {
        let mut v: Vec<char> = Vec::new();
        extend_chars(&mut v, "rootfs does not exist: ");
        extend_chars(&mut v, rootfs);
        return Err(ContainerError::Filesystem(string_of(&v)));
    }
    Ok(())
}

/// The configuration with a new state and process id.
pub open spec fn with_state(v: ConfigView, s: ContainerState, pid: u32) -> ConfigView {
    ConfigView { state: s, pid: pid, ..v }
}

/// Records that the container was created.
pub fn mark_created(cfg: &mut ContainerConfig)
    ensures
        final(cfg)@ == with_state(old(cfg)@, ContainerState::Created, old(cfg)@.pid),
        final(cfg).env.wf() == old(cfg).env.wf(),
{
    cfg.state = ContainerState::Created;
}

/// The error for an operation the current state does not allow.
pub open spec fn invalid_state(e: ContainerError, name: Seq<char>, current: Seq<char>, expected: Seq<char>) -> bool {
    e matches ContainerError::InvalidState { name: n, current: c, expected: x } && n@ == name && c@ == current
        && x@ == expected
}

/// Whether a variable named `k` is set.
pub open spec fn has_env_key(e: Seq<(Seq<char>, Seq<char>)>, k: Seq<char>) -> bool {
    exists|i: int| 0 <= i < e.len() && #[trigger] e[i].0 == k
}

/// `e` with `(k, v)` added unless `k` is already set.
pub open spec fn env_default(e: Seq<(Seq<char>, Seq<char>)>, k: Seq<char>, v: Seq<char>) -> Seq<(Seq<char>, Seq<char>)> {
    if has_env_key(e, k) {
        e
    } else {
        e.push((k, v))
    }
}

/// The environment a container starts with: its own variables, then those
/// of `HOME` (on Windows, `USERPROFILE` when `HOME` is missing), `TERM`,
/// `HOSTNAME` and, on Linux, `PATH` that it does not set.
pub open spec fn start_env(e: Seq<(Seq<char>, Seq<char>)>, hostname: Seq<char>, p: Platform) -> Seq<(Seq<char>, Seq<char>)> {
    let e1 = if p == Platform::Linux {
        env_default(e, "HOME"@, "/root"@)
    } else if has_env_key(e, "HOME"@) {
        e
    } else {
        e.push(("USERPROFILE"@, "C:\\Users\\ContainerUser"@))
    };
    let e2 = env_default(e1, "TERM"@, "xterm-256color"@);
    let e3 = env_default(e2, "HOSTNAME"@, hostname);
    if p == Platform::Linux {
        env_default(e3, "PATH"@, "/usr/local/sbin:/usr/local/bin:/usr/sbin:/usr/bin:/sbin:/bin"@)
    } else {
        e3
    }
}

/// The command a container starts with: the given one, else the stored
/// one, else the platform's shell.
pub open spec fn start_command(stored: Seq<Seq<char>>, given: Option<Seq<Seq<char>>>, p: Platform) -> Seq<Seq<char>> {
    let c = match given {
        Some(g) => g,
        None => stored,
    };
    if c.len() == 0 {
        if p == Platform::Linux {
            seq!["/bin/sh"@]
        } else {
            seq!["cmd.exe"@]
        }
    } else {
        c
    }
}

/// Whether `key` names a variable in `env`.
fn env_has(env: &Vec<(String, String)>, key: &str) -> (r: bool)
    ensures
        r == has_env_key(pair_views(env@), key@),
{
    let k = key.to_owned();
    let mut i: usize = 0;
    while i < env.len()
        invariant
            i <= env@.len(),
            k@ == key@,
            forall|j: int| 0 <= j < i ==> #[trigger] env@[j].0@ != key@,
        decreases env@.len() - i,
    {
        if env[i].0 == k {
            assert(pair_views(env@)[i as int].0 == key@);
            return true;
        }
        i += 1;
    }
    proof {
        if has_env_key(pair_views(env@), key@) {
            let j = choose|j: int| 0 <= j < pair_views(env@).len() && #[trigger] pair_views(env@)[j].0 == key@;
            assert(env@[j].0@ != key@);
        }
    }
    false
}

/// Adds `(key, value)` unless `key` is set.
fn push_default(env: &mut Vec<(String, String)>, key: &str, value: String)
    ensures
        pair_views(final(env)@) == env_default(pair_views(old(env)@), key@, value@),
{
    if !env_has(env, key) {
        let ghost before = env@;
        env.push((key.to_owned(), value));
        assert(pair_views(env@) =~= pair_views(before).push((key@, value@)));
    }
}

/// Gets a container ready to start: refuses a running one, fixes the command
/// and gives the environment to start it with. The configuration changes
/// only in its command.
pub fn prepare_start(cfg: &mut ContainerConfig, name: &str, command: Option<Vec<String>>, platform: Platform) -> (r: Result<Vec<(String, String)>, ContainerError>)
    ensures
        !start_allowed(old(cfg).state) ==> r is Err && invalid_state(r->Err_0, name@, "running"@, "created or stopped"@)
            && final(cfg)@ == old(cfg)@,
        start_allowed(old(cfg).state) ==> r is Ok && pair_views(r->Ok_0@) == start_env(
            old(cfg).env@,
            old(cfg).hostname@,
            platform,
        ) && final(cfg)@ == (ConfigView {
            command: start_command(
                old(cfg)@.command,
                match command {
                    Some(c) => Some(string_views(c@)),
                    None => None,
                },
                platform,
            ),
            ..old(cfg)@
        }),
        final(cfg).env == old(cfg).env,
{
    if cfg.state == ContainerState::Running {
        return Err(
            ContainerError::InvalidState {
                name: name.to_owned(),
                current: "running".to_owned(),
                expected: "created or stopped".to_owned(),
            },
        );
    }
    match command {
        Some(c) => {
            cfg.command = c;
        },
        None => {},
    }
    if cfg.command.len() == 0 {
        let mut c: Vec<String> = Vec::new();
        match platform {
            Platform::Linux => c.push("/bin/sh".to_owned()),
            Platform::Windows => c.push("cmd.exe".to_owned()),
        }
        assert(string_views(c@) =~= (if platform == Platform::Linux {
            seq!["/bin/sh"@]
        } else {
            seq!["cmd.exe"@]
        }));
        cfg.command = c;
    }
    let mut env: Vec<(String, String)> = Vec::new();
    let n = cfg.env.len();
    let mut i: usize = 0;
    while i < n
        invariant
            i <= n,
            n == cfg.env@.len(),
            pair_views(env@) == cfg.env@.take(i as int),
        decreases n - i,
    {
        let (k, v) = cfg.env.entry(i);
        let ghost before = env@;
        env.push((k.clone(), v.clone()));
        assert(pair_views(env@) =~= pair_views(before).push(cfg.env@[i as int]));
        i += 1;
        assert(cfg.env@.take(i as int) =~= cfg.env@.take(i - 1).push(cfg.env@[i - 1]));
    }
    assert(cfg.env@.take(n as int) =~= cfg.env@);
    match platform {
        Platform::Linux => push_default(&mut env, "HOME", "/root".to_owned()),
        Platform::Windows => {
            if !env_has(&env, "HOME") {
                let ghost before = env@;
                env.push(("USERPROFILE".to_owned(), "C:\\Users\\ContainerUser".to_owned()));
                assert(pair_views(env@) =~= pair_views(before).push(("USERPROFILE"@, "C:\\Users\\ContainerUser"@)));
            }
        },
    }
    push_default(&mut env, "TERM", "xterm-256color".to_owned());
    push_default(&mut env, "HOSTNAME", cfg.hostname.clone());
    if platform == Platform::Linux {
        push_default(&mut env, "PATH", "/usr/local/sbin:/usr/local/bin:/usr/sbin:/usr/bin:/sbin:/bin".to_owned());
    }
    Ok(env)
}

/// Records that the container runs as process `pid`.
pub fn mark_started(cfg: &mut ContainerConfig, pid: u32)
    ensures
        final(cfg)@ == with_state(old(cfg)@, ContainerState::Running, pid),
        final(cfg).env == old(cfg).env,
{
    cfg.state = ContainerState::Running;
    cfg.pid = pid;
}

/// Checks that a container may be stopped; gives the process to stop.
pub fn check_stop(cfg: &ContainerConfig, name: &str) -> (r: Result<u32, ContainerError>)
    ensures
        stop_allowed(cfg.state) ==> r == Ok::<u32, ContainerError>(cfg.pid),
        !stop_allowed(cfg.state) ==> r is Err && invalid_state(r->Err_0, name@, state_name(cfg.state), "running"@),
{
    if cfg.state != ContainerState::Running {
        return Err(
            ContainerError::InvalidState {
                name: name.to_owned(),
                current: cfg.state.as_str().to_owned(),
                expected: "running".to_owned(),
            },
        );
    }
    Ok(cfg.pid)
}

/// Records that the container was stopped.
pub fn mark_stopped(cfg: &mut ContainerConfig)
    ensures
        final(cfg)@ == with_state(old(cfg)@, ContainerState::Stopped, 0),
        final(cfg).env == old(cfg).env,
{
    cfg.state = ContainerState::Stopped;
    cfg.pid = 0;
}

/// Checks that a container may be deleted.
pub fn check_delete(cfg: &ContainerConfig, name: &str) -> (r: Result<(), ContainerError>)
    ensures
        delete_allowed(cfg.state) ==> r is Ok,
        !delete_allowed(cfg.state) ==> r is Err && invalid_state(r->Err_0, name@, "running"@, "created or stopped"@),
{
    if cfg.state == ContainerState::Running {
        return Err(
            ContainerError::InvalidState {
                name: name.to_owned(),
                current: "running".to_owned(),
                expected: "created or stopped".to_owned(),
            },
        );
    }
    Ok(())
}

/// Starting a container makes it stoppable and keeps it from being started
/// again or deleted; stopping it does the reverse and forgets its process.
pub proof fn lemma_lifecycle(v: ConfigView, pid: u32)
    ensures
        stop_allowed(with_state(v, ContainerState::Running, pid).state),
        !start_allowed(with_state(v, ContainerState::Running, pid).state),
        !delete_allowed(with_state(v, ContainerState::Running, pid).state),
        with_state(v, ContainerState::Running, pid).pid == pid,
        start_allowed(with_state(with_state(v, ContainerState::Running, pid), ContainerState::Stopped, 0).state),
        delete_allowed(with_state(with_state(v, ContainerState::Running, pid), ContainerState::Stopped, 0).state),
        !stop_allowed(with_state(with_state(v, ContainerState::Running, pid), ContainerState::Stopped, 0).state),
        with_state(with_state(v, ContainerState::Running, pid), ContainerState::Stopped, 0).pid == 0,
        with_state(with_state(v, ContainerState::Running, pid), ContainerState::Stopped, 0) == with_state(
            v,
            ContainerState::Stopped,
            0,
        ),
{
}

// ----- The status table -----

/// `s` padded with spaces to at least `w` characters.
pub open spec fn pad_right(s: Seq<char>, w: nat) -> Seq<char> {
    if s.len() >= w {
        s
    } else {
        s + Seq::new((w - s.len()) as nat, |i: int| ' ')
    }
}

pub(crate) fn push_padded(out: &mut Vec<char>, s: &str, w: usize)
    ensures
        final(out)@ == old(out)@ + pad_right(s@, w as nat),
{
    let c = chars_of(s);
    extend_chars(out, s);
    let ghost mid = out@;
    if c.len() < w {
        let mut k = c.len();
        assert(out@ =~= mid + Seq::new((k - c@.len()) as nat, |i: int| ' '));
        while k < w
            invariant
                c@ == s@,
                c@.len() <= k <= w,
                out@ == mid + Seq::new((k - c@.len()) as nat, |i: int| ' '),
            decreases w - k,
        {
            out.push(' ');
            k += 1;
            assert(out@ =~= mid + Seq::new((k - c@.len()) as nat, |i: int| ' '));
        }
    }
    assert(out@ =~= old(out)@ + pad_right(s@, w as nat));
}

/// The heading of the status table.
pub fn status_header() -> (s: String)
    ensures
        s@ == pad_right("NAME"@, 20) + seq![' '] + pad_right("STATE"@, 12) + seq![' '] + pad_right("PID"@, 8)
            + seq![' '] + pad_right("ROOTFS"@, 30) + seq![' '] + "COMMAND"@,
{
    let mut v: Vec<char> = Vec::new();
    push_padded(&mut v, "NAME", 20);
    v.push(' ');
    push_padded(&mut v, "STATE", 12);
    v.push(' ');
    push_padded(&mut v, "PID", 8);
    v.push(' ');
    push_padded(&mut v, "ROOTFS", 30);
    v.push(' ');
    extend_chars(&mut v, "COMMAND");
    string_of(&v)
}

/// The rule under the heading: 90 dashes.
pub fn status_rule() -> (s: String)
    ensures
        s@ == Seq::new(90, |i: int| '-'),
{
    let mut v: Vec<char> = Vec::new();
    while v.len() < 90
        invariant
            v@.len() <= 90,
            v@ == Seq::new(v@.len(), |i: int| '-'),
        decreases 90 - v@.len(),
    {
        v.push('-');
        assert(v@ =~= Seq::new(v@.len(), |i: int| '-'));
    }
    string_of(&v)
}

/// Words joined by single spaces.
pub open spec fn space_join(ws: Seq<Seq<char>>) -> Seq<char>
    decreases ws.len(),
{
    if ws.len() == 0 {
        Seq::empty()
    } else if ws.len() == 1 {
        ws[0]
    } else {
        space_join(ws.drop_last()) + seq![' '] + ws.last()
    }
}

/// A root filesystem path as the table shows it: one of more than 28 bytes
/// as `...` and its last 25 bytes.
pub open spec fn rootfs_short_of(s: Seq<char>) -> Seq<char> {
    let b = encode_utf8(s);
    if b.len() > 28 {
        "..."@ + decode_utf8(b.subrange(b.len() - 25, b.len() as int))
    } else {
        s
    }
}

/// Shortens a root filesystem path for the table.
pub fn rootfs_short(s: &str) -> (r: String)
    requires
        s.spec_bytes().len() > 28 ==> is_char_boundary(s.spec_bytes(), s.spec_bytes().len() - 25),
    ensures
        r@ == rootfs_short_of(s@),
{
    let n = s.as_bytes().len();
    if n > 28 {
        let (_, tail) = s.split_at(n - 25);
        proof {
            vstd::utf8::encode_utf8_decode_utf8(tail@);
        }
        let mut v: Vec<char> = Vec::new();
        extend_chars(&mut v, "...");
        extend_chars(&mut v, tail);
        string_of(&v)
    } else {
        s.to_owned()
    }
}

/// One row of the status table: name, state (`dead` for a running
/// container whose process is gone), pid (`-` when 0), short root
/// filesystem, and command (`<none>` when empty).
pub open spec fn status_row_of(c: ConfigView, alive: bool, short: Seq<char>) -> Seq<char> {
    pad_right(c.name, 20) + seq![' '] + pad_right(
        if c.state == ContainerState::Running && !alive {
            "dead"@
        } else {
            state_name(c.state)
        },
        12,
    ) + seq![' '] + pad_right(pid_text_of(c.pid), 8) + seq![' '] + pad_right(short, 30) + seq![' ']
        + command_text_of(c.command)
}

/// The command column: the words joined by spaces, or `<none>`.
pub open spec fn command_text_of(cmd: Seq<Seq<char>>) -> Seq<char> {
    if cmd.len() == 0 {
        "<none>"@
    } else {
        space_join(cmd)
    }
}

fn command_text(cmd: &Vec<String>) -> (s: String)
    ensures
        s@ == command_text_of(string_views(cmd@)),
{
    if cmd.len() == 0 {
        return "<none>".to_owned();
    }
    let mut v: Vec<char> = Vec::new();
    let mut i: usize = 0;
    assert(string_views(cmd@).take(0) =~= Seq::<Seq<char>>::empty());
    while i < cmd.len()
        invariant
            i <= cmd@.len(),
            v@ == space_join(string_views(cmd@).take(i as int)),
        decreases cmd@.len() - i,
    {
        if i > 0 {
            v.push(' ');
        }
        extend_chars(&mut v, cmd[i].as_str());
        assert(string_views(cmd@).take(i + 1).drop_last() =~= string_views(cmd@).take(i as int));
        if i == 0 {
            assert(string_views(cmd@).take(1) =~= seq![cmd@[0]@]);
        }
        i += 1;
        assert(v@ =~= space_join(string_views(cmd@).take(i as int)));
    }
    assert(string_views(cmd@).take(cmd@.len() as int) =~= string_views(cmd@));
    string_of(&v)
}

/// The pid column: the number, or `-` for 0.
pub open spec fn pid_text_of(pid: u32) -> Seq<char> {
    if pid > 0 {
        decimal(pid as nat)
    } else {
        "-"@
    }
}

fn pid_text(pid: u32) -> (s: String)
    ensures
        s@ == pid_text_of(pid),
{
    if pid > 0 {
        let mut p: Vec<char> = Vec::new();
        push_decimal(&mut p, pid as u64);
        string_of(&p)
    } else {
        "-".to_owned()
    }
}

/// Formats one row of the status table; `alive` says whether a running
/// container's process still exists.
pub fn status_row(c: &ContainerConfig, alive: bool) -> (s: String)
    requires
        encode_utf8(c.rootfs@).len() > 28 ==> is_char_boundary(
            encode_utf8(c.rootfs@),
            encode_utf8(c.rootfs@).len() - 25,
        ),
    ensures
        s@ == status_row_of(c@, alive, rootfs_short_of(c.rootfs@)),
{
    let st = if c.state == ContainerState::Running && !alive {
        "dead"
    } else {
        c.state.as_str()
    };
    let pt = pid_text(c.pid);
    let short = rootfs_short(c.rootfs.as_str());
    let ct = command_text(&c.command);
    let mut v: Vec<char> = Vec::new();
    push_padded(&mut v, c.name.as_str(), 20);
    v.push(' ');
    push_padded(&mut v, st, 12);
    v.push(' ');
    push_padded(&mut v, pt.as_str(), 8);
    v.push(' ');
    push_padded(&mut v, short.as_str(), 30);
    v.push(' ');
    extend_chars(&mut v, ct.as_str());
    assert(v@ =~= status_row_of(c@, alive, rootfs_short_of(c.rootfs@)));
    string_of(&v)
}

} // verus!

//! Container configuration and its line-oriented `key=value` format.
//!
//! ```text
//! name=mycontainer
//! rootfs=/path/to/rootfs
//! hostname=mycontainer
//! state=created
//! pid=0
//! workdir=/
//! memory_bytes=134217728
//! cpu_percent=50
//! max_pids=64
//! network_enabled=true
//! ip_address=10.0.0.2
//! bridge_ip=10.0.0.1
//! subnet_bits=24
//! port=8080:80
//! env.PATH=/usr/bin
//! cmd=/bin/sh
//! ```
use vstd::prelude::*;
use crate::envmap::{EnvMap, env_insert, sorted_keys, lemma_env_insert_last};
use crate::error::ContainerError;
use crate::text::{
    chars_of, decimal, extend_chars, extend_from, find_char, find_from, lines, next_line,
    parse_uint_exec, parse_uint_max, push_decimal, range_eq_lit, range_starts_with_lit,
    string_of, string_of_range, trim, trim_bounds, path_join, join_path, is_ws, strip_cr,
    lemma_find_char, lemma_find_char_at, lemma_find_char_none, lemma_decimal, lemma_parse_decimal,
    lemma_trim_id, is_digit, prefixed_range,
};

verus! {

/// Lifecycle state of a container.
#[derive(Debug, Clone, Copy, PartialEq, Eq, Structural)]
pub enum ContainerState {
    Created,
    Running,
    Stopped,
}

/// The name under which a state is written.
pub open spec fn state_name(s: ContainerState) -> Seq<char> {
    match s {
        ContainerState::Created => "created"@,
        ContainerState::Running => "running"@,
        ContainerState::Stopped => "stopped"@,
    }
}

/// The state written as `s`, if any.
pub open spec fn state_of(s: Seq<char>) -> Option<ContainerState> {
    if s == "created"@ {
        Some(ContainerState::Created)
    } else if s == "running"@ {
        Some(ContainerState::Running)
    } else if s == "stopped"@ {
        Some(ContainerState::Stopped)
    } else {
        None
    }
}

impl ContainerState {
    pub fn as_str(&self) -> (s: &'static str)
        ensures
            s@ == state_name(*self),
    {
        match self {
            ContainerState::Created => "created",
            ContainerState::Running => "running",
            ContainerState::Stopped => "stopped",
        }
    }

    pub fn from_str(s: &str) -> (r: Option<ContainerState>)
        ensures
            r == state_of(s@),
    {
        let c = chars_of(s);
        assert(c@.subrange(0, c@.len() as int) =~= s@);
        if range_eq_lit(&c, 0, c.len(), "created") {
            Some(ContainerState::Created)
        } else if range_eq_lit(&c, 0, c.len(), "running") {
            Some(ContainerState::Running)
        } else if range_eq_lit(&c, 0, c.len(), "stopped") {
            Some(ContainerState::Stopped)
        } else {
            proof {
                assert(c@.subrange(0, c@.len() as int) =~= s@);
            }
            None
        }
    }
}

/// Reading back the name of a state gives the state.
pub proof fn lemma_state_name_roundtrip(s: ContainerState)
    ensures
        state_of(state_name(s)) == Some(s),
{
    reveal_strlit("created");
    reveal_strlit("running");
    reveal_strlit("stopped");
    assert("created"@[0] != "running"@[0]);
    assert("created"@[0] != "stopped"@[0]);
    assert("running"@[0] != "stopped"@[0]);
}

/// Resource limits for the container; 0 means unlimited.
#[derive(Debug, Clone, Copy, PartialEq, Eq, Structural)]
pub struct ResourceLimits {
    /// Memory limit in bytes.
    pub memory_bytes: u64,
    /// CPU percentage (1-100).
    pub cpu_percent: u32,
    /// Maximum number of processes/threads.
    pub max_pids: u32,
}

impl Default for ResourceLimits {
    fn default() -> (r: Self)
        ensures
            r.memory_bytes == 0 && r.cpu_percent == 0 && r.max_pids == 0,
    {
        ResourceLimits { memory_bytes: 0, cpu_percent: 0, max_pids: 0 }
    }
}

/// Network configuration.
#[derive(Debug, Clone)]
pub struct NetworkConfig {
    /// Whether to enable networking.
    pub enabled: bool,
    /// Container IP address (e.g. "10.0.0.2").
    pub ip_address: String,
    /// Bridge IP on the host side (e.g. "10.0.0.1").
    pub bridge_ip: String,
    /// Subnet mask bits (e.g. 24 for /24).
    pub subnet_bits: u8,
    /// Port mappings: host port to container port.
    pub port_mappings: Vec<(u16, u16)>,
}

impl Default for NetworkConfig {
    fn default() -> (r: Self)
        ensures
            r.enabled,
            r.ip_address@ == "10.0.0.2"@,
            r.bridge_ip@ == "10.0.0.1"@,
            r.subnet_bits == 24,
            r.port_mappings@ == Seq::<(u16, u16)>::empty(),
    {
        NetworkConfig {
            enabled: true,
            ip_address: "10.0.0.2".to_string(),
            bridge_ip: "10.0.0.1".to_string(),
            subnet_bits: 24,
            port_mappings: Vec::new(),
        }
    }
}

/// The abstract content of a configuration.
pub struct ConfigView {
    pub name: Seq<char>,
    pub rootfs: Seq<char>,
    pub command: Seq<Seq<char>>,
    pub hostname: Seq<char>,
    pub env: Seq<(Seq<char>, Seq<char>)>,
    pub memory_bytes: u64,
    pub cpu_percent: u32,
    pub max_pids: u32,
    pub net_enabled: bool,
    pub ip_address: Seq<char>,
    pub bridge_ip: Seq<char>,
    pub subnet_bits: u8,
    pub ports: Seq<(u16, u16)>,
    pub workdir: Seq<char>,
    pub state: ContainerState,
    pub pid: u32,
}

/// The contents of a list of strings.
pub open spec fn string_views(v: Seq<String>) -> Seq<Seq<char>> {
    v.map_values(|c: String| c@)
}

/// Full container configuration.
#[derive(Debug, Clone)]
pub struct ContainerConfig {
    /// Unique container name.
    pub name: String,
    /// Path to the root filesystem.
    pub rootfs: String,
    /// Command to execute inside the container.
    pub command: Vec<String>,
    /// Hostname inside the container.
    pub hostname: String,
    /// Environment variables.
    pub env: EnvMap,
    /// Resource limits.
    pub limits: ResourceLimits,
    /// Network configuration.
    pub network: NetworkConfig,
    /// Working directory inside the container.
    pub workdir: String,
    /// Container state.
    pub state: ContainerState,
    /// PID of the container's init process (0 if not running).
    pub pid: u32,
}

impl View for ContainerConfig {
    type V = ConfigView;

    open spec fn view(&self) -> ConfigView {
        ConfigView {
            name: self.name@,
            rootfs: self.rootfs@,
            command: string_views(self.command@),
            hostname: self.hostname@,
            env: self.env@,
            memory_bytes: self.limits.memory_bytes,
            cpu_percent: self.limits.cpu_percent,
            max_pids: self.limits.max_pids,
            net_enabled: self.network.enabled,
            ip_address: self.network.ip_address@,
            bridge_ip: self.network.bridge_ip@,
            subnet_bits: self.network.subnet_bits,
            ports: self.network.port_mappings@,
            workdir: self.workdir@,
            state: self.state,
            pid: self.pid,
        }
    }
}

/// The configuration that parsing starts from: every field at its default,
/// no name.
pub open spec fn initial_view() -> ConfigView {
    ConfigView {
        name: Seq::empty(),
        rootfs: Seq::empty(),
        command: Seq::empty(),
        hostname: Seq::empty(),
        env: Seq::empty(),
        memory_bytes: 0,
        cpu_percent: 0,
        max_pids: 0,
        net_enabled: true,
        ip_address: "10.0.0.2"@,
        bridge_ip: "10.0.0.1"@,
        subnet_bits: 24,
        ports: Seq::empty(),
        workdir: "/"@,
        state: ContainerState::Created,
        pid: 0,
    }
}

/// A port mapping `host:container`, both numbers in `u16`.
pub open spec fn port_of(v: Seq<char>) -> Option<(u16, u16)> {
    match find_char(v, ':') {
        None => None,
        Some(j) => match (parse_uint_max(v.take(j), 65535), parse_uint_max(v.skip(j + 1), 65535)) {
            (Some(h), Some(c)) => Some((h as u16, c as u16)),
            _ => None,
        },
    }
}

/// The effect of one `key=value` entry; `None` where the value is invalid.
pub open spec fn apply_entry(st: ConfigView, key: Seq<char>, value: Seq<char>) -> Option<
    ConfigView,
> {
    if key == "name"@ {
        Some(ConfigView { name: value, ..st })
    } else if key == "rootfs"@ {
        Some(ConfigView { rootfs: value, ..st })
    } else if key == "hostname"@ {
        Some(ConfigView { hostname: value, ..st })
    } else if key == "state"@ {
        match state_of(value) {
            Some(s) => Some(ConfigView { state: s, ..st }),
            None => None,
        }
    } else if key == "pid"@ {
        match parse_uint_max(value, u32::MAX as nat) {
            Some(n) => Some(ConfigView { pid: n as u32, ..st }),
            None => None,
        }
    } else if key == "workdir"@ {
        Some(ConfigView { workdir: value, ..st })
    } else if key == "memory_bytes"@ {
        match parse_uint_max(value, u64::MAX as nat) {
            Some(n) => Some(ConfigView { memory_bytes: n as u64, ..st }),
            None => None,
        }
    } else if key == "cpu_percent"@ {
        match parse_uint_max(value, u32::MAX as nat) {
            Some(n) => Some(ConfigView { cpu_percent: n as u32, ..st }),
            None => None,
        }
    } else if key == "max_pids"@ {
        match parse_uint_max(value, u32::MAX as nat) {
            Some(n) => Some(ConfigView { max_pids: n as u32, ..st }),
            None => None,
        }
    } else if key == "network_enabled"@ {
        Some(ConfigView { net_enabled: value == "true"@, ..st })
    } else if key == "ip_address"@ {
        Some(ConfigView { ip_address: value, ..st })
    } else if key == "bridge_ip"@ {
        Some(ConfigView { bridge_ip: value, ..st })
    } else if key == "subnet_bits"@ {
        match parse_uint_max(value, u8::MAX as nat) {
            Some(n) => Some(ConfigView { subnet_bits: n as u8, ..st }),
            None => None,
        }
    } else if key == "port"@ {
        match port_of(value) {
            Some(p) => Some(ConfigView { ports: st.ports.push(p), ..st }),
            None => None,
        }
    } else if 4 <= key.len() && key.take(4) == "env."@ {
        Some(ConfigView { env: env_insert(st.env, key.skip(4), value), ..st })
    } else if key == "cmd"@ {
        Some(ConfigView { command: st.command.push(value), ..st })
    } else {
        Some(st)
    }
}

/// The effect of one line: blank lines and `#` comments are skipped, other
/// lines must hold a `=`.
pub open spec fn apply_line(st: ConfigView, line: Seq<char>) -> Option<ConfigView> {
    let t = trim(line);
    if t.len() == 0 || t[0] == '#' {
        Some(st)
    } else {
        match find_char(t, '=') {
            None => None,
            Some(i) => apply_entry(st, t.take(i), t.skip(i + 1)),
        }
    }
}

/// The effect of a sequence of lines, in order.
pub open spec fn apply_lines(st: ConfigView, ls: Seq<Seq<char>>) -> Option<ConfigView>
    decreases ls.len(),
{
    if ls.len() == 0 {
        Some(st)
    } else {
        match apply_line(st, ls[0]) {
            Some(s2) => apply_lines(s2, ls.drop_first()),
            None => None,
        }
    }
}

/// The configuration a text describes; `None` where it is invalid or names
/// no container.
pub open spec fn parse_config(data: Seq<char>) -> Option<ConfigView> {
    match apply_lines(initial_view(), lines(data)) {
        Some(v) => if v.name.len() == 0 {
            None
        } else {
            Some(v)
        },
        None => None,
    }
}

/// `"true"` or `"false"`.
pub open spec fn bool_text(b: bool) -> Seq<char> {
    if b {
        "true"@
    } else {
        "false"@
    }
}

/// The line of a port mapping.
pub open spec fn port_line(p: (u16, u16)) -> Seq<char> {
    "port="@ + decimal(p.0 as nat) + seq![':'] + decimal(p.1 as nat)
}

/// The line of an environment variable.
pub open spec fn env_line(e: (Seq<char>, Seq<char>)) -> Seq<char> {
    "env."@ + e.0 + seq!['='] + e.1
}

/// The line of a command argument.
pub open spec fn cmd_line(c: Seq<char>) -> Seq<char> {
    "cmd="@ + c
}

pub open spec fn port_lines(ps: Seq<(u16, u16)>) -> Seq<Seq<char>> {
    ps.map_values(|p: (u16, u16)| port_line(p))
}

pub open spec fn env_lines(es: Seq<(Seq<char>, Seq<char>)>) -> Seq<Seq<char>> {
    es.map_values(|e: (Seq<char>, Seq<char>)| env_line(e))
}

pub open spec fn cmd_lines(cs: Seq<Seq<char>>) -> Seq<Seq<char>> {
    cs.map_values(|c: Seq<char>| cmd_line(c))
}

/// The lines of the fixed fields, in order.
pub open spec fn head_lines(v: ConfigView) -> Seq<Seq<char>> {
    seq![
        "name="@ + v.name,
        "rootfs="@ + v.rootfs,
        "hostname="@ + v.hostname,
        "state="@ + state_name(v.state),
        "pid="@ + decimal(v.pid as nat),
        "workdir="@ + v.workdir,
        "memory_bytes="@ + decimal(v.memory_bytes as nat),
        "cpu_percent="@ + decimal(v.cpu_percent as nat),
        "max_pids="@ + decimal(v.max_pids as nat),
        "network_enabled="@ + bool_text(v.net_enabled),
        "ip_address="@ + v.ip_address,
        "bridge_ip="@ + v.bridge_ip,
        "subnet_bits="@ + decimal(v.subnet_bits as nat),
    ]
}

/// The lines a configuration is written as, in order.
pub open spec fn config_lines(v: ConfigView) -> Seq<Seq<char>> {
    head_lines(v) + port_lines(v.ports) + env_lines(v.env) + cmd_lines(v.command)
}

/// Lines joined with `\n` between them.
pub open spec fn join_lines(ls: Seq<Seq<char>>) -> Seq<char>
    decreases ls.len(),
{
    if ls.len() == 0 {
        Seq::empty()
    } else if ls.len() == 1 {
        ls[0]
    } else {
        ls[0] + seq!['\n'] + join_lines(ls.drop_first())
    }
}

proof fn lemma_join_push(ls: Seq<Seq<char>>, l: Seq<char>)
    requires
        ls.len() > 0,
    ensures
        join_lines(ls.push(l)) == join_lines(ls) + seq!['\n'] + l,
    decreases ls.len(),
{
    if ls.len() == 1 {
        assert(ls.push(l).drop_first() =~= seq![l]);
        assert(join_lines(seq![l]) == l);
    } else {
        lemma_join_push(ls.drop_first(), l);
        assert(ls.push(l).drop_first() =~= ls.drop_first().push(l));
    }
}

/// Appends `line` as the next line of `out`.
fn add_line(out: &mut Vec<char>, Ghost(ls): Ghost<Seq<Seq<char>>>, line: &[char], first: bool)
    requires
        old(out)@ == join_lines(ls),
        first == (ls.len() == 0),
    ensures
        final(out)@ == join_lines(ls.push(line@)),
{
    if !first {
        out.push('\n');
        proof {
            lemma_join_push(ls, line@);
        }
    } else {
        assert(ls.push(line@) =~= seq![line@]);
    }
    extend_from(out, line);
    assert(final(out)@ =~= join_lines(ls.push(line@)));
}

/// `prefix` followed by `value`, as characters.
fn key_line(prefix: &str, value: &str) -> (l: Vec<char>)
    ensures
        l@ == prefix@ + value@,
{
    let mut l = chars_of(prefix);
    extend_chars(&mut l, value);
    l
}

/// `prefix` followed by the decimal digits of `n`.
fn num_line(prefix: &str, n: u64) -> (l: Vec<char>)
    ensures
        l@ == prefix@ + decimal(n as nat),
{
    let mut l = chars_of(prefix);
    push_decimal(&mut l, n);
    l
}

impl ContainerConfig {
    /// A configuration for container `name` with root filesystem `rootfs`;
    /// the hostname is the name, everything else at its default.
    pub fn new(name: &str, rootfs: &str) -> (c: ContainerConfig)
        ensures
            c@ == (ConfigView { name: name@, rootfs: rootfs@, hostname: name@, ..initial_view() }),
            c.env.wf(),
    {
        let c = ContainerConfig {
            name: name.to_string(),
            rootfs: rootfs.to_string(),
            command: Vec::new(),
            hostname: name.to_string(),
            env: EnvMap::new(),
            limits: ResourceLimits::default(),
            network: NetworkConfig::default(),
            workdir: "/".to_string(),
            state: ContainerState::Created,
            pid: 0,
        };
        assert(string_views(c.command@) =~= Seq::<Seq<char>>::empty());
        c
    }

    /// Writes the configuration in the `key=value` format.
    pub fn serialize(&self) -> (s: String)
        requires
            self.env.wf(),
        ensures
            s@ == join_lines(config_lines(self@)),
    {
        let ghost v = self@;
        let mut out: Vec<char> = Vec::new();
        let ghost mut ls: Seq<Seq<char>> = Seq::empty();
        let l = key_line("name=", self.name.as_str());
        add_line(&mut out, Ghost(ls), &l, true);
        proof { ls = ls.push(l@); }
        let l = key_line("rootfs=", self.rootfs.as_str());
        add_line(&mut out, Ghost(ls), &l, false);
        proof { ls = ls.push(l@); }
        let l = key_line("hostname=", self.hostname.as_str());
        add_line(&mut out, Ghost(ls), &l, false);
        proof { ls = ls.push(l@); }
        let l = key_line("state=", self.state.as_str());
        add_line(&mut out, Ghost(ls), &l, false);
        proof { ls = ls.push(l@); }
        let l = num_line("pid=", self.pid as u64);
        add_line(&mut out, Ghost(ls), &l, false);
        proof { ls = ls.push(l@); }
        let l = key_line("workdir=", self.workdir.as_str());
        add_line(&mut out, Ghost(ls), &l, false);
        proof { ls = ls.push(l@); }
        let l = num_line("memory_bytes=", self.limits.memory_bytes);
        add_line(&mut out, Ghost(ls), &l, false);
        proof { ls = ls.push(l@); }
        let l = num_line("cpu_percent=", self.limits.cpu_percent as u64);
        add_line(&mut out, Ghost(ls), &l, false);
        proof { ls = ls.push(l@); }
        let l = num_line("max_pids=", self.limits.max_pids as u64);
        add_line(&mut out, Ghost(ls), &l, false);
        proof { ls = ls.push(l@); }
        let l = key_line("network_enabled=", if self.network.enabled { "true" } else { "false" });
        add_line(&mut out, Ghost(ls), &l, false);
        proof { ls = ls.push(l@); }
        let l = key_line("ip_address=", self.network.ip_address.as_str());
        add_line(&mut out, Ghost(ls), &l, false);
        proof { ls = ls.push(l@); }
        let l = key_line("bridge_ip=", self.network.bridge_ip.as_str());
        add_line(&mut out, Ghost(ls), &l, false);
        proof { ls = ls.push(l@); }
        let l = num_line("subnet_bits=", self.network.subnet_bits as u64);
        add_line(&mut out, Ghost(ls), &l, false);
        proof { ls = ls.push(l@); }
        let ghost head = ls;
        assert(head =~= head_lines(v));
        let ghost pl = port_lines(v.ports);
        let mut i: usize = 0;
        while i < self.network.port_mappings.len()
            invariant
                i <= v.ports.len(),
                v == self@,
                out@ == join_lines(ls),
                ls == head + pl.take(i as int),
                pl == port_lines(v.ports),
                ls.len() > 0,
            decreases v.ports.len() - i,
        {
            assert(v.ports.len() == self.network.port_mappings@.len());
            let (h, c) = self.network.port_mappings[i];
            let mut l = num_line("port=", h as u64);
            l.push(':');
            push_decimal(&mut l, c as u64);
            assert(l@ =~= pl[i as int]);
            add_line(&mut out, Ghost(ls), &l, false);
            proof { ls = ls.push(l@); }
            i += 1;
            assert(ls =~= head + pl.take(i as int));
        }
        assert(pl.take(v.ports.len() as int) =~= pl);
        let ghost head2 = ls;
        let ghost el = env_lines(v.env);
        let mut i: usize = 0;
        while i < self.env.len()
            invariant
                i <= v.env.len(),
                v == self@,
                out@ == join_lines(ls),
                ls == head2 + el.take(i as int),
                el == env_lines(v.env),
                ls.len() > 0,
            decreases v.env.len() - i,
        {
            assert(v.env.len() == self.env@.len());
            let (k, val) = self.env.entry(i);
            let mut l = key_line("env.", k.as_str());
            l.push('=');
            extend_chars(&mut l, val.as_str());
            assert(l@ =~= el[i as int]);
            add_line(&mut out, Ghost(ls), &l, false);
            proof { ls = ls.push(l@); }
            i += 1;
            assert(ls =~= head2 + el.take(i as int));
        }
        assert(el.take(v.env.len() as int) =~= el);
        let ghost head3 = ls;
        let ghost cl = cmd_lines(v.command);
        let mut i: usize = 0;
        while i < self.command.len()
            invariant
                i <= v.command.len(),
                v == self@,
                out@ == join_lines(ls),
                ls == head3 + cl.take(i as int),
                cl == cmd_lines(v.command),
                ls.len() > 0,
            decreases v.command.len() - i,
        {
            assert(v.command.len() == self.command@.len());
            let l = key_line("cmd=", self.command[i].as_str());
            assert(l@ =~= cl[i as int]);
            add_line(&mut out, Ghost(ls), &l, false);
            proof { ls = ls.push(l@); }
            i += 1;
            assert(ls =~= head3 + cl.take(i as int));
        }
        assert(cl.take(v.command.len() as int) =~= cl);
        assert(ls =~= config_lines(v));
        string_of(&out)
    }
}

/// Applies one entry whose key is `d[klo..khi]` and value `d[vlo..vhi]`.
#[verifier::rlimit(40)]
fn apply_entry_exec(
    cfg: &mut ContainerConfig,
    d: &[char],
    klo: usize,
    khi: usize,
    vlo: usize,
    vhi: usize,
) -> (r: Result<(), ContainerError>)
    requires
        klo <= khi <= d.len(),
        vlo <= vhi <= d.len(),
        old(cfg).env.wf(),
    ensures
        final(cfg).env.wf(),
        match apply_entry(
            old(cfg)@,
            d@.subrange(klo as int, khi as int),
            d@.subrange(vlo as int, vhi as int),
        ) {
            Some(v) => r is Ok && final(cfg)@ == v,
            None => r is Err && r->Err_0 is Config,
        },
{
    let ghost key = d@.subrange(klo as int, khi as int);
    let ghost value = d@.subrange(vlo as int, vhi as int);
    let ghost st = cfg@;
    if range_eq_lit(d, klo, khi, "name") {
        cfg.name = string_of_range(d, vlo, vhi);
    } else if range_eq_lit(d, klo, khi, "rootfs") {
        cfg.rootfs = string_of_range(d, vlo, vhi);
    } else if range_eq_lit(d, klo, khi, "hostname") {
        cfg.hostname = string_of_range(d, vlo, vhi);
    } else if range_eq_lit(d, klo, khi, "state") {
        let v = string_of_range(d, vlo, vhi);
        match ContainerState::from_str(v.as_str()) {
            Some(s) => cfg.state = s,
            None => return Err(ContainerError::Config(prefixed_range("invalid state: ", d, vlo, vhi))),
        }
    } else if range_eq_lit(d, klo, khi, "pid") {
        match parse_uint_exec(d, vlo, vhi, u32::MAX as u64) {
            Some(n) => cfg.pid = n as u32,
            None => return Err(ContainerError::Config(prefixed_range("invalid pid: ", d, vlo, vhi))),
        }
    } else if range_eq_lit(d, klo, khi, "workdir") {
        cfg.workdir = string_of_range(d, vlo, vhi);
    } else if range_eq_lit(d, klo, khi, "memory_bytes") {
        match parse_uint_exec(d, vlo, vhi, u64::MAX) {
            Some(n) => cfg.limits.memory_bytes = n,
            None => return Err(ContainerError::Config(prefixed_range("invalid memory_bytes: ", d, vlo, vhi))),
        }
    } else if range_eq_lit(d, klo, khi, "cpu_percent") {
        match parse_uint_exec(d, vlo, vhi, u32::MAX as u64) {
            Some(n) => cfg.limits.cpu_percent = n as u32,
            None => return Err(ContainerError::Config(prefixed_range("invalid cpu_percent: ", d, vlo, vhi))),
        }
    } else if range_eq_lit(d, klo, khi, "max_pids") {
        match parse_uint_exec(d, vlo, vhi, u32::MAX as u64) {
            Some(n) => cfg.limits.max_pids = n as u32,
            None => return Err(ContainerError::Config(prefixed_range("invalid max_pids: ", d, vlo, vhi))),
        }
    } else if range_eq_lit(d, klo, khi, "network_enabled") {
        cfg.network.enabled = range_eq_lit(d, vlo, vhi, "true");
    } else if range_eq_lit(d, klo, khi, "ip_address") {
        cfg.network.ip_address = string_of_range(d, vlo, vhi);
    } else if range_eq_lit(d, klo, khi, "bridge_ip") {
        cfg.network.bridge_ip = string_of_range(d, vlo, vhi);
    } else if range_eq_lit(d, klo, khi, "subnet_bits") {
        match parse_uint_exec(d, vlo, vhi, u8::MAX as u64) {
            Some(n) => cfg.network.subnet_bits = n as u8,
            None => return Err(ContainerError::Config(prefixed_range("invalid subnet_bits: ", d, vlo, vhi))),
        }
    } else if range_eq_lit(d, klo, khi, "port") {
        match find_from(d, vlo, vhi, ':') {
            None => return Err(ContainerError::Config(prefixed_range("invalid port mapping: ", d, vlo, vhi))),
            Some(j) => {
                assert(value.take(j - vlo) =~= d@.subrange(vlo as int, j as int));
                assert(value.skip(j - vlo + 1) =~= d@.subrange(j + 1, vhi as int));
                let h = match parse_uint_exec(d, vlo, j, 65535) {
                    Some(n) => n as u16,
                    None => return Err(ContainerError::Config(prefixed_range("invalid host port: ", d, vlo, j))),
                };
                let c = match parse_uint_exec(d, j + 1, vhi, 65535) {
                    Some(n) => n as u16,
                    None => return Err(
                        ContainerError::Config(prefixed_range("invalid container port: ", d, j + 1, vhi)),
                    ),
                };
                cfg.network.port_mappings.push((h, c));
            },
        }
    } else if range_starts_with_lit(d, klo, khi, "env.") {
        proof {
            reveal_strlit("env.");
            assert(key.take(4) =~= d@.subrange(klo as int, klo + 4));
            assert(key.skip(4) =~= d@.subrange(klo + 4, khi as int));
        }
        let k = string_of_range(d, klo + 4, khi);
        let v = string_of_range(d, vlo, vhi);
        let ghost cmd0 = cfg.command@;
        cfg.env.insert(k, v);
        assert(cfg.command@ == cmd0);
    } else if range_eq_lit(d, klo, khi, "cmd") {
        proof {
            if 4 <= key.len() {
                assert(key.take(4) =~= d@.subrange(klo as int, klo + 4));
            }
        }
        let v = string_of_range(d, vlo, vhi);
        cfg.command.push(v);
        assert(string_views(cfg.command@) =~= st.command.push(value));
    } else {
        proof {
            reveal_strlit("env.");
            if 4 <= key.len() {
                assert(key.take(4) =~= d@.subrange(klo as int, klo + 4));
            }
        }
    }
    Ok(())
}

impl ContainerConfig {
    /// Reads a configuration written in the `key=value` format. Fails on a
    /// non-blank, non-comment line without `=`, on an invalid value for a
    /// known key, and when no name is given; unknown keys are ignored.
    pub fn deserialize(data: &str) -> (r: Result<ContainerConfig, ContainerError>)
        ensures
            match parse_config(data@) {
                Some(v) => r is Ok && r->Ok_0@ == v && r->Ok_0.env.wf(),
                None => r is Err && r->Err_0 is Config,
            },
    {
        let d = chars_of(data);
        let mut cfg = ContainerConfig::new("", "");
        proof {
            reveal_strlit("");
            assert(cfg.name@ =~= Seq::<char>::empty());
            assert(cfg.rootfs@ =~= Seq::<char>::empty());
            assert(cfg.hostname@ =~= Seq::<char>::empty());
        }
        assert(cfg@ == initial_view());
        let mut pos: usize = 0;
        assert(d@.skip(0) =~= d@);
        while pos < d.len()
            invariant
                pos <= d.len(),
                d@ == data@,
                cfg.env.wf(),
                apply_lines(initial_view(), lines(d@)) == apply_lines(
                    cfg@,
                    lines(d@.skip(pos as int)),
                ),
            decreases d.len() - pos,
        {
            let (e, next) = next_line(&d, pos);
            let ghost line = d@.subrange(pos as int, e as int);
            let ghost rest = lines(d@.skip(next as int));
            assert(lines(d@.skip(pos as int)).drop_first() =~= rest);
            let (lo, hi) = trim_bounds(&d, pos, e);
            let ghost t = trim(line);
            if lo == hi || d[lo] == '#' {
                assert(t.len() == 0 || t[0] == '#');
            } else {
                match find_from(&d, lo, hi, '=') {
                    None => {
                        return Err(ContainerError::Config(prefixed_range("invalid line: ", &d, lo, hi)));
                    },
                    Some(i) => {
                        assert(t.take(i - lo) =~= d@.subrange(lo as int, i as int));
                        assert(t.skip(i - lo + 1) =~= d@.subrange(i + 1, hi as int));
                        match apply_entry_exec(&mut cfg, &d, lo, i, i + 1, hi) {
                            Ok(()) => {},
                            Err(e) => return Err(e),
                        }
                    },
                }
            }
            pos = next;
        }
        assert(d@.skip(pos as int) =~= Seq::<char>::empty());
        assert(lines(Seq::<char>::empty()) =~= Seq::<Seq<char>>::empty());
        if cfg.name.as_str().is_empty() {
            return Err(ContainerError::Config("missing container name".to_string()));
        }
        Ok(cfg)
    }
}

/// A memory size such as `128M`, `1G`, `512K` or a plain byte count: the
/// number and its multiplier, before the multiplication.
pub open spec fn memory_parts(s: Seq<char>) -> Option<(nat, nat)> {
    let t = trim(s);
    let (num, mult) = if t.len() > 0 && (t.last() == 'K' || t.last() == 'k') {
        (t.drop_last(), 1024nat)
    } else if t.len() > 0 && (t.last() == 'M' || t.last() == 'm') {
        (t.drop_last(), 1024nat * 1024)
    } else if t.len() > 0 && (t.last() == 'G' || t.last() == 'g') {
        (t.drop_last(), 1024nat * 1024 * 1024)
    } else {
        (t, 1nat)
    };
    if t.len() == 0 || t == "0"@ {
        Some((0nat, 1nat))
    } else {
        match parse_uint_max(num, u64::MAX as nat) {
            Some(n) => Some((n, mult)),
            None => None,
        }
    }
}

/// Parses a memory size into bytes.
pub fn parse_memory(s: &str) -> (r: Result<u64, ContainerError>)
    requires
        memory_parts(s@) matches Some((n, m)) ==> n * m <= u64::MAX,
    ensures
        match memory_parts(s@) {
            Some((n, m)) => r is Ok && r->Ok_0 == n * m,
            None => r is Err && r->Err_0 is Config,
        },
{
    let c = chars_of(s);
    let (lo, hi) = trim_bounds(&c, 0, c.len());
    assert(c@.subrange(0, c.len() as int) =~= s@);
    let ghost t = trim(s@);
    if lo == hi || range_eq_lit(&c, lo, hi, "0") {
        assert(memory_parts(s@) == Some((0nat, 1nat)));
        assert(0nat * 1nat == 0nat) by (nonlinear_arith);
        return Ok(0);
    }
    let last = c[hi - 1];
    assert(t.last() == last);
    let (end, mult): (usize, u64) = if last == 'K' || last == 'k' {
        (hi - 1, 1024)
    } else if last == 'M' || last == 'm' {
        (hi - 1, 1024 * 1024)
    } else if last == 'G' || last == 'g' {
        (hi - 1, 1024 * 1024 * 1024)
    } else {
        (hi, 1)
    };
    assert(t.drop_last() =~= c@.subrange(lo as int, hi - 1));
    match parse_uint_exec(&c, lo, end, u64::MAX) {
        Some(n) => {
            assert(n * mult <= u64::MAX);
            Ok(n * mult)
        },
        None => Err(ContainerError::Config(prefixed_range("invalid memory value: ", &c, lo, hi))),
    }
}

/// Directory holding the state of container `name`, under `base`.
pub fn container_state_dir(base: &str, name: &str) -> (p: String)
    ensures
        p@ == path_join(path_join(base@, "containers"@), name@),
{
    let c = join_path(base, "containers");
    join_path(c.as_str(), name)
}

/// Directory holding the images, under `base`.
pub fn images_dir(base: &str) -> (p: String)
    ensures
        p@ == path_join(base@, "images"@),
{
    join_path(base, "images")
}


// ─── Reading back what was written ──────────────────────────────────────────

/// A value that survives being written as a line and read back: no line
/// break, and no trailing whitespace (reading trims it).
pub open spec fn value_ok(s: Seq<char>) -> bool {
    find_char(s, '\n') is None && (s.len() == 0 || !is_ws(s.last()))
}

/// A key as written: starts with a lowercase letter, holds no `=` and no
/// line break.
pub open spec fn key_ok(k: Seq<char>) -> bool {
    &&& k.len() > 0
    &&& 'a' <= k[0] <= 'z'
    &&& find_char(k, '=') is None
    &&& find_char(k, '\n') is None
}

/// A configuration that reads back as itself: a name, values that survive
/// a line, environment names without `=` or line breaks, kept sorted.
pub open spec fn config_writable(v: ConfigView) -> bool {
    &&& v.name.len() > 0
    &&& value_ok(v.name)
    &&& value_ok(v.rootfs)
    &&& value_ok(v.hostname)
    &&& value_ok(v.workdir)
    &&& value_ok(v.ip_address)
    &&& value_ok(v.bridge_ip)
    &&& sorted_keys(v.env)
    &&& forall|i: int|
        0 <= i < v.env.len() ==> find_char(#[trigger] v.env[i].0, '=') is None && find_char(
            v.env[i].0,
            '\n',
        ) is None && value_ok(v.env[i].1)
    &&& forall|i: int| 0 <= i < v.command.len() ==> value_ok(#[trigger] v.command[i])
}

proof fn lemma_find_concat_none(a: Seq<char>, b: Seq<char>, c: char)
    requires
        find_char(a, c) is None,
        find_char(b, c) is None,
    ensures
        find_char(a + b, c) is None,
{
    lemma_find_char(a, c);
    lemma_find_char(b, c);
    assert forall|j: int| 0 <= j < (a + b).len() implies (a + b)[j] != c by {
        if j >= a.len() {
            assert((a + b)[j] == b[j - a.len()]);
        }
    }
    lemma_find_char_none(a + b, c);
}

proof fn lemma_lit_key(k: Seq<char>)
    requires
        k.len() > 0,
        forall|j: int| 0 <= j < k.len() ==> ('a' <= #[trigger] k[j] <= 'z' || k[j] == '_' || k[j] == '.'),
        'a' <= k[0] <= 'z',
    ensures
        key_ok(k),
{
    lemma_find_char_none(k, '=');
    lemma_find_char_none(k, '\n');
}

proof fn lemma_digits_value_ok(n: nat)
    ensures
        value_ok(decimal(n)),
        find_char(decimal(n), ':') is None,
{
    lemma_decimal(n);
    let d = decimal(n);
    assert(is_digit(d[d.len() - 1]));
    lemma_find_char_none(d, '\n');
    lemma_find_char_none(d, ':');
}

/// A `key=value` line, read back, is the entry `key`, `value`.
proof fn lemma_line_entry(st: ConfigView, k: Seq<char>, val: Seq<char>)
    requires
        key_ok(k),
        value_ok(val),
    ensures
        apply_line(st, k + seq!['='] + val) == apply_entry(st, k, val),
        (k + seq!['='] + val).len() > 0,
        find_char(k + seq!['='] + val, '\n') is None,
        (k + seq!['='] + val).last() != '\r',
{
    let l = k + seq!['='] + val;
    assert(l[0] == k[0]);
    if val.len() == 0 {
        assert(l.last() == '=');
    } else {
        assert(l.last() == val.last());
    }
    lemma_trim_id(l);
    lemma_find_char(k, '=');
    assert(l[k.len() as int] == '=');
    assert forall|j: int| 0 <= j < k.len() implies l[j] != '=' by {
        assert(l[j] == k[j]);
    }
    lemma_find_char_at(l, '=', k.len() as int);
    assert(l.take(k.len() as int) =~= k);
    assert(l.skip(k.len() as int + 1) =~= val);
    lemma_find_char_none(seq!['='], '\n');
    lemma_find_concat_none(k, seq!['='], '\n');
    lemma_find_concat_none(k + seq!['='], val, '\n');
}

proof fn lemma_lines_join(ls: Seq<Seq<char>>)
    requires
        forall|i: int|
            0 <= i < ls.len() ==> (#[trigger] ls[i]).len() > 0 && find_char(ls[i], '\n') is None
                && ls[i].last() != '\r',
    ensures
        lines(join_lines(ls)) == ls,
    decreases ls.len(),
{
    if ls.len() == 0 {
    } else if ls.len() == 1 {
        assert(ls[0].len() > 0);
        assert(lines(ls[0]) == seq![ls[0]]);
        assert(ls =~= seq![ls[0]]);
    } else {
        let rest = ls.drop_first();
        assert forall|i: int|
            0 <= i < rest.len() implies (#[trigger] rest[i]).len() > 0 && find_char(rest[i], '\n') is None
                && rest[i].last() != '\r' by {
            assert(rest[i] == ls[i + 1]);
        }
        lemma_lines_join(rest);
        let a = ls[0];
        let j = join_lines(ls);
        assert(j == a + seq!['\n'] + join_lines(rest));
        lemma_find_char(a, '\n');
        assert forall|q: int| 0 <= q < a.len() implies j[q] != '\n' by {
            assert(j[q] == a[q]);
        }
        assert(j[a.len() as int] == '\n');
        lemma_find_char_at(j, '\n', a.len() as int);
        assert(j.take(a.len() as int) =~= a);
        assert(j.skip(a.len() as int + 1) =~= join_lines(rest));
        assert(strip_cr(a) == a);
        assert(ls =~= seq![a] + rest);
    }
}

proof fn lemma_apply_lines_append(st: ConfigView, a: Seq<Seq<char>>, b: Seq<Seq<char>>)
    ensures
        apply_lines(st, a + b) == (match apply_lines(st, a) {
            Some(s2) => apply_lines(s2, b),
            None => None,
        }),
    decreases a.len(),
{
    if a.len() == 0 {
        assert(a + b =~= b);
    } else {
        assert((a + b).drop_first() =~= a.drop_first() + b);
        assert((a + b)[0] == a[0]);
        match apply_line(st, a[0]) {
            Some(s2) => {
                lemma_apply_lines_append(s2, a.drop_first(), b);
            },
            None => {},
        }
    }
}

proof fn lemma_apply_one(st: ConfigView, l: Seq<char>)
    ensures
        apply_lines(st, seq![l]) == apply_line(st, l),
{
    assert(seq![l].drop_first() =~= Seq::<Seq<char>>::empty());
    assert(seq![l][0] == l);
    match apply_line(st, l) {
        Some(s2) => {
            assert(apply_lines(s2, Seq::<Seq<char>>::empty()) == Some(s2));
        },
        None => {},
    }
}

/// The texts of the keys and fixed values.
proof fn lemma_key_literals()
    ensures
        "name"@ == seq!['n', 'a', 'm', 'e'],
        "rootfs"@ == seq!['r', 'o', 'o', 't', 'f', 's'],
        "hostname"@ == seq!['h', 'o', 's', 't', 'n', 'a', 'm', 'e'],
        "state"@ == seq!['s', 't', 'a', 't', 'e'],
        "pid"@ == seq!['p', 'i', 'd'],
        "workdir"@ == seq!['w', 'o', 'r', 'k', 'd', 'i', 'r'],
        "memory_bytes"@ == seq!['m', 'e', 'm', 'o', 'r', 'y', '_', 'b', 'y', 't', 'e', 's'],
        "cpu_percent"@ == seq!['c', 'p', 'u', '_', 'p', 'e', 'r', 'c', 'e', 'n', 't'],
        "max_pids"@ == seq!['m', 'a', 'x', '_', 'p', 'i', 'd', 's'],
        "network_enabled"@ == seq!['n', 'e', 't', 'w', 'o', 'r', 'k', '_', 'e', 'n', 'a', 'b', 'l', 'e', 'd'],
        "ip_address"@ == seq!['i', 'p', '_', 'a', 'd', 'd', 'r', 'e', 's', 's'],
        "bridge_ip"@ == seq!['b', 'r', 'i', 'd', 'g', 'e', '_', 'i', 'p'],
        "subnet_bits"@ == seq!['s', 'u', 'b', 'n', 'e', 't', '_', 'b', 'i', 't', 's'],
        "port"@ == seq!['p', 'o', 'r', 't'],
        "cmd"@ == seq!['c', 'm', 'd'],
        "env."@ == seq!['e', 'n', 'v', '.'],
        "true"@ == seq!['t', 'r', 'u', 'e'],
        "false"@ == seq!['f', 'a', 'l', 's', 'e'],
        "created"@ == seq!['c', 'r', 'e', 'a', 't', 'e', 'd'],
        "running"@ == seq!['r', 'u', 'n', 'n', 'i', 'n', 'g'],
        "stopped"@ == seq!['s', 't', 'o', 'p', 'p', 'e', 'd'],
        "name="@ == "name"@ + seq!['='],
        "rootfs="@ == "rootfs"@ + seq!['='],
        "hostname="@ == "hostname"@ + seq!['='],
        "state="@ == "state"@ + seq!['='],
        "pid="@ == "pid"@ + seq!['='],
        "workdir="@ == "workdir"@ + seq!['='],
        "memory_bytes="@ == "memory_bytes"@ + seq!['='],
        "cpu_percent="@ == "cpu_percent"@ + seq!['='],
        "max_pids="@ == "max_pids"@ + seq!['='],
        "network_enabled="@ == "network_enabled"@ + seq!['='],
        "ip_address="@ == "ip_address"@ + seq!['='],
        "bridge_ip="@ == "bridge_ip"@ + seq!['='],
        "subnet_bits="@ == "subnet_bits"@ + seq!['='],
        "port="@ == "port"@ + seq!['='],
        "cmd="@ == "cmd"@ + seq!['='],
{
    reveal_strlit("name");
    reveal_strlit("rootfs");
    reveal_strlit("hostname");
    reveal_strlit("state");
    reveal_strlit("pid");
    reveal_strlit("workdir");
    reveal_strlit("memory_bytes");
    reveal_strlit("cpu_percent");
    reveal_strlit("max_pids");
    reveal_strlit("network_enabled");
    reveal_strlit("ip_address");
    reveal_strlit("bridge_ip");
    reveal_strlit("subnet_bits");
    reveal_strlit("port");
    reveal_strlit("cmd");
    reveal_strlit("env.");
    reveal_strlit("true");
    reveal_strlit("false");
    reveal_strlit("created");
    reveal_strlit("running");
    reveal_strlit("stopped");
    reveal_strlit("name=");
    reveal_strlit("rootfs=");
    reveal_strlit("hostname=");
    reveal_strlit("state=");
    reveal_strlit("pid=");
    reveal_strlit("workdir=");
    reveal_strlit("memory_bytes=");
    reveal_strlit("cpu_percent=");
    reveal_strlit("max_pids=");
    reveal_strlit("network_enabled=");
    reveal_strlit("ip_address=");
    reveal_strlit("bridge_ip=");
    reveal_strlit("subnet_bits=");
    reveal_strlit("port=");
    reveal_strlit("cmd=");
    assert("name="@ =~= "name"@ + seq!['=']);
    assert("rootfs="@ =~= "rootfs"@ + seq!['=']);
    assert("hostname="@ =~= "hostname"@ + seq!['=']);
    assert("state="@ =~= "state"@ + seq!['=']);
    assert("pid="@ =~= "pid"@ + seq!['=']);
    assert("workdir="@ =~= "workdir"@ + seq!['=']);
    assert("memory_bytes="@ =~= "memory_bytes"@ + seq!['=']);
    assert("cpu_percent="@ =~= "cpu_percent"@ + seq!['=']);
    assert("max_pids="@ =~= "max_pids"@ + seq!['=']);
    assert("network_enabled="@ =~= "network_enabled"@ + seq!['=']);
    assert("ip_address="@ =~= "ip_address"@ + seq!['=']);
    assert("bridge_ip="@ =~= "bridge_ip"@ + seq!['=']);
    assert("subnet_bits="@ =~= "subnet_bits"@ + seq!['=']);
    assert("port="@ =~= "port"@ + seq!['=']);
    assert("cmd="@ =~= "cmd"@ + seq!['=']);
}

/// A port line, read back, adds its mapping.
#[verifier::rlimit(60)]
proof fn lemma_port_line(s2: ConfigView, p: (u16, u16))
    ensures
        apply_line(s2, port_line(p)) == Some(ConfigView { ports: s2.ports.push(p), ..s2 }),
        port_line(p).len() > 0,
        find_char(port_line(p), '\n') is None,
        port_line(p).last() != '\r',
{
    lemma_key_literals();
    let val = decimal(p.0 as nat) + seq![':'] + decimal(p.1 as nat);
    assert(port_line(p) =~= "port"@ + seq!['='] + val);
    lemma_lit_key("port"@);
    lemma_digits_value_ok(p.0 as nat);
    lemma_digits_value_ok(p.1 as nat);
    lemma_find_char_none(seq![':'], '\n');
    lemma_find_concat_none(decimal(p.0 as nat), seq![':'], '\n');
    lemma_find_concat_none(decimal(p.0 as nat) + seq![':'], decimal(p.1 as nat), '\n');
    assert(val.last() == decimal(p.1 as nat).last());
    lemma_line_entry(s2, "port"@, val);
    let dh = decimal(p.0 as nat);
    lemma_find_char(dh, ':');
    assert(val[dh.len() as int] == ':');
    assert forall|j: int| 0 <= j < dh.len() implies val[j] != ':' by {
        assert(val[j] == dh[j]);
    }
    lemma_find_char_at(val, ':', dh.len() as int);
    assert(val.take(dh.len() as int) =~= dh);
    assert(val.skip(dh.len() as int + 1) =~= decimal(p.1 as nat));
    lemma_parse_decimal(p.0 as nat, 65535);
    lemma_parse_decimal(p.1 as nat, 65535);
    assert(port_of(val) == Some(p));
}

/// The port lines add their mappings, in order.
proof fn lemma_ports_fold(st: ConfigView, ps: Seq<(u16, u16)>)
    ensures
        apply_lines(st, port_lines(ps)) == Some(ConfigView { ports: st.ports + ps, ..st }),
    decreases ps.len(),
{
    if ps.len() == 0 {
        assert(port_lines(ps) =~= Seq::<Seq<char>>::empty());
        assert(st.ports + ps =~= st.ports);
    } else {
        let init = ps.drop_last();
        let p = ps.last();
        lemma_ports_fold(st, init);
        assert(port_lines(ps) =~= port_lines(init) + seq![port_line(p)]);
        lemma_apply_lines_append(st, port_lines(init), seq![port_line(p)]);
        let s2 = ConfigView { ports: st.ports + init, ..st };
        lemma_apply_one(s2, port_line(p));
        lemma_port_line(s2, p);
        assert((st.ports + init).push(p) =~= st.ports + ps);
    }
}

/// An environment line, read back, binds its variable.
#[verifier::rlimit(60)]
proof fn lemma_env_line(s2: ConfigView, e: (Seq<char>, Seq<char>))
    requires
        find_char(e.0, '=') is None,
        find_char(e.0, '\n') is None,
        value_ok(e.1),
    ensures
        apply_line(s2, env_line(e)) == Some(ConfigView { env: env_insert(s2.env, e.0, e.1), ..s2 }),
        env_line(e).len() > 0,
        find_char(env_line(e), '\n') is None,
        env_line(e).last() != '\r',
{
    lemma_key_literals();
    let key = "env."@ + e.0;
    assert(env_line(e) =~= key + seq!['='] + e.1);
    lemma_find_char_none("env."@, '=');
    lemma_find_char_none("env."@, '\n');
    lemma_find_concat_none("env."@, e.0, '=');
    lemma_find_concat_none("env."@, e.0, '\n');
    assert(key[0] == 'e');
    lemma_line_entry(s2, key, e.1);
    assert(key.take(4) =~= "env."@);
    assert(key.skip(4) =~= e.0);
}

/// A command line, read back, adds its argument.
#[verifier::rlimit(60)]
proof fn lemma_cmd_line(s2: ConfigView, c: Seq<char>)
    requires
        value_ok(c),
    ensures
        apply_line(s2, cmd_line(c)) == Some(ConfigView { command: s2.command.push(c), ..s2 }),
        cmd_line(c).len() > 0,
        find_char(cmd_line(c), '\n') is None,
        cmd_line(c).last() != '\r',
{
    lemma_key_literals();
    assert(cmd_line(c) =~= "cmd"@ + seq!['='] + c);
    lemma_lit_key("cmd"@);
    lemma_line_entry(s2, "cmd"@, c);
}

proof fn lemma_env_fold(st: ConfigView, es: Seq<(Seq<char>, Seq<char>)>)
    requires
        st.env == Seq::<(Seq<char>, Seq<char>)>::empty(),
        sorted_keys(es),
        forall|i: int|
            0 <= i < es.len() ==> find_char(#[trigger] es[i].0, '=') is None && find_char(es[i].0, '\n')
                is None && value_ok(es[i].1),
    ensures
        apply_lines(st, env_lines(es)) == Some(ConfigView { env: es, ..st }),
    decreases es.len(),
{
    if es.len() == 0 {
        assert(env_lines(es) =~= Seq::<Seq<char>>::empty());
        assert(es =~= st.env);
    } else {
        let init = es.drop_last();
        let e = es.last();
        assert forall|i: int, j: int| 0 <= i < j < init.len() implies crate::envmap::str_lt(
            #[trigger] init[i].0,
            #[trigger] init[j].0,
        ) by {
            assert(init[i] == es[i] && init[j] == es[j]);
        }
        assert forall|i: int|
            0 <= i < init.len() implies find_char(#[trigger] init[i].0, '=') is None && find_char(
                init[i].0,
                '\n',
            ) is None && value_ok(init[i].1) by {
            assert(init[i] == es[i]);
        }
        lemma_env_fold(st, init);
        assert(env_lines(es) =~= env_lines(init) + seq![env_line(e)]);
        lemma_apply_lines_append(st, env_lines(init), seq![env_line(e)]);
        let s2 = ConfigView { env: init, ..st };
        lemma_apply_one(s2, env_line(e));
        assert(find_char(es[es.len() - 1].0, '=') is None);
        lemma_env_line(s2, e);
        assert forall|i: int| 0 <= i < init.len() implies crate::envmap::str_lt(#[trigger] init[i].0, e.0) by {
            assert(init[i] == es[i]);
            assert(crate::envmap::str_lt(es[i].0, es[es.len() - 1].0));
        }
        lemma_env_insert_last(init, e.0, e.1);
        assert(init.push((e.0, e.1)) =~= es);
    }
}

proof fn lemma_cmd_fold(st: ConfigView, cs: Seq<Seq<char>>)
    requires
        forall|i: int| 0 <= i < cs.len() ==> value_ok(#[trigger] cs[i]),
    ensures
        apply_lines(st, cmd_lines(cs)) == Some(ConfigView { command: st.command + cs, ..st }),
    decreases cs.len(),
{
    if cs.len() == 0 {
        assert(cmd_lines(cs) =~= Seq::<Seq<char>>::empty());
        assert(st.command + cs =~= st.command);
    } else {
        let init = cs.drop_last();
        let c = cs.last();
        assert forall|i: int| 0 <= i < init.len() implies value_ok(#[trigger] init[i]) by {
            assert(init[i] == cs[i]);
        }
        lemma_cmd_fold(st, init);
        assert(cmd_lines(cs) =~= cmd_lines(init) + seq![cmd_line(c)]);
        lemma_apply_lines_append(st, cmd_lines(init), seq![cmd_line(c)]);
        let s2 = ConfigView { command: st.command + init, ..st };
        lemma_apply_one(s2, cmd_line(c));
        assert(value_ok(cs[cs.len() - 1]));
        lemma_cmd_line(s2, c);
        assert((st.command + init).push(c) =~= st.command + cs);
    }
}

/// Lines applied one after another through the given states.
proof fn lemma_apply_chain(ss: Seq<ConfigView>, ls: Seq<Seq<char>>)
    requires
        ss.len() == ls.len() + 1,
        forall|i: int| 0 <= i < ls.len() ==> apply_line(ss[i], #[trigger] ls[i]) == Some(ss[i + 1]),
    ensures
        apply_lines(ss[0], ls) == Some(ss[ls.len() as int]),
    decreases ls.len(),
{
    if ls.len() > 0 {
        let ss2 = ss.drop_first();
        let ls2 = ls.drop_first();
        assert forall|i: int| 0 <= i < ls2.len() implies apply_line(ss2[i], #[trigger] ls2[i]) == Some(ss2[i + 1]) by {
            assert(ls2[i] == ls[i + 1]);
            assert(apply_line(ss[i + 1], ls[i + 1]) == Some(ss[i + 2]));
        }
        assert(apply_line(ss[0], ls[0]) == Some(ss[1]));
        lemma_apply_chain(ss2, ls2);
    }
}

/// The states that reading the fixed lines passes through.
spec fn head_states(v: ConfigView) -> Seq<ConfigView> {
    let s0 = initial_view();
    let s1 = ConfigView { name: v.name, ..s0 };
    let s2 = ConfigView { rootfs: v.rootfs, ..s1 };
    let s3 = ConfigView { hostname: v.hostname, ..s2 };
    let s4 = ConfigView { state: v.state, ..s3 };
    let s5 = ConfigView { pid: v.pid, ..s4 };
    let s6 = ConfigView { workdir: v.workdir, ..s5 };
    let s7 = ConfigView { memory_bytes: v.memory_bytes, ..s6 };
    let s8 = ConfigView { cpu_percent: v.cpu_percent, ..s7 };
    let s9 = ConfigView { max_pids: v.max_pids, ..s8 };
    let s10 = ConfigView { net_enabled: v.net_enabled, ..s9 };
    let s11 = ConfigView { ip_address: v.ip_address, ..s10 };
    let s12 = ConfigView { bridge_ip: v.bridge_ip, ..s11 };
    let s13 = ConfigView { subnet_bits: v.subnet_bits, ..s12 };
    seq![s0, s1, s2, s3, s4, s5, s6, s7, s8, s9, s10, s11, s12, s13]
}

/// The `name` line sets that field.
proof fn lemma_line_name(st: ConfigView, val: Seq<char>)
    requires
        value_ok(val),
    ensures
        apply_line(st, "name="@ + val) == Some(ConfigView { name: val, ..st }),
{
    lemma_key_literals();
    lemma_lit_key("name"@);
    lemma_line_entry(st, "name"@, val);
}

/// The `rootfs` line sets that field.
proof fn lemma_line_rootfs(st: ConfigView, val: Seq<char>)
    requires
        value_ok(val),
    ensures
        apply_line(st, "rootfs="@ + val) == Some(ConfigView { rootfs: val, ..st }),
{
    lemma_key_literals();
    lemma_lit_key("rootfs"@);
    lemma_line_entry(st, "rootfs"@, val);
}

/// The `hostname` line sets that field.
proof fn lemma_line_hostname(st: ConfigView, val: Seq<char>)
    requires
        value_ok(val),
    ensures
        apply_line(st, "hostname="@ + val) == Some(ConfigView { hostname: val, ..st }),
{
    lemma_key_literals();
    lemma_lit_key("hostname"@);
    lemma_line_entry(st, "hostname"@, val);
}

/// The `workdir` line sets that field.
proof fn lemma_line_workdir(st: ConfigView, val: Seq<char>)
    requires
        value_ok(val),
    ensures
        apply_line(st, "workdir="@ + val) == Some(ConfigView { workdir: val, ..st }),
{
    lemma_key_literals();
    lemma_lit_key("workdir"@);
    lemma_line_entry(st, "workdir"@, val);
}

/// The `ip_address` line sets that field.
proof fn lemma_line_ip_address(st: ConfigView, val: Seq<char>)
    requires
        value_ok(val),
    ensures
        apply_line(st, "ip_address="@ + val) == Some(ConfigView { ip_address: val, ..st }),
{
    lemma_key_literals();
    lemma_lit_key("ip_address"@);
    lemma_line_entry(st, "ip_address"@, val);
}

/// The `bridge_ip` line sets that field.
proof fn lemma_line_bridge_ip(st: ConfigView, val: Seq<char>)
    requires
        value_ok(val),
    ensures
        apply_line(st, "bridge_ip="@ + val) == Some(ConfigView { bridge_ip: val, ..st }),
{
    lemma_key_literals();
    lemma_lit_key("bridge_ip"@);
    lemma_line_entry(st, "bridge_ip"@, val);
}

/// The `pid` line sets that field.
proof fn lemma_line_pid(st: ConfigView, n: u32)
    ensures
        apply_line(st, "pid="@ + decimal(n as nat)) == Some(ConfigView { pid: n, ..st }),
{
    lemma_key_literals();
    lemma_lit_key("pid"@);
    lemma_digits_value_ok(n as nat);
    lemma_parse_decimal(n as nat, u32::MAX as nat);
    lemma_line_entry(st, "pid"@, decimal(n as nat));
}

/// The `memory_bytes` line sets that field.
proof fn lemma_line_memory_bytes(st: ConfigView, n: u64)
    ensures
        apply_line(st, "memory_bytes="@ + decimal(n as nat)) == Some(ConfigView { memory_bytes: n, ..st }),
{
    lemma_key_literals();
    lemma_lit_key("memory_bytes"@);
    lemma_digits_value_ok(n as nat);
    lemma_parse_decimal(n as nat, u64::MAX as nat);
    lemma_line_entry(st, "memory_bytes"@, decimal(n as nat));
}

/// The `cpu_percent` line sets that field.
proof fn lemma_line_cpu_percent(st: ConfigView, n: u32)
    ensures
        apply_line(st, "cpu_percent="@ + decimal(n as nat)) == Some(ConfigView { cpu_percent: n, ..st }),
{
    lemma_key_literals();
    lemma_lit_key("cpu_percent"@);
    lemma_digits_value_ok(n as nat);
    lemma_parse_decimal(n as nat, u32::MAX as nat);
    lemma_line_entry(st, "cpu_percent"@, decimal(n as nat));
}

/// The `max_pids` line sets that field.
proof fn lemma_line_max_pids(st: ConfigView, n: u32)
    ensures
        apply_line(st, "max_pids="@ + decimal(n as nat)) == Some(ConfigView { max_pids: n, ..st }),
{
    lemma_key_literals();
    lemma_lit_key("max_pids"@);
    lemma_digits_value_ok(n as nat);
    lemma_parse_decimal(n as nat, u32::MAX as nat);
    lemma_line_entry(st, "max_pids"@, decimal(n as nat));
}

/// The `subnet_bits` line sets that field.
proof fn lemma_line_subnet_bits(st: ConfigView, n: u8)
    ensures
        apply_line(st, "subnet_bits="@ + decimal(n as nat)) == Some(ConfigView { subnet_bits: n, ..st }),
{
    lemma_key_literals();
    lemma_lit_key("subnet_bits"@);
    lemma_digits_value_ok(n as nat);
    lemma_parse_decimal(n as nat, u8::MAX as nat);
    lemma_line_entry(st, "subnet_bits"@, decimal(n as nat));
}

/// The `state` line sets that field.
proof fn lemma_line_state(st: ConfigView, s: ContainerState)
    ensures
        apply_line(st, "state="@ + state_name(s)) == Some(ConfigView { state: s, ..st }),
{
    lemma_key_literals();
    lemma_lit_key("state"@);
    lemma_state_name_roundtrip(s);
    lemma_find_char_none(state_name(s), '\n');
    lemma_line_entry(st, "state"@, state_name(s));
}

/// The `network_enabled` line sets that field.
proof fn lemma_line_network_enabled(st: ConfigView, b: bool)
    ensures
        apply_line(st, "network_enabled="@ + bool_text(b)) == Some(ConfigView { net_enabled: b, ..st }),
{
    lemma_key_literals();
    lemma_lit_key("network_enabled"@);
    lemma_find_char_none(bool_text(b), '\n');
    lemma_line_entry(st, "network_enabled"@, bool_text(b));
}

/// The first seven fixed lines.
spec fn head_first_lines(v: ConfigView) -> Seq<Seq<char>> {
    seq![
        "name="@ + v.name,
        "rootfs="@ + v.rootfs,
        "hostname="@ + v.hostname,
        "state="@ + state_name(v.state),
        "pid="@ + decimal(v.pid as nat),
        "workdir="@ + v.workdir,
        "memory_bytes="@ + decimal(v.memory_bytes as nat),
    ]
}

/// The last six fixed lines.
spec fn head_rest_lines(v: ConfigView) -> Seq<Seq<char>> {
    seq![
        "cpu_percent="@ + decimal(v.cpu_percent as nat),
        "max_pids="@ + decimal(v.max_pids as nat),
        "network_enabled="@ + bool_text(v.net_enabled),
        "ip_address="@ + v.ip_address,
        "bridge_ip="@ + v.bridge_ip,
        "subnet_bits="@ + decimal(v.subnet_bits as nat),
    ]
}

/// The state after the first seven fixed lines.
spec fn head_mid_state(v: ConfigView) -> ConfigView {
    head_states(v)[7]
}

#[verifier::rlimit(100)]
proof fn lemma_head_first(v: ConfigView)
    requires
        value_ok(v.name),
        value_ok(v.rootfs),
        value_ok(v.hostname),
        value_ok(v.workdir),
    ensures
        apply_lines(initial_view(), head_first_lines(v)) == Some(head_mid_state(v)),
{
    let all = head_states(v);
    let ss = seq![all[0], all[1], all[2], all[3], all[4], all[5], all[6], all[7]];
    let h = head_first_lines(v);
    lemma_line_name(ss[0], v.name);
    lemma_line_rootfs(ss[1], v.rootfs);
    lemma_line_hostname(ss[2], v.hostname);
    lemma_line_state(ss[3], v.state);
    lemma_line_pid(ss[4], v.pid);
    lemma_line_workdir(ss[5], v.workdir);
    lemma_line_memory_bytes(ss[6], v.memory_bytes);
    assert forall|i: int| 0 <= i < h.len() implies apply_line(ss[i], #[trigger] h[i]) == Some(ss[i + 1]) by {
        if i < 4 {
            assert(i == 0 || i == 1 || i == 2 || i == 3);
        } else {
            assert(i == 4 || i == 5 || i == 6);
        }
    }
    lemma_apply_chain(ss, h);
}

#[verifier::rlimit(100)]
proof fn lemma_head_rest(v: ConfigView)
    requires
        value_ok(v.ip_address),
        value_ok(v.bridge_ip),
    ensures
        apply_lines(head_mid_state(v), head_rest_lines(v)) == Some(
            ConfigView { ports: Seq::empty(), env: Seq::empty(), command: Seq::empty(), ..v },
        ),
{
    let all = head_states(v);
    let ss = seq![all[7], all[8], all[9], all[10], all[11], all[12], all[13]];
    let h = head_rest_lines(v);
    lemma_line_cpu_percent(ss[0], v.cpu_percent);
    lemma_line_max_pids(ss[1], v.max_pids);
    lemma_line_network_enabled(ss[2], v.net_enabled);
    lemma_line_ip_address(ss[3], v.ip_address);
    lemma_line_bridge_ip(ss[4], v.bridge_ip);
    lemma_line_subnet_bits(ss[5], v.subnet_bits);
    assert forall|i: int| 0 <= i < h.len() implies apply_line(ss[i], #[trigger] h[i]) == Some(ss[i + 1]) by {
        if i < 3 {
            assert(i == 0 || i == 1 || i == 2);
        } else {
            assert(i == 3 || i == 4 || i == 5);
        }
    }
    lemma_apply_chain(ss, h);
}

/// The fixed lines, read back from the initial state, set the fixed fields.
proof fn lemma_head(v: ConfigView)
    requires
        config_writable(v),
    ensures
        apply_lines(initial_view(), head_lines(v)) == Some(
            ConfigView { ports: Seq::empty(), env: Seq::empty(), command: Seq::empty(), ..v },
        ),
{
    assert(head_lines(v) =~= head_first_lines(v) + head_rest_lines(v));
    lemma_head_first(v);
    lemma_head_rest(v);
    lemma_apply_lines_append(initial_view(), head_first_lines(v), head_rest_lines(v));
}

/// The fixed lines are lines: non-empty, without line breaks, not ending
/// in a carriage return.
#[verifier::rlimit(100)]
proof fn lemma_head_lines_ok(v: ConfigView)
    requires
        config_writable(v),
    ensures
        forall|i: int| 0 <= i < head_lines(v).len() ==> (#[trigger] head_lines(v)[i]).len() > 0
            && find_char(head_lines(v)[i], '\n') is None && head_lines(v)[i].last() != '\r',
{
    lemma_key_literals();
    let s0 = initial_view();
    let h = head_lines(v);
    lemma_digits_value_ok(v.pid as nat);
    lemma_digits_value_ok(v.memory_bytes as nat);
    lemma_digits_value_ok(v.cpu_percent as nat);
    lemma_digits_value_ok(v.max_pids as nat);
    lemma_digits_value_ok(v.subnet_bits as nat);
    lemma_lit_key("name"@);
    lemma_lit_key("rootfs"@);
    lemma_lit_key("hostname"@);
    lemma_lit_key("state"@);
    lemma_lit_key("pid"@);
    lemma_lit_key("workdir"@);
    lemma_lit_key("memory_bytes"@);
    lemma_lit_key("cpu_percent"@);
    lemma_lit_key("max_pids"@);
    lemma_lit_key("network_enabled"@);
    lemma_lit_key("ip_address"@);
    lemma_lit_key("bridge_ip"@);
    lemma_lit_key("subnet_bits"@);
    assert(value_ok(state_name(v.state))) by {
        lemma_find_char_none(state_name(v.state), '\n');
    }
    assert(value_ok(bool_text(v.net_enabled))) by {
        lemma_find_char_none(bool_text(v.net_enabled), '\n');
    }
    lemma_line_entry(s0, "name"@, v.name);
    lemma_line_entry(s0, "rootfs"@, v.rootfs);
    lemma_line_entry(s0, "hostname"@, v.hostname);
    lemma_line_entry(s0, "state"@, state_name(v.state));
    lemma_line_entry(s0, "pid"@, decimal(v.pid as nat));
    lemma_line_entry(s0, "workdir"@, v.workdir);
    lemma_line_entry(s0, "memory_bytes"@, decimal(v.memory_bytes as nat));
    lemma_line_entry(s0, "cpu_percent"@, decimal(v.cpu_percent as nat));
    lemma_line_entry(s0, "max_pids"@, decimal(v.max_pids as nat));
    lemma_line_entry(s0, "network_enabled"@, bool_text(v.net_enabled));
    lemma_line_entry(s0, "ip_address"@, v.ip_address);
    lemma_line_entry(s0, "bridge_ip"@, v.bridge_ip);
    lemma_line_entry(s0, "subnet_bits"@, decimal(v.subnet_bits as nat));
}

/// Reading back a written configuration gives the configuration.
pub proof fn lemma_config_roundtrip(v: ConfigView)
    requires
        config_writable(v),
    ensures
        parse_config(join_lines(config_lines(v))) == Some(v),
{
    let h = head_lines(v);
    let pl = port_lines(v.ports);
    let el = env_lines(v.env);
    let cl = cmd_lines(v.command);
    let ls = config_lines(v);
    lemma_head(v);
    lemma_head_lines_ok(v);
    let s13 = ConfigView { ports: Seq::empty(), env: Seq::empty(), command: Seq::empty(), ..v };
    lemma_ports_fold(s13, v.ports);
    let sp = ConfigView { ports: v.ports, ..s13 };
    assert(s13.ports + v.ports =~= v.ports);
    lemma_env_fold(sp, v.env);
    let se = ConfigView { env: v.env, ..sp };
    lemma_cmd_fold(se, v.command);
    assert(se.command + v.command =~= v.command);
    lemma_apply_lines_append(initial_view(), h, pl);
    lemma_apply_lines_append(initial_view(), h + pl, el);
    lemma_apply_lines_append(initial_view(), h + pl + el, cl);
    assert(ConfigView { command: v.command, ..se } == v);
    assert forall|i: int| 0 <= i < ls.len() implies (#[trigger] ls[i]).len() > 0 && find_char(ls[i], '\n')
        is None && ls[i].last() != '\r' by {
        if i < 13 {
            assert(ls[i] == h[i]);
        } else if i < 13 + pl.len() {
            assert(ls[i] == pl[i - 13]);
            lemma_port_line(s13, v.ports[i - 13]);
        } else if i < 13 + pl.len() + el.len() {
            let k = i - 13 - pl.len();
            assert(ls[i] == el[k]);
            assert(find_char(v.env[k].0, '=') is None);
            lemma_env_line(s13, v.env[k]);
        } else {
            let k = i - 13 - pl.len() - el.len();
            assert(ls[i] == cl[k]);
            assert(value_ok(v.command[k]));
            lemma_cmd_line(s13, v.command[k]);
        }
    }
    lemma_lines_join(ls);
}

} // verus!

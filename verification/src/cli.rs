//! Command-line arguments of the `holycontainer` commands, parsed into plain
//! options; what the commands then do with the system is the caller's part.
use vstd::prelude::*;
use crate::config::{ContainerConfig, ConfigView, initial_view, memory_parts, parse_memory, string_views};
use crate::compose::pair_views;
use crate::envmap::{EnvMap, env_insert};
use crate::error::ContainerError;
use crate::text::{chars_of, decimal, extend_chars, find_char, find_from, parse_uint_exec, parse_uint_max, push_decimal, range_eq_lit, string_of, string_of_range, concat_str, prefixed_range};

verus! {

/// The options of `create`.
#[derive(Debug)]
pub struct CreateOptions {
    pub name: String,
    pub rootfs: Option<String>,
    pub image: Option<String>,
    pub hostname: Option<String>,
    pub memory: u64,
    pub cpus: u32,
    pub pids: u32,
    /// `KEY=VALUE` pairs, in order.
    pub env: Vec<(String, String)>,
    pub workdir: String,
    pub ports: Vec<(u16, u16)>,
    pub network_enabled: bool,
    pub volumes: Vec<String>,
}

/// The abstract content of the `create` options (without the name).
pub struct CreateView {
    pub rootfs: Option<Seq<char>>,
    pub image: Option<Seq<char>>,
    pub hostname: Option<Seq<char>>,
    pub memory: u64,
    pub cpus: u32,
    pub pids: u32,
    pub env: Seq<(Seq<char>, Seq<char>)>,
    pub workdir: Seq<char>,
    pub ports: Seq<(u16, u16)>,
    pub network_enabled: bool,
    pub volumes: Seq<Seq<char>>,
}

pub open spec fn opt_view(o: Option<String>) -> Option<Seq<char>> {
    match o {
        Some(s) => Some(s@),
        None => None,
    }
}

impl CreateOptions {
    pub open spec fn view_opts(&self) -> CreateView {
        CreateView {
            rootfs: opt_view(self.rootfs),
            image: opt_view(self.image),
            hostname: opt_view(self.hostname),
            memory: self.memory,
            cpus: self.cpus,
            pids: self.pids,
            env: pair_views(self.env@),
            workdir: self.workdir@,
            ports: self.ports@,
            network_enabled: self.network_enabled,
            volumes: string_views(self.volumes@),
        }
    }
}

/// The options before any flag.
pub open spec fn default_create() -> CreateView {
    CreateView {
        rootfs: None,
        image: None,
        hostname: None,
        memory: 0,
        cpus: 0,
        pids: 0,
        env: Seq::empty(),
        workdir: "/"@,
        ports: Seq::empty(),
        network_enabled: true,
        volumes: Seq::empty(),
    }
}

/// How reading the flags ends: the options, an invalid flag or value, or a
/// memory size that does not fit in 64 bits.
pub enum Flags {
    Done(CreateView),
    Bad,
    Overflow,
}

/// The flags of `create` from position `i` on, with options `st` so far.
pub open spec fn create_flags(args: Seq<Seq<char>>, i: int, st: CreateView) -> Flags
    decreases args.len() - i,
{
    if i < 0 || i >= args.len() {
        Flags::Done(st)
    } else {
        let a = args[i];
        let has_value = i + 1 < args.len();
        let v = args[i + 1];
        if a == "--no-network"@ {
            create_flags(args, i + 1, CreateView { network_enabled: false, ..st })
        } else if !(a == "--rootfs"@ || a == "--image"@ || a == "--hostname"@ || a == "--memory"@ || a
            == "-m"@ || a == "--cpus"@ || a == "-c"@ || a == "--pids"@ || a == "--env"@ || a == "-e"@
            || a == "--workdir"@ || a == "-w"@ || a == "--port"@ || a == "-p"@ || a == "--volume"@ || a
            == "-v"@) {
            Flags::Bad
        } else if !has_value {
            Flags::Bad
        } else if a == "--rootfs"@ {
            create_flags(args, i + 2, CreateView { rootfs: Some(v), ..st })
        } else if a == "--image"@ {
            create_flags(args, i + 2, CreateView { image: Some(v), ..st })
        } else if a == "--hostname"@ {
            create_flags(args, i + 2, CreateView { hostname: Some(v), ..st })
        } else if a == "--memory"@ || a == "-m"@ {
            match memory_parts(v) {
                None => Flags::Bad,
                Some((n, m)) => if n * m > u64::MAX {
                    Flags::Overflow
                } else {
                    create_flags(args, i + 2, CreateView { memory: (n * m) as u64, ..st })
                },
            }
        } else if a == "--cpus"@ || a == "-c"@ {
            match parse_uint_max(v, u32::MAX as nat) {
                None => Flags::Bad,
                Some(n) => create_flags(args, i + 2, CreateView { cpus: n as u32, ..st }),
            }
        } else if a == "--pids"@ {
            match parse_uint_max(v, u32::MAX as nat) {
                None => Flags::Bad,
                Some(n) => create_flags(args, i + 2, CreateView { pids: n as u32, ..st }),
            }
        } else if a == "--env"@ || a == "-e"@ {
            match find_char(v, '=') {
                None => Flags::Bad,
                Some(j) => create_flags(args, i + 2, CreateView { env: st.env.push((v.take(j), v.skip(j + 1))), ..st }),
            }
        } else if a == "--workdir"@ || a == "-w"@ {
            create_flags(args, i + 2, CreateView { workdir: v, ..st })
        } else if a == "--port"@ || a == "-p"@ {
            match find_char(v, ':') {
                None => Flags::Bad,
                Some(j) => match (parse_uint_max(v.take(j), 65535), parse_uint_max(v.skip(j + 1), 65535)) {
                    (Some(h), Some(c)) => create_flags(args, i + 2, CreateView { ports: st.ports.push((h as u16, c as u16)), ..st }),
                    _ => Flags::Bad,
                },
            }
        } else {
            create_flags(args, i + 2, CreateView { volumes: st.volumes.push(v), ..st })
        }
    }
}

/// Whether `s` spells exactly `lit`.
fn is_lit(s: &String, lit: &str) -> (r: bool)
    ensures
        r == (s@ == lit@),
{
    let c = chars_of(s.as_str());
    assert(c@.subrange(0, c@.len() as int) =~= s@);
    range_eq_lit(&c, 0, c.len(), lit)
}

/// The error for a `create` flag given without its value.
fn missing_value(a: &String) -> (e: ContainerError)
    ensures
        e is Config,
{
    let m = if is_lit(a, "--rootfs") {
        "--rootfs requires a value"
    } else if is_lit(a, "--image") {
        "--image requires a value"
    } else if is_lit(a, "--hostname") {
        "--hostname requires a value"
    } else if is_lit(a, "--memory") || is_lit(a, "-m") {
        "--memory requires a value"
    } else if is_lit(a, "--cpus") || is_lit(a, "-c") {
        "--cpus requires a value"
    } else if is_lit(a, "--pids") {
        "--pids requires a value"
    } else if is_lit(a, "--env") || is_lit(a, "-e") {
        "--env requires KEY=VALUE"
    } else if is_lit(a, "--workdir") || is_lit(a, "-w") {
        "--workdir requires a value"
    } else if is_lit(a, "--port") || is_lit(a, "-p") {
        "--port requires host:container"
    } else {
        "--volume requires host:container"
    };
    ContainerError::Config(m.to_string())
}

/// Parses the arguments of `create`: the name, then flags.
#[verifier::rlimit(80)]
pub fn parse_create_args(args: &Vec<String>) -> (r: Result<CreateOptions, ContainerError>)
    requires
        args@.len() > 0 ==> !(create_flags(string_views(args@), 1, default_create()) is Overflow),
    ensures
        args@.len() == 0 ==> r is Err && r->Err_0 is Config,
        args@.len() > 0 ==> match create_flags(string_views(args@), 1, default_create()) {
            Flags::Done(o) => r is Ok && r->Ok_0.name@ == args@[0]@ && r->Ok_0.view_opts() == o,
            _ => r is Err && r->Err_0 is Config,
        },
{
    if args.len() == 0 {
        return Err(ContainerError::Config("usage: holycontainer create <name> --rootfs <path> [options]".to_string()));
    }
    let ghost av = string_views(args@);
    let mut o = CreateOptions {
        name: args[0].clone(),
        rootfs: None,
        image: None,
        hostname: None,
        memory: 0,
        cpus: 0,
        pids: 0,
        env: Vec::new(),
        workdir: "/".to_string(),
        ports: Vec::new(),
        network_enabled: true,
        volumes: Vec::new(),
    };
    assert(o.view_opts() =~= default_create()) by {
        assert(pair_views(o.env@) =~= Seq::<(Seq<char>, Seq<char>)>::empty());
        assert(string_views(o.volumes@) =~= Seq::<Seq<char>>::empty());
    }
    let mut i: usize = 1;
    while i < args.len()
        invariant
            1 <= i,
            av == string_views(args@),
            av.len() == args@.len(),
            o.name@ == args@[0]@,
            create_flags(av, 1, default_create()) == create_flags(av, i as int, o.view_opts()),
            !(create_flags(av, 1, default_create()) is Overflow),
        decreases args.len() - i,
    {
        let a = &args[i];
        assert(av[i as int] == a@);
        let has_value = i + 1 < args.len();
        if is_lit(a, "--no-network") {
            o.network_enabled = false;
            i += 1;
            continue;
        }
        let known = is_lit(a, "--rootfs") || is_lit(a, "--image") || is_lit(a, "--hostname") || is_lit(a, "--memory")
            || is_lit(a, "-m") || is_lit(a, "--cpus") || is_lit(a, "-c") || is_lit(a, "--pids") || is_lit(a, "--env")
            || is_lit(a, "-e") || is_lit(a, "--workdir") || is_lit(a, "-w") || is_lit(a, "--port") || is_lit(a, "-p")
            || is_lit(a, "--volume") || is_lit(a, "-v");
        if !known {
            return Err(ContainerError::Config(concat_str("unknown option: ", a.as_str())));
        }
        if !has_value {
            return Err(missing_value(a));
        }
        let v = &args[i + 1];
        assert(av[i + 1] == v@);
        if is_lit(a, "--rootfs") {
            o.rootfs = Some(v.clone());
        } else if is_lit(a, "--image") {
            o.image = Some(v.clone());
        } else if is_lit(a, "--hostname") {
            o.hostname = Some(v.clone());
        } else if is_lit(a, "--memory") || is_lit(a, "-m") {
            match parse_memory(v.as_str()) {
                Ok(m) => o.memory = m,
                Err(e) => return Err(e),
            }
        } else if is_lit(a, "--cpus") || is_lit(a, "-c") {
            let c = chars_of(v.as_str());
            assert(c@.subrange(0, c@.len() as int) =~= v@);
            match parse_uint_exec(&c, 0, c.len(), u32::MAX as u64) {
                Some(n) => o.cpus = n as u32,
                None => return Err(ContainerError::Config(prefixed_range("invalid cpu value: ", &c, 0, c.len()))),
            }
        } else if is_lit(a, "--pids") {
            let c = chars_of(v.as_str());
            assert(c@.subrange(0, c@.len() as int) =~= v@);
            match parse_uint_exec(&c, 0, c.len(), u32::MAX as u64) {
                Some(n) => o.pids = n as u32,
                None => return Err(ContainerError::Config(prefixed_range("invalid pids value: ", &c, 0, c.len()))),
            }
        } else if is_lit(a, "--env") || is_lit(a, "-e") {
            let c = chars_of(v.as_str());
            assert(c@.subrange(0, c@.len() as int) =~= v@);
            match find_from(&c, 0, c.len(), '=') {
                None => return Err(ContainerError::Config(prefixed_range("invalid env format: ", &c, 0, c.len()))),
                Some(j) => {
                    assert(v@.take(j as int) =~= c@.subrange(0, j as int));
                    assert(v@.skip(j + 1) =~= c@.subrange(j + 1, c@.len() as int));
                    let k = string_of_range(&c, 0, j);
                    let val = string_of_range(&c, j + 1, c.len());
                    let ghost before = o.env@;
                    o.env.push((k, val));
                    assert(pair_views(o.env@) =~= pair_views(before).push((k@, val@)));
                },
            }
        } else if is_lit(a, "--workdir") || is_lit(a, "-w") {
            o.workdir = v.clone();
        } else if is_lit(a, "--port") || is_lit(a, "-p") {
            let c = chars_of(v.as_str());
            assert(c@.subrange(0, c@.len() as int) =~= v@);
            match find_from(&c, 0, c.len(), ':') {
                None => return Err(ContainerError::Config(prefixed_range("invalid port format: ", &c, 0, c.len()))),
                Some(j) => {
                    assert(v@.take(j as int) =~= c@.subrange(0, j as int));
                    assert(v@.skip(j + 1) =~= c@.subrange(j + 1, c@.len() as int));
                    let h = match parse_uint_exec(&c, 0, j, 65535) {
                        Some(n) => n as u16,
                        None => return Err(ContainerError::Config(prefixed_range("invalid port: ", &c, 0, j))),
                    };
                    let p = match parse_uint_exec(&c, j + 1, c.len(), 65535) {
                        Some(n) => n as u16,
                        None => return Err(ContainerError::Config(prefixed_range("invalid port: ", &c, j + 1, c.len()))),
                    };
                    o.ports.push((h, p));
                },
            }
        } else {
            let ghost before = o.volumes@;
            o.volumes.push(v.clone());
            assert(string_views(o.volumes@) =~= string_views(before).push(v@));
        }
        i += 2;
    }
    Ok(o)
}

/// The environment of a configuration after binding the pairs in order.
pub open spec fn env_of_pairs(es: Seq<(Seq<char>, Seq<char>)>) -> Seq<(Seq<char>, Seq<char>)>
    decreases es.len(),
{
    if es.len() == 0 {
        Seq::empty()
    } else {
        env_insert(env_of_pairs(es.drop_last()), es.last().0, es.last().1)
    }
}

/// The configuration `create` makes from its options and the resolved root
/// filesystem: the hostname defaults to the name.
pub open spec fn config_of_options(name: Seq<char>, rootfs: Seq<char>, o: CreateView) -> ConfigView {
    ConfigView {
        name,
        rootfs,
        hostname: match o.hostname {
            Some(h) => h,
            None => name,
        },
        memory_bytes: o.memory,
        cpu_percent: o.cpus,
        max_pids: o.pids,
        workdir: o.workdir,
        net_enabled: o.network_enabled,
        ports: o.ports,
        env: env_of_pairs(o.env),
        ..initial_view()
    }
}

impl CreateOptions {
    /// The configuration of the new container, given its root filesystem.
    pub fn to_config(&self, rootfs: &str) -> (c: ContainerConfig)
        ensures
            c@ == config_of_options(self.name@, rootfs@, self.view_opts()),
            c.env.wf(),
    {
        let mut cfg = ContainerConfig::new(self.name.as_str(), rootfs);
        cfg.hostname = match &self.hostname {
            Some(h) => h.clone(),
            None => self.name.clone(),
        };
        cfg.limits.memory_bytes = self.memory;
        cfg.limits.cpu_percent = self.cpus;
        cfg.limits.max_pids = self.pids;
        cfg.workdir = self.workdir.clone();
        cfg.network.enabled = self.network_enabled;
        let mut ports: Vec<(u16, u16)> = Vec::new();
        let mut k: usize = 0;
        while k < self.ports.len()
            invariant
                k <= self.ports@.len(),
                ports@ == self.ports@.take(k as int),
            decreases self.ports@.len() - k,
        {
            ports.push(self.ports[k]);
            k += 1;
            assert(ports@ =~= self.ports@.take(k as int));
        }
        assert(self.ports@.take(self.ports@.len() as int) =~= self.ports@);
        cfg.network.port_mappings = ports;
        let ghost ev = pair_views(self.env@);
        let mut j: usize = 0;
        while j < self.env.len()
            invariant
                j <= self.env@.len(),
                ev == pair_views(self.env@),
                cfg.env.wf(),
                cfg.env@ == env_of_pairs(ev.take(j as int)),
                cfg.name@ == self.name@,
                cfg.rootfs@ == rootfs@,
                cfg.hostname@ == (match self.view_opts().hostname {
                    Some(h) => h,
                    None => self.name@,
                }),
                cfg.limits.memory_bytes == self.memory,
                cfg.limits.cpu_percent == self.cpus,
                cfg.limits.max_pids == self.pids,
                cfg.workdir@ == self.workdir@,
                cfg.network.enabled == self.network_enabled,
                cfg.network.port_mappings@ == self.ports@,
                cfg.network.ip_address@ == "10.0.0.2"@,
                cfg.network.bridge_ip@ == "10.0.0.1"@,
                cfg.network.subnet_bits == 24,
                string_views(cfg.command@) == Seq::<Seq<char>>::empty(),
                cfg.state == crate::config::ContainerState::Created,
                cfg.pid == 0,
            decreases self.env@.len() - j,
        {
            let (k2, v2) = &self.env[j];
            assert(ev.take(j + 1).drop_last() =~= ev.take(j as int));
            cfg.env.insert(k2.clone(), v2.clone());
            j += 1;
        }
        assert(ev.take(ev.len() as int) =~= ev);
        cfg
    }
}

/// The command after a `--` argument, if there is one.
pub open spec fn after_dashes(args: Seq<Seq<char>>) -> Option<Seq<Seq<char>>>
    decreases args.len(),
{
    if args.len() == 0 {
        None
    } else if args[0] == "--"@ {
        Some(args.drop_first())
    } else {
        after_dashes(args.drop_first())
    }
}

/// The arguments after the first `--`, if any (`run`, `exec`).
pub fn command_after_dashes(args: &Vec<String>) -> (r: Option<Vec<String>>)
    ensures
        match after_dashes(string_views(args@)) {
            Some(c) => r is Some && string_views(r->0@) == c,
            None => r is None,
        },
{
    let ghost av = string_views(args@);
    let mut i: usize = 0;
    assert(av.skip(0) =~= av);
    while i < args.len()
        invariant
            i <= args@.len(),
            av == string_views(args@),
            after_dashes(av) == after_dashes(av.skip(i as int)),
        decreases args@.len() - i,
    {
        assert(av.skip(i as int)[0] == args@[i as int]@);
        assert(av.skip(i as int).drop_first() =~= av.skip(i + 1));
        if is_lit(&args[i], "--") {
            let mut out: Vec<String> = Vec::new();
            let mut k = i + 1;
            while k < args.len()
                invariant
                    i + 1 <= k <= args@.len(),
                    av == string_views(args@),
                    string_views(out@) == av.subrange(i + 1, k as int),
                decreases args@.len() - k,
            {
                let ghost before = out@;
                out.push(args[k].clone());
                assert(string_views(out@) =~= string_views(before).push(av[k as int]));
                k += 1;
                assert(string_views(out@) =~= av.subrange(i + 1, k as int));
            }
            assert(av.subrange(i + 1, args@.len() as int) =~= av.skip(i + 1));
            return Some(out);
        }
        i += 1;
    }
    None
}

/// The arguments of `start`: the name, then a command after an optional `--`.
pub fn parse_start_args(args: &Vec<String>) -> (r: Result<(String, Option<Vec<String>>), ContainerError>)
    ensures
        args@.len() == 0 ==> r is Err && r->Err_0 is Config,
        args@.len() > 0 ==> r is Ok && r->Ok_0.0@ == args@[0]@ && (if args@.len() > 1 {
            r->Ok_0.1 is Some && string_views(r->Ok_0.1->0@) == (if args@[1]@ == "--"@ {
                string_views(args@).skip(2)
            } else {
                string_views(args@).skip(1)
            })
        } else {
            r->Ok_0.1 is None
        }),
{
    if args.len() == 0 {
        return Err(ContainerError::Config("usage: holycontainer start <name> [-- command args...]".to_string()));
    }
    let name = args[0].clone();
    if args.len() > 1 {
        let from: usize = if is_lit(&args[1], "--") {
            2
        } else {
            1
        };
        let ghost av = string_views(args@);
        let mut out: Vec<String> = Vec::new();
        let mut k = from;
        while k < args.len()
            invariant
                from <= k <= args@.len(),
                av == string_views(args@),
                string_views(out@) == av.subrange(from as int, k as int),
            decreases args@.len() - k,
        {
            let ghost before = out@;
            out.push(args[k].clone());
            assert(string_views(out@) =~= string_views(before).push(av[k as int]));
            k += 1;
            assert(string_views(out@) =~= av.subrange(from as int, k as int));
        }
        assert(av.subrange(from as int, args@.len() as int) =~= av.skip(from as int));
        Ok((name, Some(out)))
    } else {
        Ok((name, None))
    }
}

/// The value of a `-f`/`--file` flag, the only flag of `up` and `down`.
pub open spec fn file_flag(args: Seq<Seq<char>>, i: int, cur: Option<Seq<char>>) -> Option<Option<Seq<char>>>
    decreases args.len() - i,
{
    if i < 0 || i >= args.len() {
        Some(cur)
    } else if (args[i] == "-f"@ || args[i] == "--file"@) && i + 1 < args.len() {
        file_flag(args, i + 2, Some(args[i + 1]))
    } else {
        None
    }
}

/// Parses the arguments of `up` and `down` (the command `verb`): the stack
/// file.
pub fn parse_stack_args(args: &Vec<String>, verb: &str) -> (r: Result<String, ContainerError>)
    ensures
        match file_flag(string_views(args@), 0, None) {
            Some(Some(f)) => r is Ok && r->Ok_0@ == f,
            _ => r is Err && r->Err_0 is Config,
        },
{
    let ghost av = string_views(args@);
    let mut file: Option<String> = None;
    let mut i: usize = 0;
    while i < args.len()
        invariant
            av == string_views(args@),
            file_flag(av, 0, None) == file_flag(av, i as int, opt_view(file)),
        decreases args@.len() - i,
    {
        assert(av[i as int] == args@[i as int]@);
        if is_lit(&args[i], "-f") || is_lit(&args[i], "--file") {
            if i + 1 >= args.len() {
                return Err(ContainerError::Config("-f requires a file path".to_string()));
            }
            assert(av[i + 1] == args@[i + 1]@);
            file = Some(args[i + 1].clone());
            i += 2;
        } else {
            return Err(ContainerError::Config(concat_str("unknown option: ", args[i].as_str())));
        }
    }
    match file {
        Some(f) => Ok(f),
        None => {
            let head = concat_str("usage: holycontainer ", verb);
            Err(ContainerError::Config(concat_str(head.as_str(), " -f <stack.toml>")))
        },
    }
}

/// The value of `--port`/`-p` for `dashboard`; 8080 by default.
pub open spec fn port_flag(args: Seq<Seq<char>>, i: int, cur: u16) -> Option<u16>
    decreases args.len() - i,
{
    if i < 0 || i >= args.len() {
        Some(cur)
    } else if (args[i] == "--port"@ || args[i] == "-p"@) && i + 1 < args.len() {
        match parse_uint_max(args[i + 1], 65535) {
            Some(p) => port_flag(args, i + 2, p as u16),
            None => None,
        }
    } else {
        None
    }
}

/// Parses the arguments of `dashboard`: the port.
pub fn parse_dashboard_args(args: &Vec<String>) -> (r: Result<u16, ContainerError>)
    ensures
        match port_flag(string_views(args@), 0, 8080) {
            Some(p) => r == Ok::<u16, ContainerError>(p),
            None => r is Err && r->Err_0 is Config,
        },
{
    let ghost av = string_views(args@);
    let mut port: u16 = 8080;
    let mut i: usize = 0;
    while i < args.len()
        invariant
            av == string_views(args@),
            port_flag(av, 0, 8080) == port_flag(av, i as int, port),
        decreases args@.len() - i,
    {
        assert(av[i as int] == args@[i as int]@);
        if is_lit(&args[i], "--port") || is_lit(&args[i], "-p") {
            if i + 1 >= args.len() {
                return Err(ContainerError::Config("--port requires a value".to_string()));
            }
            assert(av[i + 1] == args@[i + 1]@);
            let c = chars_of(args[i + 1].as_str());
            assert(c@.subrange(0, c@.len() as int) =~= args@[i + 1]@);
            match parse_uint_exec(&c, 0, c.len(), 65535) {
                Some(p) => port = p as u16,
                None => return Err(ContainerError::Config("--port must be a number".to_string())),
            }
            i += 2;
        } else {
            return Err(ContainerError::Config(concat_str("unknown option: ", args[i].as_str())));
        }
    }
    Ok(port)
}

/// The name of a container started by `run`: `run_<image>_<secs>`, with
/// `:`, `/` and `.` in the image reference replaced by `_`.
pub open spec fn run_name(image: Seq<char>, secs: u64) -> Seq<char> {
    "run_"@ + image.map_values(|c: char| if c == ':' || c == '/' || c == '.' { '_' } else { c }) + seq!['_']
        + decimal(secs as nat)
}

/// Names the container of `run`, given the time in seconds.
pub fn run_container_name(image: &str, secs: u64) -> (s: String)
    ensures
        s@ == run_name(image@, secs),
{
    let c = chars_of(image);
    let mut out = chars_of("run_");
    let ghost start = out@;
    let mut i: usize = 0;
    while i < c.len()
        invariant
            i <= c@.len(),
            c@ == image@,
            out@ == start + c@.take(i as int).map_values(|c: char| if c == ':' || c == '/' || c == '.' { '_' } else { c }),
        decreases c@.len() - i,
    {
        let ch = c[i];
        out.push(if ch == ':' || ch == '/' || ch == '.' { '_' } else { ch });
        i += 1;
        assert(out@ =~= start + c@.take(i as int).map_values(|c: char| if c == ':' || c == '/' || c == '.' { '_' } else { c }));
    }
    assert(c@.take(c@.len() as int) =~= c@);
    out.push('_');
    push_decimal(&mut out, secs);
    string_of(&out)
}


/// The subcommands of the command line.
#[derive(Copy, Clone, Debug, PartialEq, Eq, Structural)]
pub enum Command {
    Create,
    Start,
    Stop,
    Delete,
    Ps,
    Pull,
    Run,
    Images,
    InitRootfs,
    ImageCreate,
    ImageExtract,
    VmBoot,
    VmCheck,
    Up,
    Down,
    Dashboard,
    Exec,
    Logs,
    Help,
    Version,
    Unknown,
}

/// The subcommand a word names; the VM commands exist on Windows only.
pub open spec fn command_of(w: Seq<char>, windows: bool) -> Command {
    if w == "create"@ {
        Command::Create
    } else if w == "start"@ {
        Command::Start
    } else if w == "stop"@ {
        Command::Stop
    } else if w == "rm"@ || w == "delete"@ {
        Command::Delete
    } else if w == "ps"@ || w == "list"@ {
        Command::Ps
    } else if w == "pull"@ {
        Command::Pull
    } else if w == "run"@ {
        Command::Run
    } else if w == "images"@ {
        Command::Images
    } else if w == "init-rootfs"@ {
        Command::InitRootfs
    } else if w == "image-create"@ {
        Command::ImageCreate
    } else if w == "image-extract"@ {
        Command::ImageExtract
    } else if windows && w == "vm-boot"@ {
        Command::VmBoot
    } else if windows && w == "vm-check"@ {
        Command::VmCheck
    } else if w == "up"@ {
        Command::Up
    } else if w == "down"@ {
        Command::Down
    } else if w == "dashboard"@ || w == "ui"@ || w == "gui"@ {
        Command::Dashboard
    } else if w == "exec"@ {
        Command::Exec
    } else if w == "logs"@ {
        Command::Logs
    } else if w == "help"@ || w == "--help"@ || w == "-h"@ {
        Command::Help
    } else if w == "version"@ || w == "--version"@ || w == "-v"@ {
        Command::Version
    } else {
        Command::Unknown
    }
}

/// Reads the subcommand word.
pub fn parse_command(word: &String, windows: bool) -> (c: Command)
    ensures
        c == command_of(word@, windows),
{
    if is_lit(word, "create") {
        Command::Create
    } else if is_lit(word, "start") {
        Command::Start
    } else if is_lit(word, "stop") {
        Command::Stop
    } else if is_lit(word, "rm") || is_lit(word, "delete") {
        Command::Delete
    } else if is_lit(word, "ps") || is_lit(word, "list") {
        Command::Ps
    } else if is_lit(word, "pull") {
        Command::Pull
    } else if is_lit(word, "run") {
        Command::Run
    } else if is_lit(word, "images") {
        Command::Images
    } else if is_lit(word, "init-rootfs") {
        Command::InitRootfs
    } else if is_lit(word, "image-create") {
        Command::ImageCreate
    } else if is_lit(word, "image-extract") {
        Command::ImageExtract
    } else if windows && is_lit(word, "vm-boot") {
        Command::VmBoot
    } else if windows && is_lit(word, "vm-check") {
        Command::VmCheck
    } else if is_lit(word, "up") {
        Command::Up
    } else if is_lit(word, "down") {
        Command::Down
    } else if is_lit(word, "dashboard") || is_lit(word, "ui") || is_lit(word, "gui") {
        Command::Dashboard
    } else if is_lit(word, "exec") {
        Command::Exec
    } else if is_lit(word, "logs") {
        Command::Logs
    } else if is_lit(word, "help") || is_lit(word, "--help") || is_lit(word, "-h") {
        Command::Help
    } else if is_lit(word, "version") || is_lit(word, "--version") || is_lit(word, "-v") {
        Command::Version
    } else {
        Command::Unknown
    }
}

/// The arguments of `exec`: the container, then the command after the
/// first `--`, or else every argument after the name.
pub open spec fn exec_args_of(args: Seq<Seq<char>>) -> Option<(Seq<char>, Seq<Seq<char>>)> {
    if args.len() == 0 {
        None
    } else {
        match after_dashes(args) {
            Some(c) => Some((args[0], c)),
            None => if args.len() > 1 {
                Some((args[0], args.skip(1)))
            } else {
                None
            },
        }
    }
}

/// Parses the arguments of `exec`.
pub fn parse_exec_args(args: &Vec<String>) -> (r: Result<(String, Vec<String>), ContainerError>)
    ensures
        match exec_args_of(string_views(args@)) {
            Some((n, c)) => r is Ok && r->Ok_0.0@ == n && string_views(r->Ok_0.1@) == c,
            None => r is Err && r->Err_0 is Config,
        },
{
    if args.len() == 0 {
        return Err(ContainerError::Config("usage: holycontainer exec <name> -- <command>".to_string()));
    }
    let name = args[0].clone();
    match command_after_dashes(args) {
        Some(c) => Ok((name, c)),
        None => {
            if args.len() > 1 {
                let ghost av = string_views(args@);
                let mut out: Vec<String> = Vec::new();
                let mut k: usize = 1;
                while k < args.len()
                    invariant
                        1 <= k <= args@.len(),
                        av == string_views(args@),
                        string_views(out@) == av.subrange(1, k as int),
                    decreases args@.len() - k,
                {
                    let ghost before = out@;
                    out.push(args[k].clone());
                    assert(string_views(out@) =~= string_views(before).push(av[k as int]));
                    k += 1;
                    assert(string_views(out@) =~= av.subrange(1, k as int));
                }
                assert(av.subrange(1, args@.len() as int) =~= av.skip(1));
                Ok((name, out))
            } else {
                Err(ContainerError::Config("exec requires a command".to_string()))
            }
        },
    }
}

/// The options of `vm-boot`.
#[derive(Debug)]
pub struct VmBootOptions {
    pub kernel: String,
    pub initrd: Option<String>,
    pub cmdline: String,
    pub mem_mb: u64,
}

/// The flags of `vm-boot` from `i` on, after the kernel, initrd, command
/// line and memory read so far: each of `--kernel`, `--initrd`, `--cmdline`
/// and `--memory` (a number of MiB) takes a value; anything else is an
/// error.
pub open spec fn vm_flags(
    args: Seq<Seq<char>>,
    i: int,
    st: (Option<Seq<char>>, Option<Seq<char>>, Seq<char>, u64),
) -> Option<(Option<Seq<char>>, Option<Seq<char>>, Seq<char>, u64)>
    decreases args.len() - i,
{
    if i < 0 || i >= args.len() {
        Some(st)
    } else if i + 1 >= args.len() {
        None
    } else if args[i] == "--kernel"@ {
        vm_flags(args, i + 2, (Some(args[i + 1]), st.1, st.2, st.3))
    } else if args[i] == "--initrd"@ {
        vm_flags(args, i + 2, (st.0, Some(args[i + 1]), st.2, st.3))
    } else if args[i] == "--cmdline"@ {
        vm_flags(args, i + 2, (st.0, st.1, args[i + 1], st.3))
    } else if args[i] == "--memory"@ {
        match parse_uint_max(args[i + 1], u64::MAX as nat) {
            Some(m) => vm_flags(args, i + 2, (st.0, st.1, st.2, m as u64)),
            None => None,
        }
    } else {
        None
    }
}

/// The options of `vm-boot`: 256 MiB and a serial console by default; the
/// kernel is required.
pub open spec fn vm_boot_of(args: Seq<Seq<char>>) -> Option<(Seq<char>, Option<Seq<char>>, Seq<char>, u64)> {
    match vm_flags(args, 0, (None, None, "console=ttyS0 earlyprintk=serial"@, 256)) {
        Some((Some(k), ini, c, m)) => Some((k, ini, c, m)),
        _ => None,
    }
}

/// Parses the arguments of `vm-boot`.
pub fn parse_vm_boot_args(args: &Vec<String>) -> (r: Result<VmBootOptions, ContainerError>)
    ensures
        match vm_boot_of(string_views(args@)) {
            Some((k, ini, c, m)) => r is Ok && r->Ok_0.kernel@ == k && opt_view(r->Ok_0.initrd) == ini
                && r->Ok_0.cmdline@ == c && r->Ok_0.mem_mb == m,
            None => r is Err && r->Err_0 is Config,
        },
{
    let ghost av = string_views(args@);
    let mut kernel: Option<String> = None;
    let mut initrd: Option<String> = None;
    let mut cmdline: String = "console=ttyS0 earlyprintk=serial".to_owned();
    let mut mem_mb: u64 = 256;
    let mut i: usize = 0;
    while i < args.len()
        invariant
            av == string_views(args@),
            vm_flags(av, 0, (None, None, "console=ttyS0 earlyprintk=serial"@, 256)) == vm_flags(
                av,
                i as int,
                (opt_view(kernel), opt_view(initrd), cmdline@, mem_mb),
            ),
        decreases args@.len() - i,
    {
        assert(av[i as int] == args@[i as int]@);
        let known = is_lit(&args[i], "--kernel") || is_lit(&args[i], "--initrd") || is_lit(&args[i], "--cmdline")
            || is_lit(&args[i], "--memory");
        if !known {
            return Err(ContainerError::Config(concat_str("unknown option: ", args[i].as_str())));
        }
        if i + 1 >= args.len() {
            let m = if is_lit(&args[i], "--kernel") {
                "--kernel requires a path"
            } else if is_lit(&args[i], "--initrd") {
                "--initrd requires a path"
            } else if is_lit(&args[i], "--cmdline") {
                "--cmdline requires a value"
            } else {
                "--memory requires a value in MB"
            };
            return Err(ContainerError::Config(m.to_string()));
        }
        assert(av[i + 1] == args@[i + 1]@);
        if is_lit(&args[i], "--kernel") {
            kernel = Some(args[i + 1].clone());
        } else if is_lit(&args[i], "--initrd") {
            initrd = Some(args[i + 1].clone());
        } else if is_lit(&args[i], "--cmdline") {
            cmdline = args[i + 1].clone();
        } else if is_lit(&args[i], "--memory") {
            let c = chars_of(args[i + 1].as_str());
            assert(c@.subrange(0, c@.len() as int) =~= args@[i + 1]@);
            match parse_uint_exec(&c, 0, c.len(), u64::MAX) {
                Some(m) => mem_mb = m,
                None => return Err(ContainerError::Config("--memory must be a number (MB)".to_string())),
            }
        }
        i += 2;
    }
    match kernel {
        Some(k) => Ok(VmBootOptions { kernel: k, initrd, cmdline, mem_mb }),
        None => Err(ContainerError::Config("--kernel is required".to_string())),
    }
}

} // verus!

//! Multi-container stacks: a small TOML-like stack definition, parsed into
//! services that are then ordered so that every service comes after the
//! services it depends on.
//!
//! ```text
//! [stack]
//! name = myapp
//!
//! [service.web]
//! image = nginx:latest
//! ports = 8080:80
//! memory = 256M
//! depends_on = db
//!
//! [service.db]
//! image = postgres:15
//! env.POSTGRES_PASSWORD = secret
//! volumes = ./data:/var/lib/postgresql/data
//! ```
use vstd::prelude::*;
use crate::envmap::{EnvMap, env_insert};
use crate::error::ContainerError;
use crate::config::{
    string_views, memory_parts, parse_memory, initial_view, state_name, ConfigView, ContainerConfig,
    ContainerState, NetworkConfig, ResourceLimits,
};
use crate::lifecycle::{pad_right, push_padded};
use crate::text::{
    chars_of, find_char, find_from, lines, next_line, parse_uint_exec, parse_uint_max,
    range_eq_lit, range_starts_with_lit, ranges_view, ranges_within, split_char, split_ranges,
    split_ws, split_ws_ranges, string_of_range, trim, trim_bounds, decimal, extend_chars,
    push_decimal, string_of, concat_str, is_ws, split_char_acc, lead_ws, trail_ws, trim_start, trim_end,
    lemma_lead_ws_bound, lemma_trail_ws_bound,
};

verus! {

/// A stack of containers to run together.
#[derive(Debug)]
pub struct Stack {
    pub name: String,
    pub services: Vec<ServiceDef>,
}

/// A health check for a service.
#[derive(Debug, Clone)]
pub struct HealthCheck {
    pub command: String,
    pub interval_secs: u32,
    pub timeout_secs: u32,
    pub retries: u32,
}

/// A service definition within a stack.
#[derive(Debug)]
pub struct ServiceDef {
    pub name: String,
    pub image: String,
    pub rootfs: Option<String>,
    pub command: Vec<String>,
    pub env: EnvMap,
    /// Port mappings, host to container.
    pub ports: Vec<(u16, u16)>,
    /// Volume mappings, host to container.
    pub volumes: Vec<(String, String)>,
    pub depends_on: Vec<String>,
    pub memory: String,
    pub cpus: u32,
    pub pids: u32,
    pub hostname: String,
    /// "no", "always" or "on-failure".
    pub restart: String,
    pub healthcheck: Option<HealthCheck>,
}

/// The abstract content of a service.
pub struct ServiceView {
    pub name: Seq<char>,
    pub image: Seq<char>,
    pub rootfs: Option<Seq<char>>,
    pub command: Seq<Seq<char>>,
    pub env: Seq<(Seq<char>, Seq<char>)>,
    pub ports: Seq<(u16, u16)>,
    pub volumes: Seq<(Seq<char>, Seq<char>)>,
    pub depends_on: Seq<Seq<char>>,
    pub memory: Seq<char>,
    pub cpus: u32,
    pub pids: u32,
    pub hostname: Seq<char>,
    pub restart: Seq<char>,
    pub healthcheck: Option<(Seq<char>, u32, u32, u32)>,
}

pub open spec fn pair_views(v: Seq<(String, String)>) -> Seq<(Seq<char>, Seq<char>)> {
    v.map_values(|p: (String, String)| (p.0@, p.1@))
}

impl View for ServiceDef {
    type V = ServiceView;

    open spec fn view(&self) -> ServiceView {
        ServiceView {
            name: self.name@,
            image: self.image@,
            rootfs: match self.rootfs {
                Some(r) => Some(r@),
                None => None,
            },
            command: string_views(self.command@),
            env: self.env@,
            ports: self.ports@,
            volumes: pair_views(self.volumes@),
            depends_on: string_views(self.depends_on@),
            memory: self.memory@,
            cpus: self.cpus,
            pids: self.pids,
            hostname: self.hostname@,
            restart: self.restart@,
            healthcheck: match self.healthcheck {
                Some(h) => Some((h.command@, h.interval_secs, h.timeout_secs, h.retries)),
                None => None,
            },
        }
    }
}

/// A new service named `name`: 256M of memory, hostname equal to the name,
/// no restart, everything else empty.
pub open spec fn new_service(name: Seq<char>) -> ServiceView {
    ServiceView {
        name,
        image: Seq::empty(),
        rootfs: None,
        command: Seq::empty(),
        env: Seq::empty(),
        ports: Seq::empty(),
        volumes: Seq::empty(),
        depends_on: Seq::empty(),
        memory: "256M"@,
        cpus: 0,
        pids: 0,
        hostname: name,
        restart: "no"@,
        healthcheck: None,
    }
}

impl ServiceDef {
    pub fn new(name: &str) -> (s: ServiceDef)
        ensures
            s@ == new_service(name@),
            s.env.wf(),
    {
        let s = ServiceDef {
            name: name.to_string(),
            image: String::new(),
            rootfs: None,
            command: Vec::new(),
            env: EnvMap::new(),
            ports: Vec::new(),
            volumes: Vec::new(),
            depends_on: Vec::new(),
            memory: "256M".to_string(),
            cpus: 0,
            pids: 0,
            hostname: name.to_string(),
            restart: "no".to_string(),
            healthcheck: None,
        };
        assert(string_views(s.command@) =~= Seq::<Seq<char>>::empty());
        assert(string_views(s.depends_on@) =~= Seq::<Seq<char>>::empty());
        assert(pair_views(s.volumes@) =~= Seq::<(Seq<char>, Seq<char>)>::empty());
        s
    }
}

/// `str::parse::<u16>()`, with 0 for anything unparsable.
pub open spec fn port_number(x: Seq<char>) -> nat {
    match parse_uint_max(x, 65535) {
        Some(n) => n,
        None => 0,
    }
}

/// The mapping one `host:container` piece gives: none unless it has a `:`
/// and both numbers are non-zero.
pub open spec fn port_piece(piece: Seq<char>) -> Seq<(u16, u16)> {
    let p = trim(piece);
    match find_char(p, ':') {
        Some(c) => if port_number(p.take(c)) > 0 && port_number(p.skip(c + 1)) > 0 {
            seq![(port_number(p.take(c)) as u16, port_number(p.skip(c + 1)) as u16)]
        } else {
            seq![]
        },
        None => seq![],
    }
}

/// The mappings of a comma-separated list of `host:container` pieces.
pub open spec fn ports_of(pieces: Seq<Seq<char>>) -> Seq<(u16, u16)>
    decreases pieces.len(),
{
    if pieces.len() == 0 {
        seq![]
    } else {
        ports_of(pieces.drop_last()) + port_piece(pieces.last())
    }
}

/// The volume one `host:container` piece gives: none unless it has a `:`.
pub open spec fn volume_piece(piece: Seq<char>) -> Seq<(Seq<char>, Seq<char>)> {
    let p = trim(piece);
    match find_char(p, ':') {
        Some(c) => seq![(p.take(c), p.skip(c + 1))],
        None => seq![],
    }
}

pub open spec fn volumes_of(pieces: Seq<Seq<char>>) -> Seq<(Seq<char>, Seq<char>)>
    decreases pieces.len(),
{
    if pieces.len() == 0 {
        seq![]
    } else {
        volumes_of(pieces.drop_last()) + volume_piece(pieces.last())
    }
}

/// The effect of `key = value` inside a service section.
pub open spec fn apply_service_key(s: ServiceView, key: Seq<char>, value: Seq<char>) -> ServiceView {
    if key == "image"@ {
        ServiceView { image: value, ..s }
    } else if key == "rootfs"@ {
        ServiceView { rootfs: Some(value), ..s }
    } else if key == "command"@ {
        ServiceView { command: split_ws(value), ..s }
    } else if key == "memory"@ {
        ServiceView { memory: value, ..s }
    } else if key == "cpus"@ {
        ServiceView {
            cpus: match parse_uint_max(value, u32::MAX as nat) {
                Some(n) => n as u32,
                None => 0,
            },
            ..s
        }
    } else if key == "pids"@ {
        ServiceView {
            pids: match parse_uint_max(value, u32::MAX as nat) {
                Some(n) => n as u32,
                None => 0,
            },
            ..s
        }
    } else if key == "hostname"@ {
        ServiceView { hostname: value, ..s }
    } else if key == "restart"@ {
        ServiceView { restart: value, ..s }
    } else if key == "depends_on"@ {
        ServiceView { depends_on: split_char(value, ',').map_values(|p: Seq<char>| trim(p)), ..s }
    } else if key == "ports"@ {
        ServiceView { ports: s.ports + ports_of(split_char(value, ',')), ..s }
    } else if key == "volumes"@ {
        ServiceView { volumes: s.volumes + volumes_of(split_char(value, ',')), ..s }
    } else if 4 <= key.len() && key.take(4) == "env."@ {
        ServiceView { env: env_insert(s.env, key.skip(4), value), ..s }
    } else if key == "healthcheck"@ {
        ServiceView { healthcheck: Some((value, 30u32, 5u32, 3u32)), ..s }
    } else {
        s
    }
}

/// Names written one after another, separated by `, `.
pub open spec fn comma_join(names: Seq<Seq<char>>) -> Seq<char>
    decreases names.len(),
{
    if names.len() == 0 {
        Seq::empty()
    } else if names.len() == 1 {
        names[0]
    } else {
        names[0] + seq![',', ' '] + comma_join(names.drop_first())
    }
}

/// A name fit to stand in a `depends_on` list: not empty, without `,`, and
/// without whitespace at either end.
pub open spec fn list_name(n: Seq<char>) -> bool {
    &&& n.len() > 0
    &&& forall|j: int| 0 <= j < n.len() ==> #[trigger] n[j] != ','
    &&& !is_ws(n[0])
    &&& !is_ws(n.last())
}

/// Splitting at the first separator, when `a` has none.
proof fn lemma_split_first(a: Seq<char>, c: char, y: Seq<char>, cur: Seq<char>)
    requires
        forall|j: int| 0 <= j < a.len() ==> a[j] != c,
    ensures
        split_char_acc(a + seq![c] + y, c, cur) == seq![cur + a] + split_char_acc(y, c, Seq::empty()),
    decreases a.len(),
{
    let s = a + seq![c] + y;
    if a.len() == 0 {
        assert(s[0] == c);
        assert(s.drop_first() =~= y);
        assert(cur + a =~= cur);
    } else {
        assert(s[0] == a[0]);
        assert(s.drop_first() =~= a.drop_first() + seq![c] + y);
        lemma_split_first(a.drop_first(), c, y, cur.push(a[0]));
        assert(cur.push(a[0]) + a.drop_first() =~= cur + a);
    }
}

proof fn lemma_split_comma_join(names: Seq<Seq<char>>, cur: Seq<char>)
    requires
        names.len() >= 1,
        forall|k: int| 0 <= k < names.len() ==> list_name(#[trigger] names[k]),
    ensures
        split_char_acc(comma_join(names), ',', cur) =~= Seq::new(
            names.len(),
            |k: int| if k == 0 { cur + names[0] } else { seq![' '] + names[k] },
        ),
    decreases names.len(),
{
    assert(list_name(names[0]));
    if names.len() == 1 {
        crate::registry::lemma_split_plain(names[0], ',', cur);
    } else {
        let tail = names.drop_first();
        assert forall|k: int| 0 <= k < tail.len() implies list_name(#[trigger] tail[k]) by {
            assert(tail[k] == names[k + 1]);
            assert(list_name(names[k + 1]));
        }
        let y = seq![' '] + comma_join(tail);
        assert(comma_join(names) =~= names[0] + seq![','] + y);
        lemma_split_first(names[0], ',', y, cur);
        assert(y[0] == ' ');
        assert(y.drop_first() =~= comma_join(tail));
        assert(Seq::<char>::empty().push(' ') =~= seq![' ']);
        lemma_split_comma_join(tail, seq![' ']);
    }
}

/// A listed name, with or without one space before it, trims to itself.
proof fn lemma_trim_listed(n: Seq<char>)
    requires
        list_name(n),
    ensures
        trim(n) == n,
        trim(seq![' '] + n) == n,
{
    let s = seq![' '] + n;
    assert(lead_ws(n) == 0);
    assert(trim_start(n) =~= n);
    assert(trail_ws(n) == 0);
    assert(trim_end(n) =~= n);
    assert(is_ws(s[0]));
    assert(s.drop_first() =~= n);
    assert(lead_ws(s) == 1);
    assert(trim_start(s) =~= n);
}

/// `depends_on` lists names separated by `,`, each read with its
/// surrounding whitespace removed: no dependency begins or ends with
/// whitespace.
pub proof fn lemma_depends_on_trimmed(s: ServiceView, value: Seq<char>)
    ensures
        ({
            let ds = apply_service_key(s, "depends_on"@, value).depends_on;
            forall|k: int| 0 <= k < ds.len() && #[trigger] ds[k].len() > 0 ==> !is_ws(ds[k][0]) && !is_ws(ds[k].last())
        }),
{
    reveal_strlit("depends_on");
    reveal_strlit("image");
    reveal_strlit("rootfs");
    reveal_strlit("command");
    reveal_strlit("memory");
    reveal_strlit("cpus");
    reveal_strlit("pids");
    reveal_strlit("hostname");
    reveal_strlit("restart");
    assert("depends_on"@.len() == 10);
    assert("image"@.len() == 5 && "rootfs"@.len() == 6 && "command"@.len() == 7 && "memory"@.len() == 6);
    assert("cpus"@.len() == 4 && "pids"@.len() == 4 && "hostname"@.len() == 8 && "restart"@.len() == 7);
    let ds = apply_service_key(s, "depends_on"@, value).depends_on;
    assert forall|k: int| 0 <= k < ds.len() && #[trigger] ds[k].len() > 0 implies !is_ws(ds[k][0]) && !is_ws(ds[k].last()) by {
        let p = split_char(value, ',')[k];
        assert(ds[k] == trim(p));
        let t1 = trim_start(p);
        lemma_lead_ws_bound(p);
        lemma_trail_ws_bound(t1);
        assert(ds[k][0] == t1[0]);
        assert(t1[0] == p[lead_ws(p) as int]);
        assert(ds[k].last() == t1[t1.len() - trail_ws(t1) - 1]);
    }
}

/// A `depends_on` value listing names separated by `, ` gives exactly
/// those names, in order.
pub proof fn lemma_depends_on_list(s: ServiceView, names: Seq<Seq<char>>)
    requires
        names.len() >= 1,
        forall|k: int| 0 <= k < names.len() ==> list_name(#[trigger] names[k]),
    ensures
        apply_service_key(s, "depends_on"@, comma_join(names)).depends_on == names,
{
    reveal_strlit("depends_on");
    reveal_strlit("image");
    reveal_strlit("rootfs");
    reveal_strlit("command");
    reveal_strlit("memory");
    reveal_strlit("cpus");
    reveal_strlit("pids");
    reveal_strlit("hostname");
    reveal_strlit("restart");
    assert("depends_on"@.len() == 10);
    assert("image"@.len() == 5 && "rootfs"@.len() == 6 && "command"@.len() == 7 && "memory"@.len() == 6);
    assert("cpus"@.len() == 4 && "pids"@.len() == 4 && "hostname"@.len() == 8 && "restart"@.len() == 7);
    let ds = apply_service_key(s, "depends_on"@, comma_join(names)).depends_on;
    lemma_split_comma_join(names, Seq::empty());
    assert(Seq::<char>::empty() + names[0] =~= names[0]);
    assert forall|k: int| 0 <= k < names.len() implies #[trigger] ds[k] == names[k] by {
        assert(list_name(names[k]));
        lemma_trim_listed(names[k]);
    }
    assert(ds =~= names);
}

/// The section the parser is in.
#[derive(PartialEq, Eq, Structural, Clone, Copy)]
pub enum Section {
    Outside,
    Stack,
    Service,
}

/// The parser's state between lines.
pub struct StackParse {
    pub name: Seq<char>,
    pub services: Seq<ServiceView>,
    pub section: Section,
    pub current: Seq<char>,
}

/// Index of the first service named `n`.
pub open spec fn find_service(svcs: Seq<ServiceView>, n: Seq<char>) -> Option<int>
    decreases svcs.len(),
{
    if svcs.len() == 0 {
        None
    } else if svcs[0].name == n {
        Some(0)
    } else {
        match find_service(svcs.drop_first(), n) {
            Some(i) => Some(i + 1),
            None => None,
        }
    }
}

pub proof fn lemma_find_service(svcs: Seq<ServiceView>, n: Seq<char>)
    ensures
        find_service(svcs, n) matches Some(i) ==> 0 <= i < svcs.len() && svcs[i].name == n
            && forall|j: int| 0 <= j < i ==> svcs[j].name != n,
        find_service(svcs, n) is None ==> forall|j: int| 0 <= j < svcs.len() ==> svcs[j].name != n,
    decreases svcs.len(),
{
    if svcs.len() > 0 {
        lemma_find_service(svcs.drop_first(), n);
        if svcs[0].name != n {
            assert forall|j: int| 0 < j < svcs.len() implies svcs[j] == svcs.drop_first()[j - 1] by {}
        }
    }
}

pub proof fn lemma_find_service_at(svcs: Seq<ServiceView>, n: Seq<char>, i: int)
    requires
        0 <= i < svcs.len(),
        svcs[i].name == n,
        forall|j: int| 0 <= j < i ==> svcs[j].name != n,
    ensures
        find_service(svcs, n) == Some(i),
{
    lemma_find_service(svcs, n);
    if let Some(k) = find_service(svcs, n) {
        assert(k == i);
    }
}

pub proof fn lemma_find_service_none(svcs: Seq<ServiceView>, n: Seq<char>)
    requires
        forall|j: int| 0 <= j < svcs.len() ==> svcs[j].name != n,
    ensures
        find_service(svcs, n) is None,
{
    lemma_find_service(svcs, n);
}

/// The effect of one line of a stack definition.
pub open spec fn apply_stack_line(st: StackParse, line: Seq<char>) -> StackParse {
    let t = trim(line);
    if t.len() == 0 || t[0] == '#' {
        st
    } else if t[0] == '[' && t.last() == ']' {
        let sec = t.subrange(1, t.len() - 1);
        if sec == "stack"@ {
            StackParse { section: Section::Stack, current: Seq::empty(), ..st }
        } else if 8 <= sec.len() && sec.take(8) == "service."@ {
            let n = sec.skip(8);
            StackParse {
                section: Section::Service,
                current: n,
                services: if find_service(st.services, n) is Some {
                    st.services
                } else {
                    st.services.push(new_service(n))
                },
                ..st
            }
        } else {
            st
        }
    } else {
        match find_char(t, '=') {
            None => st,
            Some(i) => {
                let key = trim(t.take(i));
                let value = trim(t.skip(i + 1));
                match st.section {
                    Section::Stack => if key == "name"@ {
                        StackParse { name: value, ..st }
                    } else {
                        st
                    },
                    Section::Service => match find_service(st.services, st.current) {
                        Some(j) => StackParse {
                            services: st.services.update(
                                j,
                                apply_service_key(st.services[j], key, value),
                            ),
                            ..st
                        },
                        None => st,
                    },
                    Section::Outside => st,
                }
            },
        }
    }
}

pub open spec fn apply_stack_lines(st: StackParse, ls: Seq<Seq<char>>) -> StackParse
    decreases ls.len(),
{
    if ls.len() == 0 {
        st
    } else {
        apply_stack_lines(apply_stack_line(st, ls[0]), ls.drop_first())
    }
}

/// The state after reading a whole stack definition, before ordering.
pub open spec fn stack_parse(content: Seq<char>) -> StackParse {
    apply_stack_lines(
        StackParse {
            name: "default"@,
            services: Seq::empty(),
            section: Section::Outside,
            current: Seq::empty(),
        },
        lines(content),
    )
}

pub open spec fn svc_views(v: Seq<ServiceDef>) -> Seq<ServiceView> {
    v.map_values(|s: ServiceDef| s@)
}

pub open spec fn envs_wf(v: Seq<ServiceDef>) -> bool {
    forall|i: int| 0 <= i < v.len() ==> (#[trigger] v[i]).env.wf()
}

/// Index of the first service named `name`.
fn find_service_exec(services: &Vec<ServiceDef>, name: &String) -> (r: Option<usize>)
    ensures
        r matches Some(i) ==> find_service(svc_views(services@), name@) == Some(i as int),
        r is None ==> find_service(svc_views(services@), name@) is None,
{
    let ghost sv = svc_views(services@);
    let mut i: usize = 0;
    while i < services.len()
        invariant
            i <= services.len(),
            sv == svc_views(services@),
            forall|j: int| 0 <= j < i ==> sv[j].name != name@,
        decreases services.len() - i,
    {
        if services[i].name == *name {
            proof {
                lemma_find_service_at(sv, name@, i as int);
            }
            return Some(i);
        }
        i += 1;
    }
    proof {
        lemma_find_service_none(sv, name@);
    }
    None
}

/// The strings `d[r.0..r.1]` for each range, each trimmed if `trimmed`.
fn strings_of_ranges(d: &[char], r: &Vec<(usize, usize)>, lo: usize, hi: usize, trimmed: bool) -> (v: Vec<String>)
    requires
        lo <= hi <= d.len(),
        ranges_within(r@, lo as int, hi as int),
    ensures
        string_views(v@) == (if trimmed {
            ranges_view(d@, r@).map_values(|p: Seq<char>| trim(p))
        } else {
            ranges_view(d@, r@)
        }),
{
    let ghost pieces = ranges_view(d@, r@);
    let ghost goal = if trimmed {
        pieces.map_values(|p: Seq<char>| trim(p))
    } else {
        pieces
    };
    let mut v: Vec<String> = Vec::new();
    let mut k: usize = 0;
    assert(goal.len() == r@.len());
    while k < r.len()
        invariant
            k <= r.len(),
            lo <= hi <= d.len(),
            ranges_within(r@, lo as int, hi as int),
            pieces == ranges_view(d@, r@),
            goal == (if trimmed {
                pieces.map_values(|p: Seq<char>| trim(p))
            } else {
                pieces
            }),
            string_views(v@) == goal.take(k as int),
            v@.len() == k,
            goal.len() == r@.len(),
        decreases r.len() - k,
    {
        let (a, b) = r[k];
        assert(lo <= r@[k as int].0 <= r@[k as int].1 <= hi);
        let x = if trimmed {
            let (ta, tb) = trim_bounds(d, a, b);
            string_of_range(d, ta, tb)
        } else {
            string_of_range(d, a, b)
        };
        assert(x@ == goal[k as int]);
        let ghost old_v = v@;
        v.push(x);
        assert forall|j: int| 0 <= j <= k implies #[trigger] string_views(v@)[j] == goal[j] by {
            if j < k {
                assert(string_views(old_v)[j] == goal.take(k as int)[j]);
                assert(v@[j] == old_v[j]);
            }
        }
        k += 1;
        assert(string_views(v@) =~= goal.take(k as int));
    }
    assert(goal.take(r.len() as int) =~= goal);
    v
}

/// The port mappings of the comma-separated pieces of `d[vlo..vhi]`, appended.
fn push_ports(ports: &mut Vec<(u16, u16)>, d: &[char], vlo: usize, vhi: usize)
    requires
        vlo <= vhi <= d.len(),
    ensures
        final(ports)@ == old(ports)@ + ports_of(split_char(d@.subrange(vlo as int, vhi as int), ',')),
{
    let r = split_ranges(d, vlo, vhi, ',');
    let ghost pieces = ranges_view(d@, r@);
    let ghost start = ports@;
    let mut k: usize = 0;
    while k < r.len()
        invariant
            k <= r.len(),
            vlo <= vhi <= d.len(),
            ranges_within(r@, vlo as int, vhi as int),
            pieces == ranges_view(d@, r@),
            ports@ == start + ports_of(pieces.take(k as int)),
        decreases r.len() - k,
    {
        let (a, b) = r[k];
        assert(vlo <= r@[k as int].0 <= r@[k as int].1 <= vhi);
        let ghost piece = pieces[k as int];
        assert(pieces.take(k + 1).drop_last() =~= pieces.take(k as int));
        assert(pieces.take(k + 1).last() == piece);
        let (ta, tb) = trim_bounds(d, a, b);
        let ghost p = trim(piece);
        match find_from(d, ta, tb, ':') {
            Some(c) => {
                assert(p.take(c - ta) =~= d@.subrange(ta as int, c as int));
                assert(p.skip(c - ta + 1) =~= d@.subrange(c + 1, tb as int));
                let h: u16 = match parse_uint_exec(d, ta, c, 65535) {
                    Some(n) => n as u16,
                    None => 0,
                };
                let ct: u16 = match parse_uint_exec(d, c + 1, tb, 65535) {
                    Some(n) => n as u16,
                    None => 0,
                };
                if h > 0 && ct > 0 {
                    ports.push((h, ct));
                }
                assert(ports@ =~= start + ports_of(pieces.take(k + 1)));
            },
            None => {
                assert(ports@ =~= start + ports_of(pieces.take(k + 1)));
            },
        }
        k += 1;
    }
    assert(pieces.take(r.len() as int) =~= pieces);
}

/// The volume mappings of the comma-separated pieces of `d[vlo..vhi]`, appended.
fn push_volumes(volumes: &mut Vec<(String, String)>, d: &[char], vlo: usize, vhi: usize)
    requires
        vlo <= vhi <= d.len(),
    ensures
        pair_views(final(volumes)@) == pair_views(old(volumes)@) + volumes_of(
            split_char(d@.subrange(vlo as int, vhi as int), ','),
        ),
{
    let r = split_ranges(d, vlo, vhi, ',');
    let ghost pieces = ranges_view(d@, r@);
    let ghost start = pair_views(volumes@);
    let mut k: usize = 0;
    while k < r.len()
        invariant
            k <= r.len(),
            vlo <= vhi <= d.len(),
            ranges_within(r@, vlo as int, vhi as int),
            pieces == ranges_view(d@, r@),
            pair_views(volumes@) == start + volumes_of(pieces.take(k as int)),
        decreases r.len() - k,
    {
        let (a, b) = r[k];
        assert(vlo <= r@[k as int].0 <= r@[k as int].1 <= vhi);
        let ghost piece = pieces[k as int];
        assert(pieces.take(k + 1).drop_last() =~= pieces.take(k as int));
        assert(pieces.take(k + 1).last() == piece);
        let (ta, tb) = trim_bounds(d, a, b);
        let ghost p = trim(piece);
        let ghost before = volumes@;
        match find_from(d, ta, tb, ':') {
            Some(c) => {
                assert(p.take(c - ta) =~= d@.subrange(ta as int, c as int));
                assert(p.skip(c - ta + 1) =~= d@.subrange(c + 1, tb as int));
                let h = string_of_range(d, ta, c);
                let ct = string_of_range(d, c + 1, tb);
                volumes.push((h, ct));
                assert(pair_views(volumes@) =~= pair_views(before).push((h@, ct@)));
                assert(pair_views(volumes@) =~= start + volumes_of(pieces.take(k + 1)));
            },
            None => {
                assert(pair_views(volumes@) =~= start + volumes_of(pieces.take(k + 1)));
            },
        }
        k += 1;
    }
    assert(pieces.take(r.len() as int) =~= pieces);
}

/// Applies `key = value` (the key `d[klo..khi]`, the value `d[vlo..vhi]`) to a service.
#[verifier::rlimit(40)]
fn apply_service_key_exec(svc: &mut ServiceDef, d: &[char], klo: usize, khi: usize, vlo: usize, vhi: usize)
    requires
        klo <= khi <= d.len(),
        vlo <= vhi <= d.len(),
        old(svc).env.wf(),
    ensures
        final(svc).env.wf(),
        final(svc)@ == apply_service_key(
            old(svc)@,
            d@.subrange(klo as int, khi as int),
            d@.subrange(vlo as int, vhi as int),
        ),
{
    let ghost key = d@.subrange(klo as int, khi as int);
    let ghost value = d@.subrange(vlo as int, vhi as int);
    if range_eq_lit(d, klo, khi, "image") {
        svc.image = string_of_range(d, vlo, vhi);
    } else if range_eq_lit(d, klo, khi, "rootfs") {
        svc.rootfs = Some(string_of_range(d, vlo, vhi));
    } else if range_eq_lit(d, klo, khi, "command") {
        let r = split_ws_ranges(d, vlo, vhi);
        svc.command = strings_of_ranges(d, &r, vlo, vhi, false);
    } else if range_eq_lit(d, klo, khi, "memory") {
        svc.memory = string_of_range(d, vlo, vhi);
    } else if range_eq_lit(d, klo, khi, "cpus") {
        svc.cpus = match parse_uint_exec(d, vlo, vhi, u32::MAX as u64) {
            Some(n) => n as u32,
            None => 0,
        };
    } else if range_eq_lit(d, klo, khi, "pids") {
        svc.pids = match parse_uint_exec(d, vlo, vhi, u32::MAX as u64) {
            Some(n) => n as u32,
            None => 0,
        };
    } else if range_eq_lit(d, klo, khi, "hostname") {
        svc.hostname = string_of_range(d, vlo, vhi);
    } else if range_eq_lit(d, klo, khi, "restart") {
        svc.restart = string_of_range(d, vlo, vhi);
    } else if range_eq_lit(d, klo, khi, "depends_on") {
        let r = split_ranges(d, vlo, vhi, ',');
        svc.depends_on = strings_of_ranges(d, &r, vlo, vhi, true);
    } else if range_eq_lit(d, klo, khi, "ports") {
        push_ports(&mut svc.ports, d, vlo, vhi);
    } else if range_eq_lit(d, klo, khi, "volumes") {
        push_volumes(&mut svc.volumes, d, vlo, vhi);
    } else if range_starts_with_lit(d, klo, khi, "env.") {
        proof {
            reveal_strlit("env.");
            assert(key.take(4) =~= d@.subrange(klo as int, klo + 4));
            assert(key.skip(4) =~= d@.subrange(klo + 4, khi as int));
        }
        let k = string_of_range(d, klo + 4, khi);
        let v = string_of_range(d, vlo, vhi);
        svc.env.insert(k, v);
    } else if range_eq_lit(d, klo, khi, "healthcheck") {
        proof {
            if 4 <= key.len() {
                assert(key.take(4) =~= d@.subrange(klo as int, klo + 4));
            }
        }
        svc.healthcheck = Some(
            HealthCheck {
                command: string_of_range(d, vlo, vhi),
                interval_secs: 30,
                timeout_secs: 5,
                retries: 3,
            },
        );
    } else {
        proof {
            if 4 <= key.len() {
                assert(key.take(4) =~= d@.subrange(klo as int, klo + 4));
            }
        }
    }
}

pub open spec fn initial_parse() -> StackParse {
    StackParse {
        name: "default"@,
        services: Seq::empty(),
        section: Section::Outside,
        current: Seq::empty(),
    }
}

/// Reads the lines of a stack definition: the stack's name and its services
/// in the order they were first declared.
#[verifier::rlimit(60)]
fn parse_stack_lines(content: &str) -> (r: (String, Vec<ServiceDef>))
    ensures
        r.0@ == stack_parse(content@).name,
        svc_views(r.1@) == stack_parse(content@).services,
        envs_wf(r.1@),
{
    let d = chars_of(content);
    let mut name = "default".to_string();
    let mut services: Vec<ServiceDef> = Vec::new();
    let mut section = Section::Outside;
    let mut current = String::new();
    let mut pos: usize = 0;
    assert(d@.skip(0) =~= d@);
    assert(svc_views(services@) =~= Seq::<ServiceView>::empty());
    while pos < d.len()
        invariant
            pos <= d.len(),
            d@ == content@,
            envs_wf(services@),
            apply_stack_lines(initial_parse(), lines(d@)) == apply_stack_lines(
                StackParse {
                    name: name@,
                    services: svc_views(services@),
                    section,
                    current: current@,
                },
                lines(d@.skip(pos as int)),
            ),
        decreases d.len() - pos,
    {
        let ghost st = StackParse {
            name: name@,
            services: svc_views(services@),
            section,
            current: current@,
        };
        let (e, next) = next_line(&d, pos);
        let ghost line = d@.subrange(pos as int, e as int);
        assert(lines(d@.skip(pos as int)).drop_first() =~= lines(d@.skip(next as int)));
        let (lo, hi) = trim_bounds(&d, pos, e);
        let ghost t = trim(line);
        let ghost goal = apply_stack_line(st, line);
        if lo == hi || d[lo] == '#' {
        } else if d[lo] == '[' && d[hi - 1] == ']' {
            assert(t.subrange(1, t.len() - 1) =~= d@.subrange(lo + 1, hi - 1));
            if range_eq_lit(&d, lo + 1, hi - 1, "stack") {
                section = Section::Stack;
                current = String::new();
            } else if range_starts_with_lit(&d, lo + 1, hi - 1, "service.") {
                proof {
                    reveal_strlit("service.");
                    let sec = t.subrange(1, t.len() - 1);
                    assert(sec.take(8) =~= d@.subrange(lo + 1, lo + 9));
                    assert(sec.skip(8) =~= d@.subrange(lo + 9, hi - 1));
                }
                let n = string_of_range(&d, lo + 9, hi - 1);
                section = Section::Service;
                match find_service_exec(&services, &n) {
                    Some(_) => {},
                    None => {
                        let ghost old_s = services@;
                        services.push(ServiceDef::new(n.as_str()));
                        assert(svc_views(services@) =~= svc_views(old_s).push(new_service(n@)));
                    },
                }
                current = n;
            } else {
                proof {
                    reveal_strlit("service.");
                    let sec = t.subrange(1, t.len() - 1);
                    if 8 <= sec.len() {
                        assert(sec.take(8) =~= d@.subrange(lo + 1, lo + 9));
                    }
                }
            }
        } else {
            match find_from(&d, lo, hi, '=') {
                None => {},
                Some(i) => {
                    assert(t.take(i - lo) =~= d@.subrange(lo as int, i as int));
                    assert(t.skip(i - lo + 1) =~= d@.subrange(i + 1, hi as int));
                    let (klo, khi) = trim_bounds(&d, lo, i);
                    let (vlo, vhi) = trim_bounds(&d, i + 1, hi);
                    match section {
                        Section::Stack => {
                            if range_eq_lit(&d, klo, khi, "name") {
                                name = string_of_range(&d, vlo, vhi);
                            }
                        },
                        Section::Service => {
                            match find_service_exec(&services, &current) {
                                Some(j) => {
                                    let ghost old_s = services@;
                                    proof {
                                        lemma_find_service(svc_views(old_s), current@);
                                        assert(svc_views(old_s).len() == old_s.len());
                                    }
                                    let mut svc = services.remove(j);
                                    assert(svc == old_s[j as int]);
                                    assert(svc.env.wf());
                                    apply_service_key_exec(&mut svc, &d, klo, khi, vlo, vhi);
                                    let ghost nv = svc@;
                                    services.insert(j, svc);
                                    assert(services@ =~= old_s.update(j as int, services@[j as int]));
                                    assert(svc_views(services@) =~= svc_views(old_s).update(j as int, nv));
                                    assert(envs_wf(services@)) by {
                                        assert forall|q: int| 0 <= q < services@.len() implies (#[trigger] services@[q]).env.wf() by {
                                            if q != j {
                                                assert(services@[q] == old_s[q]);
                                            }
                                        }
                                    }
                                },
                                None => {},
                            }
                        },
                        Section::Outside => {},
                    }
                },
            }
        }
        assert(StackParse {
            name: name@,
            services: svc_views(services@),
            section,
            current: current@,
        } == goal);
        pos = next;
    }
    assert(d@.skip(pos as int) =~= Seq::<char>::empty());
    assert(lines(Seq::<char>::empty()) =~= Seq::<Seq<char>>::empty());
    (name, services)
}

/// Service `a` depends on service `b`: one of `a`'s dependencies names `b`
/// (the first service of that name).
pub open spec fn dep_edge(svcs: Seq<ServiceView>, a: int, b: int) -> bool {
    0 <= a < svcs.len() && exists|d: Seq<char>|
        #![trigger svcs[a].depends_on.contains(d)]
        svcs[a].depends_on.contains(d) && find_service(svcs, d) == Some(b)
}

/// `p` is a cycle of dependencies.
pub open spec fn is_cycle(svcs: Seq<ServiceView>, p: Seq<int>) -> bool {
    &&& p.len() > 0
    &&& forall|k: int| 0 <= k < p.len() - 1 ==> dep_edge(svcs, #[trigger] p[k], p[k + 1])
    &&& dep_edge(svcs, p.last(), p[0])
}

pub open spec fn has_cycle(svcs: Seq<ServiceView>) -> bool {
    exists|p: Seq<int>| is_cycle(svcs, p)
}

/// Some service depends on a name that no service has.
pub open spec fn unknown_dep(svcs: Seq<ServiceView>) -> bool {
    exists|i: int, d: Seq<char>|
        0 <= i < svcs.len() && #[trigger] svcs[i].depends_on.contains(d) && find_service(svcs, d)
            is None
}

/// `ord` lists every service once, each after the services it depends on.
pub open spec fn topo_order(svcs: Seq<ServiceView>, ord: Seq<int>) -> bool {
    &&& forall|k: int| 0 <= k < ord.len() ==> 0 <= #[trigger] ord[k] < svcs.len()
    &&& forall|k1: int, k2: int| 0 <= k1 < k2 < ord.len() ==> #[trigger] ord[k1] != #[trigger] ord[k2]
    &&& forall|i: int| 0 <= i < svcs.len() ==> #[trigger] ord.contains(i)
    &&& forall|k: int, d: Seq<char>|
        0 <= k < ord.len() && #[trigger] svcs[ord[k]].depends_on.contains(d) ==> exists|k2: int|
            0 <= k2 < k && find_service(svcs, d) == Some(#[trigger] ord[k2])
}

pub open spec fn zeros(m: Seq<u8>) -> nat
    decreases m.len(),
{
    if m.len() == 0 {
        0
    } else {
        zeros(m.drop_last()) + if m.last() == 0 {
            1nat
        } else {
            0nat
        }
    }
}

proof fn lemma_zeros_update(m: Seq<u8>, i: int, v: u8)
    requires
        0 <= i < m.len(),
    ensures
        zeros(m.update(i, v)) + (if m[i] == 0 { 1nat } else { 0nat }) == zeros(m) + (if v == 0 {
            1nat
        } else {
            0nat
        }),
    decreases m.len(),
{
    if i < m.len() - 1 {
        lemma_zeros_update(m.drop_last(), i, v);
        assert(m.update(i, v).drop_last() =~= m.drop_last().update(i, v));
    } else {
        assert(m.update(i, v).drop_last() =~= m.drop_last());
    }
}

/// The state of the depth-first search: marks 0 (new), 1 (on the current
/// path) and 2 (done); `order` lists the done services, dependencies first.
pub open spec fn dfs_inv(svcs: Seq<ServiceView>, marks: Seq<u8>, order: Seq<usize>, path: Seq<int>) -> bool {
    let n = svcs.len();
    &&& marks.len() == n
    &&& forall|x: int| 0 <= x < n ==> (#[trigger] marks[x]) <= 2
    &&& forall|k: int| 0 <= k < order.len() ==> (#[trigger] order[k]) < n
    &&& forall|k1: int, k2: int| 0 <= k1 < k2 < order.len() ==> #[trigger] order[k1] != #[trigger] order[k2]
    &&& forall|x: int| 0 <= x < n ==> ((#[trigger] marks[x]) == 2 <==> order.contains(x as usize))
    &&& forall|x: int| 0 <= x < n ==> ((#[trigger] marks[x]) == 1 <==> path.contains(x))
    &&& forall|k: int| 0 <= k < path.len() ==> 0 <= #[trigger] path[k] < n
    &&& forall|k: int| 0 <= k < path.len() - 1 ==> dep_edge(svcs, #[trigger] path[k], path[k + 1])
    &&& forall|k: int, d: Seq<char>|
        0 <= k < order.len() && #[trigger] svcs[order[k] as int].depends_on.contains(d) ==> exists|k2: int|
            0 <= k2 < k && find_service(svcs, d) == Some(#[trigger] order[k2] as int)
}

/// Dependency `d` names a service that is done.
pub open spec fn dep_done(svcs: Seq<ServiceView>, marks: Seq<u8>, d: Seq<char>) -> bool {
    match find_service(svcs, d) {
        Some(j) => marks[j] == 2,
        None => false,
    }
}

/// Visits service `i` and, first, everything it depends on.
#[verifier::rlimit(80)]
fn visit(
    svcs: &Vec<ServiceDef>,
    i: usize,
    marks: &mut Vec<u8>,
    order: &mut Vec<usize>,
    Ghost(path): Ghost<Seq<int>>,
) -> (r: Result<(), ContainerError>)
    requires
        i < svcs.len(),
        dfs_inv(svc_views(svcs@), old(marks)@, old(order)@, path),
        path.len() > 0 ==> dep_edge(svc_views(svcs@), path.last(), i as int),
    ensures
        final(marks)@.len() == old(marks)@.len(),
        zeros(final(marks)@) <= zeros(old(marks)@),
        r is Ok ==> dfs_inv(svc_views(svcs@), final(marks)@, final(order)@, path),
        r is Ok ==> final(marks)@[i as int] == 2,
        r is Ok ==> forall|x: int| 0 <= x < svcs.len() && old(marks)@[x] == 2 ==> #[trigger] final(marks)@[x] == 2,
        r is Ok ==> old(order)@.len() <= final(order)@.len() && forall|k: int| 0 <= k < old(order)@.len() ==> #[trigger] final(order)@[k] == old(order)@[k],
        r is Err ==> r->Err_0 is Config && (unknown_dep(svc_views(svcs@)) || has_cycle(svc_views(svcs@))),
    decreases zeros(old(marks)@),
{
    let ghost sv = svc_views(svcs@);
    let ghost n = sv.len();
    if marks[i] == 2 {
        return Ok(());
    }
    if marks[i] == 1 {
        proof {
            assert(path.contains(i as int));
            let pos = choose|q: int| 0 <= q < path.len() && path[q] == i as int;
            let p = path.subrange(pos, path.len() as int);
            assert(p.last() == path.last());
            assert forall|k: int| 0 <= k < p.len() - 1 implies dep_edge(sv, #[trigger] p[k], p[k + 1]) by {
                assert(p[k] == path[pos + k]);
                assert(p[k + 1] == path[pos + k + 1]);
            }
            assert(is_cycle(sv, p));
        }
        let head = concat_str("circular dependency detected involving '", svcs[i].name.as_str());
        return Err(ContainerError::Config(concat_str(head.as_str(), "'")));
    }
    let ghost m0 = marks@;
    let ghost o0 = order@;
    marks.set(i, 1);
    proof {
        lemma_zeros_update(m0, i as int, 1);
    }
    let ghost p2 = path.push(i as int);
    assert(dfs_inv(sv, marks@, order@, p2)) by {
        assert forall|x: int| 0 <= x < n implies ((#[trigger] marks@[x]) == 1 <==> p2.contains(x)) by {
            if x == i {
                assert(p2[p2.len() - 1] == x);
            } else {
                if p2.contains(x) {
                    let q = choose|q: int| 0 <= q < p2.len() && p2[q] == x;
                    assert(path[q] == x);
                }
                if path.contains(x) {
                    let q = choose|q: int| 0 <= q < path.len() && path[q] == x;
                    assert(p2[q] == x);
                }
            }
        }
        assert forall|k: int| 0 <= k < p2.len() - 1 implies dep_edge(sv, #[trigger] p2[k], p2[k + 1]) by {
            if k < path.len() - 1 {
                assert(p2[k] == path[k] && p2[k + 1] == path[k + 1]);
            } else {
                assert(p2[k] == path.last());
            }
        }
    }
    let deps = &svcs[i].depends_on;
    assert(sv[i as int].depends_on == string_views(deps@));
    let mut k: usize = 0;
    while k < deps.len()
        invariant
            sv == svc_views(svcs@),
            n == sv.len() == svcs@.len(),
            i < n,
            deps@ == svcs@[i as int].depends_on@,
            sv[i as int].depends_on == string_views(deps@),
            k <= deps.len(),
            dfs_inv(sv, marks@, order@, p2),
            p2 == path.push(i as int),
            marks@[i as int] == 1,
            zeros(marks@) < zeros(m0),
            m0 == old(marks)@,
            o0 == old(order)@,
            m0.len() == n,
            m0[i as int] == 0,
            forall|x: int| 0 <= x < n && m0[x] == 2 ==> #[trigger] marks@[x] == 2,
            o0.len() <= order@.len(),
            forall|q: int| 0 <= q < o0.len() ==> #[trigger] order@[q] == o0[q],
            forall|q: int| 0 <= q < k ==> dep_done(sv, marks@, #[trigger] sv[i as int].depends_on[q]),
        decreases deps.len() - k,
    {
        let ghost dq = sv[i as int].depends_on[k as int];
        match find_service_exec(svcs, &deps[k]) {
            None => {
                proof {
                    assert(sv[i as int].depends_on.contains(dq));
                    assert(unknown_dep(sv));
                }
                let m1 = concat_str("service '", svcs[i].name.as_str());
                let m2 = concat_str(m1.as_str(), "' depends on unknown service '");
                let m3 = concat_str(m2.as_str(), deps[k].as_str());
                return Err(ContainerError::Config(concat_str(m3.as_str(), "'")));
            },
            Some(j) => {
                proof {
                    lemma_find_service(sv, dq);
                    assert(sv[i as int].depends_on.contains(dq));
                    assert(dep_edge(sv, p2.last(), j as int));
                }
                let ghost m1 = marks@;
                let ghost o1 = order@;
                match visit(svcs, j, marks, order, Ghost(p2)) {
                    Ok(()) => {},
                    Err(e) => return Err(e),
                }
                proof {
                    assert(marks@[i as int] == 1) by {
                        assert(p2.contains(i as int)) by {
                            assert(p2[p2.len() - 1] == i as int);
                        }
                    }
                    assert forall|q: int| 0 <= q < k + 1 implies dep_done(sv, marks@, #[trigger] sv[i as int].depends_on[q]) by {
                        if q < k {
                            let jj = find_service(sv, sv[i as int].depends_on[q])->0;
                            lemma_find_service(sv, sv[i as int].depends_on[q]);
                            assert(m1[jj] == 2);
                        }
                    }
                }
            },
        }
        k += 1;
    }
    let ghost m2 = marks@;
    let ghost o2 = order@;
    marks.set(i, 2);
    order.push(i);
    proof {
        lemma_zeros_update(m2, i as int, 2);
        assert(!o2.contains(i)) by {
            if o2.contains(i) {
                assert(m2[i as int] == 2);
            }
        }
        assert forall|x: int| 0 <= x < n implies ((#[trigger] marks@[x]) == 2 <==> order@.contains(x as usize)) by {
            if x == i {
                assert(order@[order@.len() - 1] == i);
            } else {
                if order@.contains(x as usize) {
                    let q = choose|q: int| 0 <= q < order@.len() && order@[q] == x as usize;
                    assert(o2[q] == x as usize);
                }
                if o2.contains(x as usize) {
                    let q = choose|q: int| 0 <= q < o2.len() && o2[q] == x as usize;
                    assert(order@[q] == x as usize);
                }
            }
        }
        assert forall|x: int| 0 <= x < n implies ((#[trigger] marks@[x]) == 1 <==> path.contains(x)) by {
            if x == i {
                if path.contains(x) {
                    assert(m2[x] == 1);
                    let q = choose|q: int| 0 <= q < path.len() && path[q] == x;
                    assert(p2[q] == x);
                    assert(p2[p2.len() - 1] == x);
                }
            } else {
                if path.contains(x) {
                    let q = choose|q: int| 0 <= q < path.len() && path[q] == x;
                    assert(p2[q] == x);
                }
                if p2.contains(x) {
                    let q = choose|q: int| 0 <= q < p2.len() && p2[q] == x;
                    if q < path.len() {
                        assert(path[q] == x);
                    }
                }
            }
        }
        assert forall|k1: int, k2: int| 0 <= k1 < k2 < order@.len() implies #[trigger] order@[k1] != #[trigger] order@[k2] by {
            if k2 == order@.len() - 1 {
                assert(o2[k1] == order@[k1]);
            } else {
                assert(o2[k1] == order@[k1] && o2[k2] == order@[k2]);
            }
        }
        assert forall|kk: int, d: Seq<char>|
            0 <= kk < order@.len() && #[trigger] sv[order@[kk] as int].depends_on.contains(d) implies exists|k2: int|
                0 <= k2 < kk && find_service(sv, d) == Some(#[trigger] order@[k2] as int) by {
            if kk < o2.len() {
                assert(order@[kk] == o2[kk]);
                let k3 = choose|k3: int| 0 <= k3 < kk && find_service(sv, d) == Some(#[trigger] o2[k3] as int);
                assert(order@[k3] == o2[k3]);
            } else {
                assert(order@[kk] == i);
                let q = choose|q: int| 0 <= q < sv[i as int].depends_on.len() && sv[i as int].depends_on[q] == d;
                let jj = find_service(sv, d)->0;
                assert(dep_done(sv, m2, sv[i as int].depends_on[q]));
                lemma_find_service(sv, d);
                assert(o2.contains(jj as usize));
                let k3 = choose|k3: int| 0 <= k3 < o2.len() && o2[k3] == jj as usize;
                assert(order@[k3] == o2[k3]);
            }
        }
        assert forall|x: int| 0 <= x < n && m0[x] == 2 implies #[trigger] marks@[x] == 2 by {
            assert(m2[x] == 2);
        }
    }
    Ok(())
}

fn copy_strings(v: &Vec<String>) -> (r: Vec<String>)
    ensures
        r@ == v@,
{
    let mut r: Vec<String> = Vec::new();
    let mut i: usize = 0;
    while i < v.len()
        invariant
            i <= v@.len(),
            r@ == v@.take(i as int),
        decreases v@.len() - i,
    {
        r.push(v[i].clone());
        i += 1;
        assert(r@ =~= v@.take(i as int));
    }
    assert(v@.take(v@.len() as int) =~= v@);
    r
}

fn copy_pairs(v: &Vec<(String, String)>) -> (r: Vec<(String, String)>)
    ensures
        r@ == v@,
{
    let mut r: Vec<(String, String)> = Vec::new();
    let mut i: usize = 0;
    while i < v.len()
        invariant
            i <= v@.len(),
            r@ == v@.take(i as int),
        decreases v@.len() - i,
    {
        let (a, b) = &v[i];
        r.push((a.clone(), b.clone()));
        i += 1;
        assert(r@ =~= v@.take(i as int));
    }
    assert(v@.take(v@.len() as int) =~= v@);
    r
}

fn copy_ports(v: &Vec<(u16, u16)>) -> (r: Vec<(u16, u16)>)
    ensures
        r@ == v@,
{
    let mut r: Vec<(u16, u16)> = Vec::new();
    let mut i: usize = 0;
    while i < v.len()
        invariant
            i <= v@.len(),
            r@ == v@.take(i as int),
        decreases v@.len() - i,
    {
        r.push(v[i]);
        i += 1;
        assert(r@ =~= v@.take(i as int));
    }
    assert(v@.take(v@.len() as int) =~= v@);
    r
}

/// A copy of a service, health check included.
fn copy_service(s: &ServiceDef) -> (r: ServiceDef)
    requires
        s.env.wf(),
    ensures
        r@ == s@,
        r.env.wf(),
{
    ServiceDef {
        name: s.name.clone(),
        image: s.image.clone(),
        rootfs: match &s.rootfs {
            Some(r) => Some(r.clone()),
            None => None,
        },
        command: copy_strings(&s.command),
        env: s.env.duplicate(),
        ports: copy_ports(&s.ports),
        volumes: copy_pairs(&s.volumes),
        depends_on: copy_strings(&s.depends_on),
        memory: s.memory.clone(),
        cpus: s.cpus,
        pids: s.pids,
        hostname: s.hostname.clone(),
        restart: s.restart.clone(),
        healthcheck: match &s.healthcheck {
            Some(h) => Some(
                HealthCheck {
                    command: h.command.clone(),
                    interval_secs: h.interval_secs,
                    timeout_secs: h.timeout_secs,
                    retries: h.retries,
                },
            ),
            None => None,
        },
    }
}

pub open spec fn pos_of(ord: Seq<int>, x: int) -> int {
    choose|q: int| 0 <= q < ord.len() && ord[q] == x
}

/// A dependency order rules out unknown dependencies and cycles.
pub proof fn lemma_topo_order_sound(svcs: Seq<ServiceView>, ord: Seq<int>)
    requires
        topo_order(svcs, ord),
    ensures
        !unknown_dep(svcs),
        !has_cycle(svcs),
{
    assert forall|i: int, d: Seq<char>|
        0 <= i < svcs.len() && #[trigger] svcs[i].depends_on.contains(d) implies find_service(svcs, d) is Some by {
        assert(ord.contains(i));
        let k = pos_of(ord, i);
        assert(svcs[ord[k]].depends_on.contains(d));
    }
    // Along an edge a -> b, b comes strictly earlier.
    assert forall|a: int, b: int| dep_edge(svcs, a, b) implies ord.contains(a) && ord.contains(b) && pos_of(ord, b) < pos_of(ord, a) by {
        let d = choose|d: Seq<char>| #![trigger svcs[a].depends_on.contains(d)] svcs[a].depends_on.contains(d) && find_service(svcs, d) == Some(b);
        assert(ord.contains(a));
        let ka = pos_of(ord, a);
        assert(svcs[ord[ka]].depends_on.contains(d));
        let k2 = choose|k2: int| 0 <= k2 < ka && find_service(svcs, d) == Some(#[trigger] ord[k2]);
        assert(ord.contains(b));
        let kb = pos_of(ord, b);
        if kb != k2 {
            if kb < k2 {
                assert(ord[kb] != ord[k2]);
            } else {
                assert(ord[k2] != ord[kb]);
            }
        }
    }
    if has_cycle(svcs) {
        let p = choose|p: Seq<int>| is_cycle(svcs, p);
        let base = pos_of(ord, p[0]);
        assert forall|k: int| 0 <= k < p.len() implies ord.contains(#[trigger] p[k]) && pos_of(ord, p[k]) <= base - k by {
            lemma_cycle_positions(svcs, ord, p, k);
        }
        assert(dep_edge(svcs, p.last(), p[0]));
        assert(pos_of(ord, p[0]) < pos_of(ord, p.last()));
        assert(pos_of(ord, p[p.len() - 1]) <= base - (p.len() - 1));
    }
}

proof fn lemma_cycle_positions(svcs: Seq<ServiceView>, ord: Seq<int>, p: Seq<int>, k: int)
    requires
        is_cycle(svcs, p),
        0 <= k < p.len(),
        forall|a: int, b: int| dep_edge(svcs, a, b) ==> ord.contains(a) && ord.contains(b) && pos_of(ord, b) < pos_of(ord, a),
    ensures
        ord.contains(p[k]),
        pos_of(ord, p[k]) <= pos_of(ord, p[0]) - k,
    decreases k,
{
    if k == 0 {
        assert(dep_edge(svcs, p.last(), p[0]));
    } else {
        lemma_cycle_positions(svcs, ord, p, k - 1);
        assert(dep_edge(svcs, p[k - 1], p[k]));
    }
}

/// Orders the services so that each comes after the services it depends on.
/// Fails on a dependency that names no service and on a dependency cycle.
pub fn topological_sort(services: &Vec<ServiceDef>) -> (r: Result<Vec<ServiceDef>, ContainerError>)
    requires
        envs_wf(services@),
    ensures
        r is Ok <==> (!unknown_dep(svc_views(services@)) && !has_cycle(svc_views(services@))),
        r matches Ok(out) ==> envs_wf(out@) && exists|ord: Seq<int>|
            topo_order(svc_views(services@), ord) && svc_views(out@) == ord.map_values(
                |k: int| (svc_views(services@)[k]),
            ),
        r is Err ==> r->Err_0 is Config,
{
    let ghost sv = svc_views(services@);
    let n = services.len();
    let mut marks: Vec<u8> = vec![0u8; n];
    let mut order: Vec<usize> = Vec::new();
    let mut i: usize = 0;
    assert(dfs_inv(sv, marks@, order@, Seq::empty()));
    while i < n
        invariant
            n == services@.len() == sv.len(),
            sv == svc_views(services@),
            i <= n,
            dfs_inv(sv, marks@, order@, Seq::empty()),
            forall|x: int| 0 <= x < i ==> #[trigger] marks@[x] == 2,
        decreases n - i,
    {
        if marks[i] == 0 {
            match visit(services, i, &mut marks, &mut order, Ghost(Seq::empty())) {
                Ok(()) => {},
                Err(e) => return Err(e),
            }
        } else {
            assert(marks@[i as int] != 1);
        }
        i += 1;
    }
    let ghost ord = order@.map_values(|k: usize| k as int);
    assert(ord.len() == order@.len());
    let mut out: Vec<ServiceDef> = Vec::new();
    let mut k: usize = 0;
    while k < order.len()
        invariant
            n == services@.len() == sv.len(),
            sv == svc_views(services@),
            envs_wf(services@),
            dfs_inv(sv, marks@, order@, Seq::empty()),
            ord == order@.map_values(|k: usize| k as int),
            k <= order@.len(),
            envs_wf(out@),
            out@.len() == k,
            ord.len() == order@.len(),
            svc_views(out@) == ord.take(k as int).map_values(|q: int| (sv[q])),
        decreases order@.len() - k,
    {
        let j = order[k];
        assert(ord[k as int] == j as int);
        assert(j < n);
        assert(services@[j as int].env.wf());
        let c = copy_service(&services[j]);
        assert(c@ == (sv[j as int]));
        let ghost old_out = out@;
        out.push(c);
        k += 1;
        assert(svc_views(out@) =~= ord.take(k as int).map_values(|q: int| (sv[q]))) by {
            assert forall|q: int| 0 <= q < k implies #[trigger] svc_views(out@)[q] == (sv[ord[q]]) by {
                if q < k - 1 {
                    assert(svc_views(old_out)[q] == ord.take(k - 1).map_values(|q: int| (sv[q]))[q]);
                }
            }
        }
        assert(envs_wf(out@)) by {
            assert forall|q: int| 0 <= q < out@.len() implies (#[trigger] out@[q]).env.wf() by {
                if q < old_out.len() {
                    assert(out@[q] == old_out[q]);
                }
            }
        }
    }
    proof {
        assert(ord.take(order@.len() as int) =~= ord);
        assert(topo_order(sv, ord)) by {
            assert forall|q: int| 0 <= q < ord.len() implies 0 <= #[trigger] ord[q] < sv.len() by {}
            assert forall|k1: int, k2: int| 0 <= k1 < k2 < ord.len() implies #[trigger] ord[k1] != #[trigger] ord[k2] by {
                assert(order@[k1] != order@[k2]);
            }
            assert forall|x: int| 0 <= x < sv.len() implies #[trigger] ord.contains(x) by {
                assert(marks@[x] == 2);
                assert(order@.contains(x as usize));
                let q = choose|q: int| 0 <= q < order@.len() && order@[q] == x as usize;
                assert(ord[q] == x);
            }
            assert forall|kk: int, d: Seq<char>|
                0 <= kk < ord.len() && #[trigger] sv[ord[kk]].depends_on.contains(d) implies exists|k2: int|
                    0 <= k2 < kk && find_service(sv, d) == Some(#[trigger] ord[k2]) by {
                assert(sv[order@[kk] as int].depends_on.contains(d));
                let k3 = choose|k3: int| 0 <= k3 < kk && find_service(sv, d) == Some(#[trigger] order@[k3] as int);
                assert(ord[k3] == order@[k3] as int);
            }
        }
        lemma_topo_order_sound(sv, ord);
    }
    Ok(out)
}

/// Parses a stack definition and orders its services by their dependencies.
pub fn parse_stack_string(content: &str) -> (r: Result<Stack, ContainerError>)
    ensures
        ({
            let st = stack_parse(content@);
            &&& r is Ok <==> (!unknown_dep(st.services) && !has_cycle(st.services))
            &&& r matches Ok(stack) ==> stack.name@ == st.name && exists|ord: Seq<int>|
                topo_order(st.services, ord) && svc_views(stack.services@) == ord.map_values(
                    |k: int| (st.services[k]),
                )
            &&& r is Err ==> r->Err_0 is Config
        }),
{
    let (name, services) = parse_stack_lines(content);
    match topological_sort(&services) {
        Ok(ordered) => Ok(Stack { name, services: ordered }),
        Err(e) => Err(e),
    }
}


// ----- Running a stack -----

/// The container of a service: `<stack>_<service>`.
pub open spec fn container_name_of(stack: Seq<char>, service: Seq<char>) -> Seq<char> {
    stack + seq!['_'] + service
}

/// Names the container of a service.
pub fn service_container_name(stack: &str, service: &str) -> (s: String)
    ensures
        s@ == container_name_of(stack@, service@),
{
    let mut v: Vec<char> = Vec::new();
    extend_chars(&mut v, stack);
    v.push('_');
    extend_chars(&mut v, service);
    string_of(&v)
}

/// Where a service's root filesystem comes from.
pub enum RootfsSource {
    /// A directory given in the stack file.
    Path(String),
    /// The image to pull.
    Pull(String),
    /// Neither is given; the service is skipped.
    Missing,
}

/// A service's root filesystem: its `rootfs` if given, else its image.
pub fn service_rootfs(service: &ServiceDef) -> (r: RootfsSource)
    ensures
        service.rootfs matches Some(p) ==> (r matches RootfsSource::Path(x) && x@ == p@),
        service.rootfs is None && service.image@.len() > 0 ==> (r matches RootfsSource::Pull(x) && x@
            == service.image@),
        service.rootfs is None && service.image@.len() == 0 ==> r is Missing,
{
    match &service.rootfs {
        Some(p) => RootfsSource::Path(p.clone()),
        None => if service.image.as_str().is_empty() {
            RootfsSource::Missing
        } else {
            RootfsSource::Pull(service.image.clone())
        },
    }
}

fn clone_strings(v: &Vec<String>) -> (r: Vec<String>)
    ensures
        string_views(r@) == string_views(v@),
{
    let mut r: Vec<String> = Vec::new();
    let mut i: usize = 0;
    while i < v.len()
        invariant
            i <= v@.len(),
            string_views(r@) == string_views(v@).take(i as int),
        decreases v@.len() - i,
    {
        let ghost before = r@;
        r.push(v[i].clone());
        assert(string_views(r@) =~= string_views(before).push(v@[i as int]@));
        i += 1;
        assert(string_views(v@).take(i as int) =~= string_views(v@).take(i - 1).push(v@[i - 1]@));
    }
    assert(string_views(v@).take(v@.len() as int) =~= string_views(v@));
    r
}

fn clone_ports(v: &Vec<(u16, u16)>) -> (r: Vec<(u16, u16)>)
    ensures
        r@ == v@,
{
    let mut r: Vec<(u16, u16)> = Vec::new();
    let mut i: usize = 0;
    while i < v.len()
        invariant
            i <= v@.len(),
            r@ == v@.take(i as int),
        decreases v@.len() - i,
    {
        r.push(v[i]);
        i += 1;
        assert(r@ =~= v@.take(i as int));
    }
    assert(v@.take(v@.len() as int) =~= v@);
    r
}

/// The memory limit of a service: its `memory` as a size, 256 MiB when that
/// is not one.
pub open spec fn service_memory(m: Seq<char>) -> u64 {
    match memory_parts(m) {
        Some((n, k)) => (n * k) as u64,
        None => 268435456,
    }
}

/// The configuration of a service's container: named `<stack>_<service>`,
/// with the service's command, environment, hostname, limits and port
/// mappings, default networking otherwise, working directory `/`, created.
pub open spec fn service_config_of(stack: Seq<char>, s: ServiceView, rootfs: Seq<char>) -> ConfigView {
    ConfigView {
        name: container_name_of(stack, s.name),
        rootfs: rootfs,
        command: s.command,
        hostname: s.hostname,
        env: s.env,
        memory_bytes: service_memory(s.memory),
        cpu_percent: s.cpus,
        max_pids: s.pids,
        ports: s.ports,
        ..initial_view()
    }
}

/// Builds the configuration of a service's container.
pub fn service_config(stack: &str, service: &ServiceDef, rootfs: &str) -> (c: ContainerConfig)
    requires
        service.env.wf(),
        memory_parts(service.memory@) matches Some((n, m)) ==> n * m <= u64::MAX,
    ensures
        c@ == service_config_of(stack@, service@, rootfs@),
        c.env.wf(),
{
    let memory_bytes = match parse_memory(service.memory.as_str()) {
        Ok(m) => m,
        Err(_) => 268435456,
    };
    let mut network = NetworkConfig::default();
    network.port_mappings = clone_ports(&service.ports);
    let c = ContainerConfig {
        name: service_container_name(stack, service.name.as_str()),
        rootfs: rootfs.to_owned(),
        command: clone_strings(&service.command),
        env: service.env.duplicate(),
        hostname: service.hostname.clone(),
        limits: ResourceLimits { memory_bytes, cpu_percent: service.cpus, max_pids: service.pids },
        network,
        workdir: "/".to_owned(),
        state: ContainerState::Created,
        pid: 0,
    };
    c
}

/// The command to start a created service container with: its own, if any.
pub fn start_command_of(config: &ContainerConfig) -> (r: Option<Vec<String>>)
    ensures
        config.command@.len() == 0 ==> r is None,
        config.command@.len() > 0 ==> (r matches Some(v) && string_views(v@) == string_views(config.command@)),
{
    if config.command.len() == 0 {
        None
    } else {
        Some(clone_strings(&config.command))
    }
}

/// The containers of a stack in the order they are brought down: the
/// services in reverse.
pub fn teardown_order(stack: &Stack) -> (r: Vec<String>)
    ensures
        r@.len() == stack.services@.len(),
        forall|i: int| 0 <= i < r@.len() ==> (#[trigger] r@[i])@ == container_name_of(
            stack.name@,
            stack.services@[stack.services@.len() - 1 - i].name@,
        ),
{
    let mut r: Vec<String> = Vec::new();
    let n = stack.services.len();
    let mut i: usize = 0;
    while i < n
        invariant
            i <= n,
            n == stack.services@.len(),
            r@.len() == i,
            forall|j: int| 0 <= j < i ==> (#[trigger] r@[j])@ == container_name_of(
                stack.name@,
                stack.services@[n - 1 - j].name@,
            ),
        decreases n - i,
    {
        r.push(service_container_name(stack.name.as_str(), stack.services[n - 1 - i].name.as_str()));
        i += 1;
    }
    r
}

/// Port mappings as `host:container`, separated by `, `.
pub open spec fn ports_text_of(ps: Seq<(u16, u16)>) -> Seq<char>
    decreases ps.len(),
{
    if ps.len() == 0 {
        Seq::empty()
    } else if ps.len() == 1 {
        decimal(ps[0].0 as nat) + seq![':'] + decimal(ps[0].1 as nat)
    } else {
        ports_text_of(ps.drop_last()) + seq![',', ' '] + decimal(ps.last().0 as nat) + seq![':'] + decimal(
            ps.last().1 as nat,
        )
    }
}

fn ports_text(ps: &Vec<(u16, u16)>) -> (s: String)
    ensures
        s@ == ports_text_of(ps@),
{
    let mut v: Vec<char> = Vec::new();
    let mut i: usize = 0;
    assert(ps@.take(0) =~= Seq::<(u16, u16)>::empty());
    while i < ps.len()
        invariant
            i <= ps@.len(),
            v@ == ports_text_of(ps@.take(i as int)),
        decreases ps@.len() - i,
    {
        if i > 0 {
            v.push(',');
            v.push(' ');
        }
        push_decimal(&mut v, ps[i].0 as u64);
        v.push(':');
        push_decimal(&mut v, ps[i].1 as u64);
        assert(ps@.take(i + 1).drop_last() =~= ps@.take(i as int));
        i += 1;
        assert(v@ =~= ports_text_of(ps@.take(i as int)));
    }
    assert(ps@.take(ps@.len() as int) =~= ps@);
    string_of(&v)
}

/// The heading of a stack's status table.
pub fn stack_status_header() -> (s: String)
    ensures
        s@ == pad_right("SERVICE"@, 25) + seq![' '] + pad_right("IMAGE"@, 15) + seq![' '] + pad_right("STATUS"@, 10)
            + seq![' '] + "PORTS"@,
{
    let mut v: Vec<char> = Vec::new();
    push_padded(&mut v, "SERVICE", 25);
    v.push(' ');
    push_padded(&mut v, "IMAGE", 15);
    v.push(' ');
    push_padded(&mut v, "STATUS", 10);
    v.push(' ');
    extend_chars(&mut v, "PORTS");
    string_of(&v)
}

/// One row of a stack's status table: the service, its image (its root
/// filesystem, or `-`, when it has no image), its container's state (`not
/// created` when it has none) and its ports.
pub open spec fn service_row_of(s: ServiceView, state: Option<ContainerState>) -> Seq<char> {
    pad_right(s.name, 25) + seq![' '] + pad_right(
        if s.image.len() == 0 {
            match s.rootfs {
                Some(r) => r,
                None => "-"@,
            }
        } else {
            s.image
        },
        15,
    ) + seq![' '] + pad_right(
        match state {
            Some(st) => state_name(st),
            None => "not created"@,
        },
        10,
    ) + seq![' '] + ports_text_of(s.ports)
}

/// Formats one row of a stack's status table.
pub fn service_status_row(service: &ServiceDef, state: Option<ContainerState>) -> (s: String)
    ensures
        s@ == service_row_of(service@, state),
{
    let image: &str = if service.image.as_str().is_empty() {
        match &service.rootfs {
            Some(r) => r.as_str(),
            None => "-",
        }
    } else {
        service.image.as_str()
    };
    let status: &str = match state {
        Some(st) => st.as_str(),
        None => "not created",
    };
    let pt = ports_text(&service.ports);
    let mut v: Vec<char> = Vec::new();
    push_padded(&mut v, service.name.as_str(), 25);
    v.push(' ');
    push_padded(&mut v, image, 15);
    v.push(' ');
    push_padded(&mut v, status, 10);
    v.push(' ');
    extend_chars(&mut v, pt.as_str());
    assert(v@ =~= service_row_of(service@, state));
    string_of(&v)
}

} // verus!

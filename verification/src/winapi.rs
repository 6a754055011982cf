//! Data handed to the Win32 API: UTF-16 strings, environment blocks and job
//! object limit structures.
#![allow(non_camel_case_types, non_snake_case)]
use vstd::prelude::*;
use crate::text::{chars_of, extend_chars, extend_from, string_of};
use crate::compose::pair_views;
use crate::config::string_views;
use crate::lifecycle::{env_default, has_env_key};

verus! {

/// UTF-16 code units of one character: itself below U+10000, otherwise a
/// surrogate pair.
pub open spec fn utf16_char(c: char) -> Seq<u16> {
    let v = c as u32;
    if v < 0x10000 {
        seq![v as u16]
    } else {
        let u = (v - 0x10000) as u32;
        seq![(0xD800 + u / 0x400) as u16, (0xDC00 + u % 0x400) as u16]
    }
}

/// `str::encode_utf16`.
pub open spec fn utf16(s: Seq<char>) -> Seq<u16>
    decreases s.len(),
{
    if s.len() == 0 {
        Seq::empty()
    } else {
        utf16(s.drop_last()) + utf16_char(s.last())
    }
}

/// Appends the UTF-16 encoding of `s`.
fn push_utf16(out: &mut Vec<u16>, s: &str)
    ensures
        final(out)@ == old(out)@ + utf16(s@),
{
    let c = chars_of(s);
    let ghost start = out@;
    let mut i: usize = 0;
    while i < c.len()
        invariant
            i <= c@.len(),
            c@ == s@,
            out@ == start + utf16(c@.take(i as int)),
        decreases c@.len() - i,
    {
        let ch = c[i];
        let v = ch as u32;
        assert(c@.take(i + 1).drop_last() =~= c@.take(i as int));
        if v < 0x10000 {
            out.push(v as u16);
        } else {
            proof {
                vstd::utf8::char_is_scalar(ch);
            }
            let u = v - 0x10000;
            out.push((0xD800 + u / 0x400) as u16);
            out.push((0xDC00 + u % 0x400) as u16);
        }
        i += 1;
        assert(out@ =~= start + utf16(c@.take(i as int)));
    }
    assert(c@.take(c@.len() as int) =~= c@);
}

/// A NUL-terminated UTF-16 string.
pub fn to_wide(s: &str) -> (w: Vec<u16>)
    ensures
        w@ == utf16(s@).push(0u16),
{
    let mut w: Vec<u16> = Vec::new();
    push_utf16(&mut w, s);
    w.push(0);
    assert(w@ =~= utf16(s@).push(0u16));
    w
}

/// The entries of an environment block, without the final NUL.
pub open spec fn env_entries(env: Seq<(Seq<char>, Seq<char>)>) -> Seq<u16>
    decreases env.len(),
{
    if env.len() == 0 {
        Seq::empty()
    } else {
        env_entries(env.drop_last()) + utf16(env.last().0 + seq!['='] + env.last().1).push(0u16)
    }
}

proof fn lemma_utf16_append(a: Seq<char>, b: Seq<char>)
    ensures
        utf16(a + b) == utf16(a) + utf16(b),
    decreases b.len(),
{
    if b.len() == 0 {
        assert(a + b =~= a);
        assert(utf16(a) + utf16(b) =~= utf16(a));
    } else {
        assert((a + b).drop_last() =~= a + b.drop_last());
        lemma_utf16_append(a, b.drop_last());
        assert(utf16(a) + utf16(b) =~= utf16(a) + utf16(b.drop_last()) + utf16_char(b.last()));
    }
}

/// Builds a Windows environment block.
pub fn build_env_block(env: &[(String, String)]) -> (b: Vec<u16>)
    ensures
        b@ == env_entries(env@.map_values(|p: (String, String)| (p.0@, p.1@))).push(0u16),
{
    let ghost ev = env@.map_values(|p: (String, String)| (p.0@, p.1@));
    let mut block: Vec<u16> = Vec::new();
    let mut i: usize = 0;
    while i < env.len()
        invariant
            i <= env@.len(),
            ev == env@.map_values(|p: (String, String)| (p.0@, p.1@)),
            block@ == env_entries(ev.take(i as int)),
        decreases env@.len() - i,
    {
        let (k, v) = &env[i];
        assert(ev.take(i + 1).drop_last() =~= ev.take(i as int));
        assert(ev.take(i + 1).last() == (k@, v@));
        let ghost before = block@;
        push_utf16(&mut block, k.as_str());
        push_utf16(&mut block, "=");
        push_utf16(&mut block, v.as_str());
        block.push(0);
        proof {
            reveal_strlit("=");
            lemma_utf16_append(k@, seq!['=']);
            lemma_utf16_append(k@ + seq!['='], v@);
            assert("="@ =~= seq!['=']);
        }
        i += 1;
        assert(block@ =~= env_entries(ev.take(i as int)));
    }
    assert(ev.take(env@.len() as int) =~= ev);
    block.push(0);
    block
}

/// Basic limits of a job object.
pub struct JOBOBJECT_BASIC_LIMIT_INFORMATION {
    pub PerProcessUserTimeLimit: i64,
    pub PerJobUserTimeLimit: i64,
    pub LimitFlags: u32,
    pub MinimumWorkingSetSize: usize,
    pub MaximumWorkingSetSize: usize,
    pub ActiveProcessLimit: u32,
    pub Affinity: usize,
    pub PriorityClass: u32,
    pub SchedulingClass: u32,
}

/// I/O counters of a job object.
pub struct IO_COUNTERS {
    pub ReadOperationCount: u64,
    pub WriteOperationCount: u64,
    pub OtherOperationCount: u64,
    pub ReadTransferCount: u64,
    pub WriteTransferCount: u64,
    pub OtherTransferCount: u64,
}

/// Extended limits of a job object.
pub struct JOBOBJECT_EXTENDED_LIMIT_INFORMATION {
    pub BasicLimitInformation: JOBOBJECT_BASIC_LIMIT_INFORMATION,
    pub IoInfo: IO_COUNTERS,
    pub ProcessMemoryLimit: usize,
    pub JobMemoryLimit: usize,
    pub PeakProcessMemoryUsed: usize,
    pub PeakJobMemoryUsed: usize,
}

/// CPU rate control of a job object.
pub struct JOBOBJECT_CPU_RATE_CONTROL_INFORMATION {
    pub ControlFlags: u32,
    /// CpuRate, Weight, or MinRate/MaxRate.
    pub Value: u32,
    pub _pad: [u32; 2],
}


/// One argument of a Windows command line: quoted, with its quotes escaped
/// by backslashes, when it holds a space or a quote.
pub open spec fn quote_arg(a: Seq<char>) -> Seq<char> {
    if a.contains(' ') || a.contains('"') {
        seq!['"'] + escape_quotes(a) + seq!['"']
    } else {
        a
    }
}

/// `a` with each `"` written `\"`.
pub open spec fn escape_quotes(a: Seq<char>) -> Seq<char>
    decreases a.len(),
{
    if a.len() == 0 {
        Seq::empty()
    } else {
        escape_quotes(a.drop_last()) + (if a.last() == '"' { seq!['\\', '"'] } else { seq![a.last()] })
    }
}

/// Quoted arguments joined by spaces.
pub open spec fn command_line_of(args: Seq<Seq<char>>) -> Seq<char>
    decreases args.len(),
{
    if args.len() == 0 {
        Seq::empty()
    } else if args.len() == 1 {
        quote_arg(args[0])
    } else {
        command_line_of(args.drop_last()) + seq![' '] + quote_arg(args.last())
    }
}

fn push_quoted(out: &mut Vec<char>, a: &str)
    ensures
        final(out)@ == old(out)@ + quote_arg(a@),
{
    let c = chars_of(a);
    let mut needs = false;
    let mut i: usize = 0;
    while i < c.len()
        invariant
            i <= c@.len(),
            c@ == a@,
            needs == exists|j: int| 0 <= j < i && (c@[j] == ' ' || c@[j] == '"'),
        decreases c@.len() - i,
    {
        if c[i] == ' ' || c[i] == '"' {
            needs = true;
        }
        i += 1;
    }
    proof {
        if needs {
            let j = choose|j: int| 0 <= j < c@.len() && (c@[j] == ' ' || c@[j] == '"');
            if c@[j] == ' ' {
                assert(a@.contains(' '));
            } else {
                assert(a@.contains('"'));
            }
        } else {
            assert(!a@.contains(' ')) by {
                if a@.contains(' ') {
                    let j = choose|j: int| 0 <= j < a@.len() && a@[j] == ' ';
                    assert(c@[j] == ' ');
                }
            }
            assert(!a@.contains('"')) by {
                if a@.contains('"') {
                    let j = choose|j: int| 0 <= j < a@.len() && a@[j] == '"';
                    assert(c@[j] == '"');
                }
            }
        }
    }
    if !needs {
        extend_from(out, &c);
        return;
    }
    let ghost o0 = out@;
    out.push('"');
    let mut k: usize = 0;
    while k < c.len()
        invariant
            k <= c@.len(),
            c@ == a@,
            out@ == o0 + seq!['"'] + escape_quotes(c@.take(k as int)),
        decreases c@.len() - k,
    {
        if c[k] == '"' {
            out.push('\\');
            out.push('"');
        } else {
            out.push(c[k]);
        }
        assert(c@.take(k + 1).drop_last() =~= c@.take(k as int));
        k += 1;
        assert(out@ =~= o0 + seq!['"'] + escape_quotes(c@.take(k as int)));
    }
    assert(c@.take(c@.len() as int) =~= c@);
    out.push('"');
}

/// The command line a container's process is created with.
pub fn command_line(cmd: &Vec<String>) -> (s: String)
    ensures
        s@ == command_line_of(string_views(cmd@)),
{
    let mut v: Vec<char> = Vec::new();
    let mut i: usize = 0;
    assert(string_views(cmd@).take(0) =~= Seq::<Seq<char>>::empty());
    while i < cmd.len()
        invariant
            i <= cmd@.len(),
            v@ == command_line_of(string_views(cmd@).take(i as int)),
        decreases cmd@.len() - i,
    {
        if i > 0 {
            v.push(' ');
        }
        push_quoted(&mut v, cmd[i].as_str());
        assert(string_views(cmd@).take(i + 1).drop_last() =~= string_views(cmd@).take(i as int));
        if i == 0 {
            assert(string_views(cmd@).take(1) =~= seq![cmd@[0]@]);
        }
        i += 1;
        assert(v@ =~= command_line_of(string_views(cmd@).take(i as int)));
    }
    assert(string_views(cmd@).take(cmd@.len() as int) =~= string_views(cmd@));
    string_of(&v)
}

/// The environment of a Windows container process: its own variables, plus
/// `PATH` and `SYSTEMROOT` when it lacks them.
pub open spec fn windows_env_of(e: Seq<(Seq<char>, Seq<char>)>) -> Seq<(Seq<char>, Seq<char>)> {
    env_default(env_default(e, "PATH"@, "C:\\Windows\\System32;C:\\Windows"@), "SYSTEMROOT"@, "C:\\Windows"@)
}

/// Completes a Windows container process's environment.
pub fn windows_env(env: &Vec<(String, String)>) -> (r: Vec<(String, String)>)
    ensures
        pair_views(r@) == windows_env_of(pair_views(env@)),
{
    let mut r: Vec<(String, String)> = Vec::new();
    let mut i: usize = 0;
    while i < env.len()
        invariant
            i <= env@.len(),
            pair_views(r@) == pair_views(env@).take(i as int),
        decreases env@.len() - i,
    {
        let ghost before = r@;
        r.push((env[i].0.clone(), env[i].1.clone()));
        assert(pair_views(r@) =~= pair_views(before).push((env@[i as int].0@, env@[i as int].1@)));
        i += 1;
        assert(pair_views(env@).take(i as int) =~= pair_views(env@).take(i - 1).push(pair_views(env@)[i - 1]));
    }
    assert(pair_views(env@).take(env@.len() as int) =~= pair_views(env@));
    add_default(&mut r, "PATH", "C:\\Windows\\System32;C:\\Windows");
    add_default(&mut r, "SYSTEMROOT", "C:\\Windows");
    r
}

fn add_default(env: &mut Vec<(String, String)>, key: &str, value: &str)
    ensures
        pair_views(final(env)@) == env_default(pair_views(old(env)@), key@, value@),
{
    let k = key.to_owned();
    let mut i: usize = 0;
    while i < env.len()
        invariant
            i <= env@.len(),
            k@ == key@,
            forall|j: int| 0 <= j < i ==> #[trigger] env@[j].0@ != key@,
        decreases env@.len() - i,
    {
        if env[i].0 == k {
            assert(pair_views(env@)[i as int].0 == key@);
            return;
        }
        i += 1;
    }
    proof {
        if has_env_key(pair_views(env@), key@) {
            let j = choose|j: int| 0 <= j < pair_views(env@).len() && #[trigger] pair_views(env@)[j].0 == key@;
            assert(env@[j].0@ != key@);
        }
    }
    let ghost before = env@;
    env.push((k, value.to_owned()));
    assert(pair_views(env@) =~= pair_views(before).push((key@, value@)));
}

/// The job object of a container: `HolyContainer_<name>`.
pub fn job_name(name: &str) -> (s: String)
    ensures
        s@ == "HolyContainer_"@ + name@,
{
    let mut v: Vec<char> = Vec::new();
    extend_chars(&mut v, "HolyContainer_");
    extend_chars(&mut v, name);
    string_of(&v)
}

} // verus!

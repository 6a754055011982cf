use vstd::prelude::*;
use crate::text::{chars_of, decimal, extend_chars, push_decimal, string_of};

verus! {

/// The kind of an I/O-style failure reported by the byte-level decoders.
#[derive(Debug, Clone, Copy, PartialEq, Eq, Structural)]
pub enum IoKind {
    UnexpectedEof,
    InvalidData,
    Other,
}

/// Every error that can occur in the container runtime.
#[derive(Debug, Clone)]
pub enum ContainerError {
    /// A raw OS call failed.
    Syscall { call: String, code: i32, detail: String },
    /// I/O or decoding failure.
    Io { kind: IoKind, message: String },
    /// Invalid configuration.
    Config(String),
    /// Filesystem setup failure.
    Filesystem(String),
    /// Networking failure.
    Network(String),
    /// Container does not exist.
    NotFound(String),
    /// Container is in the wrong state for an operation.
    InvalidState { name: String, current: String, expected: String },
    /// Image operation failure.
    Image(String),
    /// Permission denied.
    PermissionDenied(String),
    /// Feature not supported on this platform.
    Unsupported(String),
}

pub fn io_error(kind: IoKind, msg: &str) -> (e: ContainerError)
    ensures
        e == (ContainerError::Io { kind, message: e->Io_message }),
        e->Io_message@ == msg@,
{
    ContainerError::Io { kind, message: msg.to_string() }
}

/// Decimal text of a signed integer.
pub open spec fn int_text(n: int) -> Seq<char> {
    if n < 0 {
        seq!['-'] + decimal((-n) as nat)
    } else {
        decimal(n as nat)
    }
}

/// Appends the decimal text of `n`.
pub fn push_int(out: &mut Vec<char>, n: i32)
    ensures
        final(out)@ == old(out)@ + int_text(n as int),
{
    if n < 0 {
        out.push('-');
        let m: u64 = (-(n as i64)) as u64;
        push_decimal(out, m);
        assert(final(out)@ =~= old(out)@ + int_text(n as int));
    } else {
        push_decimal(out, n as u64);
    }
}

/// The description of an OS error number.
pub open spec fn errno_text(code: i32) -> Seq<char> {
    if code == 1 {
        "Operation not permitted"@
    } else if code == 2 {
        "No such file or directory"@
    } else if code == 3 {
        "No such process"@
    } else if code == 4 {
        "Interrupted system call"@
    } else if code == 5 {
        "Input/output error"@
    } else if code == 9 {
        "Bad file descriptor"@
    } else if code == 11 {
        "Resource temporarily unavailable"@
    } else if code == 12 {
        "Cannot allocate memory"@
    } else if code == 13 {
        "Permission denied"@
    } else if code == 14 {
        "Bad address"@
    } else if code == 16 {
        "Device or resource busy"@
    } else if code == 17 {
        "File exists"@
    } else if code == 19 {
        "No such device"@
    } else if code == 20 {
        "Not a directory"@
    } else if code == 21 {
        "Is a directory"@
    } else if code == 22 {
        "Invalid argument"@
    } else if code == 23 {
        "Too many open files in system"@
    } else if code == 24 {
        "Too many open files"@
    } else if code == 28 {
        "No space left on device"@
    } else if code == 30 {
        "Read-only file system"@
    } else if code == 36 {
        "File name too long"@
    } else if code == 38 {
        "Function not implemented"@
    } else if code == 39 {
        "Directory not empty"@
    } else {
        "OS error code "@ + int_text(code as int)
    }
}

/// Describes an OS error number.
pub fn errno_to_string(code: i32) -> (s: String)
    ensures
        s@ == errno_text(code),
{
    let known: &str = match code {
        1 => "Operation not permitted",
        2 => "No such file or directory",
        3 => "No such process",
        4 => "Interrupted system call",
        5 => "Input/output error",
        9 => "Bad file descriptor",
        11 => "Resource temporarily unavailable",
        12 => "Cannot allocate memory",
        13 => "Permission denied",
        14 => "Bad address",
        16 => "Device or resource busy",
        17 => "File exists",
        19 => "No such device",
        20 => "Not a directory",
        21 => "Is a directory",
        22 => "Invalid argument",
        23 => "Too many open files in system",
        24 => "Too many open files",
        28 => "No space left on device",
        30 => "Read-only file system",
        36 => "File name too long",
        38 => "Function not implemented",
        39 => "Directory not empty",
        _ => {
            let mut out = chars_of("OS error code ");
            push_int(&mut out, code);
            return string_of(&out);
        },
    };
    known.to_string()
}

/// The text of a message made of `parts`.
fn concat_strs(parts: &[&str]) -> (s: String)
    ensures
        s@ == concat_views(parts@),
{
    let mut out: Vec<char> = Vec::new();
    let mut i: usize = 0;
    while i < parts.len()
        invariant
            i <= parts@.len(),
            out@ == concat_views(parts@.take(i as int)),
        decreases parts@.len() - i,
    {
        assert(parts@.take(i + 1).drop_last() =~= parts@.take(i as int));
        extend_chars(&mut out, parts[i]);
        i += 1;
    }
    assert(parts@.take(parts@.len() as int) =~= parts@);
    string_of(&out)
}

/// The texts of `parts`, concatenated.
pub open spec fn concat_views(parts: Seq<&str>) -> Seq<char>
    decreases parts.len(),
{
    if parts.len() == 0 {
        Seq::empty()
    } else {
        concat_views(parts.drop_last()) + parts.last()@
    }
}

/// How an error is shown to the user.
pub open spec fn error_text(e: ContainerError) -> Seq<char> {
    match e {
        ContainerError::Syscall { call, code, detail } => "syscall `"@ + call@ + "` failed (errno "@
            + int_text(code as int) + "): "@ + detail@,
        ContainerError::Io { kind, message } => "I/O error: "@ + message@,
        ContainerError::Config(m) => "config error: "@ + m@,
        ContainerError::Filesystem(m) => "filesystem error: "@ + m@,
        ContainerError::Network(m) => "network error: "@ + m@,
        ContainerError::NotFound(n) => "container '"@ + n@ + "' not found"@,
        ContainerError::InvalidState { name, current, expected } => "container '"@ + name@
            + "' is in state '"@ + current@ + "', expected '"@ + expected@ + "'"@,
        ContainerError::Image(m) => "image error: "@ + m@,
        ContainerError::PermissionDenied(m) => "permission denied: "@ + m@,
        ContainerError::Unsupported(m) => "unsupported: "@ + m@,
    }
}

impl ContainerError {
    /// The message shown for this error.
    pub fn message(&self) -> (s: String)
        ensures
            s@ == error_text(*self),
    {
        proof {
            reveal_with_fuel(concat_views, 8);
        }
        match self {
            ContainerError::Syscall { call, code, detail } => {
                let mut c: Vec<char> = Vec::new();
                push_int(&mut c, *code);
                let ct = string_of(&c);
                concat_strs(
                    &["syscall `", call.as_str(), "` failed (errno ", ct.as_str(), "): ", detail.as_str()],
                )
            },
            ContainerError::Io { kind, message } => concat_strs(&["I/O error: ", message.as_str()]),
            ContainerError::Config(m) => concat_strs(&["config error: ", m.as_str()]),
            ContainerError::Filesystem(m) => concat_strs(&["filesystem error: ", m.as_str()]),
            ContainerError::Network(m) => concat_strs(&["network error: ", m.as_str()]),
            ContainerError::NotFound(n) => concat_strs(&["container '", n.as_str(), "' not found"]),
            ContainerError::InvalidState { name, current, expected } => concat_strs(
                &[
                    "container '",
                    name.as_str(),
                    "' is in state '",
                    current.as_str(),
                    "', expected '",
                    expected.as_str(),
                    "'",
                ],
            ),
            ContainerError::Image(m) => concat_strs(&["image error: ", m.as_str()]),
            ContainerError::PermissionDenied(m) => concat_strs(&["permission denied: ", m.as_str()]),
            ContainerError::Unsupported(m) => concat_strs(&["unsupported: ", m.as_str()]),
        }
    }
}

} // verus!

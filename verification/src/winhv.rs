//! Windows Hypervisor Platform data: capability, property, register and
//! exit-reason codes, register values and VM-exit contexts.
#![allow(non_camel_case_types, non_snake_case)]
use vstd::prelude::*;

verus! {

pub type WHV_GUEST_PHYSICAL_ADDRESS = u64;
pub type WHV_GUEST_VIRTUAL_ADDRESS = u64;

pub const S_OK: i32 = 0;
pub const WHV_E_INSUFFICIENT_BUFFER: i32 = -2143878399i32;
pub const WHV_E_UNKNOWN_CAPABILITY: i32 = -2143878400i32;
pub const WHV_MAP_GPA_ALL: u32 = 0x07;

/// Capability codes for `WHvGetCapability`.
#[derive(Copy, Clone, Debug, PartialEq, Eq, Structural)]
pub enum WHV_CAPABILITY_CODE {
    HypervisorPresent,
    Features,
    ExtendedVmExits,
    ProcessorVendor,
    ProcessorFeatures,
    ProcessorClFlushSize,
    ProcessorXsaveFeatures,
}

impl WHV_CAPABILITY_CODE {
    /// The numeric code.
    pub fn code(&self) -> (c: u32)
        ensures
            c == match *self {
                WHV_CAPABILITY_CODE::HypervisorPresent => 0x0u32,
                WHV_CAPABILITY_CODE::Features => 0x1u32,
                WHV_CAPABILITY_CODE::ExtendedVmExits => 0x2u32,
                WHV_CAPABILITY_CODE::ProcessorVendor => 0x1000u32,
                WHV_CAPABILITY_CODE::ProcessorFeatures => 0x1001u32,
                WHV_CAPABILITY_CODE::ProcessorClFlushSize => 0x1002u32,
                WHV_CAPABILITY_CODE::ProcessorXsaveFeatures => 0x1003u32,
            },
    {
        match self {
            WHV_CAPABILITY_CODE::HypervisorPresent => 0x0,
            WHV_CAPABILITY_CODE::Features => 0x1,
            WHV_CAPABILITY_CODE::ExtendedVmExits => 0x2,
            WHV_CAPABILITY_CODE::ProcessorVendor => 0x1000,
            WHV_CAPABILITY_CODE::ProcessorFeatures => 0x1001,
            WHV_CAPABILITY_CODE::ProcessorClFlushSize => 0x1002,
            WHV_CAPABILITY_CODE::ProcessorXsaveFeatures => 0x1003,
        }
    }
}

#[derive(Copy, Clone, Debug)]
pub struct WHV_CAPABILITY_FEATURES {
    pub flags: u64,
}

/// Partition property codes.
#[derive(Copy, Clone, Debug, PartialEq, Eq, Structural)]
pub enum WHV_PARTITION_PROPERTY_CODE {
    ProcessorCount,
    ProcessorVendor,
    ExtendedVmExits,
    ProcessorFeatures,
}

impl WHV_PARTITION_PROPERTY_CODE {
    /// The numeric code.
    pub fn code(&self) -> (c: u32)
        ensures
            c == match *self {
                WHV_PARTITION_PROPERTY_CODE::ProcessorCount => 0x1fffu32,
                WHV_PARTITION_PROPERTY_CODE::ProcessorVendor => 0x1000u32,
                WHV_PARTITION_PROPERTY_CODE::ExtendedVmExits => 0x2u32,
                WHV_PARTITION_PROPERTY_CODE::ProcessorFeatures => 0x1001u32,
            },
    {
        match self {
            WHV_PARTITION_PROPERTY_CODE::ProcessorCount => 0x1fff,
            WHV_PARTITION_PROPERTY_CODE::ProcessorVendor => 0x1000,
            WHV_PARTITION_PROPERTY_CODE::ExtendedVmExits => 0x2,
            WHV_PARTITION_PROPERTY_CODE::ProcessorFeatures => 0x1001,
        }
    }
}

/// Access flags for mapping guest physical memory.
#[derive(Copy, Clone, Debug, PartialEq, Eq, Structural)]
pub enum WHV_MAP_GPA_RANGE_FLAGS {
    NoAccess,
    Read,
    Write,
    Execute,
    TrackDirtyPages,
}

impl WHV_MAP_GPA_RANGE_FLAGS {
    /// The flag bit.
    pub fn code(&self) -> (c: u32)
        ensures
            c == match *self {
                WHV_MAP_GPA_RANGE_FLAGS::NoAccess => 0u32,
                WHV_MAP_GPA_RANGE_FLAGS::Read => 1u32,
                WHV_MAP_GPA_RANGE_FLAGS::Write => 2u32,
                WHV_MAP_GPA_RANGE_FLAGS::Execute => 4u32,
                WHV_MAP_GPA_RANGE_FLAGS::TrackDirtyPages => 8u32,
            },
    {
        match self {
            WHV_MAP_GPA_RANGE_FLAGS::NoAccess => 0,
            WHV_MAP_GPA_RANGE_FLAGS::Read => 1,
            WHV_MAP_GPA_RANGE_FLAGS::Write => 2,
            WHV_MAP_GPA_RANGE_FLAGS::Execute => 4,
            WHV_MAP_GPA_RANGE_FLAGS::TrackDirtyPages => 8,
        }
    }
}

/// Virtual processor register names.
#[derive(Copy, Clone, Debug, PartialEq, Eq, Structural)]
pub enum WHV_REGISTER_NAME {
    Rax,
    Rcx,
    Rdx,
    Rbx,
    Rsp,
    Rbp,
    Rsi,
    Rdi,
    R8,
    R9,
    R10,
    R11,
    R12,
    R13,
    R14,
    R15,
    Rip,
    Rflags,
    Es,
    Cs,
    Ss,
    Ds,
    Fs,
    Gs,
    Ldtr,
    Tr,
    Idtr,
    Gdtr,
    Cr0,
    Cr2,
    Cr3,
    Cr4,
    Cr8,
    Efer,
    Tsc,
    KernelGsBase,
    ApicBase,
    Pat,
    SysenterCs,
    SysenterEip,
    SysenterEsp,
    Star,
    Lstar,
    Cstar,
    Sfmask,
}

/// The numeric name of a register.
pub open spec fn register_code(r: WHV_REGISTER_NAME) -> u32 {
    match r {
        WHV_REGISTER_NAME::Rax => 0x00,
        WHV_REGISTER_NAME::Rcx => 0x01,
        WHV_REGISTER_NAME::Rdx => 0x02,
        WHV_REGISTER_NAME::Rbx => 0x03,
        WHV_REGISTER_NAME::Rsp => 0x04,
        WHV_REGISTER_NAME::Rbp => 0x05,
        WHV_REGISTER_NAME::Rsi => 0x06,
        WHV_REGISTER_NAME::Rdi => 0x07,
        WHV_REGISTER_NAME::R8 => 0x08,
        WHV_REGISTER_NAME::R9 => 0x09,
        WHV_REGISTER_NAME::R10 => 0x0A,
        WHV_REGISTER_NAME::R11 => 0x0B,
        WHV_REGISTER_NAME::R12 => 0x0C,
        WHV_REGISTER_NAME::R13 => 0x0D,
        WHV_REGISTER_NAME::R14 => 0x0E,
        WHV_REGISTER_NAME::R15 => 0x0F,
        WHV_REGISTER_NAME::Rip => 0x10,
        WHV_REGISTER_NAME::Rflags => 0x11,
        WHV_REGISTER_NAME::Es => 0x12,
        WHV_REGISTER_NAME::Cs => 0x13,
        WHV_REGISTER_NAME::Ss => 0x14,
        WHV_REGISTER_NAME::Ds => 0x15,
        WHV_REGISTER_NAME::Fs => 0x16,
        WHV_REGISTER_NAME::Gs => 0x17,
        WHV_REGISTER_NAME::Ldtr => 0x18,
        WHV_REGISTER_NAME::Tr => 0x19,
        WHV_REGISTER_NAME::Idtr => 0x1A,
        WHV_REGISTER_NAME::Gdtr => 0x1B,
        WHV_REGISTER_NAME::Cr0 => 0x20,
        WHV_REGISTER_NAME::Cr2 => 0x21,
        WHV_REGISTER_NAME::Cr3 => 0x22,
        WHV_REGISTER_NAME::Cr4 => 0x23,
        WHV_REGISTER_NAME::Cr8 => 0x24,
        WHV_REGISTER_NAME::Efer => 0x30,
        WHV_REGISTER_NAME::Tsc => 0x40,
        WHV_REGISTER_NAME::KernelGsBase => 0x41,
        WHV_REGISTER_NAME::ApicBase => 0x42,
        WHV_REGISTER_NAME::Pat => 0x43,
        WHV_REGISTER_NAME::SysenterCs => 0x44,
        WHV_REGISTER_NAME::SysenterEip => 0x45,
        WHV_REGISTER_NAME::SysenterEsp => 0x46,
        WHV_REGISTER_NAME::Star => 0x47,
        WHV_REGISTER_NAME::Lstar => 0x48,
        WHV_REGISTER_NAME::Cstar => 0x49,
        WHV_REGISTER_NAME::Sfmask => 0x4A,
    }
}

impl WHV_REGISTER_NAME {
    /// The numeric name.
    pub fn code(&self) -> (c: u32)
        ensures
            c == register_code(*self),
    {
        match self {
            WHV_REGISTER_NAME::Rax => 0x00,
            WHV_REGISTER_NAME::Rcx => 0x01,
            WHV_REGISTER_NAME::Rdx => 0x02,
            WHV_REGISTER_NAME::Rbx => 0x03,
            WHV_REGISTER_NAME::Rsp => 0x04,
            WHV_REGISTER_NAME::Rbp => 0x05,
            WHV_REGISTER_NAME::Rsi => 0x06,
            WHV_REGISTER_NAME::Rdi => 0x07,
            WHV_REGISTER_NAME::R8 => 0x08,
            WHV_REGISTER_NAME::R9 => 0x09,
            WHV_REGISTER_NAME::R10 => 0x0A,
            WHV_REGISTER_NAME::R11 => 0x0B,
            WHV_REGISTER_NAME::R12 => 0x0C,
            WHV_REGISTER_NAME::R13 => 0x0D,
            WHV_REGISTER_NAME::R14 => 0x0E,
            WHV_REGISTER_NAME::R15 => 0x0F,
            WHV_REGISTER_NAME::Rip => 0x10,
            WHV_REGISTER_NAME::Rflags => 0x11,
            WHV_REGISTER_NAME::Es => 0x12,
            WHV_REGISTER_NAME::Cs => 0x13,
            WHV_REGISTER_NAME::Ss => 0x14,
            WHV_REGISTER_NAME::Ds => 0x15,
            WHV_REGISTER_NAME::Fs => 0x16,
            WHV_REGISTER_NAME::Gs => 0x17,
            WHV_REGISTER_NAME::Ldtr => 0x18,
            WHV_REGISTER_NAME::Tr => 0x19,
            WHV_REGISTER_NAME::Idtr => 0x1A,
            WHV_REGISTER_NAME::Gdtr => 0x1B,
            WHV_REGISTER_NAME::Cr0 => 0x20,
            WHV_REGISTER_NAME::Cr2 => 0x21,
            WHV_REGISTER_NAME::Cr3 => 0x22,
            WHV_REGISTER_NAME::Cr4 => 0x23,
            WHV_REGISTER_NAME::Cr8 => 0x24,
            WHV_REGISTER_NAME::Efer => 0x30,
            WHV_REGISTER_NAME::Tsc => 0x40,
            WHV_REGISTER_NAME::KernelGsBase => 0x41,
            WHV_REGISTER_NAME::ApicBase => 0x42,
            WHV_REGISTER_NAME::Pat => 0x43,
            WHV_REGISTER_NAME::SysenterCs => 0x44,
            WHV_REGISTER_NAME::SysenterEip => 0x45,
            WHV_REGISTER_NAME::SysenterEsp => 0x46,
            WHV_REGISTER_NAME::Star => 0x47,
            WHV_REGISTER_NAME::Lstar => 0x48,
            WHV_REGISTER_NAME::Cstar => 0x49,
            WHV_REGISTER_NAME::Sfmask => 0x4A,
        }
    }
}

#[derive(Copy, Clone, Debug)]
pub struct WHV_UINT128 {
    pub Low64: u64,
    pub High64: u64,
}

#[derive(Copy, Clone, Debug)]
pub struct WHV_X64_SEGMENT_REGISTER {
    pub Base: u64,
    pub Limit: u32,
    pub Selector: u16,
    pub Attributes: u16,
}

#[derive(Copy, Clone, Debug)]
pub struct WHV_X64_TABLE_REGISTER {
    pub Pad: [u16; 3],
    pub Limit: u16,
    pub Base: u64,
}

/// A register value, by the view under which it is set.
#[derive(Copy, Clone, Debug)]
pub enum WHV_REGISTER_VALUE {
    Reg128(WHV_UINT128),
    Reg64(u64),
    Reg32(u32),
    Reg16(u16),
    Reg8(u8),
    Segment(WHV_X64_SEGMENT_REGISTER),
    Table(WHV_X64_TABLE_REGISTER),
}

/// A 64-bit register value.
pub fn reg_val64(val: u64) -> (r: WHV_REGISTER_VALUE)
    ensures
        r == WHV_REGISTER_VALUE::Reg64(val),
{
    WHV_REGISTER_VALUE::Reg64(val)
}

/// A segment register value.
pub fn seg_val(base: u64, limit: u32, selector: u16, attributes: u16) -> (r: WHV_REGISTER_VALUE)
    ensures
        r == WHV_REGISTER_VALUE::Segment(
            WHV_X64_SEGMENT_REGISTER { Base: base, Limit: limit, Selector: selector, Attributes: attributes },
        ),
{
    WHV_REGISTER_VALUE::Segment(
        WHV_X64_SEGMENT_REGISTER { Base: base, Limit: limit, Selector: selector, Attributes: attributes },
    )
}

/// A table register value (GDTR, IDTR), its padding zero.
pub fn table_val(base: u64, limit: u16) -> (r: WHV_REGISTER_VALUE)
    ensures
        r matches WHV_REGISTER_VALUE::Table(t) && t.Base == base && t.Limit == limit && t.Pad@ == seq![0u16, 0u16, 0u16],
{
    let t = WHV_X64_TABLE_REGISTER { Pad: [0; 3], Limit: limit, Base: base };
    assert(t.Pad@ =~= seq![0u16, 0u16, 0u16]);
    WHV_REGISTER_VALUE::Table(t)
}

/// Why a virtual processor stopped running.
#[derive(Copy, Clone, Debug, PartialEq, Eq, Structural)]
pub enum WHV_RUN_VP_EXIT_REASON {
    NoExit,
    MemoryAccess,
    X64IoPortAccess,
    UnrecoverableException,
    InvalidVpRegisterValue,
    UnsupportedFeature,
    X64InterruptWindow,
    X64Halt,
    X64ApicEoi,
    X64MsrAccess,
    X64Cpuid,
    Exception,
    Canceled,
}

/// The numeric code of an exit reason.
pub open spec fn exit_code(r: WHV_RUN_VP_EXIT_REASON) -> u32 {
    match r {
        WHV_RUN_VP_EXIT_REASON::NoExit => 0x00,
        WHV_RUN_VP_EXIT_REASON::MemoryAccess => 0x01,
        WHV_RUN_VP_EXIT_REASON::X64IoPortAccess => 0x02,
        WHV_RUN_VP_EXIT_REASON::UnrecoverableException => 0x04,
        WHV_RUN_VP_EXIT_REASON::InvalidVpRegisterValue => 0x05,
        WHV_RUN_VP_EXIT_REASON::UnsupportedFeature => 0x06,
        WHV_RUN_VP_EXIT_REASON::X64InterruptWindow => 0x07,
        WHV_RUN_VP_EXIT_REASON::X64Halt => 0x08,
        WHV_RUN_VP_EXIT_REASON::X64ApicEoi => 0x09,
        WHV_RUN_VP_EXIT_REASON::X64MsrAccess => 0x0C,
        WHV_RUN_VP_EXIT_REASON::X64Cpuid => 0x0D,
        WHV_RUN_VP_EXIT_REASON::Exception => 0x0E,
        WHV_RUN_VP_EXIT_REASON::Canceled => 0x21,
    }
}

impl WHV_RUN_VP_EXIT_REASON {
    /// The numeric code.
    pub fn code(&self) -> (c: u32)
        ensures
            c == exit_code(*self),
    {
        match self {
            WHV_RUN_VP_EXIT_REASON::NoExit => 0x00,
            WHV_RUN_VP_EXIT_REASON::MemoryAccess => 0x01,
            WHV_RUN_VP_EXIT_REASON::X64IoPortAccess => 0x02,
            WHV_RUN_VP_EXIT_REASON::UnrecoverableException => 0x04,
            WHV_RUN_VP_EXIT_REASON::InvalidVpRegisterValue => 0x05,
            WHV_RUN_VP_EXIT_REASON::UnsupportedFeature => 0x06,
            WHV_RUN_VP_EXIT_REASON::X64InterruptWindow => 0x07,
            WHV_RUN_VP_EXIT_REASON::X64Halt => 0x08,
            WHV_RUN_VP_EXIT_REASON::X64ApicEoi => 0x09,
            WHV_RUN_VP_EXIT_REASON::X64MsrAccess => 0x0C,
            WHV_RUN_VP_EXIT_REASON::X64Cpuid => 0x0D,
            WHV_RUN_VP_EXIT_REASON::Exception => 0x0E,
            WHV_RUN_VP_EXIT_REASON::Canceled => 0x21,
        }
    }

    /// The exit reason with numeric code `c`, if any.
    pub fn from_code(c: u32) -> (r: Option<WHV_RUN_VP_EXIT_REASON>)
        ensures
            r matches Some(x) ==> exit_code(x) == c,
            r is None ==> forall|x: WHV_RUN_VP_EXIT_REASON| exit_code(x) != c,
    {
        match c {
            0x00 => Some(WHV_RUN_VP_EXIT_REASON::NoExit),
            0x01 => Some(WHV_RUN_VP_EXIT_REASON::MemoryAccess),
            0x02 => Some(WHV_RUN_VP_EXIT_REASON::X64IoPortAccess),
            0x04 => Some(WHV_RUN_VP_EXIT_REASON::UnrecoverableException),
            0x05 => Some(WHV_RUN_VP_EXIT_REASON::InvalidVpRegisterValue),
            0x06 => Some(WHV_RUN_VP_EXIT_REASON::UnsupportedFeature),
            0x07 => Some(WHV_RUN_VP_EXIT_REASON::X64InterruptWindow),
            0x08 => Some(WHV_RUN_VP_EXIT_REASON::X64Halt),
            0x09 => Some(WHV_RUN_VP_EXIT_REASON::X64ApicEoi),
            0x0C => Some(WHV_RUN_VP_EXIT_REASON::X64MsrAccess),
            0x0D => Some(WHV_RUN_VP_EXIT_REASON::X64Cpuid),
            0x0E => Some(WHV_RUN_VP_EXIT_REASON::Exception),
            0x21 => Some(WHV_RUN_VP_EXIT_REASON::Canceled),
            _ => None,
        }
    }
}

#[derive(Copy, Clone, Debug)]
pub struct WHV_VP_EXIT_CONTEXT {
    pub ExecutionState: u64,
    /// Instruction length and CR8, packed.
    pub InstructionLength_Cr8: u32,
    pub Reserved: u32,
    pub Cs: WHV_X64_SEGMENT_REGISTER,
    pub Rip: u64,
    pub Rflags: u64,
}

#[derive(Copy, Clone, Debug)]
pub struct WHV_MEMORY_ACCESS_CONTEXT {
    pub InstructionByteCount: u8,
    pub Reserved: [u8; 3],
    pub InstructionBytes: [u8; 16],
    pub AccessInfo: u32,
    pub Gpa: WHV_GUEST_PHYSICAL_ADDRESS,
    pub Gva: WHV_GUEST_VIRTUAL_ADDRESS,
}

#[derive(Copy, Clone, Debug)]
pub struct WHV_X64_IO_PORT_ACCESS_CONTEXT {
    pub InstructionByteCount: u8,
    pub Reserved: [u8; 3],
    pub InstructionBytes: [u8; 16],
    pub AccessInfo: u32,
    pub PortNumber: u16,
    pub Reserved2: [u16; 3],
    pub Rax: u64,
    pub Rcx: u64,
    pub Rsi: u64,
    pub Rdi: u64,
    pub Ds: WHV_X64_SEGMENT_REGISTER,
    pub Es: WHV_X64_SEGMENT_REGISTER,
}

#[derive(Copy, Clone, Debug)]
pub struct WHV_X64_MSR_ACCESS_CONTEXT {
    pub AccessInfo: u32,
    pub MsrNumber: u32,
    pub Rax: u64,
    pub Rdx: u64,
}

#[derive(Copy, Clone, Debug)]
pub struct WHV_X64_CPUID_ACCESS_CONTEXT {
    pub Rax: u64,
    pub Rcx: u64,
    pub Rdx: u64,
    pub Rbx: u64,
    pub DefaultResultRax: u64,
    pub DefaultResultRcx: u64,
    pub DefaultResultRdx: u64,
    pub DefaultResultRbx: u64,
}

/// The exit-specific part of an exit context, by exit kind.
#[derive(Copy, Clone, Debug)]
pub enum WHV_RUN_VP_EXIT_DETAILS {
    MemoryAccess(WHV_MEMORY_ACCESS_CONTEXT),
    IoPortAccess(WHV_X64_IO_PORT_ACCESS_CONTEXT),
    MsrAccess(WHV_X64_MSR_ACCESS_CONTEXT),
    CpuidAccess(WHV_X64_CPUID_ACCESS_CONTEXT),
    Other,
}

#[derive(Copy, Clone, Debug)]
pub struct WHV_RUN_VP_EXIT_CONTEXT {
    pub ExitReason: WHV_RUN_VP_EXIT_REASON,
    pub Reserved: u32,
    pub VpContext: WHV_VP_EXIT_CONTEXT,
    pub Anonymous: WHV_RUN_VP_EXIT_DETAILS,
}

} // verus!

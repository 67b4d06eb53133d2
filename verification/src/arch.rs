//! The processor architectures that can be linked for.
//!
//! Relocation handling differs per architecture; linking and emitting
//! dispatch on [`TargetArch`].
use vstd::prelude::*;

verus! {

/// A target architecture.
#[derive(Debug, Clone, Copy, PartialEq, Eq, Structural)]
pub enum TargetArch {
    X86_64,
    AArch64,
    RiscV,
}

/// The ELF machine number of each architecture.
pub open spec fn elf_machine(arch: TargetArch) -> u16 {
    match arch {
        TargetArch::X86_64 => 62,
        TargetArch::AArch64 => 183,
        TargetArch::RiscV => 243,
    }
}

/// The architecture with a given ELF machine number.
pub open spec fn arch_of_machine(machine: u16) -> Option<TargetArch> {
    if machine == 62 {
        Some(TargetArch::X86_64)
    } else if machine == 183 {
        Some(TargetArch::AArch64)
    } else if machine == 243 {
        Some(TargetArch::RiscV)
    } else {
        None
    }
}

/// The Mach-O CPU type of each architecture; zero where there is none.
pub open spec fn macho_cputype(arch: TargetArch) -> u32 {
    match arch {
        TargetArch::X86_64 => 0x01000007,
        TargetArch::AArch64 => 0x0100000C,
        TargetArch::RiscV => 0,
    }
}

/// The architecture with a given Mach-O CPU type.
pub open spec fn arch_of_cputype(cputype: u32) -> Option<TargetArch> {
    if cputype == 0x01000007 {
        Some(TargetArch::X86_64)
    } else if cputype == 0x0100000C {
        Some(TargetArch::AArch64)
    } else {
        None
    }
}

/// The address at which images are loaded.
pub open spec fn load_base(arch: TargetArch) -> u64 {
    match arch {
        TargetArch::RiscV => 0x10000,
        _ => 0x400000,
    }
}

impl TargetArch {
    /// The architecture with the ELF machine number `machine`.
    pub fn from_elf_machine(machine: u16) -> (r: Option<Self>)
        ensures
            r == arch_of_machine(machine),
    {
        match machine {
            62 => Some(TargetArch::X86_64),
            183 => Some(TargetArch::AArch64),
            243 => Some(TargetArch::RiscV),
            _ => None,
        }
    }

    /// The ELF machine number.
    pub fn to_elf_machine(self) -> (r: u16)
        ensures
            r == elf_machine(self),
    {
        match self {
            TargetArch::X86_64 => 62,
            TargetArch::AArch64 => 183,
            TargetArch::RiscV => 243,
        }
    }

    /// The address at which an image is loaded unless its layout says otherwise.
    pub fn default_load_base(self) -> (r: u64)
        ensures
            r == load_base(self),
    {
        match self {
            TargetArch::X86_64 => 0x400000,
            TargetArch::AArch64 => 0x400000,
            TargetArch::RiscV => 0x10000,
        }
    }

    /// The page size to which segments are aligned.
    pub fn page_align(self) -> (r: u64)
        ensures
            r == 0x1000,
    {
        0x1000
    }

    /// The Mach-O CPU type; zero where Mach-O has none.
    pub fn to_macho_cputype(self) -> (r: u32)
        ensures
            r == macho_cputype(self),
    {
        match self {
            TargetArch::X86_64 => 0x01000007,
            TargetArch::AArch64 => 0x0100000C,
            TargetArch::RiscV => 0,
        }
    }

    /// The architecture with the Mach-O CPU type `cputype`.
    pub fn from_macho_cputype(cputype: u32) -> (r: Option<Self>)
        ensures
            r == arch_of_cputype(cputype),
    {
        match cputype {
            0x01000007 => Some(TargetArch::X86_64),
            0x0100000C => Some(TargetArch::AArch64),
            _ => None,
        }
    }
}

/// An ELF machine number names at most one architecture, and each architecture has one.
pub proof fn law_elf_machine_round_trip(arch: TargetArch, machine: u16)
    ensures
        arch_of_machine(elf_machine(arch)) == Some(arch),
        arch_of_machine(machine) == Some(arch) <==> machine == elf_machine(arch),
{
}

/// A Mach-O CPU type names at most one architecture; every architecture but RISC-V has one.
pub proof fn law_macho_cputype_round_trip(arch: TargetArch, cputype: u32)
    ensures
        arch != TargetArch::RiscV ==> arch_of_cputype(macho_cputype(arch)) == Some(arch),
        arch_of_cputype(cputype) == Some(arch) ==> cputype == macho_cputype(arch),
        arch_of_cputype(macho_cputype(TargetArch::RiscV)) is None,
{
}

} // verus!

//! Architectures.
use weld::arch::TargetArch;

#[test]
fn test_arch_from_elf_machine() {
    assert_eq!(TargetArch::from_elf_machine(62), Some(TargetArch::X86_64));
    assert_eq!(TargetArch::from_elf_machine(183), Some(TargetArch::AArch64));
    assert_eq!(TargetArch::from_elf_machine(243), Some(TargetArch::RiscV));
    assert_eq!(TargetArch::from_elf_machine(0), None);
}

#[test]
fn test_arch_to_elf_machine() {
    assert_eq!(TargetArch::X86_64.to_elf_machine(), 62);
    assert_eq!(TargetArch::AArch64.to_elf_machine(), 183);
}

#[test]
fn machine_numbers_and_cpu_types_round_trip() {
    for arch in [TargetArch::X86_64, TargetArch::AArch64, TargetArch::RiscV] {
        assert_eq!(TargetArch::from_elf_machine(arch.to_elf_machine()), Some(arch));
        assert_eq!(arch.page_align(), 0x1000);
    }
    assert_eq!(TargetArch::from_macho_cputype(0x01000007), Some(TargetArch::X86_64));
    assert_eq!(TargetArch::from_macho_cputype(0x0100000C), Some(TargetArch::AArch64));
    assert_eq!(TargetArch::from_macho_cputype(0), None);
    assert_eq!(TargetArch::RiscV.to_macho_cputype(), 0);
    assert_eq!(TargetArch::RiscV.default_load_base(), 0x10000);
    assert_eq!(TargetArch::X86_64.default_load_base(), 0x400000);
}

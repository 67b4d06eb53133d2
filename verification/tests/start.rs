//! The entry point.
use weld::driver::{
    needs_synthetic_start, os_abi_for_target, select_entry, synthesize_elf_start_x86_64,
};
use weld::link::{DynamicLinkInfo, LinkResult, MergedLayout, MergedSection};
use weld::names::NameMap;

fn static_main_result() -> LinkResult {
    let mut section_by_name = NameMap::new();
    section_by_name.insert(".text".to_string(), 0);
    let mut symbol_addrs = NameMap::new();
    symbol_addrs.insert("main".to_string(), 0x400000u64);
    LinkResult {
        layout: MergedLayout {
            sections: vec![MergedSection {
                name: ".text".to_string(),
                data: vec![0xc3],
                vaddr: 0x400000,
                flags: 2 | 4,
                align: 16,
            }],
            section_by_name,
        },
        e_machine: 62,
        symbol_addrs,
        dynamic: None,
    }
}

#[test]
fn synthesizes_start_for_static_main() {
    let mut result = static_main_result();
    assert!(needs_synthetic_start(&result));

    let entry = synthesize_elf_start_x86_64(&mut result, false).expect("start synthesized");
    assert!(entry >= 0x400000);
    assert!(result.layout.section_by_name.contains_key(".text.__weld_start"));

    let start = &result.layout.sections[result.layout.sections.len() - 1];
    // call rel32 (5) + mov %rax,%rdi (3) + mov $60,%eax (5) + syscall (2).
    assert_eq!(start.data.len(), 15);
    assert_eq!(start.data[0], 0xe8);
    assert_eq!(&start.data[13..15], &[0x0f, 0x05]);
}

#[test]
fn no_synthetic_start_when_start_is_defined() {
    let mut result = static_main_result();
    result.symbol_addrs.insert("_start".to_string(), 0x401000);
    assert!(!needs_synthetic_start(&result));
}

#[test]
fn synthesizes_start_for_dynamic_link_without_start() {
    // A dynamic link (libc) with no crt-provided `_start` still needs the
    // synthetic stub, otherwise entering at `main` returns into `argc`.
    let mut result = static_main_result();
    result.dynamic = Some(DynamicLinkInfo::default());
    assert!(needs_synthetic_start(&result));
}

#[test]
fn no_synthetic_start_for_dynamic_link_with_start() {
    let mut result = static_main_result();
    result.dynamic = Some(DynamicLinkInfo::default());
    result.symbol_addrs.insert("_start".to_string(), 0x401000);
    assert!(!needs_synthetic_start(&result));
}

#[test]
fn the_start_code_calls_main() {
    let mut result = static_main_result();
    let entry = synthesize_elf_start_x86_64(&mut result, true).unwrap();
    assert_eq!(entry, 0x400010);
    let code = &result.layout.sections[1].data;
    let rel = i32::from_le_bytes(code[1..5].try_into().unwrap());
    assert_eq!(entry as i64 + 5 + rel as i64, 0x400000);
    assert_eq!(&code[5..13], &[0x48, 0x89, 0xc7, 0xb8, 1, 0, 0, 0]);
    let mut linux = static_main_result();
    synthesize_elf_start_x86_64(&mut linux, false).unwrap();
    assert_eq!(linux.layout.sections[1].data[9], 60);
}

#[test]
fn no_start_code_without_a_near_main_on_x86_64() {
    let mut far = static_main_result();
    far.symbol_addrs.insert("main".to_string(), 0x4_0000_0000);
    assert_eq!(synthesize_elf_start_x86_64(&mut far, false), None);
    assert_eq!(far.layout.sections.len(), 1);
    let mut arm = static_main_result();
    arm.e_machine = 183;
    assert_eq!(synthesize_elf_start_x86_64(&mut arm, false), None);
    let mut none = static_main_result();
    none.symbol_addrs = NameMap::new();
    assert_eq!(synthesize_elf_start_x86_64(&mut none, false), None);
    let mut empty = static_main_result();
    empty.layout.sections.clear();
    assert_eq!(synthesize_elf_start_x86_64(&mut empty, false), None);
}

#[test]
fn entry_points_by_preference() {
    let mut r = static_main_result();
    let wanted = "begin".to_string();
    assert_eq!(select_entry(Some(&wanted), &r), Some(0x400000));
    r.symbol_addrs.insert("begin".to_string(), 7);
    assert_eq!(select_entry(Some(&wanted), &r), Some(7));
    assert_eq!(select_entry(None, &r), Some(0x400000));
    r.symbol_addrs = NameMap::new();
    assert_eq!(select_entry(None, &r), Some(0x400000));
    r.symbol_addrs.insert("_start".to_string(), 9);
    assert_eq!(select_entry(None, &r), Some(9));
    r.symbol_addrs.insert("_main".to_string(), 8);
    assert_eq!(select_entry(None, &r), Some(8));
    r.symbol_addrs = NameMap::new();
    r.layout.sections[0].name = ".data".to_string();
    assert_eq!(select_entry(None, &r), None);
}

#[test]
fn operating_systems() {
    for os in ["orbis", "ps4", "prospero", "ps5", "freebsd"] {
        assert_eq!(os_abi_for_target(Some(os)), 9);
    }
    assert_eq!(os_abi_for_target(Some("linux")), 0);
    assert_eq!(os_abi_for_target(None), 0);
}

//! Writing executables.
use weld::arch::TargetArch;
use weld::coff::is_coff;
use weld::elf::parse_elf64_header;
use weld::emit::elf::{emit_elf_executable, emit_elf_executable_dynamic};
use weld::emit::macho::{emit_macho_executable, emit_macho_executable_dynamic};
use weld::emit::pe::{
    emit_pe_executable, link_and_emit_pe_from_coff, IMAGE_BASE, IMAGE_FILE_MACHINE_AMD64,
    IMAGE_OPTIONAL_HDR64_MAGIC, SECTION_ALIGN,
};
use weld::link::{DynamicLinkInfo, MergedLayout, MergedSection};
use weld::macho::parse_macho64_header;
use weld::names::NameMap;
use weld::segment::align_up_u64;

fn layout_of(name: &str, data: Vec<u8>, vaddr: u64, flags: u64) -> MergedLayout {
    MergedLayout {
        sections: vec![MergedSection { name: name.into(), data, vaddr, flags, align: 16 }],
        section_by_name: {
            let mut m = NameMap::new();
            m.insert(name.into(), 0);
            m
        },
    }
}

fn u16_at(b: &[u8], off: usize) -> u16 {
    u16::from_le_bytes(b[off..off + 2].try_into().unwrap())
}

fn u32_at(b: &[u8], off: usize) -> u32 {
    u32::from_le_bytes(b[off..off + 4].try_into().unwrap())
}

fn u64_at(b: &[u8], off: usize) -> u64 {
    u64::from_le_bytes(b[off..off + 8].try_into().unwrap())
}

#[test]
fn test_emit_elf_header() {
    let layout = layout_of(".text", vec![0xc3], 0x400000, 4);

    let mut out = Vec::new();
    emit_elf_executable(&layout, TargetArch::X86_64, 0x400000, &mut out).expect("emit");

    assert!(out.len() >= 64);
    assert_eq!(&out[0..4], &[0x7f, b'E', b'L', b'F']);
    assert_eq!(out[4], 2);
    assert_eq!(out[16..18], 2u16.to_le_bytes());
    assert_eq!(out[18..20], 62u16.to_le_bytes());
}

#[test]
fn test_emit_aarch64() {
    let layout = layout_of(".text", vec![0xd6, 0x5f, 0x03, 0xc0], 0x400000, 4);

    let mut out = Vec::new();
    emit_elf_executable(&layout, TargetArch::AArch64, 0x400000, &mut out).expect("emit");
    assert!(out.len() >= 64);
    assert_eq!(&out[0..4], &[0x7f, b'E', b'L', b'F']);
    assert_eq!(out[18..20], 183u16.to_le_bytes());
}

#[test]
fn elf_segment_is_where_the_header_says() {
    let layout = layout_of(".text", vec![1, 2, 3], 0x401000, 4);
    let mut out = vec![9u8];
    emit_elf_executable(&layout, TargetArch::X86_64, 0x401001, &mut out).expect("emit");
    let out = &out[1..];
    assert_eq!(out.len(), 0x1000 + 3);
    assert_eq!(u64_at(out, 24), 0x401001);
    assert_eq!(u32_at(out, 64), 1);
    assert_eq!(u32_at(out, 68), 7);
    assert_eq!(u64_at(out, 72), 0x1000);
    assert_eq!(u64_at(out, 80), 0x401000);
    assert_eq!(u64_at(out, 96), 3);
    assert_eq!(u64_at(out, 112), 0x1000);
    assert_eq!(u32_at(out, 120), 0x6474e551);
    assert_eq!(&out[0x1000..], &[1, 2, 3]);
    let h = parse_elf64_header(out).unwrap();
    assert_eq!((h.e_type, h.e_machine, h.e_shnum), (2, 62, 0));
}

#[test]
fn dynamic_elf_names_its_linker_in_front_of_the_image() {
    let mut layout = layout_of(".text", vec![0xc3; 8], 0x400000, 4);
    layout.section_by_name.insert(".dynamic".into(), 1);
    layout.sections.push(MergedSection {
        name: ".dynamic".into(),
        data: vec![7; 16],
        vaddr: 0x400008,
        flags: 3,
        align: 8,
    });
    let mut info = DynamicLinkInfo::default();
    let mut out = Vec::new();
    let err = emit_elf_executable_dynamic(&layout, TargetArch::X86_64, 0, &info, &mut out);
    assert_eq!(err.unwrap_err(), "no interpreter");
    info.interpreter = Some("/lib/ld".into());
    let bare = layout_of(".text", vec![], 0x400000, 4);
    let err = emit_elf_executable_dynamic(&bare, TargetArch::X86_64, 0, &info, &mut out);
    assert_eq!(err.unwrap_err(), "no .dynamic");
    assert!(out.is_empty());

    emit_elf_executable_dynamic(&layout, TargetArch::X86_64, 0x400000, &info, &mut out)
        .expect("emit");
    assert_eq!(out.len(), 0x1000 + 8 + 24);
    assert_eq!(&out[0x1000..0x1008], b"/lib/ld\0");
    assert_eq!(u16_at(&out, 56), 4);
    // The dynamic table: its place in the file and in memory.
    assert_eq!(u32_at(&out, 120), 2);
    assert_eq!(u64_at(&out, 128), 0x1000 + 8 + 8);
    assert_eq!(u64_at(&out, 136), 0x400008);
    assert_eq!(u64_at(&out, 152), 16);
    assert_eq!(&out[0x1010..0x1012], &[7, 7]);
    // The name of the linker.
    assert_eq!(u32_at(&out, 176), 3);
    assert_eq!(u64_at(&out, 184), 0x1000);
    assert_eq!(u64_at(&out, 208), 8);
}

#[test]
fn test_emit_macho_header() {
    let layout = layout_of(".text", vec![0xc3], 0x100000000, 4);

    let mut out = Vec::new();
    emit_macho_executable(&layout, TargetArch::X86_64, 0x100000000, &mut out).expect("emit");

    assert!(out.len() >= 32);
    assert_eq!(&out[0..4], &0xFEEDFACFu32.to_le_bytes());
    assert_eq!(&out[4..8], &0x01000007u32.to_le_bytes());
}

#[test]
fn static_macho_can_be_read_back() {
    let layout = layout_of(".text", vec![0xc3, 0x90], 0x100000000, 4);
    let mut out = Vec::new();
    emit_macho_executable(&layout, TargetArch::AArch64, 0x100000001, &mut out).expect("emit");
    assert_eq!(out.len(), 0x8000);
    assert_eq!(&out[0x4000..0x4003], &[0xc3, 0x90, 0]);
    let h = parse_macho64_header(&out).expect("parse");
    assert_eq!((h.cputype, h.filetype, h.ncmds), (0x0100000C, 2, 7));
    assert_eq!(h.segments.len(), 2);
    assert_eq!(h.segments[0].name, "__PAGEZERO");
    assert_eq!(h.segments[0].vmsize, 0x100000000);
    assert_eq!(h.segments[1].name, "__TEXT");
    assert_eq!(h.segments[1].filesize, 0x8000);
    // The entry point counts from the header.
    assert_eq!(u32_at(&out, 32 + 72 + 152), 0x80000028);
    assert_eq!(u64_at(&out, 32 + 72 + 152 + 8), 0x4001);
    let err = emit_macho_executable(&layout, TargetArch::RiscV, 0, &mut out);
    assert_eq!(err.unwrap_err(), "RISC-V not supported for Mach-O");
}

#[test]
fn dynamic_macho_has_three_segments() {
    let mut layout = layout_of(".text", vec![1; 16], 0x100000000, 6);
    for (name, data, vaddr) in [
        ("__DATA.__data", vec![2u8; 24], 0x100000010u64),
        ("__got", vec![0u8; 16], 0x100000028),
    ] {
        layout.section_by_name.insert(name.into(), layout.sections.len());
        layout.sections.push(MergedSection {
            name: name.into(),
            data,
            vaddr,
            flags: 2,
            align: 3,
        });
    }
    let info = DynamicLinkInfo {
        needed: vec!["libSystem.B.dylib".into(), "/x/y.dylib".into()],
        plt_symbols: vec!["_a".into(), "_b".into()],
        weak_plt_symbols: vec!["_b".into()],
        interpreter: None,
        macho_rebase_addrs: vec![0x100000030, 0x100000028, 0x100000010, 0, 0x100000034],
        macho_direct_binds: vec![(0x100000018, "_t".into(), false, -2)],
    };
    let mut out = Vec::new();
    emit_macho_executable_dynamic(&layout, TargetArch::AArch64, 0x100000004, &info, &mut out)
        .expect("emit");
    let h = parse_macho64_header(&out).expect("parse");
    assert_eq!(h.ncmds, 13);
    let names: Vec<&str> = h.segments.iter().map(|s| s.name.as_str()).collect();
    assert_eq!(names, vec!["__PAGEZERO", "__TEXT", "__DATA", "__LINKEDIT"]);
    assert_eq!(h.segments[1].filesize, 0x8000);
    assert_eq!(h.segments[2].fileoff, 0x8000);
    assert_eq!(h.segments[2].vmaddr, 0x100008000);
    assert_eq!(h.segments[3].fileoff, 0xC000);
    assert_eq!(&out[0x4000..0x4002], &[1, 1]);
    assert_eq!(&out[0x8000..0x8002], &[2, 2]);
    // One pointer alone, then two in a row.
    let rebase = [0x11u8, 0x22, 0, 0x51, 0x22, 24, 0x52, 0];
    assert_eq!(&out[0xC000..0xC008], &rebase);
    let bind = b"\x3e\x40_a\0\x72\x18\x51\x90\x41_b\0\x72\x20\x51\x90\x40_t\0\x72\x08\x51\x60\x7e\x90\0";
    assert_eq!(&out[0xC008..0xC008 + bind.len()], bind);
    assert!(out.ends_with(b"\0__mh_execute_header\0_main\0"));
    assert_eq!(out.len() as u64, h.segments[3].fileoff + h.segments[3].filesize);
    let err =
        emit_macho_executable_dynamic(&layout, TargetArch::RiscV, 0, &info, &mut out).unwrap_err();
    assert_eq!(err, "RISC-V not supported for Mach-O");
}

#[test]
fn long_runs_of_pointers_are_counted() {
    let layout = layout_of("__data", vec![0; 8 * 300], 0x100000000, 2);
    let info = DynamicLinkInfo {
        needed: vec![],
        plt_symbols: vec![],
        weak_plt_symbols: vec![],
        interpreter: None,
        macho_rebase_addrs: (0..200u64).map(|i| 0x100000000 + 800 + i * 8).collect(),
        macho_direct_binds: vec![],
    };
    let mut out = Vec::new();
    emit_macho_executable_dynamic(&layout, TargetArch::X86_64, 0x100000000, &info, &mut out)
        .expect("emit");
    let h = parse_macho64_header(&out).expect("parse");
    let at = h.segments[3].fileoff as usize;
    // The offset 800 and the count 200 take two bytes each.
    assert_eq!(&out[at..at + 8], &[0x11, 0x22, 0xa0, 0x06, 0x60, 0xc8, 0x01, 0]);
}

fn minimal_layout() -> (MergedLayout, u64) {
    // Emit a one-byte .text section.  The entry is the image base + .text RVA.
    let text_rva = align_up_u64(512, SECTION_ALIGN) as u32; // SizeOfHeaders rounded -> 4096
    let entry = IMAGE_BASE + text_rva as u64;
    (layout_of(".text", vec![0xC3], entry, 0), entry)
}

#[test]
fn test_emit_pe_produces_mz_magic() {
    let (layout, entry) = minimal_layout();
    let mut buf = Vec::new();
    emit_pe_executable(&layout, entry, None, &mut buf).unwrap();
    assert_eq!(&buf[0..2], b"MZ", "DOS MZ magic missing");
}

#[test]
fn test_emit_pe_has_pe_signature() {
    let (layout, entry) = minimal_layout();
    let mut buf = Vec::new();
    emit_pe_executable(&layout, entry, None, &mut buf).unwrap();
    let e_lfanew = u32::from_le_bytes(buf[0x3C..0x40].try_into().unwrap()) as usize;
    assert_eq!(&buf[e_lfanew..e_lfanew + 4], b"PE\0\0", "PE signature missing");
}

#[test]
fn test_emit_pe_machine_type() {
    let (layout, entry) = minimal_layout();
    let mut buf = Vec::new();
    emit_pe_executable(&layout, entry, None, &mut buf).unwrap();
    let e_lfanew = u32::from_le_bytes(buf[0x3C..0x40].try_into().unwrap()) as usize;
    let machine = u16::from_le_bytes(buf[e_lfanew + 4..e_lfanew + 6].try_into().unwrap());
    assert_eq!(machine, IMAGE_FILE_MACHINE_AMD64, "machine type should be AMD64");
}

#[test]
fn test_emit_pe_optional_magic() {
    let (layout, entry) = minimal_layout();
    let mut buf = Vec::new();
    emit_pe_executable(&layout, entry, None, &mut buf).unwrap();
    let e_lfanew = u32::from_le_bytes(buf[0x3C..0x40].try_into().unwrap()) as usize;
    // Optional header starts at e_lfanew + 4 (PE sig) + 20 (COFF)
    let opt_off = e_lfanew + 4 + 20;
    let magic = u16::from_le_bytes(buf[opt_off..opt_off + 2].try_into().unwrap());
    assert_eq!(magic, IMAGE_OPTIONAL_HDR64_MAGIC, "optional header magic should be PE32+");
}

#[test]
fn test_emit_pe_file_is_not_empty() {
    let (layout, entry) = minimal_layout();
    let mut buf = Vec::new();
    emit_pe_executable(&layout, entry, None, &mut buf).unwrap();
    // Should be at least headers + one padded section.
    assert!(buf.len() >= 512, "PE file unexpectedly small: {} bytes", buf.len());
}

#[test]
fn pe_sections_and_imports() {
    let (mut layout, entry) = minimal_layout();
    layout.sections.push(MergedSection {
        name: ".data".into(),
        data: vec![5; 600],
        vaddr: 0,
        flags: 0,
        align: 16,
    });
    let mut info = DynamicLinkInfo::default();
    info.plt_symbols = vec!["ExitProcess".into(), "Beep".into()];
    let mut buf = Vec::new();
    emit_pe_executable(&layout, entry, Some(&info), &mut buf).unwrap();
    assert!(!is_coff(&buf));
    assert_eq!(u16_at(&buf, 70), 3);
    assert_eq!(u32_at(&buf, 88 + 16), 0x1000);
    // The sections stand one page after the other, and in the file one block after the other.
    let sec = |i: usize| 328 + 40 * i;
    assert_eq!(&buf[sec(0)..sec(0) + 8], b".text\0\0\0");
    assert_eq!(&buf[sec(1)..sec(1) + 8], b".data\0\0\0");
    assert_eq!(&buf[sec(2)..sec(2) + 8], b".rdata\0\0");
    let rva: Vec<u32> = (0..3).map(|i| u32_at(&buf, sec(i) + 12)).collect();
    assert_eq!(rva, vec![0x1000, 0x2000, 0x3000]);
    let off: Vec<u32> = (0..3).map(|i| u32_at(&buf, sec(i) + 20)).collect();
    assert_eq!(off, vec![512, 1024, 2048]);
    assert_eq!(buf.len(), 2048 + 512);
    assert_eq!(u32_at(&buf, 88 + 56), 0x4000);
    // The directory entry, the two tables, the names.
    let r = 2048;
    assert_eq!(u32_at(&buf, r), 0x3000 + 40);
    assert_eq!(u32_at(&buf, r + 16), 0x3000 + 64);
    assert_eq!(u64_at(&buf, r + 40), 0x3000 + 88);
    assert_eq!(u64_at(&buf, r + 64), 0x3000 + 88);
    assert_eq!(u64_at(&buf, r + 72), 0x3000 + 88 + 14);
    assert_eq!(u64_at(&buf, r + 80), 0);
    assert_eq!(&buf[r + 88..r + 102], b"\0\0ExitProcess\0");
    assert_eq!(&buf[r + 102..r + 110], b"\0\0Beep\0\0");
    assert_eq!(&buf[r + 110..r + 123], b"KERNEL32.DLL\0");
    assert_eq!(u32_at(&buf, r + 12), 0x3000 + 110);
    assert_eq!(u32_at(&buf, 88 + 120), 0x3000);
    assert_eq!(u32_at(&buf, 88 + 112 + 96), 0x3000 + 64);
    assert_eq!(u32_at(&buf, 88 + 112 + 100), 24);
}

/// A COFF object: `main` with a call of `puts`, and `ExitProcess`.
fn coff_with_calls() -> Vec<u8> {
    let mut d = vec![0u8; 20 + 40];
    d[0..2].copy_from_slice(&0x8664u16.to_le_bytes());
    d[2..4].copy_from_slice(&1u16.to_le_bytes());
    let code = [0x90u8, 0xe8, 0, 0, 0, 0, 0xe8, 0, 0, 0, 0, 0xc3];
    let text_at = d.len() as u32;
    d[20..25].copy_from_slice(b".text");
    d[36..40].copy_from_slice(&(code.len() as u32).to_le_bytes());
    d[40..44].copy_from_slice(&text_at.to_le_bytes());
    d[56..60].copy_from_slice(&0x20u32.to_le_bytes());
    d.extend_from_slice(&code);
    let relocs_at = d.len() as u32;
    d[44..48].copy_from_slice(&relocs_at.to_le_bytes());
    d[52..54].copy_from_slice(&2u16.to_le_bytes());
    for (place, sym) in [(2u32, 1u32), (7, 2)] {
        d.extend_from_slice(&place.to_le_bytes());
        d.extend_from_slice(&sym.to_le_bytes());
        d.extend_from_slice(&4u16.to_le_bytes());
    }
    let table = d.len() as u32;
    d[8..12].copy_from_slice(&table.to_le_bytes());
    d[12..16].copy_from_slice(&3u32.to_le_bytes());
    let mut sym = |name: &[u8], value: u32, section: i16| {
        let mut rec = vec![0u8; 18];
        rec[..name.len()].copy_from_slice(name);
        rec[8..12].copy_from_slice(&value.to_le_bytes());
        rec[12..14].copy_from_slice(&section.to_le_bytes());
        rec[17] = 2;
        d.extend_from_slice(&rec);
    };
    sym(b"main", 1, 1);
    sym(b"puts", 0, 0);
    sym(&[0, 0, 0, 0, 4], 0, 0);
    d.extend_from_slice(&16u32.to_le_bytes());
    d.extend_from_slice(b"ExitProcess\0");
    d
}

#[test]
fn coff_calls_go_through_thunks() {
    let d = coff_with_calls();
    assert!(is_coff(&d));
    let mut out = Vec::new();
    link_and_emit_pe_from_coff(&d, &mut out).expect("link");
    assert_eq!(&out[0..2], b"MZ");
    assert_eq!(u16_at(&out, 70), 2);
    // The entry point is `main`.
    assert_eq!(u32_at(&out, 88 + 16), 0x1001);
    let t = 512;
    // The thunks stand behind the twelve bytes of code.
    assert_eq!(u32_at(&out, t + 2), 12 - 6);
    assert_eq!(u32_at(&out, t + 7), 18 - 11);
    assert_eq!(&out[t + 12..t + 14], &[0xff, 0x25]);
    assert_eq!(&out[t + 18..t + 20], &[0xff, 0x25]);
    // Two libraries: the address tables stand behind 60 bytes of directory and 32 of lookup.
    let tables = 0x2000 + 60 + 32;
    assert_eq!(u32_at(&out, 88 + 112 + 96), tables);
    // `puts` is the first of the second library, `ExitProcess` the first of the first.
    assert_eq!(u32_at(&out, t + 14), tables + 16 - (0x1000 + 18));
    assert_eq!(u32_at(&out, t + 20), tables - (0x1000 + 24));
    let library = |d: usize| {
        let name = u32_at(&out, 1024 + 20 * d + 12) - 0x2000;
        &out[1024 + name as usize..]
    };
    assert!(library(0).starts_with(b"KERNEL32.DLL\0"));
    assert!(library(1).starts_with(b"ucrt.dll\0"));
}

#[test]
fn an_empty_coff_object_still_imports_exit_process() {
    let mut d = vec![0u8; 20];
    d[0..2].copy_from_slice(&0x8664u16.to_le_bytes());
    let mut out = Vec::new();
    link_and_emit_pe_from_coff(&d, &mut out).expect("link");
    assert_eq!(u32_at(&out, 88 + 16), 0x1000);
    assert!(out.windows(12).any(|w| w == b"ExitProcess\0"));
    assert!(!out.windows(9).any(|w| w == b"ucrt.dll\0"));
}

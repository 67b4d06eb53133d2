//! Reading Mach-O files.
use weld::macho::{
    is_macho64, is_macho_dylib, parse_macho64_header, parse_macho64_object, parse_macho_relocs,
    MachoCpuType,
};

#[test]
fn test_is_macho64_elf() {
    let elf = [0x7f, b'E', b'L', b'F'];
    assert!(!is_macho64(&elf));
}

#[test]
fn test_is_macho64_magic() {
    let mut data = vec![0u8; 32];
    data[0..4].copy_from_slice(&0xFEEDFACFu32.to_le_bytes());
    assert!(is_macho64(&data));
}

#[test]
fn test_parse_macho64_minimal() {
    let mut data = vec![0u8; 200];
    data[0..4].copy_from_slice(&0xFEEDFACFu32.to_le_bytes());
    data[4..8].copy_from_slice(&0x01000007u32.to_le_bytes());
    data[12..16].copy_from_slice(&1u32.to_le_bytes());
    data[16..20].copy_from_slice(&1u32.to_le_bytes());
    data[20..24].copy_from_slice(&72u32.to_le_bytes());
    data[32..36].copy_from_slice(&0x19u32.to_le_bytes());
    data[36..40].copy_from_slice(&72u32.to_le_bytes());
    data[40..56].copy_from_slice(b"__TEXT\0\0\0\0\0\0\0\0\0\0");

    let h = parse_macho64_header(&data).expect("parse");
    assert_eq!(h.cputype, 0x01000007);
    assert_eq!(h.ncmds, 1);
    assert_eq!(h.segments.len(), 1);
    assert_eq!(h.segments[0].name, "__TEXT");
}

#[test]
fn test_parse_macho_relocs() {
    let mut data = vec![0u8; 24];
    data[0..4].copy_from_slice(&4u32.to_le_bytes());
    data[4..8].copy_from_slice(&(1u32 << 27).to_le_bytes());
    data[8..12].copy_from_slice(&8u32.to_le_bytes());
    data[12..16].copy_from_slice(&0u32.to_le_bytes());
    let relocs = parse_macho_relocs(&data, 0, 2);
    assert_eq!(relocs.len(), 2);
    assert_eq!(relocs[0].r_address, 4);
    assert!(!relocs[0].r_pcrel);
    assert!(relocs[0].r_extern);
    assert_eq!(relocs[1].r_address, 8);
    assert!(!relocs[1].r_extern);
}

fn header(filetype: u32, ncmds: u32) -> Vec<u8> {
    let mut data = vec![0u8; 32];
    data[0..4].copy_from_slice(&0xFEEDFACFu32.to_le_bytes());
    data[4..8].copy_from_slice(&0x0100000Cu32.to_le_bytes());
    data[12..16].copy_from_slice(&filetype.to_le_bytes());
    data[16..20].copy_from_slice(&ncmds.to_le_bytes());
    data
}

#[test]
fn macho_headers_that_are_refused() {
    assert_eq!(parse_macho64_header(&[0; 31]).unwrap_err(), "file too short for Mach-O 64 header");
    assert_eq!(parse_macho64_header(&[0; 32]).unwrap_err(), "not Mach-O 64");
    let mut d = header(1, 0);
    d[0..4].copy_from_slice(&0xCFFAEDFEu32.to_le_bytes());
    assert!(is_macho64(&d));
    assert_eq!(parse_macho64_header(&d).unwrap_err(), "big-endian Mach-O not supported");
    assert_eq!(parse_macho64_object(&header(2, 0)).unwrap_err(), "expected MH_OBJECT");
}

#[test]
fn cut_off_segments_are_refused() {
    for (len, msg) in [
        (56, "bad vmaddr"),
        (64, "bad vmsize"),
        (72, "bad fileoff"),
        (80, "bad filesize"),
    ] {
        let mut d = header(1, 1);
        d.resize(len, 0);
        d[32..36].copy_from_slice(&0x19u32.to_le_bytes());
        d[36..40].copy_from_slice(&72u32.to_le_bytes());
        assert_eq!(parse_macho64_header(&d).unwrap_err(), msg);
    }
}

#[test]
fn cut_off_symbol_tables_are_refused() {
    for (len, msg) in [
        (40, "bad symoff"),
        (44, "bad nsyms"),
        (48, "bad stroff"),
        (52, "bad strsize"),
    ] {
        let mut d = header(1, 1);
        d.resize(len, 0);
        d[32..36].copy_from_slice(&0x0bu32.to_le_bytes());
        d[36..40].copy_from_slice(&24u32.to_le_bytes());
        assert_eq!(parse_macho64_object(&d).unwrap_err(), msg);
    }
}

#[test]
fn dynamic_libraries_are_told_apart() {
    assert!(is_macho_dylib(&header(6, 0)));
    assert!(!is_macho_dylib(&header(1, 0)));
    assert!(!is_macho_dylib(&header(6, 0)[..12]));
    assert_eq!(MachoCpuType::from_raw(0x01000007), Some(MachoCpuType::X86_64));
    assert_eq!(MachoCpuType::from_raw(0x0100000C), Some(MachoCpuType::Arm64));
    assert_eq!(MachoCpuType::from_raw(7), None);
}

#[test]
fn relocation_fields_are_unpacked() {
    let mut data = vec![0u8; 8];
    let info: u32 = 0x00ABCDEF | (1 << 24) | (3 << 25) | (0xA << 28);
    data[4..8].copy_from_slice(&info.to_le_bytes());
    let r = parse_macho_relocs(&data, 0, 5);
    assert_eq!(r.len(), 1);
    assert_eq!(r[0].r_symbolnum, 0xABCDEF);
    assert!(r[0].r_pcrel);
    assert_eq!(r[0].r_length, 3);
    assert!(!r[0].r_extern);
    assert_eq!(r[0].r_type, 10);
    assert!(parse_macho_relocs(&data, 1, 1).is_empty());
    assert!(parse_macho_relocs(&data, u32::MAX, 1).is_empty());
}

#[test]
fn symbols_and_names() {
    // A symbol table command, two symbols and a string table.
    let mut d = header(1, 1);
    d.extend_from_slice(&2u32.to_le_bytes());
    d.extend_from_slice(&24u32.to_le_bytes());
    d.extend_from_slice(&56u32.to_le_bytes());
    d.extend_from_slice(&2u32.to_le_bytes());
    d.extend_from_slice(&88u32.to_le_bytes());
    d.extend_from_slice(&7u32.to_le_bytes());
    let mut sym = |strx: u32, n_type: u8, sect: u8, desc: u16, value: u64| {
        d.extend_from_slice(&strx.to_le_bytes());
        d.push(n_type);
        d.push(sect);
        d.extend_from_slice(&desc.to_le_bytes());
        d.extend_from_slice(&value.to_le_bytes());
    };
    sym(1, 0x0f, 1, 0, 0x30);
    sym(7, 0x01, 0, 0x40, 0);
    d.extend_from_slice(b"\0a\xffz\0b\0");
    let o = parse_macho64_object(&d).unwrap();
    assert_eq!(o.symbols.len(), 2);
    assert_eq!(o.symbols[0].name, "a\u{fffd}z");
    assert!(o.symbols[0].is_defined);
    assert!(!o.symbols[0].is_weak_ref);
    assert_eq!(o.symbols[0].value, 0x30);
    assert_eq!(o.symbols[1].name, "");
    assert!(!o.symbols[1].is_defined);
    assert!(o.symbols[1].is_weak_ref);
}

#[test]
fn symbols_are_defined_as_their_records_say() {
    let kinds = [
        (0x0e, 1, 0u16, true, false),
        (0x0f, 1, 0x40, true, false),
        (0x0e, 0, 0, false, false),
        (0x0e, 0, 0x40, false, true),
        (0x02, 1, 0x40, false, true),
        (0x01, 0, 0x80, false, false),
    ];
    let mut d = header(1, 1);
    for w in [2u32, 24, 56, kinds.len() as u32, 0, 0] {
        d.extend_from_slice(&w.to_le_bytes());
    }
    for (n_type, sect, desc, _, _) in kinds {
        d.extend_from_slice(&[0, 0, 0, 0, n_type, sect]);
        d.extend_from_slice(&desc.to_le_bytes());
        d.extend_from_slice(&[0; 8]);
    }
    let o = parse_macho64_object(&d).unwrap();
    assert_eq!(o.data, d);
    assert_eq!(o.symbols.len(), kinds.len());
    for (s, (_, _, _, defined, weak)) in o.symbols.iter().zip(kinds) {
        assert_eq!((s.is_defined, s.is_weak_ref), (defined, weak));
    }
    assert_eq!(parse_macho64_object(&header(2, 0)).unwrap_err(), "expected MH_OBJECT");
}

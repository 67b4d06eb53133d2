//! Reading ELF objects.
use weld::elf::{
    get_section_name, get_strtab_string, parse_elf64_header, parse_elf64_slice, parse_rela_entry,
    parse_rela_section, parse_section_header, parse_symbol_entry, parse_symtab, ElfType,
    SectionHeader, SectionType, SymBind, SymType,
};

#[test]
fn test_parse_elf_header() {
    let mut data = vec![0u8; 64];
    data[0..4].copy_from_slice(&[0x7f, b'E', b'L', b'F']);
    data[4] = 2;
    data[5] = 1;
    data[16..18].copy_from_slice(&1u16.to_le_bytes());
    data[18..20].copy_from_slice(&62u16.to_le_bytes());
    data[40..48].copy_from_slice(&64u64.to_le_bytes());
    data[60..62].copy_from_slice(&3u16.to_le_bytes());
    data[62..64].copy_from_slice(&1u16.to_le_bytes());

    let header = parse_elf64_header(&data).expect("parse");
    assert_eq!(header.e_type, 1);
    assert_eq!(header.e_machine, 62);
    assert_eq!(header.e_shoff, 64);
    assert_eq!(header.e_shnum, 3);
}

#[test]
fn test_parse_symbol_entry() {
    let mut data = vec![0u8; 24];
    data[0..4].copy_from_slice(&1u32.to_le_bytes());
    data[4] = 0x12;
    data[6..8].copy_from_slice(&1u16.to_le_bytes());
    data[8..16].copy_from_slice(&0x100u64.to_le_bytes());

    let sym = parse_symbol_entry(&data, 0).expect("parse");
    assert_eq!(sym.name_offset, 1);
    assert_eq!(sym.bind, 1);
    assert_eq!(sym.sym_type, 2);
    assert_eq!(sym.st_shndx, 1);
    assert_eq!(sym.st_value, 0x100);
}

#[test]
fn test_get_strtab_string() {
    let strtab = b"\0main\0foo\0";
    assert_eq!(get_strtab_string(strtab, 0).as_deref(), Some(""));
    assert_eq!(get_strtab_string(strtab, 1).as_deref(), Some("main"));
    assert_eq!(get_strtab_string(strtab, 6).as_deref(), Some("foo"));
}

#[test]
fn test_parse_rela_entry() {
    let mut data = vec![0u8; 24];
    data[0..8].copy_from_slice(&0x10u64.to_le_bytes());
    data[8..16].copy_from_slice(&(1u64 | (5u64 << 32)).to_le_bytes());
    data[16..24].copy_from_slice(&(-4i64 as u64).to_le_bytes());

    let rel = parse_rela_entry(&data, 0).expect("parse");
    assert_eq!(rel.r_offset, 0x10);
    assert_eq!(rel.r_sym, 5);
    assert_eq!(rel.r_type, 1);
    assert_eq!(rel.r_addend, -4);
}

fn header() -> Vec<u8> {
    let mut data = vec![0u8; 64];
    data[0..4].copy_from_slice(&[0x7f, b'E', b'L', b'F']);
    data[4] = 2;
    data[5] = 1;
    data
}

#[test]
fn headers_that_are_refused() {
    assert_eq!(parse_elf64_header(&[]).unwrap_err(), "file too short for ELF64 header");
    let mut d = header();
    d[1] = 0;
    assert_eq!(parse_elf64_header(&d).unwrap_err(), "not an ELF file");
    let mut d = header();
    d[4] = 1;
    assert_eq!(parse_elf64_header(&d).unwrap_err(), "not ELF64");
    let mut d = header();
    d[5] = 2;
    assert_eq!(parse_elf64_header(&d).unwrap_err(), "not little-endian");
}

#[test]
fn entries_beyond_the_file_are_refused() {
    let d = vec![0u8; 63];
    assert_eq!(parse_section_header(&d, 0).unwrap_err(), "file too short for section header");
    assert_eq!(
        parse_section_header(&d, u64::MAX).unwrap_err(),
        "file too short for section header"
    );
    assert_eq!(parse_symbol_entry(&d, 40).unwrap_err(), "file too short for symbol entry");
    assert_eq!(parse_rela_entry(&d, usize::MAX).unwrap_err(), "file too short for RELA entry");
}

fn table(offset: u64, size: u64, entsize: u64) -> SectionHeader {
    SectionHeader {
        name_offset: 0,
        sh_type: 2,
        sh_flags: 0,
        sh_addr: 0,
        sh_offset: offset,
        sh_size: size,
        sh_link: 0,
        sh_info: 0,
        sh_addralign: 1,
        sh_entsize: entsize,
    }
}

#[test]
fn tables_are_read_entry_by_entry() {
    let d = vec![0u8; 96];
    assert_eq!(parse_symtab(&d, &table(0, 72, 24)).unwrap().len(), 3);
    assert_eq!(parse_symtab(&d, &table(0, 72, 0)).unwrap().len(), 3);
    assert!(parse_symtab(&d, &table(48, 72, 24)).is_err());
    assert_eq!(parse_rela_section(&d, &table(0, 96, 48)).unwrap().len(), 2);
    assert_eq!(parse_rela_section(&d, &table(0, 96, 8)).unwrap().len(), 4);
    assert!(parse_rela_section(&d, &table(u64::MAX, 96, 24)).is_err());
}

#[test]
fn strings_that_are_not_text_are_refused() {
    let strtab = b"\0a\xff\0b";
    assert_eq!(get_strtab_string(strtab, 1), None);
    assert_eq!(get_strtab_string(strtab, 4).as_deref(), Some("b"));
    assert_eq!(get_strtab_string(strtab, 5).as_deref(), Some(""));
    assert_eq!(get_strtab_string(strtab, 6), None);
    assert_eq!(get_section_name(&[], strtab, 1), None);
    assert_eq!(get_section_name(&[], "\0\u{e9}t\u{e9}\0".as_bytes(), 1).as_deref(), Some("\u{e9}t\u{e9}"));
}

#[test]
fn sections_without_a_name_are_named_by_their_offset() {
    let mut d = header();
    d[40..48].copy_from_slice(&64u64.to_le_bytes());
    d[60..62].copy_from_slice(&1u16.to_le_bytes());
    d[62..64].copy_from_slice(&7u16.to_le_bytes());
    let mut sh = vec![0u8; 64];
    sh[0..4].copy_from_slice(&5u32.to_le_bytes());
    d.extend_from_slice(&sh);
    let (h, sections, names) = parse_elf64_slice(&d).unwrap();
    assert_eq!(h.e_shnum, 1);
    assert_eq!(sections.len(), 1);
    assert_eq!(names, vec!["<5>"]);
    d.truncate(100);
    assert_eq!(parse_elf64_slice(&d).unwrap_err(), "file too short for section header");
}

#[test]
fn numbers_of_kinds() {
    assert_eq!(ElfType::Relocatable.raw(), 1);
    assert_eq!(ElfType::Executable.raw(), 2);
    assert_eq!(ElfType::Dynamic.raw(), 3);
    assert_eq!(SectionType::Null.raw(), 0);
    assert_eq!(SectionType::Rela.raw(), 4);
    assert_eq!(SymBind::Weak.raw(), 2);
    assert_eq!(SymType::File.raw(), 4);
}

#[test]
fn section_headers_stand_64_bytes_apart() {
    let mut d = header();
    d[40..48].copy_from_slice(&72u64.to_le_bytes());
    d[60..62].copy_from_slice(&2u16.to_le_bytes());
    d[62..64].copy_from_slice(&1u16.to_le_bytes());
    d.extend_from_slice(b"\0.one\0.2");
    let mut one = vec![0u8; 64];
    one[0..4].copy_from_slice(&1u32.to_le_bytes());
    one[4..8].copy_from_slice(&9u32.to_le_bytes());
    let mut two = vec![0u8; 64];
    two[0..4].copy_from_slice(&6u32.to_le_bytes());
    two[24..32].copy_from_slice(&64u64.to_le_bytes());
    two[32..40].copy_from_slice(&8u64.to_le_bytes());
    d.extend_from_slice(&one);
    d.extend_from_slice(&two);
    assert_eq!(d.len(), 72 + 64 * 2);
    let (h, sections, names) = parse_elf64_slice(&d).unwrap();
    assert_eq!((h.e_shnum, sections.len(), names.len()), (2, 2, 2));
    for (i, s) in sections.iter().enumerate() {
        let read = parse_section_header(&d, 72 + 64 * i as u64).unwrap();
        assert_eq!(format!("{:?}", s), format!("{:?}", read));
    }
    assert_eq!(names, vec![".one", ".2"]);
    d.pop();
    assert_eq!(parse_elf64_slice(&d).unwrap_err(), "file too short for section header");
    // Without section headers nothing is asked of their place.
    let mut none = header();
    none[40..48].copy_from_slice(&u64::MAX.to_le_bytes());
    assert!(parse_elf64_slice(&none).unwrap().1.is_empty());
}

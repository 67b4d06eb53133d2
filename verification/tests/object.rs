//! Choosing the objects to link.
use weld::coff::{
    collect_coff_symbol_summary, is_coff, COFF_MACHINE_AMD64, COFF_MACHINE_ARM64,
    COFF_MACHINE_RISCV64, IMAGE_SYM_CLASS_EXTERNAL,
};
use weld::macho::{is_macho64, CPU_TYPE_ARM64, CPU_TYPE_X86_64};
use weld::object::{
    extract_ar_members, host_macho_cputype, is_elf, load_elf_objects, load_macho_objects,
    load_objects, parse_number, thin_fat_macho_binary, InputFile, ObjectFormat, FAT_MAGIC,
    FAT_MAGIC_64,
};

const ELF_MAGIC: [u8; 4] = [0x7f, b'E', b'L', b'F'];

fn write_u32_be(buf: &mut [u8], off: usize, val: u32) {
    buf[off..off + 4].copy_from_slice(&val.to_be_bytes());
}

fn write_u16_le_at(buf: &mut [u8], off: usize, val: u16) {
    buf[off..off + 2].copy_from_slice(&val.to_le_bytes());
}

fn write_u32_le_at(buf: &mut [u8], off: usize, val: u32) {
    buf[off..off + 4].copy_from_slice(&val.to_le_bytes());
}

/// Build a minimal COFF object with one external-defined symbol ("_foo") stored
/// inline in the 8-byte name field, and one external-undefined symbol ("_bar")
/// stored via the string table.
fn make_minimal_coff() -> Vec<u8> {
    // Two 18-byte symbol records + a string table with "_bar\0".
    // Header: 20 bytes. Symbol table starts right after header (no sections).
    let sym_table_off: u32 = 20;
    let sym_count: u32 = 2;
    let strtab_content = b"\x0d\x00\x00\x00_bar\0"; // 4-byte size + "_bar\0"
    let strtab_size = strtab_content.len();

    let mut data = vec![0u8; 20 + (sym_count as usize) * 18 + strtab_size];

    // COFF header
    write_u16_le_at(&mut data, 0, COFF_MACHINE_AMD64);
    write_u16_le_at(&mut data, 2, 0); // section count
    write_u32_le_at(&mut data, 8, sym_table_off);
    write_u32_le_at(&mut data, 12, sym_count);

    // Symbol 0: "_foo" inline, section 1 (defined), class = external
    let s0 = 20usize;
    data[s0..s0 + 4].copy_from_slice(b"_foo");
    data[s0 + 12..s0 + 14].copy_from_slice(&1i16.to_le_bytes()); // section number
    data[s0 + 17] = IMAGE_SYM_CLASS_EXTERNAL;

    // Symbol 1: "_bar" via strtab at offset 4, section 0 (undefined), class = external
    let s1 = 20 + 18;
    data[s1..s1 + 4].copy_from_slice(&[0, 0, 0, 0]); // zeroes -> use offset
    data[s1 + 4..s1 + 8].copy_from_slice(&4u32.to_le_bytes()); // strtab offset
    data[s1 + 12..s1 + 14].copy_from_slice(&0i16.to_le_bytes()); // undefined
    data[s1 + 17] = IMAGE_SYM_CLASS_EXTERNAL;

    // String table
    let st_off = 20 + (sym_count as usize) * 18;
    data[st_off..st_off + strtab_size].copy_from_slice(strtab_content);

    data
}

#[test]
fn coff_detection_rejects_elf_and_pe() {
    assert!(!is_coff(&ELF_MAGIC));
    assert!(!is_coff(b"MZ\x90\x00"));
    assert!(!is_coff(b"\xcf\xfa\xed\xfe")); // Mach-O LE
}

#[test]
fn coff_detection_accepts_known_machine_types() {
    let mut buf = [0u8; 20];
    write_u16_le_at(&mut buf, 0, COFF_MACHINE_AMD64);
    assert!(is_coff(&buf));
    write_u16_le_at(&mut buf, 0, COFF_MACHINE_ARM64);
    assert!(is_coff(&buf));
    write_u16_le_at(&mut buf, 0, COFF_MACHINE_RISCV64);
    assert!(is_coff(&buf));
}

#[test]
fn coff_symbol_extraction_inline_and_strtab() {
    let coff = make_minimal_coff();
    assert!(is_coff(&coff));
    let summary = collect_coff_symbol_summary(&coff).expect("should parse");
    assert!(summary.defined.contains("_foo"), "expected _foo in defined");
    assert!(summary.undefined.contains("_bar"), "expected _bar in undefined");
    assert!(!summary.undefined.contains("_foo"), "_foo should not be in undefined");
}

#[test]
fn thin_fat_binary_picks_host_slice() {
    let header_size = 8usize;
    let arch_entry_size = 20usize;
    let table_size = arch_entry_size * 2;
    let first_slice = b"!<arch>\n";
    let second_slice = b"\xcf\xfa\xed\xfe";
    let first_off = header_size + table_size;
    let second_off = first_off + first_slice.len();

    let mut data = vec![0u8; second_off + second_slice.len()];
    write_u32_be(&mut data, 0, FAT_MAGIC);
    write_u32_be(&mut data, 4, 2);

    // Entry 0: x86_64
    write_u32_be(&mut data, 8, CPU_TYPE_X86_64);
    write_u32_be(&mut data, 12, 3);
    write_u32_be(&mut data, 16, first_off as u32);
    write_u32_be(&mut data, 20, first_slice.len() as u32);
    write_u32_be(&mut data, 24, 0);

    // Entry 1: arm64
    write_u32_be(&mut data, 28, CPU_TYPE_ARM64);
    write_u32_be(&mut data, 32, 0);
    write_u32_be(&mut data, 36, second_off as u32);
    write_u32_be(&mut data, 40, second_slice.len() as u32);
    write_u32_be(&mut data, 44, 0);

    data[first_off..first_off + first_slice.len()].copy_from_slice(first_slice);
    data[second_off..second_off + second_slice.len()].copy_from_slice(second_slice);

    for arch in ["x86_64", "aarch64", "riscv64"] {
        let thin =
            thin_fat_macho_binary(&data, host_macho_cputype(arch)).expect("fat should thin");
        match host_macho_cputype(arch) {
            Some(CPU_TYPE_X86_64) => assert_eq!(thin, first_slice),
            Some(CPU_TYPE_ARM64) => assert_eq!(thin, second_slice),
            _ => assert!(thin == first_slice || thin == second_slice),
        }
    }
}

#[test]
fn fat_slices_out_of_the_file_are_passed_over() {
    let mut d = vec![0u8; 8 + 2 * 32 + 4];
    write_u32_be(&mut d, 0, FAT_MAGIC_64);
    write_u32_be(&mut d, 4, 2);
    write_u32_be(&mut d, 8, CPU_TYPE_ARM64);
    d[16..24].copy_from_slice(&100u64.to_be_bytes());
    d[24..32].copy_from_slice(&1u64.to_be_bytes());
    write_u32_be(&mut d, 40, CPU_TYPE_X86_64);
    d[48..56].copy_from_slice(&72u64.to_be_bytes());
    d[56..64].copy_from_slice(&4u64.to_be_bytes());
    d[72..76].copy_from_slice(b"abcd");
    assert_eq!(thin_fat_macho_binary(&d, Some(CPU_TYPE_ARM64)).unwrap(), b"abcd");
    // A place beyond all addresses spoils the file.
    d[24..32].copy_from_slice(&u64::MAX.to_be_bytes());
    assert_eq!(thin_fat_macho_binary(&d, Some(CPU_TYPE_ARM64)), None);
    assert_eq!(thin_fat_macho_binary(b"abcdefgh", None), None);
    assert_eq!(thin_fat_macho_binary(b"", None), None);
    assert_eq!(thin_fat_macho_binary(&d[..40], None), None);
}

#[test]
fn numbers_in_archives() {
    assert_eq!(parse_number(b"120"), 120);
    assert_eq!(parse_number(b"+7"), 7);
    assert_eq!(parse_number(b""), 0);
    assert_eq!(parse_number(b"+"), 0);
    assert_eq!(parse_number(b"1x"), 0);
    assert_eq!(parse_number(b"-1"), 0);
    assert_eq!(parse_number(b"99999999999999999999999"), 0);
}

/// A COFF object with one external symbol per name; undefined where its flag is false.
fn coff(symbols: &[(&str, bool)]) -> Vec<u8> {
    let mut d = vec![0u8; 20];
    write_u16_le_at(&mut d, 0, COFF_MACHINE_AMD64);
    write_u32_le_at(&mut d, 8, 20);
    write_u32_le_at(&mut d, 12, symbols.len() as u32);
    for (name, defined) in symbols {
        let mut rec = vec![0u8; 18];
        rec[..name.len()].copy_from_slice(name.as_bytes());
        rec[12] = *defined as u8;
        rec[17] = IMAGE_SYM_CLASS_EXTERNAL;
        d.extend_from_slice(&rec);
    }
    d
}

fn archive(members: &[(&str, Vec<u8>)]) -> Vec<u8> {
    let mut d = b"!<arch>\n".to_vec();
    for (name, data) in members {
        d.extend_from_slice(format!("{:<16}{:<32}{:<10}`\n", name, "", data.len()).as_bytes());
        d.extend_from_slice(data);
        if d.len() % 2 == 1 {
            d.push(b'\n');
        }
    }
    d
}

fn file(path: &str, data: Vec<u8>) -> InputFile {
    InputFile { path: path.to_string(), data }
}

#[test]
fn archive_members_are_found() {
    let a = coff(&[("a", true)]);
    let mut long = b"real.o\0\0".to_vec();
    long.extend_from_slice(&a);
    let d = archive(&[
        ("/", b"index".to_vec()),
        ("x.o/", a.clone()),
        ("#1/8", long),
        ("text", b"no object".to_vec()),
        ("empty", vec![]),
    ]);
    let members = extract_ar_members(&d, None);
    assert_eq!(members.len(), 2);
    assert_eq!(members[0].data, a);
    assert_eq!(members[1].data, a);
    assert!(members[0].symbols.defined.contains("a"));
    assert!(extract_ar_members(b"!<arch>\n", None).is_empty());
    assert!(extract_ar_members(b"nothing of the kind", None).is_empty());
}

#[test]
fn only_needed_members_are_chosen_and_chains_are_followed() {
    let main = coff(&[("main", true), ("f", false)]);
    let f = coff(&[("f", true), ("g", false)]);
    let g = coff(&[("g", true)]);
    let unused = coff(&[("h", true)]);
    // `g` stands before `f`, so that it is found in a second pass.
    let lib = archive(&[("g.o", g.clone()), ("h.o", unused), ("f.o", f.clone())]);
    let (format, objects, dylibs) =
        load_objects(&[file("m.o", main.clone()), file("l.a", lib.clone())], None).expect("load");
    assert_eq!(format, ObjectFormat::Coff);
    assert_eq!(objects, vec![main.clone(), f, g.clone()]);
    assert!(dylibs.is_empty());
    // An archive alone gives its first member.
    let (_, objects, _) = load_objects(&[file("l.a", lib.clone())], None).expect("load");
    assert_eq!(objects, vec![g]);
    // What comes before the object that needs it is not looked at again.
    let (_, objects, _) =
        load_objects(&[file("m.o", main.clone()), file("e.a", archive(&[])), file("m2.o", main.clone())], None)
            .expect("load");
    assert_eq!(objects.len(), 2);
}

#[test]
fn files_that_do_not_fit_together_are_refused() {
    assert!(load_objects(&[], None).is_none());
    assert!(load_objects(&[file("x", b"text".to_vec())], None).is_none());
    let c = coff(&[]);
    let e = ELF_MAGIC.to_vec();
    assert!(is_elf(&e));
    assert!(load_objects(&[file("c", c.clone()), file("e", e.clone())], None).is_none());
    let (f, objects, _) = load_objects(&[file("e", e.clone())], None).expect("load");
    assert_eq!(f, ObjectFormat::Elf);
    assert_eq!(objects, vec![e.clone()]);
    assert_eq!(load_elf_objects(&[file("e", e.clone()), file("e", e.clone())], None).unwrap().len(), 2);
    assert!(load_elf_objects(&[file("e", e), file("c", c.clone())], None).is_none());
    assert!(load_elf_objects(&[], None).is_none());
    assert!(load_macho_objects(&[file("c", c)], None).is_none());
}

#[test]
fn dynamic_libraries_are_set_aside() {
    let mut dylib = vec![0u8; 32];
    write_u32_le_at(&mut dylib, 0, 0xFEEDFACF);
    write_u32_le_at(&mut dylib, 12, 6);
    let mut obj = dylib.clone();
    write_u32_le_at(&mut obj, 12, 1);
    let (objects, dylibs) =
        load_macho_objects(&[file("/l.dylib", dylib.clone()), file("o", obj.clone())], None)
            .expect("load");
    assert_eq!(objects, vec![obj]);
    assert_eq!(dylibs, vec!["/l.dylib"]);
    assert!(load_macho_objects(&[file("/l.dylib", dylib)], None).is_none());
}

#[test]
fn formats_exclude_each_other() {
    let mut elf = vec![0u8; 32];
    elf[..4].copy_from_slice(&ELF_MAGIC);
    let mut macho = vec![0u8; 32];
    write_u32_le_at(&mut macho, 0, 0xFEEDFACF);
    let coff = coff(&[]);
    for (data, formats) in [
        (&elf, (true, false, false)),
        (&macho, (false, true, false)),
        (&coff, (false, false, true)),
    ] {
        assert_eq!((is_elf(data), is_macho64(data), is_coff(data)), formats);
    }
    // Objects that are given as such are linked in their order.
    let (_, objects, _) = load_objects(&[file("a", coff.clone()), file("b", coff.clone())], None).expect("load");
    assert_eq!(objects, vec![coff.clone(), coff]);
}

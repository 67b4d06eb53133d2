//! From files to an executable.
use weld::cli::{parse_args, ParseAction, ParsedArgs};
use weld::coff::is_coff;
use weld::driver::{explain_failure, link_files, wants_pe, Host};
use weld::link::RequestedLibrary;
use weld::object::{InputFile, ObjectFormat};
use weld::platform::TargetPlatform;

const HOST: Host = Host { cputype: None, platform: TargetPlatform::Linux };

fn args(list: &[&str]) -> ParsedArgs {
    let words: Vec<String> = list.iter().map(|s| s.to_string()).collect();
    match parse_args(&words).expect("args") {
        ParseAction::Run(a) => a,
        _ => panic!("expected a link"),
    }
}

fn file(data: Vec<u8>) -> InputFile {
    InputFile { path: "x.o".to_string(), data }
}

/// An x86-64 object with some code, a symbol `main` at its start, and one undefined symbol.
fn elf_object(code: &[u8], undefined: &str) -> Vec<u8> {
    let names = b"\0.text\0.symtab\0.strtab\0";
    let mut strtab = b"\0main\0".to_vec();
    strtab.extend_from_slice(undefined.as_bytes());
    strtab.push(0);
    let mut symtab = vec![0u8; 24 * 3];
    symtab[24] = 1;
    symtab[28] = 1 << 4;
    symtab[30] = 1;
    symtab[48] = 6;
    symtab[52] = 1 << 4;
    let mut d = vec![0u8; 64];
    d[0..6].copy_from_slice(b"\x7fELF\x02\x01");
    d[16] = 1;
    d[18] = 62;
    let mut secs = vec![(0u32, 0u32, 0u64, 0u32, 0usize, 0usize)];
    for (name, kind, flags, link, data) in [
        (1u32, 1u32, 6u64, 0u32, code),
        (7, 2, 0, 3, &symtab[..]),
        (15, 3, 0, 0, &strtab[..]),
        (0, 3, 0, 0, &names[..]),
    ] {
        secs.push((name, kind, flags, link, d.len(), data.len()));
        d.extend_from_slice(data);
    }
    let shoff = d.len() as u64;
    for (name, kind, flags, link, at, len) in secs {
        d.extend_from_slice(&name.to_le_bytes());
        d.extend_from_slice(&kind.to_le_bytes());
        d.extend_from_slice(&flags.to_le_bytes());
        d.extend_from_slice(&[0; 8]);
        d.extend_from_slice(&(at as u64).to_le_bytes());
        d.extend_from_slice(&(len as u64).to_le_bytes());
        d.extend_from_slice(&link.to_le_bytes());
        d.extend_from_slice(&[0; 4]);
        d.extend_from_slice(&16u64.to_le_bytes());
        d.extend_from_slice(&[0; 8]);
    }
    d[40..48].copy_from_slice(&shoff.to_le_bytes());
    d[58] = 64;
    d[60] = 5;
    d[62] = 4;
    d
}

fn macho_object() -> Vec<u8> {
    let mut d = vec![];
    for w in [0xFEEDFACFu32, 0x01000007, 0, 1, 2, 72 + 80 + 24, 0, 0, 0x19, 72 + 80] {
        d.extend_from_slice(&w.to_le_bytes());
    }
    d.resize(32 + 64, 0);
    d.extend_from_slice(&1u32.to_le_bytes());
    d.resize(32 + 72, 0);
    d.extend_from_slice(b"__text\0\0\0\0\0\0\0\0\0\0__TEXT\0\0\0\0\0\0\0\0\0\0");
    d.extend_from_slice(&0u64.to_le_bytes());
    d.extend_from_slice(&2u64.to_le_bytes());
    let at = 32 + 72 + 80 + 24;
    d.extend_from_slice(&(at as u32).to_le_bytes());
    d.resize(32 + 72 + 80, 0);
    for w in [2u32, 24, at as u32 + 2, 1, at as u32 + 18, 7] {
        d.extend_from_slice(&w.to_le_bytes());
    }
    d.extend_from_slice(&[0x90, 0xc3]);
    d.extend_from_slice(&1u32.to_le_bytes());
    d.extend_from_slice(&[0xf, 1, 0, 0]);
    d.extend_from_slice(&1u64.to_le_bytes());
    d.extend_from_slice(b"\0_main\0");
    d
}

fn requested(name: &str) -> RequestedLibrary {
    RequestedLibrary { name: name.to_string(), found: None }
}

fn u64_at(b: &[u8], off: usize) -> u64 {
    u64::from_le_bytes(b[off..off + 8].try_into().unwrap())
}

#[test]
fn elf_files_become_an_executable_that_starts_at_start() {
    let files = [file(elf_object(&[0xc3], ""))];
    let out = link_files(&files, &[], HOST, false, &args(&["x.o"])).expect("link");
    assert_eq!(out.format, ObjectFormat::Elf);
    assert_eq!(out.bytes[7], 0);
    assert_eq!(u64_at(&out.bytes, 24), 0x400010);
    assert_eq!(out.bytes[0x1000], 0xc3);
    assert_eq!(out.bytes[0x1010], 0xe8);
    let playstation = args(&["--target", "ps5", "x.o"]);
    let out = link_files(&files, &[], HOST, false, &playstation).expect("link");
    assert_eq!(out.bytes[7], 9);
    assert_eq!(out.bytes[0x1019], 1);
}

#[test]
fn shared_libraries_make_it_dynamic() {
    let files = [file(elf_object(&[0xc3; 4], "puts"))];
    let libs = [requested("c")];
    let a = args(&["-lc", "x.o"]);
    let out = link_files(&files, &libs, HOST, false, &a).expect("link");
    assert_eq!(&out.bytes[0x1000..0x101c], b"/lib64/ld-linux-x86-64.so.2\0");
    let a = args(&["-lc", "--dynamic-linker", "/ld", "x.o"]);
    let out = link_files(&files, &libs, HOST, false, &a).expect("link");
    assert_eq!(&out.bytes[0x1000..0x1008], b"/ld\0\0\0\0\0");
}

#[test]
fn macho_files_become_an_executable() {
    let files = [file(macho_object())];
    let out = link_files(&files, &[], HOST, false, &args(&["x.o"])).expect("link");
    assert_eq!(out.format, ObjectFormat::MachO);
    assert_eq!(&out.bytes[0x4000..0x4002], &[0x90, 0xc3]);
    assert!(explain_failure(&files, &[], HOST, &args(&["x.o"])).is_none());
}

#[test]
fn windows_executables() {
    let files = [file(elf_object(&[0xc3], ""))];
    let out = link_files(&files, &[], HOST, true, &args(&["x.o"])).expect("link");
    assert_eq!(out.format, ObjectFormat::Coff);
    assert_eq!(&out.bytes[0..2], b"MZ");
    let mut coff = vec![0u8; 20];
    coff[0..2].copy_from_slice(&[0x64, 0x86]);
    assert!(is_coff(&coff));
    let files = [file(coff)];
    let out = link_files(&files, &[], HOST, false, &args(&["x.o"])).expect("link");
    assert_eq!(out.format, ObjectFormat::Coff);
    assert_eq!(
        explain_failure(&files, &[], HOST, &args(&["x.o"])).unwrap(),
        "COFF/PE linking not yet implemented"
    );
    for (e, wanted) in [("exe", true), ("EXE", true), ("eXe", true), ("ex", false), ("elf", false)] {
        assert_eq!(wants_pe(Some(e)), wanted);
    }
    assert!(!wants_pe(None));
}

#[test]
fn failures_are_explained() {
    let none = args(&[]);
    assert!(link_files(&[], &[], HOST, false, &none).is_none());
    assert_eq!(
        explain_failure(&[], &[], HOST, &none).unwrap(),
        "could not read the input objects"
    );
    let mut other = elf_object(&[0xc3], "");
    other[18] = 99;
    let files = [file(other)];
    assert!(link_files(&files, &[], HOST, false, &none).is_none());
    assert_eq!(explain_failure(&files, &[], HOST, &none).unwrap(), "unsupported machine 99");
    let mut macho = macho_object();
    macho[4] = 18;
    let files = [file(macho)];
    assert!(link_files(&files, &[], HOST, false, &none).is_none());
    assert_eq!(
        explain_failure(&files, &[], HOST, &none).unwrap(),
        "unsupported Mach-O cputype 16777234"
    );
}

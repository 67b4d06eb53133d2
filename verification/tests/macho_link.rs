//! Linking Mach-O objects.
use std::collections::HashMap;
use weld::link::macho::{
    link_macho_multi_object, link_macho_single_object, merge_macho_sections,
};
use weld::link::macho_reloc::apply_macho_relocations;
use weld::link::{LinkResult, MergedSection};
use weld::macho::parse_macho64_object;

const ARM64: u32 = 0x0100000C;
const X86_64: u32 = 0x01000007;

struct Sec {
    seg: &'static str,
    name: &'static str,
    addr: u64,
    align: u32,
    flags: u32,
    data: Vec<u8>,
    /// Address, symbol, pc-relative, length, external, type.
    relocs: Vec<(u32, u32, bool, u32, bool, u32)>,
}

fn sec(seg: &'static str, name: &'static str, addr: u64, align: u32, data: &[u8]) -> Sec {
    Sec { seg, name, addr, align, flags: 0, data: data.to_vec(), relocs: vec![] }
}

fn with_relocs(mut s: Sec, relocs: &[(u32, u32, bool, u32, bool, u32)]) -> Sec {
    s.relocs = relocs.to_vec();
    s
}

/// An object with one segment; its symbols have a name, a type, a section, a description and a
/// value.
fn object(cputype: u32, secs: Vec<Sec>, syms: &[(&str, u8, u8, u16, u64)]) -> Vec<u8> {
    let n = secs.len();
    let seg_size = 72 + 80 * n;
    let head = 32 + seg_size + 24;
    let mut body = vec![];
    let mut heads = vec![];
    for s in &secs {
        let at = head + body.len();
        body.extend_from_slice(&s.data);
        let rel_at = head + body.len();
        for (addr, sym, pcrel, len, ext, ty) in &s.relocs {
            body.extend_from_slice(&addr.to_le_bytes());
            let w = sym & 0xffffff
                | (*pcrel as u32) << 24
                | len << 25
                | (*ext as u32) << 27
                | ty << 28;
            body.extend_from_slice(&w.to_le_bytes());
        }
        let mut h = vec![0u8; 80];
        h[..s.name.len()].copy_from_slice(s.name.as_bytes());
        h[16..16 + s.seg.len()].copy_from_slice(s.seg.as_bytes());
        h[32..40].copy_from_slice(&s.addr.to_le_bytes());
        h[40..48].copy_from_slice(&(s.data.len() as u64).to_le_bytes());
        h[48..52].copy_from_slice(&(at as u32).to_le_bytes());
        h[52..56].copy_from_slice(&s.align.to_le_bytes());
        h[56..60].copy_from_slice(&(rel_at as u32).to_le_bytes());
        h[60..64].copy_from_slice(&(s.relocs.len() as u32).to_le_bytes());
        h[64..68].copy_from_slice(&s.flags.to_le_bytes());
        heads.extend_from_slice(&h);
    }
    let symoff = head + body.len();
    let mut strtab = vec![0u8];
    for (name, ty, sect, desc, value) in syms {
        body.extend_from_slice(&(strtab.len() as u32).to_le_bytes());
        body.push(*ty);
        body.push(*sect);
        body.extend_from_slice(&desc.to_le_bytes());
        body.extend_from_slice(&value.to_le_bytes());
        strtab.extend_from_slice(name.as_bytes());
        strtab.push(0);
    }
    let stroff = head + body.len();
    let mut out = vec![];
    for w in [0xFEEDFACFu32, cputype, 0, 1, 2, (seg_size + 24) as u32, 0, 0] {
        out.extend_from_slice(&w.to_le_bytes());
    }
    out.extend_from_slice(&0x19u32.to_le_bytes());
    out.extend_from_slice(&(seg_size as u32).to_le_bytes());
    out.resize(32 + 64, 0);
    out.extend_from_slice(&(n as u32).to_le_bytes());
    out.resize(32 + 72, 0);
    out.extend_from_slice(&heads);
    for w in [2u32, 24, symoff as u32, syms.len() as u32, stroff as u32, strtab.len() as u32] {
        out.extend_from_slice(&w.to_le_bytes());
    }
    out.extend_from_slice(&body);
    out.extend_from_slice(&strtab);
    out
}

fn section<'a>(r: &'a LinkResult, name: &str) -> &'a MergedSection {
    &r.layout.sections[*r.layout.section_by_name.get(name).unwrap()]
}

fn u32_at(b: &[u8], off: usize) -> u32 {
    u32::from_le_bytes(b[off..off + 4].try_into().unwrap())
}

fn u64_at(b: &[u8], off: usize) -> u64 {
    u64::from_le_bytes(b[off..off + 8].try_into().unwrap())
}

fn code(words: &[u32]) -> Vec<u8> {
    words.iter().flat_map(|w| w.to_le_bytes()).collect()
}

const BASE: u64 = 0x100000000;
const SHIFT: u64 = 0x4000;

#[test]
fn single_objects() {
    let o = object(
        X86_64,
        vec![
            with_relocs(
                sec("__DATA", "__data", 0x20, 0, &[1, 0, 0, 0, 0, 0, 0, 0]),
                &[(0, 1, false, 3, true, 0)],
            ),
            sec("__TEXT", "__text", 0, 2, &[0xc3, 0x90]),
            sec("__LD", "__compact_unwind", 0x28, 3, &[1, 2, 3]),
        ],
        &[("_main", 0xf, 2, 0, 1), ("_d", 0xf, 1, 0, 0x20)],
    );
    let r = link_macho_single_object(&o).expect("link");
    assert_eq!(r.e_machine, 62);
    assert_eq!(r.layout.sections.len(), 2);
    let t = section(&r, ".text");
    assert_eq!((t.vaddr, t.flags), (BASE, 6));
    let d = section(&r, "__DATA.__data");
    // Without an alignment of its own a section gets sixteen bytes.
    assert_eq!((d.vaddr, d.align, d.flags), (BASE + 16, 4, 2));
    assert_eq!(r.symbol_addrs.get("_main"), Some(&(BASE + 1)));
    assert_eq!(r.symbol_addrs.get("_d"), Some(&(BASE + 16)));
    assert_eq!(u64_at(&d.data, 0), BASE + 16 + SHIFT + 1);
    assert!(r.dynamic.is_none());
    assert_eq!(
        link_macho_single_object(&object(18, vec![], &[])).unwrap_err(),
        "unsupported Mach-O cputype 18"
    );
}

#[test]
fn arm64_relocations() {
    let o = object(
        ARM64,
        vec![
            with_relocs(
                sec(
                    "__TEXT",
                    "__text",
                    0,
                    2,
                    &code(&[0x94000000, 0x90000000, 0x91000000, 0xf9400000, 0x94000000]),
                ),
                &[
                    (0, 1, true, 2, true, 2),
                    (4, 2, true, 2, true, 3),
                    (8, 2, false, 2, true, 4),
                    (12, 2, false, 2, true, 4),
                    (16, 8, false, 2, false, 10),
                    (16, 0, true, 2, true, 2),
                ],
            ),
            sec("__DATA", "__data", 0x20, 3, &[0; 16]),
        ],
        &[("_main", 0xf, 1, 0, 0), ("_f", 0xf, 1, 0, 16), ("_d", 0xf, 2, 0, 0x28)],
    );
    let r = link_macho_single_object(&o).expect("link");
    let t = &section(&r, ".text").data;
    let d = section(&r, "__DATA.__data").vaddr + 8 + SHIFT;
    assert_eq!(d, 0x100004020);
    assert_eq!(u32_at(t, 0), 0x94000004);
    assert_eq!(u32_at(t, 4), 0x90000000);
    assert_eq!(u32_at(t, 8), 0x91000000 | 0x20 << 10);
    assert_eq!(u32_at(t, 12), 0xf9400000 | 4 << 10);
    // The branch from 16 to 0 with eight added.
    assert_eq!(u32_at(t, 16), 0x94000000 | (0x3ffffff & -2i32 as u32));
}

#[test]
fn macho_relocations_that_are_refused() {
    let one = |insn: u32, relocs: &[(u32, u32, bool, u32, bool, u32)]| {
        let o = object(
            ARM64,
            vec![with_relocs(sec("__TEXT", "__text", 0, 2, &code(&[insn, 0])), relocs)],
            &[("_a", 0xf, 1, 0, 2), ("_u", 1, 0, 0, 0)],
        );
        link_macho_single_object(&o).unwrap_err()
    };
    assert_eq!(
        one(0, &[(6, 0, false, 2, true, 0)]),
        "relocation offset 6 + 4 out of bounds (len 8)"
    );
    assert_eq!(
        one(0, &[(0, 1, true, 2, true, 2)]),
        "undefined symbol index 1 (_u) for relocation"
    );
    assert_eq!(
        one(0, &[(0, 7, true, 2, true, 2)]),
        "undefined symbol index 7 (?) for relocation"
    );
    assert_eq!(
        one(0x94000000, &[(0, 0, true, 2, true, 2)]),
        "branch reloc not 4-byte aligned: target=0x100004002 place=0x100004000"
    );
    assert_eq!(one(0, &[(0, 0, true, 2, true, 11)]), "unsupported Mach-O relocation type 11");
    assert_eq!(
        one(0xf9400000, &[(0, 0, false, 2, true, 4)]),
        "pageoff 2 not aligned for instruction unit 8 (reloc_type=4 insn=0xf9400000 base=0x100004002 addend=0x0 place=0x100004000)"
    );
    // A branch back from far below.
    let mut far = object(
        ARM64,
        vec![with_relocs(sec("__TEXT", "__text", 0, 2, &code(&[0x94000000])), &[(0, 0, true, 2, true, 2)])],
        &[("_a", 0xf, 1, 0, 0x10000000)],
    );
    let r = link_macho_single_object(&far).unwrap_err();
    assert_eq!(r, "branch reloc out of range: target=0x110004000 place=0x100004000");
    far.truncate(31);
    assert!(link_macho_single_object(&far).is_err());
}

#[test]
fn several_objects_with_imports() {
    let a = object(
        ARM64,
        vec![
            with_relocs(
                sec("__TEXT", "__text", 0, 2, &code(&[0x94000000, 0x90000000, 0xf9400000])),
                &[(0, 1, true, 2, true, 2), (4, 2, true, 2, true, 5), (8, 2, false, 2, true, 6)],
            ),
            with_relocs(sec("__DATA", "__data", 0x10, 0, &[0; 8]), &[(0, 0, false, 3, true, 0)]),
        ],
        &[("_main", 0xf, 1, 0, 0), ("_puts", 1, 0, 0, 0), ("_ext", 1, 0, 0x40, 0)],
    );
    let b = object(
        ARM64,
        vec![sec("__TEXT", "__text", 0, 4, &code(&[0xd65f03c0]))],
        &[("_g", 0xf, 1, 0x80, 0), ("_main", 0xf, 1, 0x80, 0), ("_hidden", 0xe, 1, 0, 0)],
    );
    let libs = ["System".to_string()];
    let r = link_macho_multi_object(&[&a, &b], Some(&libs), &["/l.dylib".to_string()], &[])
        .expect("link");
    let names: Vec<&str> = r.layout.sections.iter().map(|s| s.name.as_str()).collect();
    assert_eq!(names, vec![".text", "__DATA.__data", "__stubs", "__stub_helper", "__got"]);
    assert_eq!(r.symbol_addrs.get("_main"), Some(&BASE));
    assert_eq!(r.symbol_addrs.get("_g"), Some(&(BASE + 16)));
    assert_eq!(r.symbol_addrs.get("_hidden"), None);
    let stubs = section(&r, "__stubs");
    assert_eq!(r.symbol_addrs.get("_puts"), Some(&stubs.vaddr));
    assert_eq!(r.symbol_addrs.get("_ext"), Some(&(stubs.vaddr + 12)));
    let d = r.dynamic.as_ref().unwrap();
    assert_eq!(d.plt_symbols, vec!["_puts", "_ext"]);
    assert_eq!(d.weak_plt_symbols, vec!["_ext"]);
    assert_eq!(d.needed, vec!["libSystem.B.dylib", "/l.dylib"]);
    let got = section(&r, "__got");
    assert_eq!(got.vaddr, BASE + 0x8000);
    assert_eq!(got.data.len(), 16);
    let data = section(&r, "__DATA.__data");
    assert_eq!(d.macho_rebase_addrs, vec![data.vaddr, got.vaddr, got.vaddr + 8]);
    assert!(d.macho_direct_binds.is_empty());
    // The code stays at the text shift; the data moves behind the code.
    let text_end = stubs.vaddr + 24 + 24;
    let data_at = BASE + SHIFT + ((text_end - BASE + 0x3fff) & !0x3fff);
    let data_shift = data_at - data.vaddr;
    let text = &section(&r, ".text").data;
    assert_eq!(u32_at(text, 0), 0x94000000 | ((stubs.vaddr - BASE) / 4) as u32);
    assert_eq!(u64_at(&data.data, 0), BASE + SHIFT);
    // Stubs and loads reach the slots.
    let slot = |i: u64| got.vaddr + 8 * i + data_shift;
    let reaches = |place: u64, adrp: u32, ldr: u32| {
        let imm = (adrp >> 29 & 3 | (adrp >> 5 & 0x7ffff) << 2) as u64;
        (place & !0xfff) + (imm << 12) + ((ldr >> 10 & 0xfff) as u64) * 8
    };
    for i in 0..2u64 {
        let at = (12 * i) as usize;
        let place = stubs.vaddr + 12 * i + SHIFT;
        let s = &stubs.data;
        assert_eq!(reaches(place, u32_at(s, at), u32_at(s, at + 4)), slot(i));
        assert_eq!(u32_at(s, at + 8), 0xd61f0200);
    }
    assert_eq!(reaches(BASE + SHIFT + 4, u32_at(text, 4), u32_at(text, 8)), slot(1));
}

#[test]
fn strong_definitions_replace_weak_ones() {
    let def = |desc: u16| {
        object(
            X86_64,
            vec![sec("__TEXT", "__text", 0, 2, &[0; 4])],
            &[("_f", 0xf, 1, desc, 0)],
        )
    };
    let (weak, strong) = (def(0x80), def(0));
    let at = |objs: &[&[u8]]| {
        let r = link_macho_multi_object(objs, None, &[], &[]).expect("link");
        *r.symbol_addrs.get("_f").unwrap()
    };
    assert_eq!(at(&[&weak, &strong]), BASE + 4);
    assert_eq!(at(&[&strong, &weak]), BASE);
    assert_eq!(at(&[&weak, &weak]), BASE);
    assert_eq!(at(&[&strong, &strong]), BASE);
}

#[test]
fn thread_variables() {
    let a = object(
        ARM64,
        vec![
            with_relocs(
                sec("__DATA", "__thread_vars", 0x100, 3, &[0; 24]),
                &[(0, 1, false, 3, true, 0), (16, 2, false, 3, true, 0)],
            ),
            sec("__DATA", "__thread_data", 0x200, 3, &[0; 16]),
            sec("__TEXT", "__text", 0, 2, &[0; 4]),
        ],
        &[("_v", 0xf, 1, 0, 0x100), ("__tlv_bootstrap", 1, 0, 0, 0), ("_v$init", 0xe, 2, 0, 0x208)],
    );
    let r = link_macho_multi_object(&[&a], Some(&[]), &[], &[]).expect("link");
    let vars = section(&r, "__DATA.__thread_vars");
    let d = r.dynamic.as_ref().unwrap();
    assert_eq!(d.macho_direct_binds, vec![(vars.vaddr, "__tlv_bootstrap".to_string(), false, 8)]);
    assert_eq!(u64_at(&vars.data, 0), 0);
    assert_eq!(u64_at(&vars.data, 8), 8 << 32 | 0x102);
    assert_eq!(u64_at(&vars.data, 16), 0x58 << 32 | 8);
}

#[test]
fn macho_objects_that_cannot_be_linked() {
    let a = object(ARM64, vec![], &[("_u", 1, 0, 0, 0)]);
    let b = object(X86_64, vec![], &[]);
    assert_eq!(
        link_macho_multi_object(&[], None, &[], &[]).unwrap_err(),
        "no objects to link"
    );
    assert_eq!(
        link_macho_multi_object(&[&a, &b], None, &[], &[]).unwrap_err(),
        "Mach-O objects must have same cputype"
    );
    assert_eq!(
        link_macho_multi_object(&[&a], Some(&[]), &[], &[]).unwrap_err(),
        "no sections"
    );
    let odd = object(18, vec![], &[]);
    assert_eq!(
        link_macho_multi_object(&[&odd, &odd], None, &[], &[]).unwrap_err(),
        "unsupported Mach-O cputype 18"
    );
}

#[test]
fn a_refused_relocation_leaves_those_in_front_of_it() {
    let o = object(
        ARM64,
        vec![
            sec("__TEXT", "__text", 0, 2, &code(&[1, 2])),
            with_relocs(
                sec("__DATA", "__data", 8, 3, &[0; 24]),
                &[(0, 0, false, 3, true, 0), (8, 0, true, 2, true, 11), (16, 0, false, 3, true, 0)],
            ),
        ],
        &[("_a", 0xf, 1, 0, 4)],
    );
    let obj = parse_macho64_object(&o).expect("object");
    let mut layout = merge_macho_sections(&obj).expect("layout");
    let mut rebases = vec![7];
    let mut binds = vec![];
    let r = apply_macho_relocations(
        &obj,
        &mut layout,
        &vec![Some(BASE + 4)],
        &HashMap::new(),
        None,
        SHIFT,
        SHIFT,
        &mut rebases,
        &mut binds,
    );
    assert_eq!(r.unwrap_err(), "unsupported Mach-O relocation type 11");
    let d = &layout.sections[*layout.section_by_name.get("__DATA.__data").unwrap()];
    assert_eq!(u64_at(&d.data, 0), BASE + SHIFT + 4);
    assert_eq!(&d.data[8..], &[0; 16]);
    // The section without relocations stays as it is.
    let t = &layout.sections[*layout.section_by_name.get(".text").unwrap()];
    assert_eq!((layout.sections.len(), &t.data), (2, &code(&[1, 2])));
    assert_eq!(rebases.len(), 2);
    assert_eq!(rebases[0], 7);
    assert!(binds.is_empty());
}

//! Linking ELF objects.
use weld::arch::TargetArch;
use weld::link::{
    apply_relocations, link_multi_object, link_single_object, merge_and_resolve,
    merge_sections_multi_object, merge_sections_single_object, LinkResult, MergedSection,
    RequestedLibrary,
};
use weld::elf::parse_elf64_slice;
use weld::link::resolver::ResolvedLibrary;
use weld::names::NameMap;
use weld::platform::TargetPlatform;

struct Sec {
    name: &'static str,
    kind: u32,
    flags: u64,
    align: u64,
    data: Vec<u8>,
    size: Option<u64>,
    relas: Vec<(u64, u32, u32, i64)>,
}

fn sec(name: &'static str, align: u64, data: &[u8]) -> Sec {
    Sec { name, kind: 1, flags: 2, align, data: data.to_vec(), size: None, relas: vec![] }
}

fn bss(size: u64) -> Sec {
    Sec { name: ".bss", kind: 8, flags: 3, align: 8, data: vec![], size: Some(size), relas: vec![] }
}

fn with_relas(mut s: Sec, relas: &[(u64, u32, u32, i64)]) -> Sec {
    s.relas = relas.to_vec();
    s
}

/// An object with the given sections, numbered from one, and symbols, numbered from one: their
/// names, bindings, sections and values.
fn object(machine: u16, secs: Vec<Sec>, syms: &[(&str, u8, u16, u64)]) -> Vec<u8> {
    let mut strtab = vec![0u8];
    let mut symtab = vec![0u8; 24];
    for (name, bind, shndx, value) in syms {
        let mut e = vec![];
        e.extend_from_slice(&(strtab.len() as u32).to_le_bytes());
        e.push(bind << 4);
        e.push(0);
        e.extend_from_slice(&shndx.to_le_bytes());
        e.extend_from_slice(&value.to_le_bytes());
        e.extend_from_slice(&7u64.to_le_bytes());
        symtab.extend_from_slice(&e);
        strtab.extend_from_slice(name.as_bytes());
        strtab.push(0);
    }
    // Name, type, flags, link, info, align, size, bytes.
    let n = secs.len() as u32;
    let mut all: Vec<(String, u32, u64, u32, u32, u64, u64, Vec<u8>)> =
        vec![(String::new(), 0, 0, 0, 0, 0, 0, vec![])];
    let mut relas = vec![];
    for (i, s) in secs.into_iter().enumerate() {
        let size = s.size.unwrap_or(s.data.len() as u64);
        all.push((s.name.to_string(), s.kind, s.flags, 0, 0, s.align, size, s.data));
        if !s.relas.is_empty() {
            let mut d = vec![];
            for (off, ty, sym, addend) in s.relas {
                d.extend_from_slice(&off.to_le_bytes());
                d.extend_from_slice(&((sym as u64) << 32 | ty as u64).to_le_bytes());
                d.extend_from_slice(&addend.to_le_bytes());
            }
            relas.push((".rela".to_string(), 4, 0, n + 1, i as u32 + 1, 8, d.len() as u64, d));
        }
    }
    let sl = symtab.len() as u64;
    all.push((".symtab".into(), 2, 0, n + 2, 0, 8, sl, symtab));
    let tl = strtab.len() as u64;
    all.push((".strtab".into(), 3, 0, 0, 0, 1, tl, strtab));
    all.extend(relas);
    let mut names = vec![0u8];
    let mut name_offs = vec![];
    for s in &all {
        name_offs.push(names.len() as u32);
        names.extend_from_slice(s.0.as_bytes());
        names.push(0);
    }
    name_offs.push(names.len() as u32);
    names.extend_from_slice(b".shstrtab\0");
    let nl = names.len() as u64;
    all.push((".shstrtab".into(), 3, 0, 0, 0, 1, nl, names));

    let mut out = vec![0u8; 64];
    out[0..4].copy_from_slice(b"\x7fELF");
    out[4] = 2;
    out[5] = 1;
    out[16..18].copy_from_slice(&1u16.to_le_bytes());
    out[18..20].copy_from_slice(&machine.to_le_bytes());
    let mut offs = vec![];
    for s in &all {
        offs.push(out.len() as u64);
        out.extend_from_slice(&s.7);
    }
    let shoff = out.len() as u64;
    out[40..48].copy_from_slice(&shoff.to_le_bytes());
    out[58..60].copy_from_slice(&64u16.to_le_bytes());
    out[60..62].copy_from_slice(&(all.len() as u16).to_le_bytes());
    out[62..64].copy_from_slice(&(all.len() as u16 - 1).to_le_bytes());
    for (i, s) in all.iter().enumerate() {
        let mut h = vec![];
        h.extend_from_slice(&name_offs[i].to_le_bytes());
        h.extend_from_slice(&s.1.to_le_bytes());
        h.extend_from_slice(&s.2.to_le_bytes());
        h.extend_from_slice(&0u64.to_le_bytes());
        h.extend_from_slice(&offs[i].to_le_bytes());
        h.extend_from_slice(&s.6.to_le_bytes());
        h.extend_from_slice(&s.3.to_le_bytes());
        h.extend_from_slice(&s.4.to_le_bytes());
        h.extend_from_slice(&s.5.to_le_bytes());
        h.extend_from_slice(&0u64.to_le_bytes());
        out.extend_from_slice(&h);
    }
    out
}

fn section<'a>(r: &'a LinkResult, name: &str) -> &'a MergedSection {
    &r.layout.sections[*r.layout.section_by_name.get(name).unwrap()]
}

fn u32_at(b: &[u8], off: usize) -> u32 {
    u32::from_le_bytes(b[off..off + 4].try_into().unwrap())
}

fn u64_at(b: &[u8], off: usize) -> u64 {
    u64::from_le_bytes(b[off..off + 8].try_into().unwrap())
}

const LINUX: TargetPlatform = TargetPlatform::Linux;

#[test]
fn sections_are_merged_in_order() {
    let obj = object(
        62,
        vec![sec("zeta", 1, &[9]), bss(5), sec(".data", 8, &[3, 4]), sec(".text", 16, &[1, 2])],
        &[("main", 1, 4, 1), ("local", 0, 4, 0), ("absent", 1, 0, 0), ("abs", 1, 0xfff1, 77)],
    );
    let layout = merge_sections_single_object(&obj).expect("merge");
    let got: Vec<(&str, u64, Vec<u8>)> =
        layout.sections.iter().map(|s| (s.name.as_str(), s.vaddr, s.data.clone())).collect();
    assert_eq!(
        got,
        vec![
            (".text", 0x400000, vec![1, 2]),
            (".data", 0x400008, vec![3, 4]),
            (".bss", 0x400010, vec![0; 5]),
            ("zeta", 0x400015, vec![9]),
        ]
    );
    assert_eq!(layout.section_by_name.get(".bss"), Some(&2));
    let (_, symbols) = merge_and_resolve(&obj).expect("resolve");
    assert_eq!(symbols.get("main").unwrap().address, Some(0x400001));
    assert!(symbols.get("main").unwrap().is_defined);
    assert_eq!(symbols.get("main").unwrap().size, 7);
    assert_eq!(symbols.get("absent").unwrap().address, None);
    assert_eq!(symbols.get("abs").unwrap().address, Some(77));
    assert!(symbols.get("local").is_none());
    let r = link_single_object(&obj).expect("link");
    assert_eq!(r.e_machine, 62);
    assert_eq!(r.symbol_addrs.get("main"), Some(&0x400001));
    assert_eq!(r.symbol_addrs.get("absent"), None);
    assert!(r.dynamic.is_none());
}

#[test]
fn each_contribution_starts_at_its_own_alignment() {
    let a = object(62, vec![sec(".text", 1, &[1, 2, 3]), sec("b", 1, &[1])], &[]);
    let b = object(62, vec![sec(".text", 16, &[4, 5]), sec("a", 1, &[2])], &[]);
    let (layout, parts) = merge_sections_multi_object(&[&a, &b]).expect("merge");
    let names: Vec<&str> = layout.sections.iter().map(|s| s.name.as_str()).collect();
    assert_eq!(names, vec![".text", "a", "b"]);
    let mut text = vec![1u8, 2, 3];
    text.resize(16, 0);
    text.extend_from_slice(&[4, 5]);
    assert_eq!(layout.sections[0].data, text);
    assert_eq!(layout.sections[0].align, 16);
    assert_eq!(parts[0].get(".text").unwrap().offset_in_merged, 0);
    assert_eq!(parts[1].get(".text").unwrap().offset_in_merged, 16);
    assert_eq!(parts[1].get(".text").unwrap().size, 2);
    assert!(parts[1].get("b").is_none());
    assert_eq!(layout.sections[1].vaddr, 0x400012);
}

#[test]
fn objects_that_cannot_be_linked() {
    let a = object(62, vec![sec(".text", 1, &[1])], &[]);
    let b = object(183, vec![sec(".text", 1, &[1])], &[]);
    let c = object(99, vec![sec(".text", 1, &[1])], &[]);
    assert_eq!(merge_sections_multi_object(&[]).unwrap_err(), "no objects to merge");
    assert_eq!(
        merge_sections_multi_object(&[&a, &b]).unwrap_err(),
        "e_machine mismatch: 183 vs 62"
    );
    assert_eq!(link_multi_object(&[], None, LINUX).unwrap_err(), "no objects to link");
    assert_eq!(link_multi_object(&[&c], None, LINUX).unwrap_err(), "unsupported machine 99");
    assert_eq!(link_multi_object(&[&c, &c], None, LINUX).unwrap_err(), "unsupported machine 99");
    assert!(link_multi_object(&[&a, b"junk"], None, LINUX).is_err());
    // A section too large for the addresses.
    let big = object(
        62,
        vec![Sec { size: Some(u64::MAX - 4), data: vec![], ..sec(".text", 1, &[]) }, sec("b", 1, &[1])],
        &[],
    );
    assert!(merge_sections_single_object(&big).is_err());
}

#[test]
fn symbols_are_found_across_objects() {
    let text = [0u8; 32];
    let a = object(
        62,
        vec![with_relas(sec(".text", 16, &text), &[(1, 2, 1, -4), (8, 1, 2, 3), (16, 10, 1, 0)])],
        &[("other", 1, 0, 0), ("main", 1, 1, 0)],
    );
    let b = object(
        62,
        vec![with_relas(sec(".text", 16, &text), &[(4, 8, 0, 5), (24, 0, 0, 0), (12, 2, 2, 0)])],
        &[("other", 1, 1, 6), ("main", 1, 1, 9)],
    );
    let r = link_multi_object(&[&a, &b], None, LINUX).expect("link");
    // The first definition of a name counts.
    assert_eq!(r.symbol_addrs.get("main"), Some(&0x400000));
    assert_eq!(r.symbol_addrs.get("other"), Some(&0x400026));
    let t = section(&r, ".text");
    assert_eq!(t.data.len(), 64);
    assert_eq!(u32_at(&t.data, 1), 0x400026 - 4 - 0x400001);
    assert_eq!(u64_at(&t.data, 8), 0x400003);
    assert_eq!(u32_at(&t.data, 16), 0x400026);
    // The second object's own places, and its own definition for itself.
    assert_eq!(u64_at(&t.data, 32 + 4), 0x400005);
    assert_eq!(u32_at(&t.data, 32 + 12), 0x400029u32.wrapping_sub(0x40002c));
}

#[test]
fn local_names_are_private() {
    let a = object(
        62,
        vec![with_relas(sec(".text", 1, &[0; 8]), &[(0, 10, 1, 0)])],
        &[("hidden", 0, 1, 2)],
    );
    let b = object(
        62,
        vec![with_relas(sec(".text", 1, &[0; 8]), &[(0, 10, 1, 0)])],
        &[("hidden", 1, 0, 0)],
    );
    let r = link_multi_object(&[&a, &a], None, LINUX).expect("link");
    assert_eq!(r.symbol_addrs.get("hidden"), None);
    let t = section(&r, ".text");
    assert_eq!(u32_at(&t.data, 0), 0x400002);
    assert_eq!(u32_at(&t.data, 8), 0x40000a);
    assert_eq!(
        link_multi_object(&[&a, &b], None, LINUX).unwrap_err(),
        "undefined symbol index 1"
    );
}

#[test]
fn names_of_a_single_object() {
    let o = object(
        62,
        vec![sec(".text", 16, &[0; 16]), sec(".data", 8, &[0; 8])],
        &[("hidden", 0, 1, 2), ("main", 1, 1, 4), ("d", 1, 2, 3), ("abs", 1, 0xfff1, 77)],
    );
    let r = link_single_object(&o).expect("link");
    assert_eq!(r.symbol_addrs.get("hidden"), None);
    assert_eq!(r.symbol_addrs.get("main"), Some(&0x400004));
    assert_eq!(r.symbol_addrs.get("d"), Some(&(section(&r, ".data").vaddr + 3)));
    assert_eq!(r.symbol_addrs.get("abs"), Some(&77));
}

#[test]
fn local_names_are_not_imported() {
    let o = object(
        62,
        vec![sec(".text", 16, &[0; 16])],
        &[("hidden", 0, 1, 2), ("main", 1, 1, 0), ("puts", 1, 0, 0)],
    );
    let libs = [requested("c", Some(("libc.so.6", false)))];
    let r = link_multi_object(&[&o, &o], Some(&libs), LINUX).expect("link");
    assert_eq!(r.dynamic.as_ref().unwrap().plt_symbols, vec!["puts"]);
    assert_eq!(r.symbol_addrs.get("hidden"), None);
    assert_eq!(r.symbol_addrs.get("main"), Some(&0x400000));
}

#[test]
fn x86_64_relocations_that_are_refused() {
    let one = |rela: (u64, u32, u32, i64)| {
        let o = object(62, vec![with_relas(sec(".text", 1, &[0; 8]), &[rela])], &[("a", 1, 1, 0)]);
        link_single_object(&o).unwrap_err()
    };
    assert_eq!(one((0, 4, 1, 0)), "unsupported x86_64 relocation type 4");
    assert_eq!(one((0, 9, 1, 0)), "unsupported x86_64 relocation type 9");
    assert_eq!(one((0, 1, 2, 0)), "undefined symbol index 2");
    assert_eq!(one((1, 1, 1, 0)), "relocation offset 1 out of bounds");
    assert_eq!(one((1, 8, 1, 0)), "relocation offset 1 out of bounds");
    assert_eq!(one((5, 2, 1, 0)), "relocation offset 5 out of bounds");
    assert_eq!(one((u64::MAX, 10, 1, 0)), "relocation offset 18446744073709551615 out of bounds");
}

#[test]
fn the_global_offset_table_holds_the_addresses() {
    let o = object(
        62,
        vec![with_relas(sec(".text", 16, &[0; 12]), &[(0, 9, 1, -4), (4, 9, 2, 0), (8, 9, 1, 0)])],
        &[("a", 1, 1, 3), ("b", 1, 0, 0)],
    );
    let r = link_multi_object(&[&o], Some(&[]), LINUX).expect("link");
    let got = section(&r, ".got");
    assert_eq!(got.vaddr, 0x400010);
    assert_eq!(got.data.len(), 16);
    assert_eq!(u64_at(&got.data, 0), 0x400003);
    assert_eq!(u64_at(&got.data, 8), 0);
    let t = section(&r, ".text");
    assert_eq!(u32_at(&t.data, 0), 0x10 - 4);
    assert_eq!(u32_at(&t.data, 4), 0x18 - 4);
    assert_eq!(u32_at(&t.data, 8), 0x10 - 8);
}

fn requested(name: &str, found: Option<(&str, bool)>) -> RequestedLibrary {
    RequestedLibrary {
        name: name.to_string(),
        found: found.map(|(soname, is_static)| ResolvedLibrary {
            path: "/x".to_string(),
            soname: soname.to_string(),
            is_static,
        }),
    }
}

#[test]
fn undefined_symbols_are_imported() {
    let o = object(
        62,
        vec![with_relas(sec(".text", 16, &[0; 16]), &[(1, 2, 2, -4), (6, 2, 3, -4)])],
        &[("main", 1, 1, 0), ("puts", 1, 0, 0), ("exit", 1, 0, 0)],
    );
    let libs = [
        requested("c", Some(("libc.so.6", false))),
        requested("System", None),
        requested("m", None),
        requested("z", Some(("libz.so.1", true))),
    ];
    let r = link_multi_object(&[&o], Some(&libs), LINUX).expect("link");
    let d = r.dynamic.as_ref().unwrap();
    assert_eq!(d.plt_symbols, vec!["puts", "exit"]);
    assert_eq!(d.needed, vec!["libc.so.6", "libm.so.6", "libz.so.1"]);
    assert_eq!(d.interpreter.as_deref(), Some("/lib64/ld-linux-x86-64.so.2"));
    let names: Vec<&str> = r.layout.sections.iter().map(|s| s.name.as_str()).collect();
    assert_eq!(
        names,
        vec![".text", ".plt", ".got.plt", ".dynsym", ".dynstr", ".rela.plt", ".hash", ".dynamic"]
    );
    let plt = section(&r, ".plt");
    let got = section(&r, ".got.plt");
    assert_eq!(plt.vaddr, 0x400010);
    assert_eq!(plt.data.len(), 48);
    assert_eq!(r.symbol_addrs.get("puts"), Some(&(plt.vaddr + 16)));
    assert_eq!(r.symbol_addrs.get("exit"), Some(&(plt.vaddr + 32)));
    // The code calls the entries, and the entries jump through their slots.
    let t = section(&r, ".text");
    assert_eq!(u32_at(&t.data, 1) as u64, plt.vaddr + 16 - 0x400005);
    assert_eq!(u32_at(&t.data, 6) as u64, plt.vaddr + 32 - 0x40000a);
    for i in 0..2u64 {
        let at = (16 + 16 * i) as usize;
        assert_eq!(&plt.data[at..at + 2], &[0xff, 0x25]);
        assert_eq!(
            plt.vaddr + 16 + 16 * i + 6 + u32_at(&plt.data, at + 2) as u64,
            got.vaddr + 24 + 8 * i
        );
        assert_eq!(u32_at(&plt.data, at + 7) as u64, i);
        let rela = &section(&r, ".rela.plt").data[(24 * i) as usize..];
        assert_eq!(u64_at(rela, 0), got.vaddr + 24 + 8 * i);
        assert_eq!(u64_at(rela, 8), (i + 1) << 32 | 7);
    }
    assert_eq!(section(&r, ".dynstr").data, b"\0libc.so.6\0puts\0exit\0");
    let dynsym = &section(&r, ".dynsym").data;
    assert_eq!(&dynsym[..24], &[0; 24]);
    assert_eq!(u32_at(dynsym, 24), 11);
    assert_eq!(u32_at(dynsym, 48), 16);
    assert_eq!(dynsym[28], 0x12);
    // The hash table: every name is reached from its bucket.
    let hash = &section(&r, ".hash").data;
    assert_eq!((u32_at(hash, 0), u32_at(hash, 4)), (3, 3));
    for (k, name) in ["puts", "exit"].iter().enumerate() {
        let mut h: u32 = 0;
        for b in name.bytes() {
            h = (h << 4).wrapping_add(b as u32);
            let g = h & 0xf0000000;
            h ^= g >> 24;
            h &= !g;
        }
        let mut i = u32_at(hash, 8 + 4 * (h as usize % 3));
        while i != 0 && i != k as u32 + 1 {
            i = u32_at(hash, 8 + 12 + 4 * i as usize);
        }
        assert_eq!(i, k as u32 + 1);
    }
    let dynamic = &section(&r, ".dynamic").data;
    assert_eq!(dynamic.len(), 14 * 16);
    assert_eq!((u64_at(dynamic, 0), u64_at(dynamic, 8)), (4, section(&r, ".hash").vaddr));
    assert_eq!((u64_at(dynamic, 16), u64_at(dynamic, 24)), (1, 1));
    assert_eq!(u64_at(dynamic, 6 * 16 + 8), got.vaddr);
}

#[test]
fn static_libraries_import_nothing() {
    let o = object(62, vec![sec(".text", 16, &[0; 4])], &[("puts", 1, 0, 0)]);
    let libs = [requested("z", Some(("libz.a", true))), requested("q", None)];
    let r = link_multi_object(&[&o], Some(&libs), LINUX).expect("link");
    assert!(r.dynamic.is_none());
    assert_eq!(r.layout.sections.len(), 1);
    let arm = object(183, vec![sec(".text", 16, &[0; 4])], &[("puts", 1, 0, 0)]);
    let r = link_multi_object(&[&arm], Some(&[requested("c", None)]), LINUX).expect("link");
    assert!(r.dynamic.is_none());
    let empty = object(62, vec![], &[("puts", 1, 0, 0)]);
    assert_eq!(
        link_multi_object(&[&empty], Some(&[requested("c", None)]), LINUX).unwrap_err(),
        "no sections"
    );
}

#[test]
fn aarch64_relocations() {
    let code = |words: &[u32]| words.iter().flat_map(|w| w.to_le_bytes()).collect::<Vec<u8>>();
    let text = code(&[0x91000000, 0x10000000, 0x94000000, 0x14000000, 0, 0, 0, 0]);
    let o = object(
        183,
        vec![with_relas(
            sec(".text", 16, &text),
            &[
                (0, 277, 1, 0),
                (4, 274, 1, 0),
                (8, 283, 1, 0),
                (12, 282, 2, 0),
                (16, 257, 1, 8),
                (24, 258, 2, 1),
                (0, 0, 0, 0),
            ],
        )],
        &[("t", 1, 1, 20), ("s", 1, 1, 0)],
    );
    let r = link_single_object(&o).expect("link");
    let t = &section(&r, ".text").data;
    assert_eq!(u32_at(t, 0), 0x91000000 | 0x14 << 10);
    assert_eq!(u32_at(t, 4), 0x10000000 | 4 << 5);
    assert_eq!(u32_at(t, 8), 0x94000000 | 3);
    assert_eq!(u32_at(t, 12), 0x14000000 | (0x3ffffff & -3i32 as u32));
    assert_eq!(u64_at(t, 16), 0x40001c);
    assert_eq!(u32_at(t, 24), 0x400001);
    let bad = |rela: (u64, u32, u32, i64)| {
        let o = object(183, vec![with_relas(sec(".text", 1, &[0; 8]), &[rela])], &[("a", 1, 1, 0)]);
        link_single_object(&o).unwrap_err()
    };
    assert_eq!(bad((0, 9999, 1, 0)), "unsupported AArch64 relocation type 9999");
    assert_eq!(bad((0, 283, 5, 0)), "undefined symbol index 5");
    assert_eq!(bad((6, 283, 1, 0)), "relocation offset 6 out of bounds");
}

#[test]
fn relocations_count_from_the_part_of_their_object() {
    let o = object(
        183,
        vec![with_relas(sec(".text", 16, &[0; 16]), &[(8, 257, 1, 0)])],
        &[("t", 0, 1, 4)],
    );
    let (mut layout, parts) = merge_sections_multi_object(&[&o, &o]).expect("merge");
    let (_, sections, names) = parse_elf64_slice(&o).expect("parse");
    let mut offs = NameMap::new();
    offs.insert(".text".to_string(), parts[1].get(".text").unwrap().offset_in_merged);
    let syms = [None, Some(0x1234)];
    apply_relocations(
        TargetArch::AArch64,
        &mut layout,
        &o,
        &sections,
        &names,
        &syms,
        &[],
        Some(&offs),
    )
    .expect("relocate");
    assert_eq!(&layout.sections[0].data[..24], &[0; 24]);
    assert_eq!(u64_at(&layout.sections[0].data, 24), 0x1234);
}

#[test]
fn riscv_relocations() {
    let code = |words: &[u32]| words.iter().flat_map(|w| w.to_le_bytes()).collect::<Vec<u8>>();
    let text = code(&[
        0x00000063, 0x0000006f, 0x00000097, 0x000080e7, 0x00000517, 0x00050513, 0x00a53023,
        0x00000537, 0x00050513, 0x00a53023, 0, 0, 0, 0, 0, 0,
    ]);
    let o = object(
        243,
        vec![with_relas(
            sec(".text", 16, &text),
            &[
                (0, 16, 1, 0),
                (4, 17, 1, 0),
                (8, 18, 1, 0),
                (16, 23, 2, 0),
                (20, 24, 3, 0),
                (24, 25, 3, 0),
                (28, 26, 2, 0),
                (32, 27, 2, 0),
                (36, 28, 2, 0),
                (40, 1, 1, 1),
                (48, 2, 1, 2),
                (56, 3, 0, 3),
                (0, 0, 9, 0),
            ],
        )],
        &[("t", 1, 1, 48), ("far", 1, 0xfff1, 0x12345ffc), ("hi", 0, 1, 16)],
    );
    let r = link_single_object(&o).expect("link");
    let t = &section(&r, ".text").data;
    // A branch by 48: bits 4 and 5 of the offset are set.
    assert_eq!(u32_at(t, 0), 0x00000063 | 1 << 25 | 8 << 8);
    assert_eq!(u32_at(t, 4), 0x0000006f | 22 << 21);
    assert_eq!(u32_at(t, 8), 0x00000097);
    assert_eq!(u32_at(t, 12), 0x000080e7 | 40 << 20);
    // far - 0x400010 = 0x11f45fec: rounded up to 0x11f46000, then 0x14 back.
    assert_eq!(u32_at(t, 16), 0x11f46517);
    assert_eq!(u32_at(t, 20), 0x00050513 | 0xfec << 20);
    assert_eq!(u32_at(t, 24), (0x00a53023 & 0x01fff07f) | 0x7f << 25 | 0xc << 7);
    assert_eq!(u32_at(t, 28), 0x12346537);
    assert_eq!(u32_at(t, 32), 0x00050513 | 0xffc << 20);
    assert_eq!(u32_at(t, 36), (0x00a53023 & 0x01fff07f) | 0x7f << 25 | 0x1c << 7);
    assert_eq!(u32_at(t, 40), 0x400031);
    assert_eq!(u64_at(t, 48), 0x400032);
    assert_eq!(u64_at(t, 56), 0x400003);
    let bad = |rela: (u64, u32, u32, i64)| {
        let o = object(243, vec![with_relas(sec(".text", 1, &[0; 8]), &[rela])], &[("a", 1, 1, 0)]);
        link_single_object(&o).unwrap_err()
    };
    assert_eq!(bad((0, 99, 1, 0)), "unsupported RISC-V relocation type 99");
    assert_eq!(bad((0, 1, 4, 0)), "undefined symbol index 4 for RISC-V relocation");
    assert_eq!(bad((5, 1, 1, 0)), "R_RISCV_32: offset 5 out of bounds");
    assert_eq!(bad((1, 2, 1, 0)), "R_RISCV_64: offset 1 out of bounds");
    assert_eq!(bad((1, 3, 1, 0)), "R_RISCV_RELATIVE: offset 1 out of bounds");
    assert_eq!(bad((6, 16, 1, 0)), "R_RISCV_BRANCH: offset 6 out of bounds");
    assert_eq!(bad((6, 17, 1, 0)), "R_RISCV_JAL: offset 6 out of bounds");
    assert_eq!(bad((4, 19, 1, 0)), "R_RISCV_CALL: offset 4 out of bounds");
    assert_eq!(bad((6, 23, 1, 0)), "R_RISCV_PCREL_HI20: offset 6 out of bounds");
    assert_eq!(
        bad((0, 24, 1, 0)),
        "R_RISCV_PCREL_LO12_I: no matching PCREL_HI20 at 0x400000"
    );
    assert_eq!(
        bad((0, 25, 1, 0)),
        "R_RISCV_PCREL_LO12_S: no matching PCREL_HI20 at 0x400000"
    );
    assert_eq!(bad((6, 26, 1, 0)), "R_RISCV_HI20: offset 6 out of bounds");
    assert_eq!(bad((6, 27, 1, 0)), "R_RISCV_LO12_I: offset 6 out of bounds");
    assert_eq!(bad((6, 28, 1, 0)), "R_RISCV_LO12_S: offset 6 out of bounds");
}

#[test]
fn relocations_leave_other_sections_alone() {
    let o = object(
        62,
        vec![
            with_relas(sec(".text", 16, &[7; 16]), &[(0, 1, 2, 0), (8, 1, 1, 0)]),
            sec(".data", 8, &[5; 8]),
        ],
        &[("u", 1, 0, 0), ("t", 1, 1, 4)],
    );
    let (_, sections, names) = parse_elf64_slice(&o).expect("parse");
    let relocate = |syms: &[Option<u64>]| {
        let mut layout = merge_sections_single_object(&o).expect("merge");
        let r = apply_relocations(
            TargetArch::X86_64,
            &mut layout,
            &o,
            &sections,
            &names,
            syms,
            &[],
            None,
        );
        (r, layout)
    };
    let (r, layout) = relocate(&[None, Some(0x11), Some(0x22)]);
    r.expect("relocate");
    assert_eq!(u64_at(&layout.sections[0].data, 0), 0x22);
    assert_eq!(u64_at(&layout.sections[0].data, 8), 0x11);
    assert_eq!(layout.sections[1].data, vec![5; 8]);
    // A symbol without an address, or none at all, stops them.
    for syms in [vec![None, None, Some(0x22)], vec![None]] {
        let (r, layout) = relocate(&syms);
        assert!(r.is_err());
        assert_eq!(&layout.sections[0].data[8..], &[7; 8]);
        assert_eq!(layout.sections[1].data, vec![5; 8]);
    }
}

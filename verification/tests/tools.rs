//! Names, orders, instructions and platforms.
use weld::delegate::{detect_linker, linker_probe};
use weld::link::arm64::{
    decode_arm64_adrp_addend, decode_arm64_branch_addend, decode_arm64_pageoff_addend,
    decode_arm64_reloc_addend, encode_arm64_branch, encode_arm64_page,
    encode_arm64_pageoff_immediate, encode_arm64_tlvp_local_add,
};
use weld::elf::{get_strtab_string, parse_rela_entry, parse_symbol_entry};
use weld::link::dynamic::{
    build_dynamic_symbols, build_plt, build_rela_plt, build_sysv_hash, elf_hash,
};
use weld::link::riscv::{
    patch_b_type, patch_i_imm12, patch_j_type, patch_s_imm12, patch_u_imm20,
};
use weld::names::{NameList, NameMap, NameSet};
use weld::order::{add_addr, sorted_binds, sorted_names};
use weld::platform::TargetPlatform;
use weld::text::{contains_text, split_once_dot, starts_with, str_eq, str_less};

#[test]
fn names_are_kept_in_order() {
    let mut m: NameMap<u32> = NameMap::new();
    for (i, n) in ["b", "a", "ba", "", "\u{e9}", "z"].iter().enumerate() {
        m.insert(n.to_string(), i as u32);
    }
    m.insert("a".to_string(), 9);
    let keys: Vec<&str> = m.entries().iter().map(|e| e.0.as_str()).collect();
    assert_eq!(keys, vec!["", "a", "b", "ba", "z", "\u{e9}"]);
    assert_eq!(m.get("a"), Some(&9));
    assert!(m.contains_key("\u{e9}"));
    m.remove("b");
    m.remove("nothing");
    assert_eq!(m.get("b"), None);
    assert_eq!(m.get("ba"), Some(&2));
    assert_eq!(m.clone().get("z"), Some(&5));

    let mut l = NameList::new();
    assert!(l.insert("x".to_string()));
    assert!(l.insert("a".to_string()));
    assert!(!l.insert("x".to_string()));
    assert_eq!(l.names(), &vec!["x", "a"]);
    assert_eq!(l.len(), 2);
    assert!(l.contains("a"));

    let mut s = NameSet::new();
    s.insert("p".to_string());
    let mut t = NameSet::new();
    t.insert("q".to_string());
    assert!(s.is_disjoint(&t));
    t.add_all(&s);
    assert!(!s.is_disjoint(&t));
    t.remove_all(&s);
    assert!(t.contains("q") && !t.contains("p"));
}

#[test]
fn things_are_sorted() {
    let mut v = vec![];
    for a in [5u64, 1, 5, 3] {
        add_addr(&mut v, a);
    }
    assert_eq!(v, vec![1, 3, 5]);
    let names = ["b", "a", "b"].map(String::from).to_vec();
    assert_eq!(sorted_names(&names), vec!["a", "b", "b"]);
    let bind = |a: u64, n: &str, w: bool, x: i64| (a, n.to_string(), w, x);
    let binds =
        vec![bind(2, "a", false, 0), bind(1, "b", false, 0), bind(1, "a", true, 7), bind(1, "b", false, 0)];
    assert_eq!(
        sorted_binds(&binds),
        vec![bind(1, "a", true, 7), bind(1, "b", false, 0), bind(2, "a", false, 0)]
    );
}

#[test]
fn pieces_of_text() {
    assert!(str_eq("ab", "ab") && !str_eq("ab", "abc") && !str_eq("", "a"));
    assert!(str_less("a", "b") && str_less("", "a") && !str_less("b", "ab") && !str_less("a", "a"));
    assert!(starts_with("__DATA_DIRTY", "__DATA") && !starts_with("__D", "__DATA"));
    assert!(contains_text("__eh_frame_x", "eh_frame") && !contains_text("eh_fram", "eh_frame"));
    assert!(contains_text("x", ""));
    assert_eq!(split_once_dot("a.b.c"), Some(("a".to_string(), "b.c".to_string())));
    assert_eq!(split_once_dot("abc"), None);
}

#[test]
fn arm64_fields() {
    assert_eq!(decode_arm64_branch_addend(0x97ffffff), -4);
    assert_eq!(decode_arm64_adrp_addend(0xb0000000), 4096);
    assert_eq!(decode_arm64_adrp_addend(0xf0ffffe0), -4096);
    assert_eq!(decode_arm64_reloc_addend(0xfffffe), -2);
    assert_eq!(decode_arm64_pageoff_addend(0x91000400), 1);
    assert_eq!(decode_arm64_pageoff_addend(0x91400400), 4096);
    assert_eq!(decode_arm64_pageoff_addend(0xf9400400), 8);
    assert_eq!(encode_arm64_pageoff_immediate(0xf9400000, 24), Ok(0xf9400000 | 3 << 10));
    assert_eq!(
        encode_arm64_pageoff_immediate(0x91400000, 24).unwrap_err(),
        "pageoff 24 not aligned for instruction unit 4096"
    );
    assert_eq!(
        encode_arm64_pageoff_immediate(0x91000000, 4096).unwrap_err(),
        "pageoff immediate 4096 out of range"
    );
    assert_eq!(encode_arm64_tlvp_local_add(0xf9400021, 8), Ok(0x91002021));
    assert_eq!(
        encode_arm64_tlvp_local_add(0, 4096).unwrap_err(),
        "tlvp local pageoff 4096 out of range"
    );
    assert_eq!(encode_arm64_branch(0x94000000, 0x1000, 0x1008), Ok(0x97fffffe));
    assert_eq!(encode_arm64_page(0x90000000, 0x5000, 0x3fff), Ok(0xd0000000));
    assert_eq!(
        encode_arm64_page(0x90000000, 0x1_0000_0000, 0).unwrap_err(),
        "adrp reloc out of range: target=0x100000000 place=0x0"
    );
    // What was put in comes out again.
    for d in [-0x2000i64, -4, 0, 8, 0x7fffffc] {
        let target = (0x10000000i64 + d) as u64;
        let insn = encode_arm64_branch(0x14000000, target, 0x10000000).unwrap();
        assert_eq!(decode_arm64_branch_addend(insn), d);
    }
}

#[test]
fn riscv_fields() {
    let b_offset = |i: u32| {
        let o = (i >> 8 & 0xf) << 1 | (i >> 25 & 0x3f) << 5 | (i >> 7 & 1) << 11;
        if i >> 31 == 1 { o | 0xfffff000 } else { o }
    };
    let j_offset = |i: u32| {
        let o = (i >> 21 & 0x3ff) << 1 | (i >> 20 & 1) << 11 | i & 0xff000;
        if i >> 31 == 1 { o | 0xfff00000 } else { o }
    };
    for o in [0u32, 2, 0xffe, 0xfffff000, 0xfffffffe, 0x7aa] {
        assert_eq!(b_offset(patch_b_type(0x00b50063, o)), o & !1);
        assert_eq!(patch_b_type(0x00b50063, o) & 0x01fff07f, 0x00b50063);
    }
    for o in [0u32, 2, 0xffffe, 0xfff00000, 0xfffffffe, 0x5aaaa] {
        assert_eq!(j_offset(patch_j_type(0x000000ef, o)), o & !1);
    }
    assert_eq!(patch_u_imm20(0x00000537, 0x12345), 0x12345537);
    assert_eq!(patch_i_imm12(0x00050513, 0xabc), 0xabc50513);
    assert_eq!(patch_s_imm12(0x00a53023, 0xfff), 0xfea53fa3);
}

#[test]
fn tables_for_the_dynamic_linker() {
    assert_eq!(elf_hash(b""), 0);
    assert_eq!(elf_hash(b"printf"), 0x077905a6);
    assert_eq!(elf_hash(b"exit"), 0x0006cf04);
    let names = ["printf", "exit", "puts"].map(String::from).to_vec();
    let table = build_sysv_hash(&names);
    let word = |i: usize| u32::from_le_bytes(table[4 * i..4 * i + 4].try_into().unwrap());
    assert_eq!((word(0), word(1)), (4, 4));
    for (k, name) in names.iter().enumerate() {
        let mut i = word(2 + (elf_hash(name.as_bytes()) % 4) as usize);
        while i != k as u32 + 1 {
            assert_ne!(i, 0);
            i = word(2 + 4 + i as usize);
        }
    }
    let plt = build_plt(0x1000, 0x1040, 2);
    assert_eq!(plt.len(), 48);
    assert_eq!(&plt[0..6], &[0xff, 0x35, 0x42, 0, 0, 0]);
    assert_eq!(&plt[6..16], &[0xff, 0x25, 0x44, 0, 0, 0, 0x90, 0x90, 0x90, 0x90]);
    assert_eq!(&plt[16..22], &[0xff, 0x25, 0x42, 0, 0, 0]);
    assert_eq!(&plt[22..27], &[0x68, 0, 0, 0, 0]);
    assert_eq!(&plt[27..32], &[0xe9, 0xe5, 0xff, 0xff, 0xff]);
}

#[test]
fn platforms_and_their_linkers() {
    assert_eq!(TargetPlatform::current("macos"), TargetPlatform::MacOS);
    assert_eq!(TargetPlatform::current("windows"), TargetPlatform::Windows);
    assert_eq!(TargetPlatform::current("linux"), TargetPlatform::Linux);
    assert_eq!(TargetPlatform::current("freebsd"), TargetPlatform::Linux);
    assert!(TargetPlatform::Linux.supports_native_linking());
    assert_eq!(linker_probe(TargetPlatform::Linux, 0), Some(("mold", "--version")));
    assert_eq!(linker_probe(TargetPlatform::Linux, 5), None);
    assert_eq!(detect_linker(TargetPlatform::Linux, Some(1)), "ld.lld");
    assert_eq!(detect_linker(TargetPlatform::Linux, None), "ld");
    assert_eq!(detect_linker(TargetPlatform::MacOS, Some(0)), "ld64");
    assert_eq!(detect_linker(TargetPlatform::Windows, None), "link");
}

#[test]
fn symbols_lie_on_one_chain() {
    // One name occurs twice.
    let names = ["printf", "exit", "puts", "exit", "main"].map(String::from).to_vec();
    let table = build_sysv_hash(&names);
    assert_eq!(table.len(), 8 + 8 * 6);
    let word = |i: usize| u32::from_le_bytes(table[4 * i..4 * i + 4].try_into().unwrap());
    assert_eq!(word(2 + 6), 0);
    let mut met = vec![];
    for b in 0..6u32 {
        let mut i = word(2 + b as usize);
        while i != 0 {
            assert_eq!(elf_hash(names[i as usize - 1].as_bytes()) % 6, b);
            met.push(i);
            i = word(2 + 6 + i as usize);
        }
    }
    met.sort_unstable();
    assert_eq!(met, vec![1, 2, 3, 4, 5]);
}

#[test]
fn dynamic_symbols_and_relocations_are_read_back() {
    let names = ["printf", "\u{fc}ber", "exit"].map(String::from).to_vec();
    let (symbols, strings) = build_dynamic_symbols(&names);
    assert_eq!(symbols.len(), 24 * 4);
    assert_eq!(&symbols[..24], &[0; 24]);
    assert_eq!(get_strtab_string(&strings, 1).as_deref(), Some("libc.so.6"));
    let relocations = build_rela_plt(0x2000, 3);
    assert_eq!(relocations.len(), 24 * 3);
    for (i, name) in names.iter().enumerate() {
        let s = parse_symbol_entry(&symbols, 24 * (i + 1)).unwrap();
        assert_eq!(get_strtab_string(&strings, s.name_offset).as_ref(), Some(name));
        assert_eq!((s.bind, s.sym_type, s.st_shndx, s.st_value, s.st_size), (1, 2, 0, 0, 0));
        let r = parse_rela_entry(&relocations, 24 * i).unwrap();
        assert_eq!(r.r_offset, 0x2018 + 8 * i as u64);
        assert_eq!((r.r_sym, r.r_type, r.r_addend), (i as u32 + 1, 7, 0));
    }
}

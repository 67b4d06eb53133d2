//! The export trie and chained fixups.
use weld::emit::exports::build_export_trie;
use weld::emit::fixups::{build_chained_fixups_payload, FixupPlan};
use weld::emit::leb::{push_sleb128, push_uleb128, uleb128_size};
use weld::emit::opcodes::{build_bind_opcodes, build_rebase_opcodes};

fn uleb(b: &[u8], at: &mut usize) -> u64 {
    let mut v = 0u64;
    let mut shift = 0;
    loop {
        let x = b[*at];
        *at += 1;
        v |= ((x & 0x7f) as u64) << shift;
        shift += 7;
        if x < 0x80 {
            return v;
        }
    }
}

/// Walks the trie as a loader does.
fn look_up(trie: &[u8], name: &[u8]) -> Option<u64> {
    let mut node = 0usize;
    let mut rest = name;
    loop {
        let mut at = node;
        let size = uleb(trie, &mut at) as usize;
        if rest.is_empty() {
            if size == 0 {
                return None;
            }
            let mut p = at;
            assert_eq!(uleb(trie, &mut p), 0);
            return Some(uleb(trie, &mut p));
        }
        at += size;
        let count = trie[at];
        at += 1;
        let mut next = None;
        for _ in 0..count {
            let end = at + trie[at..].iter().position(|b| *b == 0).unwrap();
            let label = &trie[at..end];
            at = end + 1;
            let child = uleb(trie, &mut at) as usize;
            if next.is_none() && rest.starts_with(label) {
                next = Some((child, label.len()));
            }
        }
        let (child, used) = next?;
        node = child;
        rest = &rest[used..];
    }
}

fn exports(list: &[(&str, u64)]) -> Vec<(String, u64)> {
    list.iter().map(|(n, a)| (n.to_string(), *a)).collect()
}

#[test]
fn tries_of_few_exports() {
    assert_eq!(build_export_trie(&[]), vec![0, 0]);
    // The root, an edge, and a node that ends the name.
    assert_eq!(
        build_export_trie(&exports(&[("_main", 0x4000)])),
        b"\0\x01_main\0\x09\x04\0\x80\x80\x01\0".to_vec()
    );
    // A name that is the start of another.
    assert_eq!(
        build_export_trie(&exports(&[("ab", 1), ("a", 2)])),
        vec![0, 1, b'a', 0, 5, 2, 0, 2, 1, b'b', 0, 12, 2, 0, 1, 0]
    );
}

#[test]
fn every_export_is_found() {
    let mut list = vec![];
    for i in 0..300u64 {
        list.push((format!("_symbol{}", i * 7), i * 0x1001));
    }
    list.push(("_symbol7".to_string(), 5));
    list.push(("_".to_string(), u64::MAX));
    let trie = build_export_trie(&list);
    for (name, address) in &list {
        let expected = if name == "_symbol7" { 5 } else { *address };
        assert_eq!(look_up(&trie, name.as_bytes()), Some(expected));
    }
    assert_eq!(look_up(&trie, b""), None);
    assert_eq!(look_up(&trie, b"_symbol"), None);
    assert_eq!(look_up(&trie, b"_symbol1"), None);
    assert_eq!(look_up(&trie, b"_symbol77"), Some(11 * 0x1001));
    assert_eq!(look_up(&trie, b"_symbol7x"), None);
}

#[test]
fn slots_are_chained_page_by_page() {
    let plan = FixupPlan {
        segments: 4,
        data_segment: Some(2),
        data_vmoff: 0x8000,
        data_size: 0x8000,
        got: 0x3ff8,
        slots: 2,
    };
    let mut names = vec!["_ab".to_string(); 6];
    names[4] = "_cd".to_string();
    let mut data = vec![0xaa; 0x4010];
    let payload = build_chained_fixups_payload(&plan, &names, &mut data);
    let word = |off: usize| u32::from_le_bytes(payload[off..off + 4].try_into().unwrap());
    let half = |off: usize| u16::from_le_bytes(payload[off..off + 2].try_into().unwrap());
    let slot = |off: usize| u64::from_le_bytes(data[off..off + 8].try_into().unwrap());
    // The two slots stand on different pages.
    assert_eq!(slot(0x3ff8), 1 << 63);
    assert_eq!(slot(0x4000), 1 << 63 | 1);
    assert_eq!(data[0x3ff7], 0xaa);
    assert_eq!(data[0x4008], 0xaa);
    // The header, the list of segments, and the description of the third.
    assert_eq!((word(0), word(4), word(16), word(20), word(24)), (0, 32, 2, 1, 0));
    assert_eq!(word(32), 4);
    assert_eq!((word(36), word(40), word(44), word(48)), (0, 0, 24, 0));
    assert_eq!(word(56), 32);
    assert_eq!((half(60), half(62)), (0x4000, 2));
    assert_eq!(word(64), 0x8000);
    assert_eq!(half(76), 2);
    assert_eq!((half(78), half(80)), (0x3ff8, 0));
    assert_eq!(word(8), 88);
    assert_eq!(word(12), 96);
    assert_eq!((word(88), word(92)), (0xfe, 0xfe | 4 << 9));
    assert_eq!(&payload[96..104], b"_ab\0_ab\0");
    assert_eq!(payload.len(), 104);
}

#[test]
fn slots_on_one_page_lead_to_each_other() {
    let plan = FixupPlan {
        segments: 1,
        data_segment: None,
        data_vmoff: 0,
        data_size: 0,
        got: 8,
        slots: 9,
    };
    let mut data = vec![0; 24];
    let names = vec!["x".to_string()];
    let payload = build_chained_fixups_payload(&plan, &names, &mut data);
    assert_eq!(data[8..16], (1u64 << 63).to_le_bytes());
    assert_eq!(payload.len(), 32 + 8 + 4 + 4);
    assert_eq!(&payload[40..48], &[0xfe, 0, 0, 0, b'x', 0, 0, 0]);

    let many = vec![String::new(); 3];
    let mut data = vec![0; 24];
    build_chained_fixups_payload(&plan, &many, &mut data);
    // The third slot lies outside of the data, and is still what the second leads to.
    assert_eq!(data[8..16], (1u64 << 63 | 2 << 51).to_le_bytes());
    assert_eq!(data[16..24], (1u64 << 63 | 2 << 51 | 1).to_le_bytes());
}

#[test]
fn variable_length_integers() {
    for (v, bytes) in [
        (0u64, vec![0u8]),
        (127, vec![127]),
        (128, vec![0x80, 1]),
        (624485, vec![0xe5, 0x8e, 0x26]),
        (u64::MAX, vec![0xff, 0xff, 0xff, 0xff, 0xff, 0xff, 0xff, 0xff, 0xff, 1]),
    ] {
        let mut b = vec![];
        push_uleb128(&mut b, v);
        assert_eq!(b, bytes);
        assert_eq!(uleb128_size(v), bytes.len());
        assert_eq!(uleb(&b, &mut 0), v);
    }
    for (v, bytes) in [
        (0i64, vec![0u8]),
        (63, vec![63]),
        (64, vec![0xc0, 0]),
        (-1, vec![0x7f]),
        (-64, vec![0x40]),
        (-65, vec![0xbf, 0x7f]),
        (-123456, vec![0xc0, 0xbb, 0x78]),
    ] {
        let mut b = vec![];
        push_sleb128(&mut b, v);
        assert_eq!(b, bytes);
    }
}

#[test]
fn programs_for_the_loader() {
    assert!(build_rebase_opcodes(2, &vec![]).is_empty());
    assert_eq!(
        build_rebase_opcodes(2, &vec![16, 0, 40, 8, 0]),
        vec![0x11, 0x22, 0, 0x53, 0x22, 40, 0x51, 0]
    );
    let none: Vec<String> = vec![];
    assert!(build_bind_opcodes(&none, &none, 2, 0, &vec![]).is_empty());
    let names = vec!["_p".to_string()];
    assert_eq!(
        build_bind_opcodes(&names, &names, 0x13, 128, &vec![]),
        b"\x3e\x41_p\0\x73\x80\x01\x51\x90\0".to_vec()
    );
}

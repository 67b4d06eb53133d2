//! Alignment, images and merged sections.
use weld::elf::{SectionHeader, SHT_NOBITS};
use weld::link::{align_up, read_section_data, MergedLayout, MergedSection};
use weld::names::NameMap;
use weld::segment::{align_up_u64, align_up_usize, build_segment_buffer, checked_align_up};

#[test]
fn link_test_align_up() {
    assert_eq!(align_up(0, 16), 0);
    assert_eq!(align_up(1, 16), 16);
    assert_eq!(align_up(15, 16), 16);
    assert_eq!(align_up(16, 16), 16);
    assert_eq!(align_up(17, 16), 32);
}

#[test]
fn mod_test_align_up() {
    assert_eq!(align_up(0, 16), 0);
    assert_eq!(align_up(1, 16), 16);
    assert_eq!(align_up(15, 16), 16);
    assert_eq!(align_up(16, 16), 16);
    assert_eq!(align_up(17, 16), 32);
}

fn header(sh_type: u32, size: u64) -> SectionHeader {
    SectionHeader {
        name_offset: 0,
        sh_type,
        sh_flags: 0,
        sh_addr: 0,
        sh_offset: 0,
        sh_size: size,
        sh_link: 0,
        sh_info: 0,
        sh_addralign: 1,
        sh_entsize: 0,
    }
}

#[test]
fn nobits_contributes_its_size_so_bss_stays_mapped() {
    // Layout advances vaddr by sh_size while the segment's file size comes from
    // data.len(). An empty vector here left .bss outside the LOAD segment.
    let bss = read_section_data(&[], &header(SHT_NOBITS, 8));
    assert_eq!(bss, vec![0u8; 8]);
}

#[test]
fn empty_and_unknown_sections_contribute_nothing() {
    assert!(read_section_data(&[], &header(SHT_NOBITS, 0)).is_empty());
    assert!(read_section_data(&[], &header(0, 8)).is_empty());
}

#[test]
fn bytes_that_the_file_does_not_hold_contribute_nothing() {
    let mut sh = header(1, 3);
    sh.sh_offset = 1;
    assert_eq!(read_section_data(&[1, 2, 3, 4], &sh), vec![2, 3, 4]);
    sh.sh_offset = 2;
    assert!(read_section_data(&[1, 2, 3, 4], &sh).is_empty());
    sh.sh_offset = u64::MAX;
    assert!(read_section_data(&[1, 2, 3, 4], &sh).is_empty());
}

#[test]
fn rounding_up() {
    assert_eq!(align_up_u64(5, 0), 5);
    assert_eq!(align_up_usize(4097, 4096), 8192);
    assert_eq!(checked_align_up(u64::MAX - 3, 4), None);
    assert_eq!(checked_align_up(u64::MAX - 4, 4), Some(u64::MAX - 3));
    for v in [0u64, 1, 31, 32, 33, 4095] {
        let r = align_up_u64(v, 32);
        assert!(r >= v && r < v + 32 && r % 32 == 0);
        assert_eq!(align_up_u64(r, 32), r);
    }
}

fn section(name: &str, vaddr: u64, data: Vec<u8>) -> MergedSection {
    MergedSection { name: name.to_string(), data, vaddr, flags: 2, align: 1 }
}

#[test]
fn the_image_holds_each_section_at_its_address() {
    let layout = MergedLayout {
        sections: vec![
            section("a", 0x100, vec![1, 2]),
            section("b", 0x104, vec![3]),
            section("c", 0x106, vec![]),
        ],
        section_by_name: NameMap::new(),
    };
    assert_eq!(build_segment_buffer(&layout, 7), (0x100, vec![1, 2, 0, 0, 3, 0]));
    let empty = MergedLayout { sections: vec![], section_by_name: NameMap::new() };
    assert_eq!(build_segment_buffer(&empty, 7), (7, vec![]));
}

#[test]
fn the_image_holds_sections_out_of_order() {
    let layout = MergedLayout {
        sections: vec![
            section("a", 0x100, vec![1, 2]),
            section("c", 0x106, vec![5]),
            section("b", 0x103, vec![3, 4]),
        ],
        section_by_name: NameMap::new(),
    };
    assert_eq!(build_segment_buffer(&layout, 7), (0x100, vec![1, 2, 0, 3, 4, 0, 5]));
}

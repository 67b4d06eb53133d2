//! The layout of an image that is made from a single object.
use vstd::prelude::*;
use crate::bytes;
use crate::elf::SectionHeader;
use crate::link;
use crate::link::{LayoutModel, MergedModel};
use crate::link::elf_merge;
use crate::link::macho::Placing;
use crate::macho::{ObjectModel, SectionModel};
use crate::reading_laws;
use crate::segment;

verus! {

/// Whether the section `j` of a layout is the section of an ELF object with a header: under its
/// name, with its bytes, at a place that its alignment allows.
pub open spec fn is_placed(l: LayoutModel, j: int, file: Seq<u8>, name: Seq<char>, sh: SectionHeader) -> bool {
    let s = l.sections[j];
    &&& 0 <= j < l.sections.len()
    &&& s.name == name
    &&& sh.sh_type == 1 && sh.sh_offset + sh.sh_size <= file.len() ==> s.data == file.subrange(
        sh.sh_offset as int,
        sh.sh_offset + sh.sh_size,
    )
    &&& sh.sh_type == 8 ==> s.data == bytes::zeros(sh.sh_size as int)
    &&& s.vaddr >= 0x40_0000
    &&& forall|e: nat| #[trigger]
        segment::is_power(sh.sh_addralign, e) ==> s.vaddr % sh.sh_addralign == 0
}

/// Whether the sections of a layout follow each other without overlapping.
pub open spec fn sections_follow(l: LayoutModel) -> bool {
    forall|i: int, j: int|
        0 <= i < j < l.sections.len() ==> (#[trigger] l.sections[i]).vaddr
            + l.sections[i].data.len() <= (#[trigger] l.sections[j]).vaddr
}

proof fn lemma_place_one(file: Seq<u8>, name: Seq<char>, sh: SectionHeader, vaddr: u64, l: LayoutModel)
    requires
        segment::align_fits(vaddr, elf_merge::elf_align(sh)),
        vaddr >= 0x40_0000,
        l.sections.len() > 0,
        l.sections.last().name == name,
        l.sections.last().data == elf_merge::elf_section_bytes(file, sh),
        l.sections.last().vaddr == segment::aligned(vaddr, elf_merge::elf_align(sh)),
    ensures
        segment::aligned(vaddr, elf_merge::elf_align(sh)) >= vaddr,
        is_placed(l, l.sections.len() - 1, file, name, sh),
{
    let a = elf_merge::elf_align(sh);
    segment::law_align_up_bounds(vaddr, a);
    let s = l.sections.last();
    assert forall|e: nat| #[trigger] segment::is_power(sh.sh_addralign, e) implies s.vaddr
        % sh.sh_addralign == 0 by {
        if sh.sh_addralign > 1 {
            segment::law_align_up_multiple(vaddr, a, e);
        } else {
            lemma_power_is_positive(sh.sh_addralign, e);
        }
    }
    if sh.sh_type == 1 && sh.sh_offset + sh.sh_size <= file.len() {
        reading_laws::law_elf_contents_are_read(file, sh);
    }
}

proof fn lemma_power_is_positive(a: u64, e: nat)
    requires
        segment::is_power(a, e),
    ensures
        a > 0,
{
    vstd::arithmetic::power2::lemma_pow2_pos(e);
}

proof fn lemma_elf_placed(
    file: Seq<u8>,
    order: Seq<(Seq<char>, SectionHeader)>,
    i: nat,
    st: Placing,
)
    requires
        i <= order.len(),
        st.vaddr >= 0x40_0000,
        link::macho::ends_before(st.layout, st.vaddr as int),
        sections_follow(st.layout),
        elf_merge::place_elf_sections(file, order, i, st) is Some,
    ensures
        ({
            let l = elf_merge::place_elf_sections(file, order, i, st)->0;
            let n = st.layout.sections.len() as int;
            &&& l.sections.len() == n + order.len() - i
            &&& sections_follow(l)
            &&& forall|j: int|
                0 <= j < n ==> #[trigger] l.sections[j] == st.layout.sections[j]
            &&& forall|j: int|
                i <= j < order.len() ==> #[trigger] is_placed(
                    l,
                    n + j - i,
                    file,
                    order[j].0,
                    order[j].1,
                )
        }),
    decreases order.len() - i,
{
    if i < order.len() {
        let (name, sh) = order[i as int];
        let n = st.layout.sections.len() as int;
        let vaddr = segment::aligned(st.vaddr, elf_merge::elf_align(sh));
        let next = next_placing(file, name, sh, st);
        lemma_place_one(file, name, sh, st.vaddr, next.layout);
        elf_merge::law_section_bytes_len(file, sh);
        assert(elf_merge::place_elf_sections(file, order, i, st)
            == elf_merge::place_elf_sections(file, order, i + 1, next));
        assert(link::macho::ends_before(next.layout, next.vaddr as int));
        assert(sections_follow(next.layout)) by {
            assert forall|a: int, b: int| 0 <= a < b < next.layout.sections.len() implies (
            #[trigger] next.layout.sections[a]).vaddr + next.layout.sections[a].data.len() <= (
            #[trigger] next.layout.sections[b]).vaddr by {
                assert(next.layout.sections[a] == st.layout.sections[a]);
                assert(link::section_end(st.layout.sections[a]) <= st.vaddr);
                if b < n {
                    assert(next.layout.sections[b] == st.layout.sections[b]);
                }
            }
        }
        lemma_elf_placed(file, order, i + 1, next);
        let l = elf_merge::place_elf_sections(file, order, i, st)->0;
        assert forall|j: int| 0 <= j < n implies #[trigger] l.sections[j] == st.layout.sections[j] by {
            assert(l.sections[j] == next.layout.sections[j]);
        }
        assert forall|j: int| i <= j < order.len() implies #[trigger] is_placed(
            l,
            n + j - i,
            file,
            order[j].0,
            order[j].1,
        ) by {
            if j == i {
                assert(l.sections[n] == next.layout.sections[n]);
                assert(is_placed(next.layout, n, file, name, sh));
            } else {
                assert(is_placed(l, (n + 1) + j - (i + 1), file, order[j].0, order[j].1));
            }
        }
    }
}

/// A layout with one section more.
spec fn next_placing(file: Seq<u8>, name: Seq<char>, sh: SectionHeader, st: Placing) -> Placing {
    let vaddr = segment::aligned(st.vaddr, elf_merge::elf_align(sh));
    Placing {
        layout: link::with_section(
            st.layout,
            MergedModel {
                name,
                data: elf_merge::elf_section_bytes(file, sh),
                vaddr,
                flags: sh.sh_flags,
                align: elf_merge::elf_align(sh),
            },
        ),
        vaddr: (vaddr + sh.sh_size) as u64,
    }
}

proof fn lemma_elf_ranked(
    s: Seq<SectionHeader>,
    names: Seq<Seq<char>>,
    k: nat,
    n: nat,
    i: int,
) -> (j: int)
    requires
        0 <= i < n <= s.len(),
        i < names.len(),
        elf_merge::elf_mergeable(s[i]),
        elf_merge::elf_rank(names[i]) == k,
    ensures
        0 <= j < elf_merge::elf_ranked(s, names, k, n).len(),
        elf_merge::elf_ranked(s, names, k, n)[j] == (names[i], s[i]),
    decreases n,
{
    if i < n - 1 {
        lemma_elf_ranked(s, names, k, (n - 1) as nat, i)
    } else {
        elf_merge::elf_ranked(s, names, k, (n - 1) as nat).len() as int
    }
}

proof fn lemma_elf_order(
    s: Seq<SectionHeader>,
    names: Seq<Seq<char>>,
    k: nat,
    i: int,
) -> (j: int)
    requires
        0 <= i < s.len(),
        i < names.len(),
        elf_merge::elf_mergeable(s[i]),
        elf_merge::elf_rank(names[i]) < k,
    ensures
        0 <= j < elf_merge::elf_merge_order(s, names, k).len(),
        elf_merge::elf_merge_order(s, names, k)[j] == (names[i], s[i]),
    decreases k,
{
    let before = elf_merge::elf_merge_order(s, names, (k - 1) as nat);
    if elf_merge::elf_rank(names[i]) == k - 1 {
        let j = lemma_elf_ranked(s, names, (k - 1) as nat, s.len(), i);
        before.len() + j
    } else {
        lemma_elf_order(s, names, (k - 1) as nat, i)
    }
}

/// Every section of a single ELF object that is loaded, with or without bytes in the file, is in
/// the layout, with its bytes, at a place that its alignment allows. The sections of the layout do
/// not overlap.
pub proof fn law_single_object_keeps_sections(data: Seq<u8>, k: int)
    requires
        elf_merge::elf_single_layout(data) is Ok,
        0 <= k < crate::elf::elf_of(data)->Ok_0.sections.len(),
        ({
            let sh = crate::elf::elf_of(data)->Ok_0.sections[k];
            (sh.sh_type == 1 || sh.sh_type == 8) && sh.sh_flags & 2 != 0
        }),
    ensures
        ({
            let l = elf_merge::elf_single_layout(data)->Ok_0;
            let obj = crate::elf::elf_of(data)->Ok_0;
            &&& sections_follow(l)
            &&& exists|j: int| #[trigger] is_placed(l, j, data, obj.names[k], obj.sections[k])
        }),
{
    let l = elf_merge::elf_single_layout(data)->Ok_0;
    let obj = crate::elf::elf_of(data)->Ok_0;
    let order = elf_merge::elf_merge_order(obj.sections, obj.names, 5);
    let start = Placing { layout: link::no_sections(), vaddr: 0x40_0000 };
    crate::elf::law_elf_sections_are_read(data);
    let j = lemma_elf_order(obj.sections, obj.names, 5, k);
    lemma_elf_placed(data, order, 0, start);
    assert(is_placed(l, 0 + j - 0, data, order[j].0, order[j].1));
}

/// Whether the section `j` of a layout is a section of a Mach-O object: under the name by which it
/// is merged, with its bytes, at a place that its alignment allows.
pub open spec fn is_macho_placed(l: LayoutModel, j: int, file: Seq<u8>, sec: SectionModel) -> bool {
    let s = l.sections[j];
    let kind = sec.flags & 0xff;
    let zero = kind == 1 || kind == 0xc || kind == 0x12;
    &&& 0 <= j < l.sections.len()
    &&& s.name == link::macho::merged_name_of(sec)
    &&& !zero && 0 < sec.size && sec.offset + sec.size <= file.len() ==> s.data == file.subrange(
        sec.offset as int,
        sec.offset + sec.size,
    )
    &&& zero ==> s.data == bytes::zeros(sec.size as int)
    &&& s.vaddr >= 0x1_0000_0000
    &&& 0 < sec.align ==> link::macho_laws::multiple_of(
        s.vaddr as int,
        if sec.align < 3 && link::macho::is_data_name(s.name) {
            3
        } else {
            sec.align as u64
        },
    )
}

/// A layout with one section more.
spec fn next_macho_placing(data: Seq<u8>, sec: SectionModel, st: Placing) -> Placing {
    let vaddr = link::macho::aligned_to_exponent(st.vaddr, link::macho::align_exponent(sec))->0;
    Placing {
        layout: link::with_section(
            st.layout,
            MergedModel {
                name: link::macho::merged_name_of(sec),
                data: link::macho::section_bytes(data, sec),
                vaddr,
                flags: link::macho::section_flags(sec.sectname),
                align: link::macho::align_exponent(sec),
            },
        ),
        vaddr: (vaddr + sec.size) as u64,
    }
}

proof fn lemma_macho_place_one(data: Seq<u8>, sec: SectionModel, st: Placing)
    requires
        st.vaddr >= 0x1_0000_0000,
        link::macho::aligned_to_exponent(st.vaddr, link::macho::align_exponent(sec)) is Some,
    ensures
        ({
            let next = next_macho_placing(data, sec, st);
            let n = st.layout.sections.len() as int;
            &&& is_macho_placed(next.layout, n, data, sec)
            &&& next.layout.sections[n].vaddr >= st.vaddr
            &&& next.layout.sections[n].data.len() == sec.size
        }),
{
    link::macho_laws::lemma_aligned_is_multiple(st.vaddr, link::macho::align_exponent(sec));
}

proof fn lemma_macho_placed(data: Seq<u8>, order: Seq<SectionModel>, i: nat, st: Placing)
    requires
        i <= order.len(),
        st.vaddr >= 0x1_0000_0000,
        link::macho::ends_before(st.layout, st.vaddr as int),
        sections_follow(st.layout),
        link::macho::place_sections(data, order, i, st) is Some,
    ensures
        ({
            let l = link::macho::place_sections(data, order, i, st)->0;
            let n = st.layout.sections.len() as int;
            &&& l.sections.len() == n + order.len() - i
            &&& sections_follow(l)
            &&& forall|j: int| 0 <= j < n ==> #[trigger] l.sections[j] == st.layout.sections[j]
            &&& forall|j: int|
                i <= j < order.len() ==> #[trigger] is_macho_placed(l, n + j - i, data, order[j])
        }),
    decreases order.len() - i,
{
    if i < order.len() {
        let sec = order[i as int];
        let n = st.layout.sections.len() as int;
        let next = next_macho_placing(data, sec, st);
        lemma_macho_place_one(data, sec, st);
        assert(link::macho::place_sections(data, order, i, st) == link::macho::place_sections(
            data,
            order,
            i + 1,
            next,
        ));
        assert(link::macho::ends_before(next.layout, next.vaddr as int));
        assert(sections_follow(next.layout)) by {
            assert forall|a: int, b: int| 0 <= a < b < next.layout.sections.len() implies (
            #[trigger] next.layout.sections[a]).vaddr + next.layout.sections[a].data.len() <= (
            #[trigger] next.layout.sections[b]).vaddr by {
                assert(next.layout.sections[a] == st.layout.sections[a]);
                assert(link::section_end(st.layout.sections[a]) <= st.vaddr);
                if b < n {
                    assert(next.layout.sections[b] == st.layout.sections[b]);
                }
            }
        }
        lemma_macho_placed(data, order, i + 1, next);
        let l = link::macho::place_sections(data, order, i, st)->0;
        assert forall|j: int| 0 <= j < n implies #[trigger] l.sections[j] == st.layout.sections[j] by {
            assert(l.sections[j] == next.layout.sections[j]);
        }
        assert forall|j: int| i <= j < order.len() implies #[trigger] is_macho_placed(
            l,
            n + j - i,
            data,
            order[j],
        ) by {
            if j == i {
                assert(l.sections[n] == next.layout.sections[n]);
                assert(is_macho_placed(next.layout, n, data, sec));
            } else {
                assert(is_macho_placed(l, (n + 1) + j - (i + 1), data, order[j]));
            }
        }
    }
}

proof fn lemma_macho_ranked(s: Seq<SectionModel>, k: nat, n: nat, i: int) -> (j: int)
    requires
        0 <= i < n <= s.len(),
        link::macho::mergeable(s[i]),
        link::macho::merge_rank(s[i].sectname) == k,
    ensures
        0 <= j < link::macho::ranked(s, k, n).len(),
        link::macho::ranked(s, k, n)[j] == s[i],
    decreases n,
{
    if i < n - 1 {
        lemma_macho_ranked(s, k, (n - 1) as nat, i)
    } else {
        link::macho::ranked(s, k, (n - 1) as nat).len() as int
    }
}

proof fn lemma_macho_order(s: Seq<SectionModel>, k: nat, i: int) -> (j: int)
    requires
        0 <= i < s.len(),
        link::macho::mergeable(s[i]),
        link::macho::merge_rank(s[i].sectname) < k,
    ensures
        0 <= j < link::macho::merge_order(s, k).len(),
        link::macho::merge_order(s, k)[j] == s[i],
    decreases k,
{
    let before = link::macho::merge_order(s, (k - 1) as nat);
    if link::macho::merge_rank(s[i].sectname) == k - 1 {
        let j = lemma_macho_ranked(s, (k - 1) as nat, s.len(), i);
        before.len() + j
    } else {
        lemma_macho_order(s, (k - 1) as nat, i)
    }
}

/// Every section of a single Mach-O object that is taken into the image is in the layout, with its
/// bytes, at a place that its alignment allows. The sections of the layout do not overlap.
pub proof fn law_single_macho_object_keeps_sections(obj: ObjectModel, k: int)
    requires
        link::macho::single_layout(obj) is Some,
        0 <= k < obj.sections.len(),
        link::macho::mergeable(obj.sections[k]),
    ensures
        ({
            let l = link::macho::single_layout(obj)->0;
            &&& sections_follow(l)
            &&& exists|j: int| #[trigger] is_macho_placed(l, j, obj.data, obj.sections[k])
        }),
{
    let l = link::macho::single_layout(obj)->0;
    let order = link::macho::merge_order(obj.sections, 5);
    let start = Placing { layout: link::no_sections(), vaddr: 0x1_0000_0000 };
    let j = lemma_macho_order(obj.sections, 5, k);
    lemma_macho_placed(obj.data, order, 0, start);
    assert(is_macho_placed(l, 0 + j - 0, obj.data, order[j]));
}

} // verus!

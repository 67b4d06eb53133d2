//! Merging sections, resolving symbols and applying relocations.
//!
//! What depends on the architecture stands in `x86_64`, `aarch64` and `riscv`;
//! Mach-O objects are linked in [`macho`], and libraries are looked up in
//! [`resolver`].
use vstd::prelude::*;
use crate::bytes;
use crate::bytes::{push_bytes, push_zeros_u64};
use crate::model;
use crate::names::NameMap;

pub mod aarch64;
pub mod arm64;
pub mod dynamic;
pub mod effect_laws;
pub mod elf_laws;
pub mod elf_link;
pub mod elf_merge;
pub mod elf_symbols;
pub mod got_laws;
pub mod macho;
pub mod macho_effect_laws;
pub mod macho_laws;
pub mod macho_merge;
pub mod macho_reloc;
pub mod macho_slot_laws;
pub mod macho_symbols;
pub mod reloc_laws;
pub mod relocate;
pub mod resolver;
pub mod riscv;
pub mod single_laws;
pub mod x86_64;

pub use elf_link::{
    apply_relocations, link_multi_object, link_single_object, merge_and_resolve, ParsedObject,
    RequestedLibrary,
};
pub use elf_merge::{
    align_up, merge_sections_multi_object, merge_sections_single_object, read_section_data,
};
pub use elf_symbols::resolve_symbols;
pub use resolver::LibraryResolver;

verus! {

/// A section of the output, merged from sections of the inputs.
#[derive(Debug, Clone)]
pub struct MergedSection {
    pub name: String,
    pub data: Vec<u8>,
    pub vaddr: u64,
    pub flags: u64,
    pub align: u64,
}

/// The view of a merged section.
pub struct MergedModel {
    pub name: Seq<char>,
    pub data: Seq<u8>,
    pub vaddr: u64,
    pub flags: u64,
    pub align: u64,
}

impl View for MergedSection {
    type V = MergedModel;

    open spec fn view(&self) -> MergedModel {
        MergedModel {
            name: self.name@,
            data: self.data@,
            vaddr: self.vaddr,
            flags: self.flags,
            align: self.align,
        }
    }
}

/// The merged sections, with the index of each under its name.
#[derive(Debug, Clone)]
pub struct MergedLayout {
    pub sections: Vec<MergedSection>,
    pub section_by_name: NameMap<usize>,
}

/// The view of a layout.
pub struct LayoutModel {
    pub sections: Seq<MergedModel>,
    pub by_name: Map<Seq<char>, usize>,
}

impl View for MergedLayout {
    type V = LayoutModel;

    open spec fn view(&self) -> LayoutModel {
        LayoutModel { sections: model::views(self.sections@), by_name: self.section_by_name@ }
    }
}

/// The part of a merged section that comes from one input section.
#[derive(Debug, Clone, Copy)]
pub struct ObjectSectionContrib {
    pub offset_in_merged: u64,
    pub size: u64,
}

/// A symbol after resolution.
#[derive(Debug, Clone, Copy)]
pub struct ResolvedSymbol {
    pub address: Option<u64>,
    pub size: u64,
    pub is_defined: bool,
}

/// What an image needs from the dynamic linker.
#[derive(Debug)]
pub struct DynamicLinkInfo {
    pub needed: Vec<String>,
    pub plt_symbols: Vec<String>,
    pub weak_plt_symbols: Vec<String>,
    pub interpreter: Option<String>,
    pub macho_rebase_addrs: Vec<u64>,
    pub macho_direct_binds: Vec<(u64, String, bool, i64)>,
}

/// The view of what an image needs from the dynamic linker.
pub struct DynamicModel {
    pub needed: Seq<Seq<char>>,
    pub plt_symbols: Seq<Seq<char>>,
    pub weak_plt_symbols: Seq<Seq<char>>,
    pub interpreter: Option<Seq<char>>,
    pub macho_rebase_addrs: Seq<u64>,
    pub macho_direct_binds: Seq<(u64, Seq<char>, bool, i64)>,
}

impl View for DynamicLinkInfo {
    type V = DynamicModel;

    open spec fn view(&self) -> DynamicModel {
        DynamicModel {
            needed: model::views(self.needed@),
            plt_symbols: model::views(self.plt_symbols@),
            weak_plt_symbols: model::views(self.weak_plt_symbols@),
            interpreter: model::view_opt(self.interpreter),
            macho_rebase_addrs: self.macho_rebase_addrs@,
            macho_direct_binds: model::views(self.macho_direct_binds@),
        }
    }
}

impl Default for DynamicLinkInfo {
    fn default() -> (r: Self)
        ensures
            r@ == (DynamicModel {
                needed: seq![],
                plt_symbols: seq![],
                weak_plt_symbols: seq![],
                interpreter: None,
                macho_rebase_addrs: seq![],
                macho_direct_binds: seq![],
            }),
    {
        broadcast use model::group_views;
        DynamicLinkInfo {
            needed: Vec::new(),
            plt_symbols: Vec::new(),
            weak_plt_symbols: Vec::new(),
            interpreter: None,
            macho_rebase_addrs: Vec::new(),
            macho_direct_binds: Vec::new(),
        }
    }
}

/// A linked image.
#[derive(Debug)]
pub struct LinkResult {
    pub layout: MergedLayout,
    pub e_machine: u16,
    pub symbol_addrs: NameMap<u64>,
    pub dynamic: Option<DynamicLinkInfo>,
}

/// The view of a linked image.
pub struct LinkModel {
    pub layout: LayoutModel,
    pub e_machine: u16,
    pub symbol_addrs: Map<Seq<char>, u64>,
    pub dynamic: Option<DynamicModel>,
}

impl View for LinkResult {
    type V = LinkModel;

    open spec fn view(&self) -> LinkModel {
        LinkModel {
            layout: self.layout@,
            e_machine: self.e_machine,
            symbol_addrs: self.symbol_addrs@,
            dynamic: model::view_opt(self.dynamic),
        }
    }
}

/// A layout without sections.
pub open spec fn no_sections() -> LayoutModel {
    LayoutModel { sections: seq![], by_name: Map::empty() }
}

/// Whether every name stands for a section that is there.
pub open spec fn names_in_range(l: LayoutModel) -> bool {
    forall|n: Seq<char>| #[trigger]
        l.by_name.dom().contains(n) ==> l.by_name[n] < l.sections.len()
}

/// The address behind the last byte of a section.
pub open spec fn section_end(s: MergedModel) -> int {
    s.vaddr + s.data.len()
}

/// Whether all sections end within 64 bits.
pub open spec fn ends_fit(l: LayoutModel) -> bool {
    forall|i: int| 0 <= i < l.sections.len() ==> section_end(#[trigger] l.sections[i]) <= u64::MAX
}

/// Whether the sections follow each other in memory without overlap, within 64 bits.
pub open spec fn sections_ascend(l: LayoutModel) -> bool {
    &&& ends_fit(l)
    &&& forall|i: int, j: int|
        0 <= i < j < l.sections.len() ==> section_end(#[trigger] l.sections[i]) <= (
        #[trigger] l.sections[j]).vaddr
}

/// What linking keeps of every layout.
pub open spec fn layout_ok(l: LayoutModel) -> bool {
    names_in_range(l) && sections_ascend(l)
}

/// `l` with one section more.
pub open spec fn with_section(l: LayoutModel, s: MergedModel) -> LayoutModel {
    LayoutModel {
        sections: l.sections.push(s),
        by_name: l.by_name.insert(s.name, l.sections.len() as usize),
    }
}

/// `l` with other bytes in the section `idx`.
pub open spec fn with_data(l: LayoutModel, idx: int, data: Seq<u8>) -> LayoutModel {
    LayoutModel {
        sections: l.sections.update(idx, MergedModel { data, ..l.sections[idx] }),
        ..l
    }
}

/// Whether two layouts differ in the bytes of their sections alone.
pub open spec fn same_shape(a: LayoutModel, b: LayoutModel) -> bool {
    &&& a.by_name == b.by_name
    &&& a.sections.len() == b.sections.len()
    &&& forall|i: int|
        0 <= i < a.sections.len() ==> (#[trigger] b.sections[i]) == (MergedModel {
            data: b.sections[i].data,
            ..a.sections[i]
        }) && b.sections[i].data.len() == a.sections[i].data.len()
}

/// The message for a layout that does not fit in 64-bit addresses.
pub open spec fn layout_too_large() -> Seq<char> {
    "layout exceeds the address space"@
}

/// An empty layout.
pub fn empty_layout() -> (r: MergedLayout)
    ensures
        r@ == no_sections(),
{
    broadcast use model::group_views;
    MergedLayout { sections: Vec::new(), section_by_name: NameMap::new() }
}

/// Adds a section behind the others.
pub fn push_section(layout: &mut MergedLayout, s: MergedSection)
    ensures
        final(layout)@ == with_section(old(layout)@, s@),
        old(layout)@.sections.len() < usize::MAX,
{
    broadcast use model::group_views;
    let idx: usize = layout.sections.len();
    layout.section_by_name.insert(s.name.clone(), idx);
    layout.sections.push(s);
    assert(layout.sections.len() == idx + 1);
}

/// Replaces the bytes of a section.
pub fn set_section_data(layout: &mut MergedLayout, idx: usize, data: Vec<u8>)
    requires
        idx < old(layout)@.sections.len(),
    ensures
        final(layout)@ == with_data(old(layout)@, idx as int, data@),
{
    broadcast use model::group_views;
    let ghost before = layout.sections@[idx as int];
    layout.sections[idx].data = data;
    assert(layout.sections@ =~= old(layout).sections@.update(idx as int,
        layout.sections@[idx as int]));
}

/// Adding a section behind the end of the others keeps a layout in order.
pub proof fn lemma_with_section_ok(l: LayoutModel, s: MergedModel)
    requires
        layout_ok(l),
        section_end(s) <= u64::MAX,
        l.sections.len() < usize::MAX,
        forall|i: int| 0 <= i < l.sections.len()
            ==> section_end(#[trigger] l.sections[i]) <= s.vaddr,
    ensures
        layout_ok(with_section(l, s)),
{
}

/// Replacing the bytes of a section by no more than there were keeps a layout in order.
pub proof fn lemma_with_data_ok(l: LayoutModel, idx: int, data: Seq<u8>)
    requires
        layout_ok(l),
        0 <= idx < l.sections.len(),
        data.len() <= l.sections[idx].data.len(),
    ensures
        layout_ok(with_data(l, idx, data)),
{
    let m = with_data(l, idx, data);
    assert forall|i: int| 0 <= i < m.sections.len() implies section_end(#[trigger] m.sections[i]) <= section_end(
        l.sections[i],
    ) && m.sections[i].vaddr == l.sections[i].vaddr by {
    }
}

/// Replacing the bytes of a section by no more than there were keeps its end within 64 bits.
pub proof fn lemma_with_data_fits(l: LayoutModel, idx: int, data: Seq<u8>)
    requires
        ends_fit(l),
        0 <= idx < l.sections.len(),
        data.len() <= l.sections[idx].data.len(),
    ensures
        ends_fit(with_data(l, idx, data)),
{
    let m = with_data(l, idx, data);
    assert forall|i: int| 0 <= i < m.sections.len() implies section_end(#[trigger] m.sections[i])
        <= u64::MAX by {
        assert(section_end(m.sections[i]) <= section_end(l.sections[i]));
    }
}

/// Takes the bytes out of a section.
pub fn take_section_data(layout: &mut MergedLayout, idx: usize) -> (r: Vec<u8>)
    requires
        idx < old(layout)@.sections.len(),
    ensures
        r@ == old(layout)@.sections[idx as int].data,
        final(layout)@ == with_data(old(layout)@, idx as int, seq![]),
{
    broadcast use model::group_views;
    let mut data: Vec<u8> = Vec::new();
    std::mem::swap(&mut layout.sections[idx].data, &mut data);
    assert(layout.sections@[idx as int].data@ =~= seq![]);
    assert(layout.sections@ =~= old(layout).sections@.update(idx as int,
        layout.sections@[idx as int]));
    data
}

/// Of two replacements of the bytes of a section the later one counts.
pub proof fn lemma_with_data_twice(l: LayoutModel, idx: int, a: Seq<u8>, b: Seq<u8>)
    requires
        0 <= idx < l.sections.len(),
    ensures
        with_data(with_data(l, idx, a), idx, b) == with_data(l, idx, b),
{
    assert(with_data(with_data(l, idx, a), idx, b).sections =~= with_data(l, idx, b).sections);
}

/// How many bytes have been gathered under `name`.
pub open spec fn gathered(acc: LayoutModel, name: Seq<char>) -> nat {
    if acc.by_name.dom().contains(name) {
        acc.sections[acc.by_name[name] as int].data.len()
    } else {
        0
    }
}

/// `acc` with `data` added to the section `name` at `offset`, behind zeros where `offset` lies
/// beyond what is there. The section has the largest alignment and all the flags of its parts.
pub open spec fn contribute(
    acc: LayoutModel,
    name: Seq<char>,
    offset: u64,
    data: Seq<u8>,
    align: u64,
    flags: u64,
) -> LayoutModel {
    if acc.by_name.dom().contains(name) {
        let idx = acc.by_name[name] as int;
        let s = acc.sections[idx];
        LayoutModel {
            sections: acc.sections.update(
                idx,
                MergedModel {
                    data: s.data + bytes::zeros(offset - s.data.len()) + data,
                    align: if align > s.align {
                        align
                    } else {
                        s.align
                    },
                    flags: s.flags | flags,
                    ..s
                },
            ),
            ..acc
        }
    } else {
        with_section(
            acc,
            MergedModel { name, data: bytes::zeros(offset as int) + data, vaddr: 0, flags, align },
        )
    }
}

/// How many bytes have been gathered under `name`.
pub fn gathered_len(acc: &MergedLayout, name: &str) -> (r: u64)
    requires
        names_in_range(acc@),
    ensures
        r == gathered(acc@, name@),
{
    match acc.section_by_name.get(name) {
        Some(idx) => {
            assert(acc@.by_name.dom().contains(name@));
            assert(acc@.sections[*idx as int] == acc.sections@[*idx as int]@);
            acc.sections[*idx].data.len() as u64
        },
        None => 0,
    }
}

/// Adds `data` to the section `name` at `offset`.
pub fn add_contribution(
    acc: &mut MergedLayout,
    name: &str,
    offset: u64,
    data: &Vec<u8>,
    align: u64,
    flags: u64,
)
    requires
        names_in_range(old(acc)@),
        gathered(old(acc)@, name@) <= offset,
    ensures
        final(acc)@ == contribute(old(acc)@, name@, offset, data@, align, flags),
        names_in_range(final(acc)@),
{
    broadcast use model::group_views;
    let found: Option<usize> = match acc.section_by_name.get(name) {
        Some(i) => Some(*i),
        None => None,
    };
    match found {
        Some(idx) => {
            assert(acc@.by_name.dom().contains(name@));
            assert(acc@.sections[idx as int] == acc.sections@[idx as int]@);
            let have: u64 = acc.sections[idx].data.len() as u64;
            push_zeros_u64(&mut acc.sections[idx].data, offset - have);
            push_bytes(&mut acc.sections[idx].data, data.as_slice());
            if align > acc.sections[idx].align {
                acc.sections[idx].align = align;
            }
            let old_flags: u64 = acc.sections[idx].flags;
            acc.sections[idx].flags = old_flags | flags;
            assert(acc.sections@ =~= old(acc).sections@.update(idx as int,
                acc.sections@[idx as int]));
        },
        None => {
            let mut bytes: Vec<u8> = Vec::new();
            push_zeros_u64(&mut bytes, offset);
            push_bytes(&mut bytes, data.as_slice());
            assert(bytes@ =~= bytes::zeros(offset as int) + data@);
            push_section(
                acc,
                MergedSection { name: name.to_owned(), data: bytes, vaddr: 0, flags, align },
            );
        },
    }
}

} // verus!

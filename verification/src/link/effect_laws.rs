//! Every relocation of an object takes effect in the layout.
use vstd::prelude::*;
use crate::arch::TargetArch;
use crate::bytes;
use crate::elf::{RelaEntry, SHT_RELA, SectionHeader};
use crate::elf::reloc_type::{
    R_AARCH64_CALL26, R_AARCH64_JUMP26, R_X86_64_32, R_X86_64_64, R_X86_64_GOTPCREL,
    R_X86_64_PC32,
};
use crate::link;
use crate::link::{LayoutModel, ObjectSectionContrib};
use crate::link::elf_link;
use crate::link::elf_link::ParsedModel;
use crate::link::elf_symbols;
use crate::link::reloc_laws;
use crate::link::relocate;
use crate::link::relocate::RelaState;
use crate::link::x86_64;

verus! {

/// Where a relocation changes a section, of which the object's part starts at `offset`. The
/// branches of AArch64 are patched at their offset in the object's section.
pub open spec fn place_of(arch: TargetArch, offset: u64, rel: RelaEntry) -> int {
    if arch == TargetArch::AArch64 && (rel.r_type == R_AARCH64_CALL26 || rel.r_type
        == R_AARCH64_JUMP26) {
        rel.r_offset as int
    } else {
        offset.wrapping_add(rel.r_offset) as int
    }
}

/// Whether a relocation can change a byte of its section: those at its place, at most eight.
pub open spec fn touches(arch: TargetArch, offset: u64, rel: RelaEntry, b: int) -> bool {
    place_of(arch, offset, rel) <= b < place_of(arch, offset, rel) + 8
}

/// Whether two relocations change different bytes.
pub open spec fn apart_from(
    arch: TargetArch,
    offset: u64,
    rel: RelaEntry,
    other: RelaEntry,
) -> bool {
    place_of(arch, offset, rel) + 8 <= place_of(arch, offset, other) || place_of(
        arch,
        offset,
        other,
    ) + 8 <= place_of(arch, offset, rel)
}

proof fn lemma_entries_keep(
    arch: TargetArch,
    vaddr: u64,
    offset: u64,
    syms: Seq<Option<u64>>,
    slots: Seq<Option<u64>>,
    relas: Seq<RelaEntry>,
    i: nat,
    st: RelaState,
    b: int,
)
    requires
        0 <= b < st.data.len(),
        forall|j: int|
            i <= j < relas.len() ==> !touches(arch, offset, #[trigger] relas[j], b),
    ensures
        ({
            let r = relocate::relocated_entries(arch, vaddr, offset, syms, slots, relas, i, st).0;
            r.data.len() == st.data.len() && r.data[b] == st.data[b]
        }),
    decreases relas.len() - i,
{
    if i < relas.len() {
        let rel = relas[i as int];
        assert(!touches(arch, offset, relas[i as int], b));
        if let Ok(next) = relocate::relocated_entry(arch, vaddr, offset, syms, slots, rel, st) {
            link::elf_laws::law_relocation_is_local(arch, vaddr, offset, syms, slots, rel, st, b);
            lemma_entries_keep(arch, vaddr, offset, syms, slots, relas, i + 1, next, b);
        }
    }
}

/// Whether a section holds what a relocation stores, at its place.
pub open spec fn holds_effect(
    arch: TargetArch,
    vaddr: u64,
    offset: u64,
    syms: Seq<Option<u64>>,
    slots: Seq<Option<u64>>,
    rel: RelaEntry,
    before: RelaState,
    data: Seq<u8>,
) -> bool {
    let r = relocate::relocated_entry(arch, vaddr, offset, syms, slots, rel, before);
    &&& r is Ok
    &&& r->Ok_0.data.len() == data.len()
    &&& forall|b: int|
        0 <= b < data.len() && touches(arch, offset, rel, b) ==> data[b] == #[trigger] r->Ok_0.data[b]
}

proof fn lemma_entries_effect(
    arch: TargetArch,
    vaddr: u64,
    offset: u64,
    syms: Seq<Option<u64>>,
    slots: Seq<Option<u64>>,
    relas: Seq<RelaEntry>,
    i: nat,
    st: RelaState,
    k: int,
) -> (before: RelaState)
    requires
        i <= k < relas.len(),
        relocate::relocated_entries(arch, vaddr, offset, syms, slots, relas, i, st).1 is None,
        forall|j: int|
            k < j < relas.len() ==> apart_from(arch, offset, relas[k], #[trigger] relas[j]),
    ensures
        holds_effect(
            arch,
            vaddr,
            offset,
            syms,
            slots,
            relas[k],
            before,
            relocate::relocated_entries(arch, vaddr, offset, syms, slots, relas, i, st).0.data,
        ),
    decreases k - i,
{
    let rel = relas[i as int];
    let r = relocate::relocated_entry(arch, vaddr, offset, syms, slots, rel, st);
    let next = r->Ok_0;
    if i < k {
        lemma_entries_effect(arch, vaddr, offset, syms, slots, relas, i + 1, next, k)
    } else {
        let done = relocate::relocated_entries(
            arch,
            vaddr,
            offset,
            syms,
            slots,
            relas,
            i + 1,
            next,
        ).0;
        assert forall|b: int| 0 <= b < next.data.len() && touches(arch, offset, rel, b) implies {
            &&& done.data.len() == next.data.len()
            &&& done.data[b] == #[trigger] next.data[b]
        } by {
            assert forall|j: int| i + 1 <= j < relas.len() implies !touches(
                arch,
                offset,
                #[trigger] relas[j],
                b,
            ) by {
                assert(apart_from(arch, offset, relas[k], relas[j]));
            }
            lemma_entries_keep(arch, vaddr, offset, syms, slots, relas, i + 1, next, b);
        }
        link::elf_laws::lemma_entries_len(arch, vaddr, offset, syms, slots, relas, i + 1, next);
        st
    }
}

/// The relocations of the section `r` of an object.
pub open spec fn relas_in(file: Seq<u8>, sections: Seq<SectionHeader>, r: int) -> Seq<RelaEntry> {
    crate::elf::relas_of(file, sections[r])->Ok_0
}

/// Whether none of the relocations of the section `r` changes the byte `b` of the section `s` of a
/// layout.
pub open spec fn leaves_byte(
    arch: TargetArch,
    l: LayoutModel,
    file: Seq<u8>,
    sections: Seq<SectionHeader>,
    names: Seq<Seq<char>>,
    offs: Map<Seq<char>, u64>,
    r: int,
    s: int,
    b: int,
) -> bool {
    let name = relocate::name_or_empty(names, sections[r].sh_info as int);
    link::elf_laws::relocates(l, names, sections[r], s) ==> forall|j: int|
        0 <= j < relas_in(file, sections, r).len() ==> !touches(
            arch,
            relocate::offset_of(offs, name),
            #[trigger] relas_in(file, sections, r)[j],
            b,
        )
}

proof fn lemma_sections_keep_byte(
    arch: TargetArch,
    l: LayoutModel,
    upper: Map<u64, u64>,
    file: Seq<u8>,
    sections: Seq<SectionHeader>,
    names: Seq<Seq<char>>,
    syms: Seq<Option<u64>>,
    slots: Seq<Option<u64>>,
    offs: Map<Seq<char>, u64>,
    i: nat,
    s: int,
    b: int,
)
    requires
        link::names_in_range(l),
        0 <= s < l.sections.len(),
        0 <= b < l.sections[s].data.len(),
        forall|r: int|
            i <= r < sections.len() ==> #[trigger] leaves_byte(
                arch,
                l,
                file,
                sections,
                names,
                offs,
                r,
                s,
                b,
            ),
    ensures
        ({
            let done = relocate::relocated_sections(
                arch,
                l,
                upper,
                file,
                sections,
                names,
                syms,
                slots,
                offs,
                i,
            ).0;
            &&& s < done.sections.len()
            &&& done.sections[s].data.len() == l.sections[s].data.len()
            &&& done.sections[s].data[b] == l.sections[s].data[b]
        }),
    decreases sections.len() - i,
{
    if i < sections.len() {
        let sh = sections[i as int];
        let name = relocate::name_or_empty(names, sh.sh_info as int);
        if sh.sh_type != SHT_RELA || !l.by_name.dom().contains(name) {
            lemma_sections_keep_byte(
                arch,
                l,
                upper,
                file,
                sections,
                names,
                syms,
                slots,
                offs,
                i + 1,
                s,
                b,
            );
        } else if let Ok(relas) = crate::elf::relas_of(file, sh) {
            let idx = l.by_name[name] as int;
            let offset = relocate::offset_of(offs, name);
            let start = RelaState { data: l.sections[idx].data, upper };
            let vaddr = l.sections[idx].vaddr;
            let (st, error) = relocate::relocated_entries(
                arch,
                vaddr,
                offset,
                syms,
                slots,
                relas,
                0,
                start,
            );
            let next = link::with_data(l, idx, st.data);
            link::elf_laws::lemma_entries_len(arch, vaddr, offset, syms, slots, relas, 0, start);
            if idx == s {
                assert(leaves_byte(arch, l, file, sections, names, offs, i as int, s, b));
                assert(link::elf_laws::relocates(l, names, sections[i as int], s));
                assert(relas_in(file, sections, i as int) == relas);
                lemma_entries_keep(arch, vaddr, offset, syms, slots, relas, 0, start, b);
            }
            assert(next.sections[s].data.len() == l.sections[s].data.len());
            assert(next.sections[s].data[b] == l.sections[s].data[b]);
            if error is None {
                assert forall|r: int| i + 1 <= r < sections.len() implies #[trigger] leaves_byte(
                    arch,
                    next,
                    file,
                    sections,
                    names,
                    offs,
                    r,
                    s,
                    b,
                ) by {
                    assert(leaves_byte(arch, l, file, sections, names, offs, r, s, b));
                }
                lemma_sections_keep_byte(
                    arch,
                    next,
                    st.upper,
                    file,
                    sections,
                    names,
                    syms,
                    slots,
                    offs,
                    i + 1,
                    s,
                    b,
                );
            }
        }
    }
}

/// Whether the relocation `k` of the section `r` changes bytes of the section `s` of a layout that
/// no later relocation of the object changes.
pub open spec fn is_last_change(
    arch: TargetArch,
    l: LayoutModel,
    file: Seq<u8>,
    sections: Seq<SectionHeader>,
    names: Seq<Seq<char>>,
    offs: Map<Seq<char>, u64>,
    r: int,
    k: int,
    s: int,
) -> bool {
    let offset = relocate::offset_of(
        offs,
        relocate::name_or_empty(names, sections[r].sh_info as int),
    );
    let relas = relas_in(file, sections, r);
    &&& 0 <= r < sections.len()
    &&& link::elf_laws::relocates(l, names, sections[r], s)
    &&& 0 <= k < relas.len()
    &&& forall|j: int|
        k < j < relas.len() ==> apart_from(arch, offset, relas[k], #[trigger] relas[j])
    &&& forall|q: int, b: int|
        r < q < sections.len() && touches(arch, offset, relas[k], b) ==> #[trigger] leaves_byte(
            arch,
            l,
            file,
            sections,
            names,
            offs,
            q,
            s,
            b,
        )
}

proof fn lemma_sections_effect(
    arch: TargetArch,
    l: LayoutModel,
    upper: Map<u64, u64>,
    file: Seq<u8>,
    sections: Seq<SectionHeader>,
    names: Seq<Seq<char>>,
    syms: Seq<Option<u64>>,
    slots: Seq<Option<u64>>,
    offs: Map<Seq<char>, u64>,
    i: nat,
    r: int,
    k: int,
    s: int,
) -> (before: RelaState)
    requires
        link::names_in_range(l),
        0 <= s < l.sections.len(),
        i <= r,
        is_last_change(arch, l, file, sections, names, offs, r, k, s),
        relocate::relocated_sections(
            arch,
            l,
            upper,
            file,
            sections,
            names,
            syms,
            slots,
            offs,
            i,
        ).1 is None,
    ensures
        ({
            let done = relocate::relocated_sections(
                arch,
                l,
                upper,
                file,
                sections,
                names,
                syms,
                slots,
                offs,
                i,
            ).0;
            &&& s < done.sections.len()
            &&& holds_effect(
                arch,
                l.sections[s].vaddr,
                relocate::offset_of(
                    offs,
                    relocate::name_or_empty(names, sections[r].sh_info as int),
                ),
                syms,
                slots,
                relas_in(file, sections, r)[k],
                before,
                done.sections[s].data,
            )
        }),
    decreases sections.len() - i,
{
    let sh = sections[i as int];
    let name = relocate::name_or_empty(names, sh.sh_info as int);
    if sh.sh_type != SHT_RELA || !l.by_name.dom().contains(name) {
        lemma_sections_effect(
            arch,
            l,
            upper,
            file,
            sections,
            names,
            syms,
            slots,
            offs,
            i + 1,
            r,
            k,
            s,
        )
    } else {
        let relas = crate::elf::relas_of(file, sh)->Ok_0;
        let idx = l.by_name[name] as int;
        let offset = relocate::offset_of(offs, name);
        let start = RelaState { data: l.sections[idx].data, upper };
        let vaddr = l.sections[idx].vaddr;
        let (st, error) = relocate::relocated_entries(
            arch,
            vaddr,
            offset,
            syms,
            slots,
            relas,
            0,
            start,
        );
        let next = link::with_data(l, idx, st.data);
        assert(error is None);
        link::elf_laws::lemma_entries_len(arch, vaddr, offset, syms, slots, relas, 0, start);
        assert forall|q: int, b: int|
            leaves_byte(arch, l, file, sections, names, offs, q, s, b)
                == #[trigger] leaves_byte(arch, next, file, sections, names, offs, q, s, b) by {}
        if i < r {
            lemma_sections_effect(
                arch,
                next,
                st.upper,
                file,
                sections,
                names,
                syms,
                slots,
                offs,
                i + 1,
                r,
                k,
                s,
            )
        } else {
            let before = lemma_entries_effect(
                arch,
                vaddr,
                offset,
                syms,
                slots,
                relas,
                0,
                start,
                k,
            );
            let done = relocate::relocated_sections(
                arch,
                next,
                st.upper,
                file,
                sections,
                names,
                syms,
                slots,
                offs,
                i + 1,
            ).0;
            link::elf_laws::lemma_sections_shape(
                arch,
                next,
                st.upper,
                file,
                sections,
                names,
                syms,
                slots,
                offs,
                i + 1,
            );
            assert(done.sections[s].data.len() == st.data.len());
            assert forall|b: int|
                0 <= b < st.data.len() && touches(arch, offset, relas[k], b) implies #[trigger]
            done.sections[s].data[b] == st.data[b] by {
                assert forall|q: int| i + 1 <= q < sections.len() implies #[trigger] leaves_byte(
                    arch,
                    next,
                    file,
                    sections,
                    names,
                    offs,
                    q,
                    s,
                    b,
                ) by {
                    assert(leaves_byte(arch, l, file, sections, names, offs, q, s, b));
                }
                lemma_sections_keep_byte(
                    arch,
                    next,
                    st.upper,
                    file,
                    sections,
                    names,
                    syms,
                    slots,
                    offs,
                    i + 1,
                    s,
                    b,
                );
            }
            before
        }
    }
}

/// Every relocation of an object takes effect: where no later one changes the same bytes, the
/// section holds at its place what the relocation stores.
pub proof fn law_relocations_take_effect(
    arch: TargetArch,
    l: LayoutModel,
    file: Seq<u8>,
    sections: Seq<SectionHeader>,
    names: Seq<Seq<char>>,
    syms: Seq<Option<u64>>,
    slots: Seq<Option<u64>>,
    offs: Map<Seq<char>, u64>,
    r: int,
    k: int,
    s: int,
)
    requires
        link::names_in_range(l),
        0 <= s < l.sections.len(),
        is_last_change(arch, l, file, sections, names, offs, r, k, s),
        relocate::relocated_layout(
            arch,
            l,
            file,
            sections,
            names,
            syms,
            slots,
            offs,
        ).1 is None,
    ensures
        exists|before: RelaState| #[trigger]
            holds_effect(
                arch,
                l.sections[s].vaddr,
                relocate::offset_of(
                    offs,
                    relocate::name_or_empty(names, sections[r].sh_info as int),
                ),
                syms,
                slots,
                relas_in(file, sections, r)[k],
                before,
                relocate::relocated_layout(
                    arch,
                    l,
                    file,
                    sections,
                    names,
                    syms,
                    slots,
                    offs,
                ).0.sections[s].data,
            ),
{
    let before = lemma_sections_effect(
        arch,
        l,
        Map::empty(),
        file,
        sections,
        names,
        syms,
        slots,
        offs,
        0,
        r,
        k,
        s,
    );
}

/// What x86-64 code and data refer to after all relocations of an object: an absolute relocation
/// leaves the address of its symbol plus the addend, and one that is relative to its place leads
/// there, or to the slot of the symbol, if that is less than 2 GiB away.
pub proof fn law_x86_64_relocations_take_effect(
    l: LayoutModel,
    file: Seq<u8>,
    sections: Seq<SectionHeader>,
    names: Seq<Seq<char>>,
    syms: Seq<Option<u64>>,
    slots: Seq<Option<u64>>,
    offs: Map<Seq<char>, u64>,
    r: int,
    k: int,
    s: int,
)
    requires
        link::names_in_range(l),
        0 <= s < l.sections.len(),
        is_last_change(TargetArch::X86_64, l, file, sections, names, offs, r, k, s),
        relocate::relocated_layout(
            TargetArch::X86_64,
            l,
            file,
            sections,
            names,
            syms,
            slots,
            offs,
        ).1 is None,
    ensures
        ({
            let d = relocate::relocated_layout(
                TargetArch::X86_64,
                l,
                file,
                sections,
                names,
                syms,
                slots,
                offs,
            ).0.sections[s].data;
            let rel = relas_in(file, sections, r)[k];
            let offset = relocate::offset_of(
                offs,
                relocate::name_or_empty(names, sections[r].sh_info as int),
            );
            x86_64_refers(l.sections[s].vaddr, offset, syms, slots, rel, d)
        }),
{
    let arch = TargetArch::X86_64;
    let d = relocate::relocated_layout(
        arch,
        l,
        file,
        sections,
        names,
        syms,
        slots,
        offs,
    ).0.sections[s].data;
    let rel = relas_in(file, sections, r)[k];
    let offset = relocate::offset_of(
        offs,
        relocate::name_or_empty(names, sections[r].sh_info as int),
    );
    let vaddr = l.sections[s].vaddr;
    law_relocations_take_effect(arch, l, file, sections, names, syms, slots, offs, r, k, s);
    let before = choose|before: RelaState| #[trigger]
        holds_effect(arch, vaddr, offset, syms, slots, rel, before, d);
    lemma_x86_64_refers(vaddr, offset, syms, slots, rel, before, d);
}

/// Whether some x86-64 code or data refers to what a relocation says.
pub open spec fn x86_64_refers(
    vaddr: u64,
    offset: u64,
    syms: Seq<Option<u64>>,
    slots: Seq<Option<u64>>,
    rel: RelaEntry,
    d: Seq<u8>,
) -> bool {
    let off = reloc_laws::patch_offset(offset, rel) as int;
    let place = reloc_laws::patch_address(vaddr, offset, rel);
    let symbol = reloc_laws::symbol_address(syms, rel.r_sym);
    let target = symbol->0.wrapping_add_signed(rel.r_addend);
    let slot = reloc_laws::symbol_address(slots, rel.r_sym);
    let through = slot->0.wrapping_add_signed(rel.r_addend);
    &&& rel.r_type == R_X86_64_64 ==> symbol is Some && bytes::u64_at(d, off) == target
    &&& rel.r_type == R_X86_64_32 ==> symbol is Some && bytes::u32_at(d, off) == target as u32
    &&& rel.r_type == R_X86_64_PC32 ==> symbol is Some && (-0x8000_0000 <= target - place
        < 0x8000_0000 ==> place + bytes::signed32(bytes::u32_at(d, off)) == target)
    &&& rel.r_type == R_X86_64_GOTPCREL ==> slot is Some && (-0x8000_0000 <= through - place
        < 0x8000_0000 ==> place + bytes::signed32(bytes::u32_at(d, off)) == through)
}

proof fn lemma_x86_64_refers(
    vaddr: u64,
    offset: u64,
    syms: Seq<Option<u64>>,
    slots: Seq<Option<u64>>,
    rel: RelaEntry,
    before: RelaState,
    d: Seq<u8>,
)
    requires
        holds_effect(TargetArch::X86_64, vaddr, offset, syms, slots, rel, before, d),
    ensures
        x86_64_refers(vaddr, offset, syms, slots, rel, d),
{
    let r = relocate::relocated_entry(
        TargetArch::X86_64,
        vaddr,
        offset,
        syms,
        slots,
        rel,
        before,
    )->Ok_0;
    let off = reloc_laws::patch_offset(offset, rel) as int;
    reloc_laws::law_x86_64_relocation_refers_to_symbol(
        vaddr,
        offset,
        syms,
        slots,
        rel,
        before.data,
    );
    lemma_stored_in_section(vaddr, offset, syms, slots, rel, before.data);
    if rel.r_type == R_X86_64_64 {
        bytes::lemma_same_u64(d, off, r.data, off);
    } else if rel.r_type == R_X86_64_32 || rel.r_type == R_X86_64_PC32 || rel.r_type
        == R_X86_64_GOTPCREL {
        bytes::lemma_same_u32(d, off, r.data, off);
    }
}

proof fn lemma_stored_in_section(
    vaddr: u64,
    offset: u64,
    syms: Seq<Option<u64>>,
    slots: Seq<Option<u64>>,
    rel: RelaEntry,
    data: Seq<u8>,
)
    requires
        x86_64::relocated_x86_64(vaddr, offset, syms, slots, rel, data) is Ok,
    ensures
        rel.r_type == R_X86_64_64 ==> reloc_laws::patch_offset(offset, rel) + 8 <= data.len(),
        rel.r_type == R_X86_64_32 || rel.r_type == R_X86_64_PC32 || rel.r_type
            == R_X86_64_GOTPCREL ==> reloc_laws::patch_offset(offset, rel) + 4 <= data.len(),
{
    broadcast use bytes::group_le_len;
}

/// Whether the symbols of an object have their addresses: their own, or else those of their names.
pub open spec fn addresses_are_complete(
    syms: Seq<Option<u64>>,
    own: Seq<Option<u64>>,
    symbols: Seq<Seq<char>>,
    names: Map<Seq<char>, u64>,
) -> bool {
    &&& syms.len() == own.len()
    &&& forall|i: int|
        0 <= i < own.len() && own[i] is Some ==> #[trigger] syms[i] == own[i]
    &&& forall|i: int|
        0 <= i < own.len() && own[i] is None && i < symbols.len() && names.dom().contains(
            symbols[i],
        ) ==> #[trigger] syms[i] == Some(names[symbols[i]])
}

/// Whether the symbols of an object have the slots of their names.
pub open spec fn slots_are_complete(
    slots: Seq<Option<u64>>,
    symbols: Seq<Seq<char>>,
    by_name: Map<Seq<char>, u64>,
) -> bool {
    &&& slots.len() == symbols.len()
    &&& forall|i: int|
        0 <= i < symbols.len() && by_name.dom().contains(symbols[i]) ==> #[trigger] slots[i]
            == Some(by_name[symbols[i]])
}

/// Whether none of the relocations of the objects from `o` on changes the byte `b` of the section
/// `s`.
pub open spec fn objects_leave_byte(
    arch: TargetArch,
    l: LayoutModel,
    objects: Seq<ParsedModel>,
    parts: Seq<Map<Seq<char>, ObjectSectionContrib>>,
    o: int,
    s: int,
    b: int,
) -> bool {
    forall|q: int, r: int|
        o <= q < objects.len() && 0 <= r < objects[q].elf.sections.len() ==> #[trigger] leaves_byte(
            arch,
            l,
            objects[q].data,
            objects[q].elf.sections,
            objects[q].elf.names,
            elf_link::part_offsets(parts[q]),
            r,
            s,
            b,
        )
}

proof fn lemma_objects_keep_byte(
    objects: Seq<ParsedModel>,
    l: LayoutModel,
    parts: Seq<Map<Seq<char>, ObjectSectionContrib>>,
    addresses: Seq<Seq<Option<u64>>>,
    names: Map<Seq<char>, u64>,
    slots: Map<Seq<char>, u64>,
    arch: TargetArch,
    o: nat,
    s: int,
    b: int,
)
    requires
        link::names_in_range(l),
        0 <= s < l.sections.len(),
        0 <= b < l.sections[s].data.len(),
        objects_leave_byte(arch, l, objects, parts, o as int, s, b),
        elf_link::relocate_objects(objects, l, parts, addresses, names, slots, arch, o) is Ok,
    ensures
        ({
            let done = elf_link::relocate_objects(
                objects,
                l,
                parts,
                addresses,
                names,
                slots,
                arch,
                o,
            )->Ok_0;
            &&& s < done.sections.len()
            &&& done.sections[s].data.len() == l.sections[s].data.len()
            &&& done.sections[s].data[b] == l.sections[s].data[b]
        }),
    decreases objects.len() - o,
{
    if o < objects.len() {
        let obj = objects[o as int];
        let symbols = elf_symbols::symbol_names(obj.data, obj.elf.sections)->Ok_0;
        let offs = elf_link::part_offsets(parts[o as int]);
        let syms = elf_link::final_addresses(addresses[o as int], symbols, names);
        let usable = elf_link::usable_slots(arch, elf_link::slots_by_index(symbols, slots));
        let next = relocate::relocated_layout(
            arch,
            l,
            obj.data,
            obj.elf.sections,
            obj.elf.names,
            syms,
            usable,
            offs,
        ).0;
        link::elf_laws::law_relocations_keep_shape(
            arch,
            l,
            obj.data,
            obj.elf.sections,
            obj.elf.names,
            syms,
            usable,
            offs,
        );
        assert forall|r: int| 0 <= r < obj.elf.sections.len() implies #[trigger] leaves_byte(
            arch,
            l,
            obj.data,
            obj.elf.sections,
            obj.elf.names,
            offs,
            r,
            s,
            b,
        ) by {
            assert(leaves_byte(
                arch,
                l,
                objects[o as int].data,
                objects[o as int].elf.sections,
                objects[o as int].elf.names,
                elf_link::part_offsets(parts[o as int]),
                r,
                s,
                b,
            ));
        }
        lemma_sections_keep_byte(
            arch,
            l,
            Map::empty(),
            obj.data,
            obj.elf.sections,
            obj.elf.names,
            syms,
            usable,
            offs,
            0,
            s,
            b,
        );
        assert(objects_leave_byte(arch, next, objects, parts, o as int + 1, s, b)) by {
            assert forall|q: int, r: int|
                o + 1 <= q < objects.len() && 0 <= r
                    < objects[q].elf.sections.len() implies #[trigger] leaves_byte(
                arch,
                next,
                objects[q].data,
                objects[q].elf.sections,
                objects[q].elf.names,
                elf_link::part_offsets(parts[q]),
                r,
                s,
                b,
            ) by {
                assert(leaves_byte(
                    arch,
                    l,
                    objects[q].data,
                    objects[q].elf.sections,
                    objects[q].elf.names,
                    elf_link::part_offsets(parts[q]),
                    r,
                    s,
                    b,
                ));
            }
        }
        lemma_objects_keep_byte(
            objects,
            next,
            parts,
            addresses,
            names,
            slots,
            arch,
            o + 1,
            s,
            b,
        );
    }
}

proof fn lemma_objects_shape(
    objects: Seq<ParsedModel>,
    l: LayoutModel,
    parts: Seq<Map<Seq<char>, ObjectSectionContrib>>,
    addresses: Seq<Seq<Option<u64>>>,
    names: Map<Seq<char>, u64>,
    slots: Map<Seq<char>, u64>,
    arch: TargetArch,
    o: nat,
)
    requires
        link::names_in_range(l),
        elf_link::relocate_objects(objects, l, parts, addresses, names, slots, arch, o) is Ok,
    ensures
        link::same_shape(
            l,
            elf_link::relocate_objects(
                objects,
                l,
                parts,
                addresses,
                names,
                slots,
                arch,
                o,
            )->Ok_0,
        ),
    decreases objects.len() - o,
{
    if o < objects.len() {
        let obj = objects[o as int];
        let symbols = elf_symbols::symbol_names(obj.data, obj.elf.sections)->Ok_0;
        let offs = elf_link::part_offsets(parts[o as int]);
        let syms = elf_link::final_addresses(addresses[o as int], symbols, names);
        let usable = elf_link::usable_slots(arch, elf_link::slots_by_index(symbols, slots));
        let next = relocate::relocated_layout(
            arch,
            l,
            obj.data,
            obj.elf.sections,
            obj.elf.names,
            syms,
            usable,
            offs,
        ).0;
        link::elf_laws::law_relocations_keep_shape(
            arch,
            l,
            obj.data,
            obj.elf.sections,
            obj.elf.names,
            syms,
            usable,
            offs,
        );
        lemma_objects_shape(objects, next, parts, addresses, names, slots, arch, o + 1);
    }
}

/// Whether the relocation `k` of the section `r` of the object `o` changes bytes of the section
/// `s` of a layout that no later relocation changes, be it one of that object or of a later one.
pub open spec fn is_last_change_of_all(
    arch: TargetArch,
    l: LayoutModel,
    objects: Seq<ParsedModel>,
    parts: Seq<Map<Seq<char>, ObjectSectionContrib>>,
    o: int,
    r: int,
    k: int,
    s: int,
) -> bool {
    let obj = objects[o];
    let offs = elf_link::part_offsets(parts[o]);
    let offset = relocate::offset_of(
        offs,
        relocate::name_or_empty(obj.elf.names, obj.elf.sections[r].sh_info as int),
    );
    &&& 0 <= o < objects.len()
    &&& is_last_change(arch, l, obj.data, obj.elf.sections, obj.elf.names, offs, r, k, s)
    &&& forall|b: int|
        touches(arch, offset, relas_in(obj.data, obj.elf.sections, r)[k], b)
            ==> #[trigger] objects_leave_byte(arch, l, objects, parts, o + 1, s, b)
}

/// Whether a section holds what the relocation `k` of the section `r` of the object `o` stores,
/// with the addresses and the slots that the symbols of the object have.
pub open spec fn effect_is_held(
    objects: Seq<ParsedModel>,
    parts: Seq<Map<Seq<char>, ObjectSectionContrib>>,
    addresses: Seq<Seq<Option<u64>>>,
    names: Map<Seq<char>, u64>,
    slots: Map<Seq<char>, u64>,
    arch: TargetArch,
    o: int,
    r: int,
    k: int,
    vaddr: u64,
    data: Seq<u8>,
) -> bool {
    let obj = objects[o];
    let symbols = elf_symbols::symbol_names(obj.data, obj.elf.sections)->Ok_0;
    let offset = relocate::offset_of(
        elf_link::part_offsets(parts[o]),
        relocate::name_or_empty(obj.elf.names, obj.elf.sections[r].sh_info as int),
    );
    exists|syms: Seq<Option<u64>>, used: Seq<Option<u64>>, before: RelaState|
        {
            &&& addresses_are_complete(syms, addresses[o], symbols, names)
            &&& arch == TargetArch::X86_64 ==> slots_are_complete(used, symbols, slots)
            &&& #[trigger] holds_effect(
                arch,
                vaddr,
                offset,
                syms,
                used,
                relas_in(obj.data, obj.elf.sections, r)[k],
                before,
                data,
            )
        }
}

/// Every relocation of every object takes effect in the layout that linking gives: where no later
/// one changes the same bytes, the section holds at its place what the relocation stores for its
/// symbol, whose address is its own or that of its name.
pub proof fn law_linked_relocations_take_effect(
    objects: Seq<ParsedModel>,
    l: LayoutModel,
    parts: Seq<Map<Seq<char>, ObjectSectionContrib>>,
    addresses: Seq<Seq<Option<u64>>>,
    names: Map<Seq<char>, u64>,
    slots: Map<Seq<char>, u64>,
    arch: TargetArch,
    i: nat,
    o: int,
    r: int,
    k: int,
    s: int,
)
    requires
        link::names_in_range(l),
        0 <= s < l.sections.len(),
        i <= o,
        is_last_change_of_all(arch, l, objects, parts, o, r, k, s),
        elf_link::relocate_objects(objects, l, parts, addresses, names, slots, arch, i) is Ok,
    ensures
        effect_is_held(
            objects,
            parts,
            addresses,
            names,
            slots,
            arch,
            o,
            r,
            k,
            l.sections[s].vaddr,
            elf_link::relocate_objects(
                objects,
                l,
                parts,
                addresses,
                names,
                slots,
                arch,
                i,
            )->Ok_0.sections[s].data,
        ),
    decreases objects.len() - i,
{
    let obj = objects[i as int];
    let symbols = elf_symbols::symbol_names(obj.data, obj.elf.sections)->Ok_0;
    let offs = elf_link::part_offsets(parts[i as int]);
    let syms = elf_link::final_addresses(addresses[i as int], symbols, names);
    let used = elf_link::usable_slots(arch, elf_link::slots_by_index(symbols, slots));
    let next = relocate::relocated_layout(
        arch,
        l,
        obj.data,
        obj.elf.sections,
        obj.elf.names,
        syms,
        used,
        offs,
    ).0;
    link::elf_laws::law_relocations_keep_shape(
        arch,
        l,
        obj.data,
        obj.elf.sections,
        obj.elf.names,
        syms,
        used,
        offs,
    );
    lemma_same_names(arch, l, next, objects, parts, o, r, k, s);
    if i < o {
        law_linked_relocations_take_effect(
            objects,
            next,
            parts,
            addresses,
            names,
            slots,
            arch,
            i + 1,
            o,
            r,
            k,
            s,
        );
    } else {
        law_relocations_take_effect(
            arch,
            l,
            obj.data,
            obj.elf.sections,
            obj.elf.names,
            syms,
            used,
            offs,
            r,
            k,
            s,
        );
        lemma_effect_stays(
            objects,
            l,
            next,
            parts,
            addresses,
            names,
            slots,
            arch,
            i,
            r,
            k,
            s,
            syms,
            used,
        );
    }
}

/// What a relocation may change depends on the names of a layout alone.
proof fn lemma_same_names(
    arch: TargetArch,
    l: LayoutModel,
    next: LayoutModel,
    objects: Seq<ParsedModel>,
    parts: Seq<Map<Seq<char>, ObjectSectionContrib>>,
    o: int,
    r: int,
    k: int,
    s: int,
)
    requires
        l.by_name == next.by_name,
        is_last_change_of_all(arch, l, objects, parts, o, r, k, s),
    ensures
        is_last_change_of_all(arch, next, objects, parts, o, r, k, s),
{
    assert forall|q: int, t: int, b: int|
        0 <= q < objects.len() implies leaves_byte(
        arch,
        l,
        objects[q].data,
        objects[q].elf.sections,
        objects[q].elf.names,
        elf_link::part_offsets(parts[q]),
        t,
        s,
        b,
    ) == #[trigger] leaves_byte(
        arch,
        next,
        objects[q].data,
        objects[q].elf.sections,
        objects[q].elf.names,
        elf_link::part_offsets(parts[q]),
        t,
        s,
        b,
    ) by {}
    let obj = objects[o];
    let offs = elf_link::part_offsets(parts[o]);
    let offset = relocate::offset_of(
        offs,
        relocate::name_or_empty(obj.elf.names, obj.elf.sections[r].sh_info as int),
    );
    let rel = relas_in(obj.data, obj.elf.sections, r)[k];
    assert forall|q: int, b: int|
        r < q < obj.elf.sections.len() && touches(arch, offset, rel, b) implies #[trigger] leaves_byte(
        arch,
        next,
        obj.data,
        obj.elf.sections,
        obj.elf.names,
        offs,
        q,
        s,
        b,
    ) by {
        assert(leaves_byte(arch, l, obj.data, obj.elf.sections, obj.elf.names, offs, q, s, b));
    }
    assert forall|b: int| touches(arch, offset, rel, b) implies #[trigger] objects_leave_byte(
        arch,
        next,
        objects,
        parts,
        o + 1,
        s,
        b,
    ) by {
        assert(objects_leave_byte(arch, l, objects, parts, o + 1, s, b));
        assert forall|q: int, t: int|
            o + 1 <= q < objects.len() && 0 <= t
                < objects[q].elf.sections.len() implies #[trigger] leaves_byte(
            arch,
            next,
            objects[q].data,
            objects[q].elf.sections,
            objects[q].elf.names,
            elf_link::part_offsets(parts[q]),
            t,
            s,
            b,
        ) by {
            assert(leaves_byte(
                arch,
                l,
                objects[q].data,
                objects[q].elf.sections,
                objects[q].elf.names,
                elf_link::part_offsets(parts[q]),
                t,
                s,
                b,
            ));
        }
    }
}

proof fn lemma_effect_stays(
    objects: Seq<ParsedModel>,
    l: LayoutModel,
    next: LayoutModel,
    parts: Seq<Map<Seq<char>, ObjectSectionContrib>>,
    addresses: Seq<Seq<Option<u64>>>,
    names: Map<Seq<char>, u64>,
    slots: Map<Seq<char>, u64>,
    arch: TargetArch,
    o: nat,
    r: int,
    k: int,
    s: int,
    syms: Seq<Option<u64>>,
    used: Seq<Option<u64>>,
)
    requires
        o < objects.len(),
        link::names_in_range(l),
        link::same_shape(l, next),
        0 <= s < l.sections.len(),
        is_last_change_of_all(arch, next, objects, parts, o as int, r, k, s),
        elf_link::relocate_objects(
            objects,
            next,
            parts,
            addresses,
            names,
            slots,
            arch,
            o + 1,
        ) is Ok,
        ({
            let obj = objects[o as int];
            let symbols = elf_symbols::symbol_names(obj.data, obj.elf.sections)->Ok_0;
            &&& syms == elf_link::final_addresses(addresses[o as int], symbols, names)
            &&& used == elf_link::usable_slots(arch, elf_link::slots_by_index(symbols, slots))
            &&& exists|before: RelaState| #[trigger]
                holds_effect(
                    arch,
                    l.sections[s].vaddr,
                    relocate::offset_of(
                        elf_link::part_offsets(parts[o as int]),
                        relocate::name_or_empty(
                            obj.elf.names,
                            obj.elf.sections[r].sh_info as int,
                        ),
                    ),
                    syms,
                    used,
                    relas_in(obj.data, obj.elf.sections, r)[k],
                    before,
                    next.sections[s].data,
                )
        }),
    ensures
        effect_is_held(
            objects,
            parts,
            addresses,
            names,
            slots,
            arch,
            o as int,
            r,
            k,
            l.sections[s].vaddr,
            elf_link::relocate_objects(
                objects,
                next,
                parts,
                addresses,
                names,
                slots,
                arch,
                o + 1,
            )->Ok_0.sections[s].data,
        ),
{
    let obj = objects[o as int];
    let symbols = elf_symbols::symbol_names(obj.data, obj.elf.sections)->Ok_0;
    let offset = relocate::offset_of(
        elf_link::part_offsets(parts[o as int]),
        relocate::name_or_empty(obj.elf.names, obj.elf.sections[r].sh_info as int),
    );
    let rel = relas_in(obj.data, obj.elf.sections, r)[k];
    let vaddr = l.sections[s].vaddr;
    let data = next.sections[s].data;
    let before = choose|before: RelaState| #[trigger]
        holds_effect(arch, vaddr, offset, syms, used, rel, before, data);
    let done = elf_link::relocate_objects(
        objects,
        next,
        parts,
        addresses,
        names,
        slots,
        arch,
        o + 1,
    )->Ok_0;
    lemma_objects_shape(
        objects,
        next,
        parts,
        addresses,
        names,
        slots,
        arch,
        o + 1,
    );
    assert forall|b: int| 0 <= b < data.len() && touches(arch, offset, rel, b) implies #[trigger]
    done.sections[s].data[b] == data[b] by {
        assert(objects_leave_byte(arch, next, objects, parts, o as int + 1, s, b));
        lemma_objects_keep_byte(
            objects,
            next,
            parts,
            addresses,
            names,
            slots,
            arch,
            o + 1,
            s,
            b,
        );
    }
    assert(holds_effect(
        arch,
        vaddr,
        offset,
        syms,
        used,
        rel,
        before,
        done.sections[s].data,
    ));
    assert(addresses_are_complete(syms, addresses[o as int], symbols, names));
}

} // verus!

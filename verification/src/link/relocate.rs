//! What the relocations of the ELF architectures have in common.
use vstd::prelude::*;
use vstd::string::*;
use std::collections::HashMap;
use crate::arch::TargetArch;
use crate::bytes;
use crate::bytes::{has_bytes, offset_index, write_u32, write_u64};
use crate::elf::{RelaEntry, SHT_RELA, SectionHeader, parse_rela_section};
use crate::link;
use crate::link::{LayoutModel, MergedLayout, set_section_data, take_section_data};
use crate::link::aarch64;
use crate::link::aarch64::relocate_aarch64;
use crate::link::riscv;
use crate::link::riscv::relocate_riscv;
use crate::link::x86_64;
use crate::link::x86_64::relocate_x86_64;
use crate::model;
use crate::names::NameMap;
use crate::text;
use crate::text::with_number;

verus! {

broadcast use vstd::std_specs::hash::group_hash_axioms;

/// The address of the symbol with a given index, if it has one.
pub open spec fn addr_at(syms: Seq<Option<u64>>, r_sym: u32) -> Option<u64> {
    if r_sym < syms.len() {
        syms[r_sym as int]
    } else {
        None
    }
}

/// The address of the symbol with a given index, if it has one.
pub fn find_symbol(syms: &[Option<u64>], r_sym: u32) -> (r: Option<u64>)
    ensures
        r == addr_at(syms@, r_sym),
{
    let idx: usize = r_sym as usize;
    if idx < syms.len() {
        syms[idx]
    } else {
        None
    }
}

/// The message for a symbol without an address.
pub open spec fn undefined_index(r_sym: u32) -> Seq<char> {
    "undefined symbol index "@ + text::decimal(r_sym as nat)
}

/// The message for a place outside of the section.
pub open spec fn offset_out_of_bounds(r_offset: u64) -> Seq<char> {
    "relocation offset "@ + text::decimal(r_offset as nat) + " out of bounds"@
}

/// `data` with `b` at `off`, where there is room for it.
pub open spec fn stored_at(data: Seq<u8>, off: u64, b: Seq<u8>, r_offset: u64) -> Result<
    Seq<u8>,
    Seq<char>,
> {
    if data.len() < off + b.len() {
        Err(offset_out_of_bounds(r_offset))
    } else {
        Ok(bytes::patch(data, off as int, b))
    }
}

/// Writes the eight bytes of `v` at `off`.
pub fn store_u64(data: &mut Vec<u8>, off: u64, v: u64, r_offset: u64) -> (r: Result<(), String>)
    ensures
        match stored_at(old(data)@, off, bytes::le64(v), r_offset) {
            Ok(d) => r is Ok && final(data)@ == d,
            Err(e) => r is Err && r->Err_0@ == e && final(data)@ == old(data)@,
        },
{
    broadcast use bytes::group_le_len;
    let at: usize = offset_index(off);
    if !has_bytes(data.as_slice(), at, 8) {
        return Err(with_number("relocation offset ", r_offset, " out of bounds"));
    }
    write_u64(data, at, v);
    Ok(())
}

/// Writes the four bytes of `v` at `off`.
pub fn store_u32(data: &mut Vec<u8>, off: u64, v: u32, r_offset: u64) -> (r: Result<(), String>)
    ensures
        match stored_at(old(data)@, off, bytes::le32(v), r_offset) {
            Ok(d) => r is Ok && final(data)@ == d,
            Err(e) => r is Err && r->Err_0@ == e && final(data)@ == old(data)@,
        },
{
    broadcast use bytes::group_le_len;
    let at: usize = offset_index(off);
    if !has_bytes(data.as_slice(), at, 4) {
        return Err(with_number("relocation offset ", r_offset, " out of bounds"));
    }
    write_u32(data, at, v);
    Ok(())
}

/// The bytes of a section, and what the upper halves of split addresses leave for the lower ones.
pub struct RelaState {
    pub data: Seq<u8>,
    pub upper: Map<u64, u64>,
}

/// The state after the relocation `rel` in a section at `vaddr`, of which the object's part
/// starts at `offset`.
pub open spec fn relocated_entry(
    arch: TargetArch,
    vaddr: u64,
    offset: u64,
    syms: Seq<Option<u64>>,
    slots: Seq<Option<u64>>,
    rel: RelaEntry,
    st: RelaState,
) -> Result<RelaState, Seq<char>> {
    match arch {
        TargetArch::X86_64 => match x86_64::relocated_x86_64(vaddr, offset, syms, slots, rel,
            st.data) {
            Ok(data) => Ok(RelaState { data, ..st }),
            Err(e) => Err(e),
        },
        TargetArch::AArch64 => match aarch64::relocated_aarch64(vaddr, offset, syms, rel, st.data) {
            Ok(data) => Ok(RelaState { data, ..st }),
            Err(e) => Err(e),
        },
        TargetArch::RiscV => riscv::relocated_riscv(vaddr, offset, syms, rel, st),
    }
}

/// The state after the relocations from `i` on, and what stopped them.
pub open spec fn relocated_entries(
    arch: TargetArch,
    vaddr: u64,
    offset: u64,
    syms: Seq<Option<u64>>,
    slots: Seq<Option<u64>>,
    relas: Seq<RelaEntry>,
    i: nat,
    st: RelaState,
) -> (RelaState, Option<Seq<char>>)
    decreases relas.len() - i,
{
    if i >= relas.len() {
        (st, None)
    } else {
        match relocated_entry(arch, vaddr, offset, syms, slots, relas[i as int], st) {
            Ok(next) => relocated_entries(arch, vaddr, offset, syms, slots, relas, i + 1, next),
            Err(e) => (st, Some(e)),
        }
    }
}

/// The name of a section, empty where there is no such section.
pub open spec fn name_or_empty(names: Seq<Seq<char>>, i: int) -> Seq<char> {
    if 0 <= i < names.len() {
        names[i]
    } else {
        seq![]
    }
}

/// The offset under a name, or zero.
pub open spec fn offset_of(offs: Map<Seq<char>, u64>, name: Seq<char>) -> u64 {
    if offs.dom().contains(name) {
        offs[name]
    } else {
        0
    }
}

/// The layout after the relocation sections from `i` on, and what stopped them.
pub open spec fn relocated_sections(
    arch: TargetArch,
    l: LayoutModel,
    upper: Map<u64, u64>,
    file: Seq<u8>,
    sections: Seq<SectionHeader>,
    names: Seq<Seq<char>>,
    syms: Seq<Option<u64>>,
    slots: Seq<Option<u64>>,
    offs: Map<Seq<char>, u64>,
    i: nat,
) -> (LayoutModel, Option<Seq<char>>)
    decreases sections.len() - i,
{
    if i >= sections.len() {
        (l, None)
    } else {
        let sh = sections[i as int];
        let name = name_or_empty(names, sh.sh_info as int);
        if sh.sh_type != SHT_RELA || !l.by_name.dom().contains(name) {
            relocated_sections(arch, l, upper, file, sections, names, syms, slots, offs, i + 1)
        } else {
            let idx = l.by_name[name] as int;
            match crate::elf::relas_of(file, sh) {
                Err(e) => (l, Some(e)),
                Ok(relas) => {
                    let (st, error) = relocated_entries(
                        arch,
                        l.sections[idx].vaddr,
                        offset_of(offs, name),
                        syms,
                        slots,
                        relas,
                        0,
                        RelaState { data: l.sections[idx].data, upper },
                    );
                    let next = link::with_data(l, idx, st.data);
                    if error is Some {
                        (next, error)
                    } else {
                        relocated_sections(
                            arch,
                            next,
                            st.upper,
                            file,
                            sections,
                            names,
                            syms,
                            slots,
                            offs,
                            i + 1,
                        )
                    }
                },
            }
        }
    }
}

/// The layout `l` after the relocations of an object, and what stopped them. `offs` tells where
/// the object's part of each merged section starts, `slots` where the slot of each symbol in the
/// global offset table is.
pub open spec fn relocated_layout(
    arch: TargetArch,
    l: LayoutModel,
    file: Seq<u8>,
    sections: Seq<SectionHeader>,
    names: Seq<Seq<char>>,
    syms: Seq<Option<u64>>,
    slots: Seq<Option<u64>>,
    offs: Map<Seq<char>, u64>,
) -> (LayoutModel, Option<Seq<char>>) {
    relocated_sections(arch, l, Map::empty(), file, sections, names, syms, slots, offs, 0)
}

/// Whether a result and the layout that is left say what they should.
pub open spec fn relocation_outcome(
    r: Result<(), String>,
    left: LayoutModel,
    expected: (LayoutModel, Option<Seq<char>>),
) -> bool {
    &&& left == expected.0
    &&& match expected.1 {
        None => r is Ok,
        Some(e) => r is Err && r->Err_0@ == e,
    }
}

/// The offsets that are given, or none.
pub open spec fn offsets_view(offs: Option<&NameMap<u64>>) -> Map<Seq<char>, u64> {
    match offs {
        Some(m) => m@,
        None => Map::empty(),
    }
}

fn relocate_entry(
    arch: TargetArch,
    vaddr: u64,
    offset: u64,
    syms: &[Option<u64>],
    slots: &[Option<u64>],
    rel: &RelaEntry,
    data: &mut Vec<u8>,
    upper: &mut HashMap<u64, u64>,
) -> (r: Result<(), String>)
    ensures
        match relocated_entry(
            arch,
            vaddr,
            offset,
            syms@,
            slots@,
            *rel,
            (RelaState { data: old(data)@, upper: old(upper)@ }),
        ) {
            Ok(st) => r is Ok && final(data)@ == st.data && final(upper)@ == st.upper,
            Err(e) => r is Err && r->Err_0@ == e && final(data)@ == old(data)@,
        },
        final(data)@.len() == old(data)@.len(),
{
    match arch {
        TargetArch::X86_64 => relocate_x86_64(vaddr, offset, syms, slots, rel, data),
        TargetArch::AArch64 => relocate_aarch64(vaddr, offset, syms, rel, data),
        TargetArch::RiscV => relocate_riscv(vaddr, offset, syms, rel, data, upper),
    }
}

fn relocate_entries(
    arch: TargetArch,
    vaddr: u64,
    offset: u64,
    syms: &[Option<u64>],
    slots: &[Option<u64>],
    relas: &Vec<RelaEntry>,
    data: &mut Vec<u8>,
    upper: &mut HashMap<u64, u64>,
) -> (r: Result<(), String>)
    ensures
        ({
            let (st, error) = relocated_entries(
                arch,
                vaddr,
                offset,
                syms@,
                slots@,
                relas@,
                0,
                (RelaState { data: old(data)@, upper: old(upper)@ }),
            );
            &&& final(data)@ == st.data
            &&& match error {
                None => r is Ok && final(upper)@ == st.upper,
                Some(e) => r is Err && r->Err_0@ == e,
            }
        }),
        final(data)@.len() == old(data)@.len(),
{
    let ghost total = relocated_entries(
        arch,
        vaddr,
        offset,
        syms@,
        slots@,
        relas@,
        0,
        RelaState { data: data@, upper: upper@ },
    );
    let mut i: usize = 0;
    while i < relas.len()
        invariant
            i <= relas@.len(),
            data@.len() == old(data)@.len(),
            total == relocated_entries(
                arch,
                vaddr,
                offset,
                syms@,
                slots@,
                relas@,
                0,
                RelaState { data: old(data)@, upper: old(upper)@ },
            ),
            total == relocated_entries(
                arch,
                vaddr,
                offset,
                syms@,
                slots@,
                relas@,
                i as nat,
                RelaState { data: data@, upper: upper@ },
            ),
        decreases relas@.len() - i,
    {
        match relocate_entry(arch, vaddr, offset, syms, slots, &relas[i], data, upper) {
            Ok(_) => {},
            Err(e) => {
                return Err(e);
            },
        }
        i = i + 1;
    }
    Ok(())
}

/// Applies the relocations of an object to the layout that its sections were merged into.
pub fn apply_rela_sections(
    arch: TargetArch,
    layout: &mut MergedLayout,
    file: &[u8],
    sections: &[SectionHeader],
    names: &[String],
    syms: &[Option<u64>],
    slots: &[Option<u64>],
    offs: Option<&NameMap<u64>>,
) -> (r: Result<(), String>)
    requires
        link::names_in_range(old(layout)@),
    ensures
        relocation_outcome(
            r,
            final(layout)@,
            relocated_layout(
                arch,
                old(layout)@,
                file@,
                sections@,
                model::views(names@),
                syms@,
                slots@,
                offsets_view(offs),
            ),
        ),
        link::layout_ok(old(layout)@) ==> link::layout_ok(final(layout)@),
        link::names_in_range(final(layout)@),
{
    let ghost total = relocated_layout(
        arch,
        layout@,
        file@,
        sections@,
        model::views(names@),
        syms@,
        slots@,
        offsets_view(offs),
    );
    let mut upper: HashMap<u64, u64> = HashMap::new();
    let mut i: usize = 0;
    while i < sections.len()
        invariant
            i <= sections@.len(),
            link::names_in_range(layout@),
            link::layout_ok(old(layout)@) ==> link::layout_ok(layout@),
            total == relocated_layout(
                arch,
                old(layout)@,
                file@,
                sections@,
                model::views(names@),
                syms@,
                slots@,
                offsets_view(offs),
            ),
            total == relocated_sections(
                arch,
                layout@,
                upper@,
                file@,
                sections@,
                model::views(names@),
                syms@,
                slots@,
                offsets_view(offs),
                i as nat,
            ),
        decreases sections@.len() - i,
    {
        let sh = &sections[i];
        if sh.sh_type == SHT_RELA {
            let info: usize = sh.sh_info as usize;
            let name = if info < names.len() {
                names[info].clone()
            } else {
                String::new()
            };
            assert(name@ =~= name_or_empty(model::views(names@), sh.sh_info as int));
            let found: Option<usize> = match layout.section_by_name.get(name.as_str()) {
                Some(k) => Some(*k),
                None => None,
            };
            if let Some(idx) = found {
                assert(layout@.by_name.dom().contains(name@));
                assert(layout@.sections[idx as int] == layout.sections@[idx as int]@);
                let relas = match parse_rela_section(file, sh) {
                    Ok(v) => v,
                    Err(e) => {
                        return Err(e);
                    },
                };
                let offset: u64 = match offs {
                    Some(m) => match m.get(name.as_str()) {
                        Some(o) => *o,
                        None => 0,
                    },
                    None => 0,
                };
                let vaddr: u64 = layout.sections[idx].vaddr;
                let ghost before = layout@;
                let mut data = take_section_data(layout, idx);
                let done = relocate_entries(
                    arch,
                    vaddr,
                    offset,
                    syms,
                    slots,
                    &relas,
                    &mut data,
                    &mut upper,
                );
                proof {
                    if link::layout_ok(before) {
                        link::lemma_with_data_ok(before, idx as int, data@);
                    }
                    link::lemma_with_data_twice(before, idx as int, seq![], data@);
                }
                set_section_data(layout, idx, data);
                match done {
                    Ok(_) => {},
                    Err(e) => {
                        return Err(e);
                    },
                }
            }
        }
        i = i + 1;
    }
    Ok(())
}

} // verus!

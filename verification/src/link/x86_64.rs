//! The relocations of x86-64 objects.
use vstd::prelude::*;
use vstd::string::*;
use crate::arch::TargetArch;
use crate::bytes;
use crate::elf::{RelaEntry, SectionHeader};
use crate::elf::reloc_type::{
    R_X86_64_32, R_X86_64_64, R_X86_64_GOTPCREL, R_X86_64_NONE, R_X86_64_PC32, R_X86_64_RELATIVE,
};
use crate::link;
use crate::link::MergedLayout;
use crate::link::relocate;
use crate::link::relocate::{apply_rela_sections, find_symbol, store_u32, store_u64};
use crate::model;
use crate::names::NameMap;
use crate::text;
use crate::text::then_number;

verus! {

/// The bytes of a section at `vaddr`, of which the object's part starts at `offset`, after the
/// relocation `rel`.
pub open spec fn relocated_x86_64(
    vaddr: u64,
    offset: u64,
    syms: Seq<Option<u64>>,
    slots: Seq<Option<u64>>,
    rel: RelaEntry,
    data: Seq<u8>,
) -> Result<Seq<u8>, Seq<char>> {
    let off = offset.wrapping_add(rel.r_offset);
    let place = vaddr.wrapping_add(off);
    if rel.r_type == R_X86_64_NONE {
        Ok(data)
    } else if rel.r_type == R_X86_64_RELATIVE {
        relocate::stored_at(data, off, bytes::le64(vaddr.wrapping_add_signed(rel.r_addend)),
            rel.r_offset)
    } else if rel.r_type == R_X86_64_64 || rel.r_type == R_X86_64_32 || rel.r_type
        == R_X86_64_PC32 {
        match relocate::addr_at(syms, rel.r_sym) {
            None => Err(relocate::undefined_index(rel.r_sym)),
            Some(s) => {
                let target = s.wrapping_add_signed(rel.r_addend);
                relocate::stored_at(
                    data,
                    off,
                    if rel.r_type == R_X86_64_64 {
                        bytes::le64(target)
                    } else if rel.r_type == R_X86_64_32 {
                        bytes::le32(target as u32)
                    } else {
                        bytes::le32(target.wrapping_sub(place) as u32)
                    },
                    rel.r_offset,
                )
            },
        }
    } else if rel.r_type == R_X86_64_GOTPCREL && relocate::addr_at(slots, rel.r_sym) is Some {
        let target = relocate::addr_at(slots, rel.r_sym)->0.wrapping_add_signed(rel.r_addend);
        relocate::stored_at(data, off, bytes::le32(target.wrapping_sub(place) as u32), rel.r_offset)
    } else {
        Err("unsupported x86_64 relocation type "@ + text::decimal(rel.r_type as nat))
    }
}

/// Applies one relocation to the bytes of a section at `vaddr`.
pub fn relocate_x86_64(
    vaddr: u64,
    offset: u64,
    syms: &[Option<u64>],
    slots: &[Option<u64>],
    rel: &RelaEntry,
    data: &mut Vec<u8>,
) -> (r: Result<(), String>)
    ensures
        match relocated_x86_64(vaddr, offset, syms@, slots@, *rel, old(data)@) {
            Ok(d) => r is Ok && final(data)@ == d,
            Err(e) => r is Err && r->Err_0@ == e && final(data)@ == old(data)@,
        },
{
    let off: u64 = offset.wrapping_add(rel.r_offset);
    let place: u64 = vaddr.wrapping_add(off);
    if rel.r_type == R_X86_64_NONE {
        return Ok(());
    }
    if rel.r_type == R_X86_64_RELATIVE {
        return store_u64(
            data,
            off,
            vaddr.wrapping_add_signed(rel.r_addend),
            rel.r_offset,
        );
    }
    if rel.r_type == R_X86_64_64 || rel.r_type == R_X86_64_32 || rel.r_type == R_X86_64_PC32 {
        let target: u64 = match find_symbol(syms, rel.r_sym) {
            Some(s) => s.wrapping_add_signed(rel.r_addend),
            None => {
                return Err(then_number("undefined symbol index ", rel.r_sym as u64));
            },
        };
        if rel.r_type == R_X86_64_64 {
            store_u64(data, off, target, rel.r_offset)
        } else if rel.r_type == R_X86_64_32 {
            store_u32(data, off, target as u32, rel.r_offset)
        } else {
            store_u32(data, off, target.wrapping_sub(place) as u32, rel.r_offset)
        }
    } else if rel.r_type == R_X86_64_GOTPCREL {
        match find_symbol(slots, rel.r_sym) {
            Some(slot) => {
                let target: u64 = slot.wrapping_add_signed(rel.r_addend);
                store_u32(data, off, target.wrapping_sub(place) as u32, rel.r_offset)
            },
            None => Err(then_number("unsupported x86_64 relocation type ", rel.r_type as u64)),
        }
    } else {
        Err(then_number("unsupported x86_64 relocation type ", rel.r_type as u64))
    }
}

/// Applies the relocations of an object to the layout that its sections were merged into.
/// `got_entries` tells where the slot of each symbol in the global offset table is,
/// `section_offset` where the object's part of each merged section starts.
pub fn apply_relocations(
    layout: &mut MergedLayout,
    data: &[u8],
    sections: &[SectionHeader],
    names: &[String],
    symbol_addrs: &[Option<u64>],
    got_entries: &[Option<u64>],
    section_offset: Option<&NameMap<u64>>,
) -> (r: Result<(), String>)
    requires
        link::names_in_range(old(layout)@),
    ensures
        relocate::relocation_outcome(
            r,
            final(layout)@,
            relocate::relocated_layout(
                TargetArch::X86_64,
                old(layout)@,
                data@,
                sections@,
                model::views(names@),
                symbol_addrs@,
                got_entries@,
                relocate::offsets_view(section_offset),
            ),
        ),
        link::layout_ok(old(layout)@) ==> link::layout_ok(final(layout)@),
        link::names_in_range(final(layout)@),
{
    apply_rela_sections(
        TargetArch::X86_64,
        layout,
        data,
        sections,
        names,
        symbol_addrs,
        got_entries,
        section_offset,
    )
}

} // verus!

//! The relocations of AArch64 ELF objects.
use vstd::prelude::*;
use vstd::string::*;
use crate::arch::TargetArch;
use crate::bytes;
use crate::bytes::{offset_index, read_u32_le};
use crate::elf::{RelaEntry, SectionHeader};
use crate::elf::reloc_type::{
    R_AARCH64_ABS32, R_AARCH64_ABS64, R_AARCH64_ADD_ABS_LO12_NC, R_AARCH64_ADR_PREL_LO21,
    R_AARCH64_ADR_PREL_PG_HI21, R_AARCH64_CALL26, R_AARCH64_JUMP26, R_AARCH64_NONE,
    R_AARCH64_RELATIVE,
};
use crate::link;
use crate::link::MergedLayout;
use crate::link::relocate;
use crate::link::relocate::{apply_rela_sections, find_symbol, store_u32, store_u64};
use crate::model;
use crate::names::NameMap;
use crate::text;
use crate::text::then_number;

verus! {

/// The signed number that a word stands for.
pub open spec fn signed_word(v: u64) -> int {
    if v < 0x8000_0000_0000_0000 {
        v as int
    } else {
        v - 0x1_0000_0000_0000_0000
    }
}

/// A distance in bytes as a 26-bit distance in words, rounded towards zero.
pub open spec fn word_distance(d: u64) -> u32 {
    let q = if signed_word(d) >= 0 {
        signed_word(d) / 4
    } else {
        -((-signed_word(d)) / 4)
    };
    (q % 0x0400_0000) as u32
}

fn branch_words(d: u64) -> (r: u32)
    ensures
        r == word_distance(d),
{
    if d < 0x8000_0000_0000_0000 {
        ((d / 4) % 0x0400_0000) as u32
    } else {
        let m: u64 = (u64::MAX - d) + 1;
        let q: u64 = (m / 4) % 0x0400_0000;
        proof {
            let n = (m / 4) as int;
            assert((-n) % 0x0400_0000 == if n % 0x0400_0000
                == 0 { 0 } else { 0x0400_0000 - n % 0x0400_0000 });
        }
        if q == 0 {
            0
        } else {
            (0x0400_0000 - q) as u32
        }
    }
}

/// `insn` with a 21-bit immediate that is split into its two low bits and the others.
pub open spec fn with_split_immediate(insn: u32, val: u32) -> u32 {
    (insn & 0x9F00001F) | ((val & 3) << 29) | (((val >> 2) & 0x7FFFF) << 5)
}

/// What the instruction `insn` becomes for a target and a place.
pub open spec fn patched_aarch64(r_type: u32, insn: u32, target: u64, place: u64) -> u32 {
    if r_type == R_AARCH64_ADD_ABS_LO12_NC {
        (insn & !(0xFFFu32 << 10)) | (((target & 0xFFF) as u32) << 10)
    } else if r_type == R_AARCH64_ADR_PREL_LO21 {
        with_split_immediate(insn, (target.wrapping_sub(place) & 0x1FFFFF) as u32)
    } else if r_type == R_AARCH64_ADR_PREL_PG_HI21 {
        with_split_immediate(
            insn,
            ((target & !0xFFFu64).wrapping_sub(place & !0xFFFu64) & 0x1FFFFF) as u32,
        )
    } else {
        (insn & 0xFC000000) | word_distance(target.wrapping_sub(place))
    }
}

/// Whether a relocation patches an instruction.
pub open spec fn patches_instruction(r_type: u32) -> bool {
    r_type == R_AARCH64_ADD_ABS_LO12_NC || r_type == R_AARCH64_ADR_PREL_LO21 || r_type
        == R_AARCH64_ADR_PREL_PG_HI21 || r_type == R_AARCH64_CALL26 || r_type == R_AARCH64_JUMP26
}

/// The bytes of a section at `vaddr`, of which the object's part starts at `offset`, after the
/// relocation `rel`. A branch is patched at its offset in the object's section.
pub open spec fn relocated_aarch64(
    vaddr: u64,
    offset: u64,
    syms: Seq<Option<u64>>,
    rel: RelaEntry,
    data: Seq<u8>,
) -> Result<Seq<u8>, Seq<char>> {
    let off = offset.wrapping_add(rel.r_offset);
    let place = vaddr.wrapping_add(off);
    if rel.r_type == R_AARCH64_NONE {
        Ok(data)
    } else if rel.r_type == R_AARCH64_RELATIVE {
        relocate::stored_at(data, off, bytes::le64(vaddr.wrapping_add_signed(rel.r_addend)),
            rel.r_offset)
    } else if rel.r_type == R_AARCH64_ABS64 || rel.r_type == R_AARCH64_ABS32 || patches_instruction(
        rel.r_type,
    ) {
        match relocate::addr_at(syms, rel.r_sym) {
            None => Err(relocate::undefined_index(rel.r_sym)),
            Some(s) => {
                let target = s.wrapping_add_signed(rel.r_addend);
                if rel.r_type == R_AARCH64_ABS64 {
                    relocate::stored_at(data, off, bytes::le64(target), rel.r_offset)
                } else if rel.r_type == R_AARCH64_ABS32 {
                    relocate::stored_at(data, off, bytes::le32(target as u32), rel.r_offset)
                } else {
                    let at = if rel.r_type == R_AARCH64_CALL26 || rel.r_type == R_AARCH64_JUMP26 {
                        rel.r_offset
                    } else {
                        off
                    };
                    relocate::stored_at(
                        data,
                        at,
                        bytes::le32(patched_aarch64(rel.r_type, bytes::u32_at(data, at as int),
                            target, place)),
                        rel.r_offset,
                    )
                }
            },
        }
    } else {
        Err("unsupported AArch64 relocation type "@ + text::decimal(rel.r_type as nat))
    }
}

fn patch_aarch64(r_type: u32, insn: u32, target: u64, place: u64) -> (r: u32)
    ensures
        r == patched_aarch64(r_type, insn, target, place),
{
    if r_type == R_AARCH64_ADD_ABS_LO12_NC {
        (insn & !(0xFFFu32 << 10)) | (((target & 0xFFF) as u32) << 10)
    } else if r_type == R_AARCH64_ADR_PREL_LO21 {
        let val: u32 = (target.wrapping_sub(place) & 0x1FFFFF) as u32;
        (insn & 0x9F00001F) | ((val & 3) << 29) | (((val >> 2) & 0x7FFFF) << 5)
    } else if r_type == R_AARCH64_ADR_PREL_PG_HI21 {
        let val: u32 = ((target & !0xFFFu64).wrapping_sub(place & !0xFFFu64) & 0x1FFFFF) as u32;
        (insn & 0x9F00001F) | ((val & 3) << 29) | (((val >> 2) & 0x7FFFF) << 5)
    } else {
        (insn & 0xFC000000) | branch_words(target.wrapping_sub(place))
    }
}

/// Applies one relocation to the bytes of a section at `vaddr`.
pub fn relocate_aarch64(
    vaddr: u64,
    offset: u64,
    syms: &[Option<u64>],
    rel: &RelaEntry,
    data: &mut Vec<u8>,
) -> (r: Result<(), String>)
    ensures
        match relocated_aarch64(vaddr, offset, syms@, *rel, old(data)@) {
            Ok(d) => r is Ok && final(data)@ == d,
            Err(e) => r is Err && r->Err_0@ == e && final(data)@ == old(data)@,
        },
{
    broadcast use bytes::group_le_len;
    let off: u64 = offset.wrapping_add(rel.r_offset);
    let place: u64 = vaddr.wrapping_add(off);
    let t: u32 = rel.r_type;
    if t == R_AARCH64_NONE {
        return Ok(());
    }
    if t == R_AARCH64_RELATIVE {
        return store_u64(data, off, vaddr.wrapping_add_signed(rel.r_addend), rel.r_offset);
    }
    let branch: bool = t == R_AARCH64_CALL26 || t == R_AARCH64_JUMP26;
    if !(t == R_AARCH64_ABS64 || t == R_AARCH64_ABS32 || t == R_AARCH64_ADD_ABS_LO12_NC || t
        == R_AARCH64_ADR_PREL_LO21 || t == R_AARCH64_ADR_PREL_PG_HI21 || branch) {
        return Err(then_number("unsupported AArch64 relocation type ", t as u64));
    }
    let target: u64 = match find_symbol(syms, rel.r_sym) {
        Some(s) => s.wrapping_add_signed(rel.r_addend),
        None => {
            return Err(then_number("undefined symbol index ", rel.r_sym as u64));
        },
    };
    if t == R_AARCH64_ABS64 {
        store_u64(data, off, target, rel.r_offset)
    } else if t == R_AARCH64_ABS32 {
        store_u32(data, off, target as u32, rel.r_offset)
    } else {
        let at: u64 = if branch {
            rel.r_offset
        } else {
            off
        };
        assert(data.len() == data@.len());
        let insn: u32 = match read_u32_le(data.as_slice(), offset_index(at)) {
            Some(v) => v,
            None => 0,
        };
        store_u32(data, at, patch_aarch64(t, insn, target, place), rel.r_offset)
    }
}

/// Applies the relocations of an object to the layout that its sections were merged into.
/// `section_offset` tells where the object's part of each merged section starts.
pub fn apply_relocations(
    layout: &mut MergedLayout,
    data: &[u8],
    sections: &[SectionHeader],
    names: &[String],
    symbol_addrs: &[Option<u64>],
    section_offset: Option<&NameMap<u64>>,
) -> (r: Result<(), String>)
    requires
        link::names_in_range(old(layout)@),
    ensures
        relocate::relocation_outcome(
            r,
            final(layout)@,
            relocate::relocated_layout(
                TargetArch::AArch64,
                old(layout)@,
                data@,
                sections@,
                model::views(names@),
                symbol_addrs@,
                seq![],
                relocate::offsets_view(section_offset),
            ),
        ),
        link::layout_ok(old(layout)@) ==> link::layout_ok(final(layout)@),
        link::names_in_range(final(layout)@),
{
    let no_slots: Vec<Option<u64>> = Vec::new();
    apply_rela_sections(
        TargetArch::AArch64,
        layout,
        data,
        sections,
        names,
        symbol_addrs,
        no_slots.as_slice(),
        section_offset,
    )
}

} // verus!

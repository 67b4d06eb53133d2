//! The relocations of RISC-V ELF objects: absolute and PC-relative addresses,
//! branches, jumps, and pairs of instructions that share an address.
use vstd::prelude::*;
use vstd::string::*;
use std::collections::HashMap;
use crate::arch::TargetArch;
use crate::bytes;
use crate::bytes::{
    has_bytes, offset_index, push_u32, read_u32_le, write_bytes, write_u32, write_u64,
};
use crate::elf::{RelaEntry, SectionHeader};
use crate::elf::reloc_type::{
    R_RISCV_32, R_RISCV_64, R_RISCV_BRANCH, R_RISCV_CALL, R_RISCV_CALL_PLT, R_RISCV_HI20,
    R_RISCV_JAL, R_RISCV_LO12_I, R_RISCV_LO12_S, R_RISCV_NONE, R_RISCV_PCREL_HI20,
    R_RISCV_PCREL_LO12_I, R_RISCV_PCREL_LO12_S, R_RISCV_RELATIVE,
};
use crate::link;
use crate::link::MergedLayout;
use crate::link::relocate;
use crate::link::relocate::{RelaState, apply_rela_sections, find_symbol};
use crate::model;
use crate::names::NameMap;
use crate::text;
use crate::text::{push_decimal, push_hex, then_number, with_number};

verus! {

broadcast use vstd::std_specs::hash::group_hash_axioms;

/// `instr`, of the U type, with `imm20` in its bits 12 to 31.
pub open spec fn with_u_immediate(instr: u32, imm20: u32) -> u32 {
    (instr & 0x0000_0FFF) | ((imm20 & 0xF_FFFF) << 12)
}

/// `instr`, of the I type, with `imm12` in its bits 20 to 31.
pub open spec fn with_i_immediate(instr: u32, imm12: u32) -> u32 {
    (instr & 0x000F_FFFF) | ((imm12 & 0xFFF) << 20)
}

/// `instr`, of the S type, with the bits 5 to 11 of `imm12` in its bits 25 to 31 and the bits 0
/// to 4 in its bits 7 to 11.
pub open spec fn with_s_immediate(instr: u32, imm12: u32) -> u32 {
    (instr & 0x01FF_F07F) | (((imm12 & 0xFFF) >> 5) << 25) | (((imm12 & 0xFFF) & 0x1F) << 7)
}

/// `instr`, of the B type, with the 13-bit offset `o`: bit 12 in bit 31, bits 5 to 10 in bits 25
/// to 30, bits 1 to 4 in bits 8 to 11, bit 11 in bit 7.
pub open spec fn with_b_offset(instr: u32, o: u32) -> u32 {
    (instr & 0x01FF_F07F) | (((o >> 12) & 1) << 31) | (((o >> 5) & 0x3F) << 25) | (((o >> 1) & 0xF)
        << 8) | (((o >> 11) & 1) << 7)
}

/// `instr`, of the J type, with the 21-bit offset `o`: bit 20 in bit 31, bits 1 to 10 in bits 21
/// to 30, bit 11 in bit 20, bits 12 to 19 in bits 12 to 19.
pub open spec fn with_j_offset(instr: u32, o: u32) -> u32 {
    (instr & 0x0000_0FFF) | (((o >> 20) & 1) << 31) | (((o >> 1) & 0x3FF) << 21) | (((o >> 11) & 1)
        << 20) | (((o >> 12) & 0xFF) << 12)
}

/// `instr`, of the U type, with the immediate `imm20`.
pub fn patch_u_imm20(instr: u32, imm20: u32) -> (r: u32)
    ensures
        r == with_u_immediate(instr, imm20),
{
    (instr & 0x0000_0FFF) | ((imm20 & 0xF_FFFF) << 12)
}

/// `instr`, of the I type, with the immediate `imm12`.
pub fn patch_i_imm12(instr: u32, imm12: u32) -> (r: u32)
    ensures
        r == with_i_immediate(instr, imm12),
{
    (instr & 0x000F_FFFF) | ((imm12 & 0xFFF) << 20)
}

/// `instr`, of the S type, with the immediate `imm12`.
pub fn patch_s_imm12(instr: u32, imm12: u32) -> (r: u32)
    ensures
        r == with_s_immediate(instr, imm12),
{
    let imm: u32 = imm12 & 0xFFF;
    (instr & 0x01FF_F07F) | ((imm >> 5) << 25) | ((imm & 0x1F) << 7)
}

/// `instr`, of the B type, with the offset `o`.
pub fn patch_b_type(instr: u32, o: u32) -> (r: u32)
    ensures
        r == with_b_offset(instr, o),
{
    let imm12: u32 = (o >> 12) & 1;
    let imm11: u32 = (o >> 11) & 1;
    let imm10_5: u32 = (o >> 5) & 0x3F;
    let imm4_1: u32 = (o >> 1) & 0xF;
    (instr & 0x01FF_F07F) | (imm12 << 31) | (imm10_5 << 25) | (imm4_1 << 8) | (imm11 << 7)
}

/// `instr`, of the J type, with the offset `o`.
pub fn patch_j_type(instr: u32, o: u32) -> (r: u32)
    ensures
        r == with_j_offset(instr, o),
{
    let imm20: u32 = (o >> 20) & 1;
    let imm19_12: u32 = (o >> 12) & 0xFF;
    let imm11: u32 = (o >> 11) & 1;
    let imm10_1: u32 = (o >> 1) & 0x3FF;
    (instr & 0x0000_0FFF) | (imm20 << 31) | (imm10_1 << 21) | (imm11 << 20) | (imm19_12 << 12)
}

/// The upper part of a value whose lower part is added as a signed 12-bit number.
pub open spec fn upper_part(v: u64) -> u32 {
    ((v.wrapping_add(0x800) >> 12) & 0xF_FFFF) as u32
}

/// The lower 12 bits of a value.
pub open spec fn lower_part(v: u64) -> u32 {
    (v & 0xFFF) as u32
}

fn hi20(v: u64) -> (r: u32)
    ensures
        r == upper_part(v),
{
    ((v.wrapping_add(0x800) >> 12) & 0xF_FFFF) as u32
}

fn lo12(v: u64) -> (r: u32)
    ensures
        r == lower_part(v),
{
    (v & 0xFFF) as u32
}

/// The name that messages give to a relocation type.
pub open spec fn riscv_type_name(r_type: u32) -> Seq<char> {
    if r_type == R_RISCV_32 {
        "R_RISCV_32"@
    } else if r_type == R_RISCV_64 {
        "R_RISCV_64"@
    } else if r_type == R_RISCV_RELATIVE {
        "R_RISCV_RELATIVE"@
    } else if r_type == R_RISCV_BRANCH {
        "R_RISCV_BRANCH"@
    } else if r_type == R_RISCV_JAL {
        "R_RISCV_JAL"@
    } else if r_type == R_RISCV_CALL || r_type == R_RISCV_CALL_PLT {
        "R_RISCV_CALL"@
    } else if r_type == R_RISCV_PCREL_HI20 {
        "R_RISCV_PCREL_HI20"@
    } else if r_type == R_RISCV_PCREL_LO12_I {
        "R_RISCV_PCREL_LO12_I"@
    } else if r_type == R_RISCV_PCREL_LO12_S {
        "R_RISCV_PCREL_LO12_S"@
    } else if r_type == R_RISCV_HI20 {
        "R_RISCV_HI20"@
    } else if r_type == R_RISCV_LO12_I {
        "R_RISCV_LO12_I"@
    } else {
        "R_RISCV_LO12_S"@
    }
}

fn name_of_type(r_type: u32) -> (r: &'static str)
    ensures
        r@ == riscv_type_name(r_type),
{
    if r_type == R_RISCV_32 {
        "R_RISCV_32"
    } else if r_type == R_RISCV_64 {
        "R_RISCV_64"
    } else if r_type == R_RISCV_RELATIVE {
        "R_RISCV_RELATIVE"
    } else if r_type == R_RISCV_BRANCH {
        "R_RISCV_BRANCH"
    } else if r_type == R_RISCV_JAL {
        "R_RISCV_JAL"
    } else if r_type == R_RISCV_CALL || r_type == R_RISCV_CALL_PLT {
        "R_RISCV_CALL"
    } else if r_type == R_RISCV_PCREL_HI20 {
        "R_RISCV_PCREL_HI20"
    } else if r_type == R_RISCV_PCREL_LO12_I {
        "R_RISCV_PCREL_LO12_I"
    } else if r_type == R_RISCV_PCREL_LO12_S {
        "R_RISCV_PCREL_LO12_S"
    } else if r_type == R_RISCV_HI20 {
        "R_RISCV_HI20"
    } else if r_type == R_RISCV_LO12_I {
        "R_RISCV_LO12_I"
    } else {
        "R_RISCV_LO12_S"
    }
}

/// Whether a relocation type is known and refers to a symbol.
pub open spec fn refers_to_symbol(r_type: u32) -> bool {
    r_type == R_RISCV_32 || r_type == R_RISCV_64 || r_type == R_RISCV_BRANCH || r_type
        == R_RISCV_JAL || r_type == R_RISCV_CALL || r_type == R_RISCV_CALL_PLT || r_type
        == R_RISCV_PCREL_HI20 || r_type == R_RISCV_PCREL_LO12_I || r_type == R_RISCV_PCREL_LO12_S
        || r_type == R_RISCV_HI20 || r_type == R_RISCV_LO12_I || r_type == R_RISCV_LO12_S
}

/// Whether a relocation takes the lower part of what another one left.
pub open spec fn takes_lower_part(r_type: u32) -> bool {
    r_type == R_RISCV_PCREL_LO12_I || r_type == R_RISCV_PCREL_LO12_S
}

/// The value that a relocation works with: an address, or for those that count from their place
/// the distance to it.
pub open spec fn riscv_value(
    rel: RelaEntry,
    symbol: u64,
    place: u64,
    upper: Map<u64, u64>,
) -> Option<u64> {
    let target = symbol.wrapping_add_signed(rel.r_addend);
    let t = rel.r_type;
    if takes_lower_part(t) {
        if upper.dom().contains(symbol) {
            Some(upper[symbol])
        } else {
            None
        }
    } else if t == R_RISCV_BRANCH || t == R_RISCV_JAL || t == R_RISCV_CALL || t == R_RISCV_CALL_PLT
        || t == R_RISCV_PCREL_HI20 {
        Some(target.wrapping_sub(place))
    } else {
        Some(target)
    }
}

/// How many bytes a relocation covers.
pub open spec fn riscv_width(r_type: u32) -> int {
    if r_type == R_RISCV_64 || r_type == R_RISCV_RELATIVE || r_type == R_RISCV_CALL || r_type
        == R_RISCV_CALL_PLT {
        8
    } else {
        4
    }
}

/// The bytes that a relocation with the value `v` puts at `off`.
pub open spec fn riscv_bytes(r_type: u32, v: u64, data: Seq<u8>, off: int) -> Seq<u8> {
    let instr = bytes::u32_at(data, off);
    if r_type == R_RISCV_32 {
        bytes::le32(v as u32)
    } else if r_type == R_RISCV_64 || r_type == R_RISCV_RELATIVE {
        bytes::le64(v)
    } else if r_type == R_RISCV_BRANCH {
        bytes::le32(with_b_offset(instr, v as u32))
    } else if r_type == R_RISCV_JAL {
        bytes::le32(with_j_offset(instr, v as u32))
    } else if r_type == R_RISCV_CALL || r_type == R_RISCV_CALL_PLT {
        bytes::le32(with_u_immediate(instr, upper_part(v))) + bytes::le32(
            with_i_immediate(bytes::u32_at(data, off + 4), lower_part(v)),
        )
    } else if r_type == R_RISCV_PCREL_HI20 || r_type == R_RISCV_HI20 {
        bytes::le32(with_u_immediate(instr, upper_part(v)))
    } else if r_type == R_RISCV_PCREL_LO12_I || r_type == R_RISCV_LO12_I {
        bytes::le32(with_i_immediate(instr, lower_part(v)))
    } else {
        bytes::le32(with_s_immediate(instr, lower_part(v)))
    }
}

/// The state after a relocation with the value `v`.
pub open spec fn riscv_stored(r_type: u32, v: u64, off: u64, place: u64, st: RelaState) -> Result<
    RelaState,
    Seq<char>,
> {
    if st.data.len() < off + riscv_width(r_type) {
        Err(riscv_type_name(r_type) + ": offset "@ + text::decimal(off as nat) + " out of bounds"@)
    } else {
        Ok(
            RelaState {
                data: bytes::patch(st.data, off as int,
                    riscv_bytes(r_type, v, st.data, off as int)),
                upper: if r_type == R_RISCV_PCREL_HI20 {
                    st.upper.insert(place, v)
                } else {
                    st.upper
                },
            },
        )
    }
}

/// The state of a section at `vaddr`, of which the object's part starts at `offset`, after the
/// relocation `rel`.
pub open spec fn relocated_riscv(
    vaddr: u64,
    offset: u64,
    syms: Seq<Option<u64>>,
    rel: RelaEntry,
    st: RelaState,
) -> Result<RelaState, Seq<char>> {
    let off = offset.wrapping_add(rel.r_offset);
    let place = vaddr.wrapping_add(off);
    if rel.r_type == R_RISCV_NONE {
        Ok(st)
    } else if rel.r_type == R_RISCV_RELATIVE {
        riscv_stored(rel.r_type, vaddr.wrapping_add_signed(rel.r_addend), off, place, st)
    } else if !refers_to_symbol(rel.r_type) {
        Err("unsupported RISC-V relocation type "@ + text::decimal(rel.r_type as nat))
    } else {
        match relocate::addr_at(syms, rel.r_sym) {
            None => Err(
                "undefined symbol index "@ + text::decimal(rel.r_sym as nat)
                    + " for RISC-V relocation"@,
            ),
            Some(s) => match riscv_value(rel, s, place, st.upper) {
                None => Err(
                    riscv_type_name(rel.r_type) + ": no matching PCREL_HI20 at 0x"@
                        + text::hex(s as nat),
                ),
                Some(v) => riscv_stored(rel.r_type, v, off, place, st),
            },
        }
    }
}

fn store_riscv(
    r_type: u32,
    v: u64,
    off: u64,
    place: u64,
    data: &mut Vec<u8>,
    upper: &mut HashMap<u64, u64>,
) -> (r: Result<(), String>)
    requires
        r_type == R_RISCV_RELATIVE || refers_to_symbol(r_type),
    ensures
        match riscv_stored(
            r_type,
            v,
            off,
            place,
            (RelaState { data: old(data)@, upper: old(upper)@ }),
        ) {
            Ok(st) => r is Ok && final(data)@ == st.data && final(upper)@ == st.upper,
            Err(e) => r is Err && r->Err_0@ == e && final(data)@ == old(data)@ && final(upper)@
                == old(upper)@,
        },
        final(data)@.len() == old(data)@.len(),
{
    broadcast use bytes::group_le_len;
    let at: usize = offset_index(off);
    let width: usize = if r_type == R_RISCV_64 || r_type == R_RISCV_RELATIVE || r_type
        == R_RISCV_CALL || r_type == R_RISCV_CALL_PLT {
        8
    } else {
        4
    };
    if !has_bytes(data.as_slice(), at, width) {
        let mut msg = name_of_type(r_type).to_string();
        msg.append(": offset ");
        push_decimal(&mut msg, off);
        msg.append(" out of bounds");
        return Err(msg);
    }
    let instr: u32 = read_u32_le(data.as_slice(), at).unwrap();
    if r_type == R_RISCV_32 {
        write_u32(data, at, v as u32);
    } else if r_type == R_RISCV_64 || r_type == R_RISCV_RELATIVE {
        write_u64(data, at, v);
    } else if r_type == R_RISCV_BRANCH {
        write_u32(data, at, patch_b_type(instr, v as u32));
    } else if r_type == R_RISCV_JAL {
        write_u32(data, at, patch_j_type(instr, v as u32));
    } else if r_type == R_RISCV_CALL || r_type == R_RISCV_CALL_PLT {
        let jalr: u32 = read_u32_le(data.as_slice(), at + 4).unwrap();
        let mut pair: Vec<u8> = Vec::new();
        push_u32(&mut pair, patch_u_imm20(instr, hi20(v)));
        push_u32(&mut pair, patch_i_imm12(jalr, lo12(v)));
        assert(pair@ =~= riscv_bytes(r_type, v, data@, at as int));
        write_bytes(data, at, pair.as_slice());
    } else if r_type == R_RISCV_PCREL_HI20 {
        upper.insert(place, v);
        write_u32(data, at, patch_u_imm20(instr, hi20(v)));
    } else if r_type == R_RISCV_HI20 {
        write_u32(data, at, patch_u_imm20(instr, hi20(v)));
    } else if r_type == R_RISCV_PCREL_LO12_I || r_type == R_RISCV_LO12_I {
        write_u32(data, at, patch_i_imm12(instr, lo12(v)));
    } else {
        write_u32(data, at, patch_s_imm12(instr, lo12(v)));
    }
    Ok(())
}

/// Applies one relocation to the bytes of a section at `vaddr`.
pub fn relocate_riscv(
    vaddr: u64,
    offset: u64,
    syms: &[Option<u64>],
    rel: &RelaEntry,
    data: &mut Vec<u8>,
    upper: &mut HashMap<u64, u64>,
) -> (r: Result<(), String>)
    ensures
        match relocated_riscv(
            vaddr,
            offset,
            syms@,
            *rel,
            (RelaState { data: old(data)@, upper: old(upper)@ }),
        ) {
            Ok(st) => r is Ok && final(data)@ == st.data && final(upper)@ == st.upper,
            Err(e) => r is Err && r->Err_0@ == e && final(data)@ == old(data)@ && final(upper)@
                == old(upper)@,
        },
        final(data)@.len() == old(data)@.len(),
{
    let off: u64 = offset.wrapping_add(rel.r_offset);
    let place: u64 = vaddr.wrapping_add(off);
    let t: u32 = rel.r_type;
    if t == R_RISCV_NONE {
        return Ok(());
    }
    if t == R_RISCV_RELATIVE {
        return store_riscv(t, vaddr.wrapping_add_signed(rel.r_addend), off, place, data, upper);
    }
    let lower: bool = t == R_RISCV_PCREL_LO12_I || t == R_RISCV_PCREL_LO12_S;
    let from_place: bool = t == R_RISCV_BRANCH || t == R_RISCV_JAL || t == R_RISCV_CALL || t
        == R_RISCV_CALL_PLT || t == R_RISCV_PCREL_HI20;
    if !(lower || from_place || t == R_RISCV_32 || t == R_RISCV_64 || t == R_RISCV_HI20 || t
        == R_RISCV_LO12_I || t == R_RISCV_LO12_S) {
        return Err(then_number("unsupported RISC-V relocation type ", t as u64));
    }
    let symbol: u64 = match find_symbol(syms, rel.r_sym) {
        Some(s) => s,
        None => {
            return Err(
                with_number(
                    "undefined symbol index ",
                    rel.r_sym as u64,
                    " for RISC-V relocation",
                ),
            );
        },
    };
    let target: u64 = symbol.wrapping_add_signed(rel.r_addend);
    let value: u64 = if lower {
        match upper.get(&symbol) {
            Some(d) => *d,
            None => {
                let mut msg = name_of_type(t).to_string();
                msg.append(": no matching PCREL_HI20 at 0x");
                push_hex(&mut msg, symbol);
                return Err(msg);
            },
        }
    } else if from_place {
        target.wrapping_sub(place)
    } else {
        target
    };
    store_riscv(t, value, off, place, data, upper)
}

/// Applies the relocations of an object to the layout that its sections were merged into.
/// `section_offset` tells where the object's part of each merged section starts.
pub fn apply_relocations(
    layout: &mut MergedLayout,
    data: &[u8],
    sections: &[SectionHeader],
    names: &[String],
    symbol_addrs: &[Option<u64>],
    section_offset: Option<&NameMap<u64>>,
) -> (r: Result<(), String>)
    requires
        link::names_in_range(old(layout)@),
    ensures
        relocate::relocation_outcome(
            r,
            final(layout)@,
            relocate::relocated_layout(
                TargetArch::RiscV,
                old(layout)@,
                data@,
                sections@,
                model::views(names@),
                symbol_addrs@,
                seq![],
                relocate::offsets_view(section_offset),
            ),
        ),
        link::layout_ok(old(layout)@) ==> link::layout_ok(final(layout)@),
        link::names_in_range(final(layout)@),
{
    let no_slots: Vec<Option<u64>> = Vec::new();
    apply_rela_sections(
        TargetArch::RiscV,
        layout,
        data,
        sections,
        names,
        symbol_addrs,
        no_slots.as_slice(),
        section_offset,
    )
}

/// The signed number in the low 12 bits of a word.
pub open spec fn signed12(v: u32) -> u32 {
    if v & 0x800 != 0 {
        v | 0xFFFF_F000
    } else {
        v & 0xFFF
    }
}

/// The upper part shifted up, plus the lower part as a signed number, is the value modulo 2^32.
pub proof fn law_split_value(v: u64)
    ensures
        (upper_part(v) << 12).wrapping_add(signed12(lower_part(v))) == (v & 0xFFFF_FFFF) as u32,
{
    let w = (v & 0xFFFF_FFFF) as u32;
    let h = ((v.wrapping_add(0x800) >> 12) & 0xF_FFFF) as u32;
    let l = (v & 0xFFF) as u32;
    let s = v.wrapping_add(0x800);
    assert(s == v + 0x800 || s == v + 0x800 - 0x1_0000_0000_0000_0000);
    assert(l == w & 0xFFF && w as u64 == v & 0xFFFF_FFFF) by (bit_vector)
        requires
            w == (v & 0xFFFF_FFFF) as u32,
            l == (v & 0xFFF) as u32,
    ;
    let x = w.wrapping_add(0x800);
    let t = (s & 0xFFFF_FFFF) as u32;
    assert(x == t) by {
        assert((v & 0xFFFF_FFFF) == v % 0x1_0000_0000 && (s & 0xFFFF_FFFF) == s % 0x1_0000_0000)
            by (bit_vector);
    }
    let k = (w as u64 + 0x800u64) as u64;
    assert(t as u64 == k & 0xFFFF_FFFF) by {
        assert((k & 0xFFFF_FFFF) == k % 0x1_0000_0000) by (bit_vector);
    }
    assert(h == (t >> 12) & 0xF_FFFF) by (bit_vector)
        requires
            h == ((s >> 12) & 0xF_FFFF) as u32,
            t == (s & 0xFFFF_FFFF) as u32,
    ;
    if l & 0x800 != 0 {
        let y = l | 0xFFFF_F000;
        assert((h << 12) as u64 + y as u64 == w as u64 + 0x1_0000_0000u64 || (h << 12) as u64
            + y as u64
            == w as u64) by (bit_vector)
            requires
                h == (t >> 12) & 0xF_FFFF,
                t as u64 == k & 0xFFFF_FFFF,
                k == (w as u64 + 0x800u64) as u64,
                l == w & 0xFFF,
                l & 0x800 != 0,
                y == l | 0xFFFF_F000,
        ;
    } else {
        let y = l & 0xFFF;
        assert((h << 12) as u64 + y as u64 == w as u64) by (bit_vector)
            requires
                h == (t >> 12) & 0xF_FFFF,
                t as u64 == k & 0xFFFF_FFFF,
                k == (w as u64 + 0x800u64) as u64,
                l == w & 0xFFF,
                l & 0x800 == 0,
                y == l & 0xFFF,
        ;
    }
}

/// The offset that a branch instruction holds, modulo 2^32.
pub open spec fn b_offset(instr: u32) -> u32 {
    let o = (((instr >> 8) & 0xF) << 1) | (((instr >> 25) & 0x3F) << 5)
        | (((instr >> 7) & 1) << 11);
    if instr & 0x8000_0000 != 0 {
        o | 0xFFFF_F000
    } else {
        o
    }
}

/// The offset that a jump instruction holds, modulo 2^32.
pub open spec fn j_offset(instr: u32) -> u32 {
    let o = (((instr >> 21) & 0x3FF) << 1) | (((instr >> 20) & 1) << 11) | (instr & 0xF_F000);
    if instr & 0x8000_0000 != 0 {
        o | 0xFFF0_0000
    } else {
        o
    }
}

/// A branch goes where it is told to, if that is an even distance of less than 4 KiB, and keeps
/// its operation and registers.
pub proof fn law_branch_holds_offset(instr: u32, o: u32)
    requires
        o & 1 == 0,
        o < 0x1000 || o >= 0xFFFF_F000,
    ensures
        b_offset(with_b_offset(instr, o)) == o,
        with_b_offset(instr, o) & 0x01FF_F07F == instr & 0x01FF_F07F,
{
    let p = with_b_offset(instr, o);
    let d = (((p >> 8) & 0xF) << 1) | (((p >> 25) & 0x3F) << 5) | (((p >> 7) & 1) << 11);
    assert(p & 0x01FF_F07F == instr & 0x01FF_F07F && (o < 0x1000 ==> p & 0x8000_0000 == 0 && d == o)
        && (o >= 0xFFFF_F000 ==> p & 0x8000_0000 != 0 && (d | 0xFFFF_F000) == o)) by (bit_vector)
        requires
            p == (instr & 0x01FF_F07F) | (((o >> 12) & 1) << 31) | (((o >> 5) & 0x3F) << 25) | (((o
                >> 1) & 0xF) << 8) | (((o >> 11) & 1) << 7),
            d == (((p >> 8) & 0xF) << 1) | (((p >> 25) & 0x3F) << 5) | (((p >> 7) & 1) << 11),
            o & 1 == 0,
            o < 0x1000u32 || o >= 0xFFFF_F000u32,
    ;
}

/// A jump goes where it is told to, if that is an even distance of less than 1 MiB, and keeps its
/// operation and register.
pub proof fn law_jump_holds_offset(instr: u32, o: u32)
    requires
        o & 1 == 0,
        o < 0x10_0000 || o >= 0xFFF0_0000,
    ensures
        j_offset(with_j_offset(instr, o)) == o,
        with_j_offset(instr, o) & 0xFFF == instr & 0xFFF,
{
    let p = with_j_offset(instr, o);
    let d = (((p >> 21) & 0x3FF) << 1) | (((p >> 20) & 1) << 11) | (p & 0xF_F000);
    assert(p & 0xFFF == instr & 0xFFF && (o < 0x10_0000 ==> p & 0x8000_0000 == 0 && d == o) && (o
        >= 0xFFF0_0000 ==> p & 0x8000_0000 != 0 && (d | 0xFFF0_0000) == o)) by (bit_vector)
        requires
            p == (instr & 0x0000_0FFF) | (((o >> 20) & 1) << 31) | (((o >> 1) & 0x3FF) << 21) | (((o
                >> 11) & 1) << 20) | (((o >> 12) & 0xFF) << 12),
            d == (((p >> 21) & 0x3FF) << 1) | (((p >> 20) & 1) << 11) | (p & 0xF_F000),
            o & 1 == 0,
            o < 0x10_0000u32 || o >= 0xFFF0_0000u32,
    ;
}

/// An upper and a lower immediate are kept: the first in the upper 20 bits of an instruction, the
/// second in the upper 12, or split between them and the register field of a store.
pub proof fn law_immediates_are_kept(instr: u32, upper: u32, lower: u32)
    requires
        upper <= 0xF_FFFF,
        lower <= 0xFFF,
    ensures
        with_u_immediate(instr, upper) >> 12 == upper,
        with_u_immediate(instr, upper) & 0xFFF == instr & 0xFFF,
        with_i_immediate(instr, lower) >> 20 == lower,
        with_i_immediate(instr, lower) & 0xF_FFFF == instr & 0xF_FFFF,
        ((with_s_immediate(instr, lower) >> 25) << 5) | ((with_s_immediate(instr, lower) >> 7)
            & 0x1F) == lower,
        with_s_immediate(instr, lower) & 0x01FF_F07F == instr & 0x01FF_F07F,
{
    let u = with_u_immediate(instr, upper);
    let i = with_i_immediate(instr, lower);
    let s = with_s_immediate(instr, lower);
    assert(u >> 12 == upper && u & 0xFFF == instr & 0xFFF && i >> 20 == lower && i & 0xF_FFFF
        == instr & 0xF_FFFF && ((s >> 25) << 5) | ((s >> 7) & 0x1F) == lower && s & 0x01FF_F07F
        == instr & 0x01FF_F07F) by (bit_vector)
        requires
            u == (instr & 0x0000_0FFF) | ((upper & 0xF_FFFF) << 12),
            i == (instr & 0x000F_FFFF) | ((lower & 0xFFF) << 20),
            s == (instr & 0x01FF_F07F) | (((lower & 0xFFF) >> 5) << 25) | (((lower & 0xFFF) & 0x1F)
                << 7),
            upper <= 0xF_FFFFu32,
            lower <= 0xFFFu32,
    ;
}

} // verus!

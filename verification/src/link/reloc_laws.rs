//! What relocated code and data refer to.
use vstd::prelude::*;
use crate::bytes;
use crate::elf::RelaEntry;
use crate::elf::reloc_type::{
    R_AARCH64_ABS32, R_AARCH64_ABS64, R_AARCH64_ADD_ABS_LO12_NC, R_AARCH64_ADR_PREL_LO21,
    R_AARCH64_ADR_PREL_PG_HI21, R_AARCH64_CALL26, R_AARCH64_JUMP26, R_AARCH64_NONE,
    R_AARCH64_RELATIVE, R_RISCV_32, R_RISCV_64, R_RISCV_BRANCH, R_RISCV_CALL, R_RISCV_CALL_PLT,
    R_RISCV_HI20, R_RISCV_JAL, R_RISCV_LO12_I, R_RISCV_LO12_S, R_RISCV_NONE, R_RISCV_PCREL_HI20,
    R_RISCV_PCREL_LO12_I, R_RISCV_PCREL_LO12_S, R_RISCV_RELATIVE, R_X86_64_32, R_X86_64_64,
    R_X86_64_GOTPCREL, R_X86_64_NONE, R_X86_64_PC32, R_X86_64_RELATIVE,
};
use crate::link;
use crate::link::aarch64;
use crate::link::arm64;
use crate::link::macho_reloc;
use crate::link::macho_reloc::{RelocEnv, RelocValues};
use crate::link::relocate::RelaState;
use crate::link::riscv;
use crate::link::x86_64;
use crate::macho::{
    ARM64_RELOC_BRANCH26, ARM64_RELOC_GOT_LOAD_PAGE21, ARM64_RELOC_GOT_LOAD_PAGEOFF12,
    ARM64_RELOC_PAGE21, ARM64_RELOC_PAGEOFF12, ARM64_RELOC_TLVP_LOAD_PAGE21,
    GENERIC_RELOC_VANILLA, MachoReloc,
};

verus! {

/// A distance of less than 2 GiB is kept in 32 bits.
proof fn lemma_low_word(target: u64, place: u64)
    requires
        -0x8000_0000 <= target - place < 0x8000_0000,
    ensures
        place + bytes::signed32(target.wrapping_sub(place) as u32) == target,
{
    let x = target.wrapping_sub(place);
    let w = x as u32;
    assert((x < 0x8000_0000 ==> w as u64 == x) && (x >= 0xFFFF_FFFF_8000_0000 ==> w as u64 == x
        - 0xFFFF_FFFF_0000_0000)) by (bit_vector)
        requires
            w == x as u32,
    ;
}

/// Where the relocation `rel` of an object is applied in a section, of which the object's part
/// starts at `offset`.
pub open spec fn patch_offset(offset: u64, rel: RelaEntry) -> u64 {
    offset.wrapping_add(rel.r_offset)
}

/// The address at which the relocation `rel` is applied.
pub open spec fn patch_address(vaddr: u64, offset: u64, rel: RelaEntry) -> u64 {
    vaddr.wrapping_add(patch_offset(offset, rel))
}

/// The address of the symbol with the index `i`, if there is such a symbol and it has one.
pub open spec fn symbol_address(syms: Seq<Option<u64>>, i: u32) -> Option<u64> {
    if i < syms.len() {
        syms[i as int]
    } else {
        None
    }
}

/// What x86-64 code and data refer to after a relocation: an absolute one holds the address of
/// its symbol plus the addend, and one that is relative to its place leads there, or to the slot
/// of the symbol, if that is less than 2 GiB away.
pub proof fn law_x86_64_relocation_refers_to_symbol(
    vaddr: u64,
    offset: u64,
    syms: Seq<Option<u64>>,
    slots: Seq<Option<u64>>,
    rel: RelaEntry,
    data: Seq<u8>,
)
    requires
        x86_64::relocated_x86_64(vaddr, offset, syms, slots, rel, data) is Ok,
    ensures
        ({
            let d = x86_64::relocated_x86_64(vaddr, offset, syms, slots, rel, data)->Ok_0;
            let off = patch_offset(offset, rel) as int;
            let place = patch_address(vaddr, offset, rel);
            let symbol = symbol_address(syms, rel.r_sym);
            let target = symbol->0.wrapping_add_signed(rel.r_addend);
            let slot = symbol_address(slots, rel.r_sym);
            let through = slot->0.wrapping_add_signed(rel.r_addend);
            &&& rel.r_type == R_X86_64_NONE ==> d == data
            &&& rel.r_type == R_X86_64_RELATIVE ==> bytes::u64_at(d, off)
                == vaddr.wrapping_add_signed(rel.r_addend)
            &&& rel.r_type == R_X86_64_64 ==> symbol is Some && bytes::u64_at(d, off) == target
            &&& rel.r_type == R_X86_64_32 ==> symbol is Some && bytes::u32_at(d, off)
                == target as u32
            &&& rel.r_type == R_X86_64_PC32 ==> symbol is Some && (-0x8000_0000 <= target - place
                < 0x8000_0000 ==> place + bytes::signed32(bytes::u32_at(d, off)) == target)
            &&& rel.r_type == R_X86_64_GOTPCREL ==> slot is Some && (-0x8000_0000 <= through - place
                < 0x8000_0000 ==> place + bytes::signed32(bytes::u32_at(d, off)) == through)
        }),
{
    broadcast use bytes::group_le_len;
    let off = patch_offset(offset, rel) as int;
    let place = patch_address(vaddr, offset, rel);
    let target = symbol_address(syms, rel.r_sym)->0.wrapping_add_signed(rel.r_addend);
    let through = symbol_address(slots, rel.r_sym)->0.wrapping_add_signed(rel.r_addend);
    if rel.r_type == R_X86_64_RELATIVE {
        bytes::lemma_patched_u64(data, off, vaddr.wrapping_add_signed(rel.r_addend));
    } else if rel.r_type == R_X86_64_64 {
        bytes::lemma_patched_u64(data, off, target);
    } else if rel.r_type == R_X86_64_32 {
        bytes::lemma_patched_u32(data, off, target as u32);
    } else if rel.r_type == R_X86_64_PC32 {
        bytes::lemma_patched_u32(data, off, target.wrapping_sub(place) as u32);
        if -0x8000_0000 <= target - place < 0x8000_0000 {
            lemma_low_word(target, place);
        }
    } else if rel.r_type == R_X86_64_GOTPCREL {
        bytes::lemma_patched_u32(data, off, through.wrapping_sub(place) as u32);
        if -0x8000_0000 <= through - place < 0x8000_0000 {
            lemma_low_word(through, place);
        }
    }
}

/// An AArch64 branch leads to its target after its relocation, if that is a multiple of four
/// bytes and less than 128 MiB away, where the object's part is the first of the merged section.
pub proof fn law_aarch64_branch_leads_to_symbol(
    vaddr: u64,
    offset: u64,
    syms: Seq<Option<u64>>,
    rel: RelaEntry,
    data: Seq<u8>,
)
    requires
        offset == 0,
        aarch64::relocated_aarch64(vaddr, offset, syms, rel, data) is Ok,
        rel.r_type == R_AARCH64_CALL26 || rel.r_type == R_AARCH64_JUMP26,
    ensures
        ({
            let d = aarch64::relocated_aarch64(vaddr, offset, syms, rel, data)->Ok_0;
            let place = patch_address(vaddr, offset, rel);
            let symbol = symbol_address(syms, rel.r_sym);
            let target = symbol->0.wrapping_add_signed(rel.r_addend);
            symbol is Some && ((target - place) % 4 == 0 && arm64::branch_reaches(target, place)
                ==> place + arm64::branch_displacement(bytes::u32_at(d, rel.r_offset as int))
                == target)
        }),
{
    broadcast use bytes::group_le_len;
    let place = patch_address(vaddr, offset, rel);
    let target = symbol_address(syms, rel.r_sym)->0.wrapping_add_signed(rel.r_addend);
    let at = rel.r_offset as int;
    let insn = bytes::u32_at(data, at);
    let d = aarch64::relocated_aarch64(vaddr, offset, syms, rel, data)->Ok_0;
    let patched = aarch64::patched_aarch64(rel.r_type, insn, target, place);
    bytes::lemma_patched_u32(data, at, patched);
    if (target - place) % 4 == 0 && arm64::branch_reaches(target, place) {
        arm64::law_branch_reaches_target(insn, target, place);
        let x = target.wrapping_sub(place);
        let q = target - place;
        assert(aarch64::signed_word(x) == q);
        assert(aarch64::word_distance(x) == ((q / 4) % 0x0400_0000) as u32) by {
            if q < 0 {
                assert(-((-q) / 4) == q / 4) by (nonlinear_arith)
                    requires
                        q % 4 == 0,
                ;
            }
        }
    }
}

/// A RISC-V call, made of two instructions, leads to its target after its relocation: the upper
/// immediate of the first and the signed lower one of the second add up to the distance, modulo
/// 2^32.
pub proof fn law_riscv_call_leads_to_symbol(
    vaddr: u64,
    offset: u64,
    syms: Seq<Option<u64>>,
    rel: RelaEntry,
    st: RelaState,
)
    requires
        riscv::relocated_riscv(vaddr, offset, syms, rel, st) is Ok,
        rel.r_type == R_RISCV_CALL || rel.r_type == R_RISCV_CALL_PLT,
    ensures
        ({
            let d = riscv::relocated_riscv(vaddr, offset, syms, rel, st)->Ok_0.data;
            let off = patch_offset(offset, rel) as int;
            let place = patch_address(vaddr, offset, rel);
            let symbol = symbol_address(syms, rel.r_sym);
            let distance = symbol->0.wrapping_add_signed(rel.r_addend).wrapping_sub(place);
            let first = bytes::u32_at(d, off);
            let second = bytes::u32_at(d, off + 4);
            symbol is Some && ((first >> 12) << 12).wrapping_add(riscv::signed12(second >> 20)) == (
            distance & 0xFFFF_FFFF) as u32
        }),
{
    broadcast use bytes::group_le_len;
    let off = patch_offset(offset, rel) as int;
    let place = patch_address(vaddr, offset, rel);
    let v = symbol_address(syms, rel.r_sym)->0.wrapping_add_signed(rel.r_addend).wrapping_sub(
        place,
    );
    let a = riscv::with_u_immediate(bytes::u32_at(st.data, off), riscv::upper_part(v));
    let b = riscv::with_i_immediate(bytes::u32_at(st.data, off + 4), riscv::lower_part(v));
    let pair = bytes::le32(a) + bytes::le32(b);
    let d = bytes::patch(st.data, off, pair);
    assert(d.subrange(off, off + 4) =~= bytes::le32(a));
    assert(d.subrange(off + 4, off + 8) =~= bytes::le32(b));
    bytes::lemma_read_u32(d, off, a);
    bytes::lemma_read_u32(d, off + 4, b);
    lemma_parts_are_small(v);
    riscv::law_immediates_are_kept(
        bytes::u32_at(st.data, off),
        riscv::upper_part(v),
        riscv::lower_part(v),
    );
    riscv::law_immediates_are_kept(
        bytes::u32_at(st.data, off + 4),
        riscv::upper_part(v),
        riscv::lower_part(v),
    );
    riscv::law_split_value(v);
}

/// A RISC-V branch or jump leads to its target after its relocation, if that is an even distance
/// of less than 4 KiB, or 1 MiB.
pub proof fn law_riscv_branch_leads_to_symbol(
    vaddr: u64,
    offset: u64,
    syms: Seq<Option<u64>>,
    rel: RelaEntry,
    st: RelaState,
)
    requires
        riscv::relocated_riscv(vaddr, offset, syms, rel, st) is Ok,
        rel.r_type == R_RISCV_BRANCH || rel.r_type == R_RISCV_JAL,
    ensures
        ({
            let d = riscv::relocated_riscv(vaddr, offset, syms, rel, st)->Ok_0.data;
            let off = patch_offset(offset, rel) as int;
            let place = patch_address(vaddr, offset, rel);
            let symbol = symbol_address(syms, rel.r_sym);
            let target = symbol->0.wrapping_add_signed(rel.r_addend);
            let low = target.wrapping_sub(place) as u32;
            let insn = bytes::u32_at(d, off);
            &&& symbol is Some
            &&& rel.r_type == R_RISCV_BRANCH && low & 1 == 0 && -0x1000 <= target - place < 0x1000
                ==> place + bytes::signed32(riscv::b_offset(insn)) == target
            &&& rel.r_type == R_RISCV_JAL && low & 1 == 0 && -0x10_0000 <= target - place
                < 0x10_0000 ==> place + bytes::signed32(riscv::j_offset(insn)) == target
        }),
{
    broadcast use bytes::group_le_len;
    let off = patch_offset(offset, rel) as int;
    let place = patch_address(vaddr, offset, rel);
    let target = symbol_address(syms, rel.r_sym)->0.wrapping_add_signed(rel.r_addend);
    let x = target.wrapping_sub(place);
    let low = x as u32;
    let insn = bytes::u32_at(st.data, off);
    if -0x8000_0000 <= target - place < 0x8000_0000 {
        lemma_low_word(target, place);
    }
    if rel.r_type == R_RISCV_BRANCH {
        bytes::lemma_patched_u32(st.data, off, riscv::with_b_offset(insn, low));
        if low & 1 == 0 && -0x1000 <= target - place < 0x1000 {
            riscv::law_branch_holds_offset(insn, low);
        }
    } else {
        bytes::lemma_patched_u32(st.data, off, riscv::with_j_offset(insn, low));
        if low & 1 == 0 && -0x10_0000 <= target - place < 0x10_0000 {
            riscv::law_jump_holds_offset(insn, low);
        }
    }
}

/// What AArch64 data and instructions other than branches hold after a relocation. Data hold the
/// address of the symbol plus the addend. An instruction that adds the low part of an address
/// holds its low 12 bits. One that forms an address from its place holds the low 21 bits of the
/// distance to the symbol, and one that forms that of a page those of the distance between the
/// pages. The other bits of an instruction are kept.
pub proof fn law_aarch64_relocation_refers_to_symbol(
    vaddr: u64,
    offset: u64,
    syms: Seq<Option<u64>>,
    rel: RelaEntry,
    data: Seq<u8>,
)
    requires
        aarch64::relocated_aarch64(vaddr, offset, syms, rel, data) is Ok,
    ensures
        ({
            let d = aarch64::relocated_aarch64(vaddr, offset, syms, rel, data)->Ok_0;
            let off = patch_offset(offset, rel) as int;
            let place = patch_address(vaddr, offset, rel);
            let symbol = symbol_address(syms, rel.r_sym);
            let target = symbol->0.wrapping_add_signed(rel.r_addend);
            let before = bytes::u32_at(data, off);
            let after = bytes::u32_at(d, off);
            let split = ((after >> 29) & 3) | (((after >> 5) & 0x7FFFF) << 2);
            let t = rel.r_type;
            &&& t == R_AARCH64_NONE ==> d == data
            &&& t == R_AARCH64_RELATIVE ==> bytes::u64_at(d, off) == vaddr.wrapping_add_signed(
                rel.r_addend,
            )
            &&& t == R_AARCH64_ABS64 ==> symbol is Some && bytes::u64_at(d, off) == target
            &&& t == R_AARCH64_ABS32 ==> symbol is Some && bytes::u32_at(d, off) == target as u32
            &&& t == R_AARCH64_ADD_ABS_LO12_NC ==> symbol is Some && (after >> 10) & 0xFFF == target
                & 0xFFF && after & 0xFFC0_03FF == before & 0xFFC0_03FF
            &&& t == R_AARCH64_ADR_PREL_LO21 ==> symbol is Some && split == target.wrapping_sub(
                place,
            ) & 0x1F_FFFF && after & 0x9F00_001F == before & 0x9F00_001F
            &&& t == R_AARCH64_ADR_PREL_PG_HI21 ==> symbol is Some && split == ((target
                & !0xFFFu64).wrapping_sub(place & !0xFFFu64)) & 0x1F_FFFF && after & 0x9F00_001F
                == before & 0x9F00_001F
        }),
{
    broadcast use bytes::group_le_len;
    let off = patch_offset(offset, rel) as int;
    let place = patch_address(vaddr, offset, rel);
    let target = symbol_address(syms, rel.r_sym)->0.wrapping_add_signed(rel.r_addend);
    let t = rel.r_type;
    let insn = bytes::u32_at(data, off);
    let patched = aarch64::patched_aarch64(t, insn, target, place);
    if t == R_AARCH64_RELATIVE {
        bytes::lemma_patched_u64(data, off, vaddr.wrapping_add_signed(rel.r_addend));
    } else if t == R_AARCH64_ABS64 {
        bytes::lemma_patched_u64(data, off, target);
    } else if t == R_AARCH64_ABS32 {
        bytes::lemma_patched_u32(data, off, target as u32);
    } else if t == R_AARCH64_ADD_ABS_LO12_NC || t == R_AARCH64_ADR_PREL_LO21 || t
        == R_AARCH64_ADR_PREL_PG_HI21 {
        bytes::lemma_patched_u32(data, off, patched);
        let x = if t == R_AARCH64_ADD_ABS_LO12_NC {
            target
        } else if t == R_AARCH64_ADR_PREL_LO21 {
            target.wrapping_sub(place)
        } else {
            (target & !0xFFFu64).wrapping_sub(place & !0xFFFu64)
        };
        lemma_immediates(insn, x);
    }
}

proof fn lemma_immediates(insn: u32, x: u64)
    ensures
        ({
            let low = (insn & !(0xFFFu32 << 10)) | (((x & 0xFFF) as u32) << 10);
            let v = (x & 0x1FFFFF) as u32;
            let adr = (insn & 0x9F00001F) | ((v & 3) << 29) | (((v >> 2) & 0x7FFFF) << 5);
            &&& (low >> 10) & 0xFFF == x & 0xFFF
            &&& low & 0xFFC0_03FF == insn & 0xFFC0_03FF
            &&& ((adr >> 29) & 3) | (((adr >> 5) & 0x7FFFF) << 2) == x & 0x1F_FFFF
            &&& adr & 0x9F00_001F == insn & 0x9F00_001F
        }),
{
    let low = (insn & !(0xFFFu32 << 10)) | (((x & 0xFFF) as u32) << 10);
    let v = (x & 0x1FFFFF) as u32;
    let adr = (insn & 0x9F00001F) | ((v & 3) << 29) | (((v >> 2) & 0x7FFFF) << 5);
    assert((low >> 10) & 0xFFF == x & 0xFFF && low & 0xFFC0_03FF == insn & 0xFFC0_03FF && ((adr
        >> 29) & 3) | (((adr >> 5) & 0x7FFFF) << 2) == x & 0x1F_FFFF && adr & 0x9F00_001F == insn
        & 0x9F00_001F) by (bit_vector)
        requires
            low == (insn & !(0xFFFu32 << 10)) | (((x & 0xFFF) as u32) << 10),
            v == (x & 0x1FFFFF) as u32,
            adr == (insn & 0x9F00001F) | ((v & 3) << 29) | (((v >> 2) & 0x7FFFF) << 5),
    ;
}

/// The lower immediate of a RISC-V instruction: of a store, or of one that has it in its upper
/// bits.
pub open spec fn lower_immediate(insn: u32, store: bool) -> u32 {
    if store {
        ((insn >> 25) << 5) | ((insn >> 7) & 0x1F)
    } else {
        insn >> 20
    }
}

/// What the upper immediate of one RISC-V instruction and the signed lower one of another add up
/// to, modulo 2^32.
pub open spec fn joined_immediates(upper: u32, lower: u32, store: bool) -> u32 {
    ((upper >> 12) << 12).wrapping_add(riscv::signed12(lower_immediate(lower, store)))
}

proof fn lemma_riscv_upper(
    vaddr: u64,
    offset: u64,
    syms: Seq<Option<u64>>,
    rel: RelaEntry,
    st: RelaState,
)
    requires
        riscv::relocated_riscv(vaddr, offset, syms, rel, st) is Ok,
        rel.r_type == R_RISCV_HI20 || rel.r_type == R_RISCV_PCREL_HI20,
    ensures
        ({
            let r = riscv::relocated_riscv(vaddr, offset, syms, rel, st)->Ok_0;
            let off = patch_offset(offset, rel) as int;
            let place = patch_address(vaddr, offset, rel);
            let target = symbol_address(syms, rel.r_sym)->0.wrapping_add_signed(rel.r_addend);
            let v = if rel.r_type == R_RISCV_HI20 {
                target
            } else {
                target.wrapping_sub(place)
            };
            &&& symbol_address(syms, rel.r_sym) is Some
            &&& bytes::u32_at(r.data, off) >> 12 == riscv::upper_part(v)
            &&& bytes::u32_at(r.data, off) & 0xFFF == bytes::u32_at(st.data, off) & 0xFFF
            &&& rel.r_type == R_RISCV_PCREL_HI20 ==> r.upper == st.upper.insert(place, v)
            &&& rel.r_type == R_RISCV_HI20 ==> r.upper == st.upper
        }),
{
    broadcast use bytes::group_le_len;
    let off = patch_offset(offset, rel) as int;
    let place = patch_address(vaddr, offset, rel);
    let target = symbol_address(syms, rel.r_sym)->0.wrapping_add_signed(rel.r_addend);
    let v = if rel.r_type == R_RISCV_HI20 {
        target
    } else {
        target.wrapping_sub(place)
    };
    let insn = bytes::u32_at(st.data, off);
    lemma_parts_are_small(v);
    bytes::lemma_patched_u32(st.data, off, riscv::with_u_immediate(insn, riscv::upper_part(v)));
    riscv::law_immediates_are_kept(insn, riscv::upper_part(v), 0);
}

proof fn lemma_parts_are_small(v: u64)
    ensures
        riscv::upper_part(v) <= 0xF_FFFF,
        riscv::lower_part(v) <= 0xFFF,
{
    let s = v.wrapping_add(0x800);
    assert((s >> 12) & 0xF_FFFF <= 0xF_FFFF && v & 0xFFF <= 0xFFF) by (bit_vector);
}

proof fn lemma_riscv_lower(
    vaddr: u64,
    offset: u64,
    syms: Seq<Option<u64>>,
    rel: RelaEntry,
    st: RelaState,
)
    requires
        riscv::relocated_riscv(vaddr, offset, syms, rel, st) is Ok,
        rel.r_type == R_RISCV_LO12_I || rel.r_type == R_RISCV_LO12_S || rel.r_type
            == R_RISCV_PCREL_LO12_I || rel.r_type == R_RISCV_PCREL_LO12_S,
    ensures
        ({
            let r = riscv::relocated_riscv(vaddr, offset, syms, rel, st)->Ok_0;
            let off = patch_offset(offset, rel) as int;
            let symbol = symbol_address(syms, rel.r_sym);
            let store = rel.r_type == R_RISCV_LO12_S || rel.r_type == R_RISCV_PCREL_LO12_S;
            let paired = rel.r_type == R_RISCV_PCREL_LO12_I || rel.r_type == R_RISCV_PCREL_LO12_S;
            let v = if paired {
                st.upper[symbol->0]
            } else {
                symbol->0.wrapping_add_signed(rel.r_addend)
            };
            let kept: u32 = if store {
                0x01FF_F07F
            } else {
                0x000F_FFFF
            };
            &&& symbol is Some
            &&& paired ==> st.upper.dom().contains(symbol->0)
            &&& lower_immediate(bytes::u32_at(r.data, off), store) == riscv::lower_part(v)
            &&& bytes::u32_at(r.data, off) & kept == bytes::u32_at(st.data, off) & kept
            &&& r.upper == st.upper
        }),
{
    broadcast use bytes::group_le_len;
    let off = patch_offset(offset, rel) as int;
    let symbol = symbol_address(syms, rel.r_sym);
    let store = rel.r_type == R_RISCV_LO12_S || rel.r_type == R_RISCV_PCREL_LO12_S;
    let paired = rel.r_type == R_RISCV_PCREL_LO12_I || rel.r_type == R_RISCV_PCREL_LO12_S;
    let v = if paired {
        st.upper[symbol->0]
    } else {
        symbol->0.wrapping_add_signed(rel.r_addend)
    };
    let insn = bytes::u32_at(st.data, off);
    lemma_parts_are_small(v);
    riscv::law_immediates_are_kept(insn, 0, riscv::lower_part(v));
    if store {
        bytes::lemma_patched_u32(st.data, off, riscv::with_s_immediate(insn, riscv::lower_part(v)));
    } else {
        bytes::lemma_patched_u32(st.data, off, riscv::with_i_immediate(insn, riscv::lower_part(v)));
    }
}

/// Two RISC-V instructions that form an absolute address refer to their symbol after their
/// relocations, wherever the two stand: for the same symbol and addend the upper immediate of the
/// first and the signed lower one of the second add up to the address, modulo 2^32. All other bits
/// of the instructions are kept.
pub proof fn law_riscv_address_pair_refers_to_symbol(
    syms: Seq<Option<u64>>,
    vaddr: u64,
    offset: u64,
    first: RelaEntry,
    st: RelaState,
    vaddr2: u64,
    offset2: u64,
    second: RelaEntry,
    st2: RelaState,
)
    requires
        riscv::relocated_riscv(vaddr, offset, syms, first, st) is Ok,
        riscv::relocated_riscv(vaddr2, offset2, syms, second, st2) is Ok,
        first.r_type == R_RISCV_HI20,
        second.r_type == R_RISCV_LO12_I || second.r_type == R_RISCV_LO12_S,
        first.r_sym == second.r_sym,
        first.r_addend == second.r_addend,
    ensures
        ({
            let a = riscv::relocated_riscv(vaddr, offset, syms, first, st)->Ok_0.data;
            let b = riscv::relocated_riscv(vaddr2, offset2, syms, second, st2)->Ok_0.data;
            let at = patch_offset(offset, first) as int;
            let at2 = patch_offset(offset2, second) as int;
            let store = second.r_type == R_RISCV_LO12_S;
            let symbol = symbol_address(syms, first.r_sym);
            let address = symbol->0.wrapping_add_signed(first.r_addend);
            let kept: u32 = if store {
                0x01FF_F07F
            } else {
                0x000F_FFFF
            };
            &&& symbol is Some
            &&& joined_immediates(bytes::u32_at(a, at), bytes::u32_at(b, at2), store) == (address
                & 0xFFFF_FFFF) as u32
            &&& bytes::u32_at(a, at) & 0xFFF == bytes::u32_at(st.data, at) & 0xFFF
            &&& bytes::u32_at(b, at2) & kept == bytes::u32_at(st2.data, at2) & kept
        }),
{
    lemma_riscv_upper(vaddr, offset, syms, first, st);
    lemma_riscv_lower(vaddr2, offset2, syms, second, st2);
    riscv::law_split_value(
        symbol_address(syms, first.r_sym)->0.wrapping_add_signed(first.r_addend),
    );
}

/// Two RISC-V instructions that form an address from their place refer to their symbol after their
/// relocations: where the second names the place of the first, the upper immediate of the first
/// and the signed lower one of the second add up to the distance of the symbol plus the addend
/// from the place of the first, modulo 2^32. The second may follow at any time, as long as nothing
/// else is relocated at the place of the first.
pub proof fn law_riscv_relative_pair_refers_to_symbol(
    syms: Seq<Option<u64>>,
    vaddr: u64,
    offset: u64,
    first: RelaEntry,
    st: RelaState,
    vaddr2: u64,
    offset2: u64,
    second: RelaEntry,
    st2: RelaState,
)
    requires
        riscv::relocated_riscv(vaddr, offset, syms, first, st) is Ok,
        first.r_type == R_RISCV_PCREL_HI20,
        second.r_type == R_RISCV_PCREL_LO12_I || second.r_type == R_RISCV_PCREL_LO12_S,
        symbol_address(syms, second.r_sym) == Some(patch_address(vaddr, offset, first)),
        ({
            let place = patch_address(vaddr, offset, first);
            let left = riscv::relocated_riscv(vaddr, offset, syms, first, st)->Ok_0.upper;
            st2.upper.dom().contains(place) == left.dom().contains(place) && st2.upper[place]
                == left[place]
        }),
        patch_offset(offset2, second) + 8 <= st2.data.len(),
    ensures
        ({
            let a = riscv::relocated_riscv(vaddr, offset, syms, first, st)->Ok_0.data;
            let r = riscv::relocated_riscv(vaddr2, offset2, syms, second, st2);
            let b = r->Ok_0.data;
            let at = patch_offset(offset, first) as int;
            let at2 = patch_offset(offset2, second) as int;
            let place = patch_address(vaddr, offset, first);
            let store = second.r_type == R_RISCV_PCREL_LO12_S;
            let symbol = symbol_address(syms, first.r_sym);
            let distance = symbol->0.wrapping_add_signed(first.r_addend).wrapping_sub(place);
            let kept: u32 = if store {
                0x01FF_F07F
            } else {
                0x000F_FFFF
            };
            &&& symbol is Some
            &&& r is Ok
            &&& joined_immediates(bytes::u32_at(a, at), bytes::u32_at(b, at2), store) == (distance
                & 0xFFFF_FFFF) as u32
            &&& bytes::u32_at(a, at) & 0xFFF == bytes::u32_at(st.data, at) & 0xFFF
            &&& bytes::u32_at(b, at2) & kept == bytes::u32_at(st2.data, at2) & kept
        }),
{
    lemma_riscv_upper(vaddr, offset, syms, first, st);
    lemma_riscv_lower(vaddr2, offset2, syms, second, st2);
    riscv::law_split_value(
        symbol_address(syms, first.r_sym)->0.wrapping_add_signed(first.r_addend).wrapping_sub(
            patch_address(vaddr, offset, first),
        ),
    );
}

/// RISC-V data hold the address of their symbol plus the addend after a relocation, in 64 or in
/// the low 32 bits, and a relative address holds that of the section plus the addend.
pub proof fn law_riscv_data_refers_to_symbol(
    vaddr: u64,
    offset: u64,
    syms: Seq<Option<u64>>,
    rel: RelaEntry,
    st: RelaState,
)
    requires
        riscv::relocated_riscv(vaddr, offset, syms, rel, st) is Ok,
    ensures
        ({
            let d = riscv::relocated_riscv(vaddr, offset, syms, rel, st)->Ok_0.data;
            let off = patch_offset(offset, rel) as int;
            let symbol = symbol_address(syms, rel.r_sym);
            let target = symbol->0.wrapping_add_signed(rel.r_addend);
            &&& rel.r_type == R_RISCV_NONE ==> d == st.data
            &&& rel.r_type == R_RISCV_64 ==> symbol is Some && bytes::u64_at(d, off) == target
            &&& rel.r_type == R_RISCV_32 ==> symbol is Some && bytes::u32_at(d, off)
                == target as u32
            &&& rel.r_type == R_RISCV_RELATIVE ==> bytes::u64_at(d, off)
                == vaddr.wrapping_add_signed(rel.r_addend)
        }),
{
    broadcast use bytes::group_le_len;
    let off = patch_offset(offset, rel) as int;
    let target = symbol_address(syms, rel.r_sym)->0.wrapping_add_signed(rel.r_addend);
    if rel.r_type == R_RISCV_64 {
        bytes::lemma_patched_u64(st.data, off, target);
    } else if rel.r_type == R_RISCV_32 {
        bytes::lemma_patched_u32(st.data, off, target as u32);
    } else if rel.r_type == R_RISCV_RELATIVE {
        bytes::lemma_patched_u64(st.data, off, vaddr.wrapping_add_signed(rel.r_addend));
    }
}

/// What Mach-O code and data refer to after a relocation: a branch leads to its target, a page
/// instruction to the page of it, the instruction behind it holds the rest, and an address of
/// eight bytes is that of the target, with what stood there and what an addend record announced
/// added. The descriptors of thread variables are left out.
pub proof fn law_macho_relocation_refers_to_target(
    env: RelocEnv,
    name: Seq<char>,
    data: Seq<u8>,
    r: MachoReloc,
    v: RelocValues,
    bound: bool,
)
    requires
        macho_reloc::relocated(env, name, data, r, v, bound) is Ok,
        0 <= v.off,
        v.off + macho_reloc::reloc_width(r.r_length) <= data.len(),
    ensures
        ({
            let (d, _) = macho_reloc::relocated(env, name, data, r, v, bound)->Ok_0;
            let insn = bytes::u32_at(data, v.off);
            let after = bytes::u32_at(d, v.off);
            let branch = v.base_runtime.wrapping_add_signed(
                arm64::branch_displacement(insn).wrapping_add(v.extra),
            );
            let page = v.base_runtime.wrapping_add_signed(
                arm64::adrp_displacement(insn).wrapping_add(v.extra),
            );
            let rest = v.base_runtime.wrapping_add_signed(
                (arm64::page_offset(insn) as i64).wrapping_add(v.extra),
            );
            let absolute = v.base_runtime.wrapping_add(bytes::u64_at(data, v.off));
            &&& d.len() == data.len()
            &&& r.r_type == ARM64_RELOC_BRANCH26 ==> v.place_runtime + arm64::branch_displacement(
                after,
            ) == branch
            &&& r.r_type == ARM64_RELOC_PAGE21 || r.r_type == ARM64_RELOC_GOT_LOAD_PAGE21
                || r.r_type == ARM64_RELOC_TLVP_LOAD_PAGE21 ==> v.place_runtime / 4096 * 4096
                + arm64::adrp_displacement(after) == page / 4096 * 4096
            &&& r.r_type == ARM64_RELOC_PAGEOFF12 || r.r_type == ARM64_RELOC_GOT_LOAD_PAGEOFF12
                ==> arm64::page_offset(after) == rest & 0x0fff
            &&& r.r_type == GENERIC_RELOC_VANILLA && r.r_length == 3
                && !link::macho::is_thread_vars(name) ==> bytes::u64_at(d, v.off) == if r.r_pcrel {
                absolute.wrapping_sub(v.place_runtime)
            } else {
                absolute
            }
        }),
{
    broadcast use bytes::group_le_len;
    let insn = bytes::u32_at(data, v.off);
    let branch = v.base_runtime.wrapping_add_signed(
        arm64::branch_displacement(insn).wrapping_add(v.extra),
    );
    let page = v.base_runtime.wrapping_add_signed(
        arm64::adrp_displacement(insn).wrapping_add(v.extra),
    );
    let rest = v.base_runtime.wrapping_add_signed(
        (arm64::page_offset(insn) as i64).wrapping_add(v.extra),
    );
    if r.r_type == GENERIC_RELOC_VANILLA {
        let absolute = v.base_runtime.wrapping_add(bytes::u64_at(data, v.off));
        if r.r_length == 3 {
            bytes::lemma_patched_u64(
                data,
                v.off,
                if r.r_pcrel {
                    absolute.wrapping_sub(v.place_runtime)
                } else {
                    absolute
                },
            );
        }
    } else if r.r_type == ARM64_RELOC_BRANCH26 {
        bytes::lemma_patched_u32(
            data,
            v.off,
            arm64::branch_to(insn, branch, v.place_runtime)->Ok_0,
        );
        arm64::law_branch_reaches_target(insn, branch, v.place_runtime);
    } else if r.r_type == ARM64_RELOC_PAGE21 || r.r_type == ARM64_RELOC_GOT_LOAD_PAGE21 || r.r_type
        == ARM64_RELOC_TLVP_LOAD_PAGE21 {
        bytes::lemma_patched_u32(
            data,
            v.off,
            arm64::page_to(insn, page, v.place_runtime)->Ok_0,
        );
        arm64::law_page_reaches_target(insn, page, v.place_runtime);
    } else if r.r_type == ARM64_RELOC_PAGEOFF12 || r.r_type == ARM64_RELOC_GOT_LOAD_PAGEOFF12 {
        let low = (rest & 0x0fff) as u32;
        assert(rest & 0x0fff <= 0xfff) by (bit_vector);
        bytes::lemma_patched_u32(data, v.off, arm64::with_page_offset(insn, low)->Ok_0);
        arm64::law_page_offset_is_kept(insn, low);
    }
}

} // verus!

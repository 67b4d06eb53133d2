//! The immediate fields of the AArch64 instructions that Mach-O relocations patch.
use vstd::prelude::*;
use vstd::string::*;
use crate::model;
use crate::text;
use crate::text::{push_decimal, push_hex, with_number};

verus! {

/// The low `bits` bits of `value`, read as a signed number.
pub open spec fn sign_extended(value: u64, bits: u32) -> i64 {
    ((value << ((64 - bits) as u32)) as i64) >> ((64 - bits) as u32)
}

/// The low `bits` bits of `value`, read as a signed number.
pub fn sign_extend_to_i64(value: u64, bits: u32) -> (r: i64)
    requires
        0 < bits <= 64,
    ensures
        r == sign_extended(value, bits),
{
    let shift: u32 = 64 - bits;
    ((value << shift) as i64) >> shift
}

/// The addend that an addend record holds in its symbol number.
pub open spec fn record_addend(r_symbolnum: u32) -> i64 {
    sign_extended((r_symbolnum & 0x00ff_ffff) as u64, 24)
}

/// The addend that an addend record holds in its symbol number.
pub fn decode_arm64_reloc_addend(r_symbolnum: u32) -> (r: i64)
    ensures
        r == record_addend(r_symbolnum),
{
    sign_extend_to_i64((r_symbolnum & 0x00ff_ffff) as u64, 24)
}

/// How far a branch instruction jumps, in bytes.
pub open spec fn branch_displacement(insn: u32) -> i64 {
    sign_extended((insn & 0x03ff_ffff) as u64, 26) << 2
}

/// How far a branch instruction jumps, in bytes.
pub fn decode_arm64_branch_addend(insn: u32) -> (r: i64)
    ensures
        r == branch_displacement(insn),
{
    sign_extend_to_i64((insn & 0x03ff_ffff) as u64, 26) << 2
}

/// How far an `adrp` instruction reaches, in bytes.
pub open spec fn adrp_displacement(insn: u32) -> i64 {
    sign_extended(
        ((((insn >> 5) & 0x7ffff) as u64) << 2) | (((insn >> 29) & 0x3) as u64),
        21,
    ) << 12
}

/// How far an `adrp` instruction reaches, in bytes.
pub fn decode_arm64_adrp_addend(insn: u32) -> (r: i64)
    ensures
        r == adrp_displacement(insn),
{
    let immlo: u64 = ((insn >> 29) & 0x3) as u64;
    let immhi: u64 = ((insn >> 5) & 0x7ffff) as u64;
    sign_extend_to_i64((immhi << 2) | immlo, 21) << 12
}

/// Whether an instruction adds an immediate.
pub open spec fn adds_immediate(insn: u32) -> bool {
    insn & 0x1f00_0000 == 0x1100_0000 || insn & 0x1f00_0000 == 0x9100_0000
}

/// Whether an instruction adds an immediate.
pub fn is_arm64_add_immediate(insn: u32) -> (r: bool)
    ensures
        r == adds_immediate(insn),
{
    let masked: u32 = insn & 0x1f00_0000;
    masked == 0x1100_0000 || masked == 0x9100_0000
}

/// Whether an instruction loads or stores at an unsigned offset.
pub open spec fn accesses_offset(insn: u32) -> bool {
    insn & 0x3b00_0000 == 0x3900_0000
}

/// Whether an instruction loads or stores at an unsigned offset.
pub fn is_arm64_load_store_uimm(insn: u32) -> (r: bool)
    ensures
        r == accesses_offset(insn),
{
    (insn & 0x3b00_0000) == 0x3900_0000
}

/// The exponent of the unit in which an instruction counts its 12-bit immediate.
pub open spec fn immediate_scale(insn: u32) -> u32 {
    if adds_immediate(insn) {
        if (insn >> 22) & 1 == 0 {
            0
        } else {
            12
        }
    } else if accesses_offset(insn) {
        (insn >> 30) & 0x3
    } else {
        0
    }
}

fn arm64_immediate_scale(insn: u32) -> (r: u32)
    ensures
        r == immediate_scale(insn),
        r <= 12,
{
    if is_arm64_add_immediate(insn) {
        if (insn >> 22) & 1 == 0 {
            0
        } else {
            12
        }
    } else if is_arm64_load_store_uimm(insn) {
        assert((insn >> 30) & 0x3 <= 3) by (bit_vector);
        (insn >> 30) & 0x3
    } else {
        0
    }
}

/// The page offset that an instruction holds.
pub open spec fn page_offset(insn: u32) -> u64 {
    (((insn >> 10) & 0x0fff) as u64) << immediate_scale(insn)
}

/// The page offset that an instruction holds.
pub fn decode_arm64_pageoff_addend(insn: u32) -> (r: u64)
    ensures
        r == page_offset(insn),
{
    let imm12: u64 = ((insn >> 10) & 0x0fff) as u64;
    imm12 << arm64_immediate_scale(insn)
}

/// `insn` with the page offset `pageoff`.
pub open spec fn with_page_offset(insn: u32, pageoff: u32) -> Result<u32, Seq<char>> {
    let unit = 1u32 << immediate_scale(insn);
    if pageoff % unit != 0 {
        Err(
            "pageoff "@ + text::decimal(pageoff as nat) + " not aligned for instruction unit "@
                + text::decimal(
                unit as nat,
            ),
        )
    } else if pageoff / unit > 0x0fff {
        Err("pageoff immediate "@ + text::decimal((pageoff / unit) as nat) + " out of range"@)
    } else {
        Ok((insn & 0xffc0_03ff) | (((pageoff / unit) as u32) << 10))
    }
}

/// `insn` with the page offset `pageoff`, if its unit divides it.
pub fn encode_arm64_pageoff_immediate(insn: u32, pageoff: u32) -> (r: Result<u32, String>)
    ensures
        model::outcome(r) == with_page_offset(insn, pageoff),
{
    let scale: u32 = arm64_immediate_scale(insn);
    let unit: u32 = 1u32 << scale;
    assert(unit > 0) by (bit_vector)
        requires
            scale <= 12,
            unit == 1u32 << scale,
    ;
    if pageoff % unit != 0 {
        let mut msg = with_number("pageoff ", pageoff as u64, " not aligned for instruction unit ");
        push_decimal(&mut msg, unit as u64);
        return Err(msg);
    }
    let imm12: u32 = pageoff / unit;
    if imm12 > 0x0fff {
        return Err(with_number("pageoff immediate ", imm12 as u64, " out of range"));
    }
    Ok((insn & 0xffc0_03ff) | (imm12 << 10))
}

/// An instruction that adds `pageoff` between the registers that `insn` names.
pub open spec fn local_thread_add(insn: u32, pageoff: u32) -> Result<u32, Seq<char>> {
    if pageoff > 0x0fff {
        Err("tlvp local pageoff "@ + text::decimal(pageoff as nat) + " out of range"@)
    } else {
        Ok(0x9100_0000 | (pageoff << 10) | (((insn >> 5) & 0x1f) << 5) | (insn & 0x1f))
    }
}

/// An instruction that adds `pageoff` between the registers that `insn` names.
pub fn encode_arm64_tlvp_local_add(insn: u32, pageoff: u32) -> (r: Result<u32, String>)
    ensures
        model::outcome(r) == local_thread_add(insn, pageoff),
{
    if pageoff > 0x0fff {
        return Err(with_number("tlvp local pageoff ", pageoff as u64, " out of range"));
    }
    let rd: u32 = insn & 0x1f;
    let rn: u32 = (insn >> 5) & 0x1f;
    Ok(0x9100_0000 | (pageoff << 10) | (rn << 5) | rd)
}

/// `insn` with the 26-bit word offset `imm`.
pub open spec fn with_branch_offset(insn: u32, imm: int) -> u32 {
    (insn & 0xfc00_0000) | ((imm % 0x0400_0000) as u32)
}

/// `insn` with the 21-bit page distance `imm`.
pub open spec fn with_page_distance(insn: u32, imm: int) -> u32 {
    let imm21 = (imm % 0x20_0000) as u32;
    (insn & 0x9F00001F) | ((imm21 & 0x3) << 29) | (((imm21 >> 2) & 0x7ffff) << 5)
}

/// The difference of two words modulo a power of two.
pub fn wrapped_difference(a: u64, b: u64, modulus: u32) -> (r: u32)
    requires
        modulus > 0,
    ensures
        r == (a - b) % (modulus as int),
        r < modulus,
{
    let m: u64 = modulus as u64;
    let x: u64 = a % m;
    let y: u64 = b % m;
    proof {
        vstd::arithmetic::div_mod::lemma_sub_mod_noop(a as int, b as int, m as int);
        if x < y {
            vstd::arithmetic::div_mod::lemma_mod_add_multiples_vanish(x as int - y as int,
                m as int);
            vstd::arithmetic::div_mod::lemma_small_mod((x - y + m) as nat, m as nat);
        } else {
            vstd::arithmetic::div_mod::lemma_small_mod((x - y) as nat, m as nat);
        }
    }
    if x >= y {
        (x - y) as u32
    } else {
        (m - (y - x)) as u32
    }
}

/// Whether a branch from `place` reaches `target`.
pub open spec fn branch_reaches(target: u64, place: u64) -> bool {
    -0x0200_0000 <= (target - place) / 4 < 0x0200_0000
}

/// `insn`, made to branch from `place` to `target`.
pub open spec fn branch_to(insn: u32, target: u64, place: u64) -> Result<u32, Seq<char>> {
    if (target - place) % 4 != 0 {
        Err(
            "branch reloc not 4-byte aligned: target=0x"@ + text::hex(target as nat) + " place=0x"@
                + text::hex(
                place as nat,
            ),
        )
    } else if !branch_reaches(target, place) {
        Err(
            "branch reloc out of range: target=0x"@ + text::hex(target as nat) + " place=0x"@
                + text::hex(
                place as nat,
            ),
        )
    } else {
        Ok(with_branch_offset(insn, (target - place) / 4))
    }
}

fn place_message(text: &str, target: u64, place: u64) -> (r: String)
    ensures
        r@ == text@ + text::hex(target as nat) + " place=0x"@ + text::hex(place as nat),
{
    let mut msg = text.to_string();
    push_hex(&mut msg, target);
    msg.append(" place=0x");
    push_hex(&mut msg, place);
    msg
}

/// `insn`, made to branch from `place` to `target`, if it can.
pub fn encode_arm64_branch(insn: u32, target: u64, place: u64) -> (r: Result<u32, String>)
    ensures
        model::outcome(r) == branch_to(insn, target, place),
{
    if wrapped_difference(target, place, 4) != 0 {
        return Err(place_message("branch reloc not 4-byte aligned: target=0x", target, place));
    }
    let reaches: bool = if target >= place {
        (target - place) / 4 < 0x0200_0000
    } else {
        (place - target) / 4 <= 0x0200_0000
    };
    assert(reaches == branch_reaches(target, place)) by {
        if target < place {
            assert((target - place) / 4 == -((place - target) / 4)) by (nonlinear_arith)
                requires
                    (target - place) % 4 == 0,
            ;
        }
    }
    if !reaches {
        return Err(place_message("branch reloc out of range: target=0x", target, place));
    }
    let words: u32 = wrapped_difference(target / 4, place / 4, 0x0400_0000);
    assert((target - place) / 4 == target / 4 - place / 4) by (nonlinear_arith)
        requires
            (target - place) % 4 == 0,
    ;
    Ok((insn & 0xfc00_0000) | words)
}

/// `insn`, made to reach the page of `target` from that of `place`.
pub open spec fn page_to(insn: u32, target: u64, place: u64) -> Result<u32, Seq<char>> {
    let pages = target / 4096 - place / 4096;
    if !(-0x10_0000 <= pages < 0x10_0000) {
        Err(
            "adrp reloc out of range: target=0x"@ + text::hex(target as nat) + " place=0x"@
                + text::hex(
                place as nat,
            ),
        )
    } else {
        Ok(with_page_distance(insn, pages))
    }
}

/// `insn`, made to reach the page of `target` from that of `place`, if it can.
pub fn encode_arm64_page(insn: u32, target: u64, place: u64) -> (r: Result<u32, String>)
    ensures
        model::outcome(r) == page_to(insn, target, place),
{
    let t: u64 = target / 4096;
    let p: u64 = place / 4096;
    let reaches: bool = if t >= p {
        t - p < 0x10_0000
    } else {
        p - t <= 0x10_0000
    };
    if !reaches {
        return Err(place_message("adrp reloc out of range: target=0x", target, place));
    }
    let imm21: u32 = wrapped_difference(t, p, 0x20_0000);
    Ok((insn & 0x9F00001F) | ((imm21 & 0x3) << 29) | (((imm21 >> 2) & 0x7ffff) << 5))
}

/// A patched branch jumps from `place` to `target` exactly, and keeps its operation.
pub proof fn law_branch_reaches_target(insn: u32, target: u64, place: u64)
    requires
        branch_to(insn, target, place) is Ok,
    ensures
        place + branch_displacement(branch_to(insn, target, place)->Ok_0) == target,
        branch_to(insn, target, place)->Ok_0 & 0xfc00_0000 == insn & 0xfc00_0000,
{
    let imm = (target - place) / 4;
    let w = (imm % 0x0400_0000) as u32;
    let p = (insn & 0xfc00_0000) | w;
    assert((p & 0x03ff_ffff) == w && p & 0xfc00_0000 == insn & 0xfc00_0000) by (bit_vector)
        requires
            p == (insn & 0xfc00_0000) | w,
            w < 0x0400_0000u32,
    ;
    let v = w as u64;
    let e = sign_extended(v, 26);
    if imm >= 0 {
        assert(w == imm);
        assert((((v << 38u32) as i64) >> 38u32) << 2 == 4 * (v as i64)) by (bit_vector)
            requires
                v < 0x0200_0000u64,
        ;
    } else {
        assert(w == imm + 0x0400_0000);
        assert((((v << 38u32) as i64) >> 38u32) << 2
            == 4 * ((v as i64) - 0x0400_0000)) by (bit_vector)
            requires
                0x0200_0000u64 <= v < 0x0400_0000u64,
        ;
    }
}

/// A patched `adrp` reaches the page of `target` from the page of `place` exactly.
pub proof fn law_page_reaches_target(insn: u32, target: u64, place: u64)
    requires
        page_to(insn, target, place) is Ok,
    ensures
        place / 4096 * 4096 + adrp_displacement(page_to(insn, target, place)->Ok_0) == target / 4096
            * 4096,
        page_to(insn, target, place)->Ok_0 & 0x9F00001F == insn & 0x9F00001F,
{
    let imm = target / 4096 - place / 4096;
    let w = (imm % 0x20_0000) as u32;
    let p = (insn & 0x9F00001F) | ((w & 0x3) << 29) | (((w >> 2) & 0x7ffff) << 5);
    let v = ((((p >> 5) & 0x7ffff) as u64) << 2) | (((p >> 29) & 0x3) as u64);
    assert(v == w as u64 && p & 0x9F00001F == insn & 0x9F00001F) by (bit_vector)
        requires
            p == (insn & 0x9F00001F) | ((w & 0x3) << 29) | (((w >> 2) & 0x7ffff) << 5),
            v == ((((p >> 5) & 0x7ffff) as u64) << 2) | (((p >> 29) & 0x3) as u64),
            w < 0x20_0000u32,
    ;
    if imm >= 0 {
        assert(w == imm);
        assert((((v << 43u32) as i64) >> 43u32) << 12 == 4096 * (v as i64)) by (bit_vector)
            requires
                v < 0x10_0000u64,
        ;
    } else {
        assert(w == imm + 0x20_0000);
        assert((((v << 43u32) as i64) >> 43u32) << 12
            == 4096 * ((v as i64) - 0x20_0000)) by (bit_vector)
            requires
                0x10_0000u64 <= v < 0x20_0000u64,
        ;
    }
}

/// An instruction holds the page offset that was put into it, and keeps its other bits.
pub proof fn law_page_offset_is_kept(insn: u32, pageoff: u32)
    requires
        with_page_offset(insn, pageoff) is Ok,
    ensures
        page_offset(with_page_offset(insn, pageoff)->Ok_0) == pageoff,
        with_page_offset(insn, pageoff)->Ok_0 & 0xffc0_03ff == insn & 0xffc0_03ff,
{
    let scale = immediate_scale(insn);
    let unit = 1u32 << scale;
    assert((insn >> 30) & 0x3 <= 3) by (bit_vector);
    assert(scale <= 12);
    assert(0 < unit <= 0x1000) by (bit_vector)
        requires
            scale <= 12,
            unit == 1u32 << scale,
    ;
    let imm = (pageoff / unit) as u32;
    let p = (insn & 0xffc0_03ff) | (imm << 10);
    assert(p & 0xffc0_03ff == insn & 0xffc0_03ff && (p >> 10) & 0x0fff == imm && p & 0x1f00_0000
        == insn & 0x1f00_0000 && p & 0x3b00_0000 == insn & 0x3b00_0000 && (p >> 22) & 1 == (insn
        >> 22) & 1 && (p >> 30) & 3 == (insn >> 30) & 3) by (bit_vector)
        requires
            p == (insn & 0xffc0_03ff) | (imm << 10),
            imm <= 0x0fffu32,
    ;
    assert(immediate_scale(p) == scale);
    let wide = imm as u64;
    assert(wide << scale == wide * (unit as u64)) by (bit_vector)
        requires
            wide <= 0x0fffu64,
            scale <= 12u32,
            unit == 1u32 << scale,
    ;
    assert(imm * unit == pageoff) by (nonlinear_arith)
        requires
            pageoff % unit == 0,
            imm == pageoff / unit,
            unit > 0,
    ;
}

} // verus!

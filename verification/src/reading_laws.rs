//! What the integers, names and records of object files are read as.
use vstd::prelude::*;
use vstd::string::*;
use vstd::utf8::*;
use crate::bytes;
use crate::coff;
use crate::elf::SectionHeader;
use crate::text;

verus! {

/// Integers are read with the least significant byte first, and those of universal files with the
/// most significant byte first.
pub proof fn law_integers_are_sums(s: Seq<u8>, off: int)
    ensures
        bytes::u16_at(s, off) == s[off] + 0x100 * s[off + 1],
        bytes::u32_at(s, off) == s[off] + 0x100 * s[off + 1] + 0x1_0000 * s[off + 2] + 0x100_0000
            * s[off + 3],
        bytes::u64_at(s, off) == bytes::u32_at(s, off) + 0x1_0000_0000 * bytes::u32_at(s, off + 4),
        bytes::be_u32_at(s, off) == s[off + 3] + 0x100 * s[off + 2] + 0x1_0000 * s[off + 1]
            + 0x100_0000 * s[off],
        bytes::be_u64_at(s, off) == bytes::be_u32_at(s, off + 4) + 0x1_0000_0000
            * bytes::be_u32_at(s, off),
{
    reveal(bytes::u16_at);
    reveal(bytes::u32_at);
    reveal(bytes::u64_at);
    reveal(bytes::be_u32_at);
    reveal(bytes::be_u64_at);
    let a = s[off];
    let b = s[off + 1];
    let c = s[off + 2];
    let d = s[off + 3];
    let e = s[off + 4];
    let f = s[off + 5];
    let g = s[off + 6];
    let h = s[off + 7];
    assert(s[off + 4 + 1] == f && s[off + 4 + 2] == g && s[off + 4 + 3] == h);
    assert(((a as u16) | ((b as u16) << 8)) == a + 0x100 * b && ((a as u32) | ((b as u32) << 8) | ((
    c as u32) << 16) | ((d as u32) << 24)) == a + 0x100 * b + 0x1_0000 * c + 0x100_0000 * d && (((
    a as u32) << 24) | ((b as u32) << 16) | ((c as u32) << 8) | (d as u32)) == d + 0x100 * c
        + 0x1_0000 * b + 0x100_0000 * a) by (bit_vector);
    assert(((a as u64) | ((b as u64) << 8) | ((c as u64) << 16) | ((d as u64) << 24) | ((e as u64)
        << 32) | ((f as u64) << 40) | ((g as u64) << 48) | ((h as u64) << 56)) == ((a as u32) | ((
    b as u32) << 8) | ((c as u32) << 16) | ((d as u32) << 24)) + 0x1_0000_0000 * ((e as u32) | ((
    f as u32) << 8) | ((g as u32) << 16) | ((h as u32) << 24))) by (bit_vector);
    assert((((a as u64) << 56) | ((b as u64) << 48) | ((c as u64) << 40) | ((d as u64) << 32) | ((
    e as u64) << 24) | ((f as u64) << 16) | ((g as u64) << 8) | (h as u64)) == (((e as u32) << 24)
        | ((f as u32) << 16) | ((g as u32) << 8) | (h as u32)) + 0x1_0000_0000 * (((a as u32)
        << 24) | ((b as u32) << 16) | ((c as u32) << 8) | (d as u32))) by (bit_vector);
}

/// Whether a name stands at a place, ended by a zero or by the end.
pub open spec fn name_stands(s: Seq<u8>, at: int, name: Seq<char>) -> bool {
    let b = encode_utf8(name);
    let end = at + b.len();
    &&& 0 <= at && end <= s.len()
    &&& s.subrange(at, end) == b
    &&& !b.contains(0)
    &&& end < s.len() ==> s[end] == 0
}

proof fn lemma_first_zero_is(s: Seq<u8>, i: int, end: int)
    requires
        0 <= i <= end <= s.len(),
        forall|k: int| i <= k < end ==> s[k] != 0,
        end < s.len() ==> s[end] == 0,
    ensures
        bytes::first_zero(s, i) == end,
    decreases end - i,
{
    if i < end {
        lemma_first_zero_is(s, i + 1, end);
    }
}

proof fn lemma_name_ends(s: Seq<u8>, at: int, name: Seq<char>)
    requires
        name_stands(s, at, name),
    ensures
        s.subrange(at, bytes::first_zero(s, at)) == encode_utf8(name),
        valid_utf8(encode_utf8(name)),
        decode_utf8(encode_utf8(name)) == name,
        text::lossy_text(encode_utf8(name)) == name,
{
    let b = encode_utf8(name);
    let end = at + b.len();
    assert forall|k: int| at <= k < end implies s[k] != 0 by {
        assert(s.subrange(at, end)[k - at] == s[k]);
        assert(b.contains(b[k - at]));
    }
    lemma_first_zero_is(s, at, end);
    encode_utf8_valid_utf8(name);
    encode_utf8_decode_utf8(name);
}

/// The bytes in front of the first zero are the name that stands there.
pub proof fn lemma_cstr_is_name(s: Seq<u8>, name: Seq<char>)
    requires
        name_stands(s, 0, name),
    ensures
        text::lossy_text(bytes::cstr(s)) == name,
{
    lemma_name_ends(s, 0, name);
}

proof fn lemma_name_in_rest(s: Seq<u8>, at: int, end: int, name: Seq<char>)
    requires
        name_stands(s, at, name),
        at + encode_utf8(name).len() <= end <= s.len(),
    ensures
        name_stands(s.subrange(at, end), 0, name),
{
    let b = encode_utf8(name);
    let t = s.subrange(at, end);
    assert(t.subrange(0, b.len() as int) =~= s.subrange(at, at + b.len()));
}

/// The name of an ELF symbol or section is the one that stands in the string table at its offset;
/// the name at the offset zero of a symbol is empty.
pub proof fn law_elf_names_are_read(strtab: Seq<u8>, offset: u32, name: Seq<char>)
    requires
        name_stands(strtab, offset as int, name),
    ensures
        offset > 0 ==> crate::elf::strtab_string(strtab, offset) == Some(name),
        offset == 0 ==> crate::elf::strtab_string(strtab, offset) == Some(Seq::<char>::empty()),
        crate::elf::section_name(strtab, offset) == name,
{
    lemma_name_ends(strtab, offset as int, name);
    assert(crate::elf::strtab_string(strtab, 0) == Some(Seq::<char>::empty()));
}

/// The bytes of an ELF section are those of the file from its offset on, as many as its size.
pub proof fn law_elf_contents_are_read(data: Seq<u8>, sh: SectionHeader)
    requires
        sh.sh_offset + sh.sh_size <= data.len(),
    ensures
        crate::elf::section_contents(data, sh) == data.subrange(
            sh.sh_offset as int,
            sh.sh_offset + sh.sh_size,
        ),
{
}

/// The name of a Mach-O symbol is the one that stands in the string table at its offset.
pub proof fn law_macho_names_are_read(
    data: Seq<u8>,
    strx: int,
    stroff: int,
    strsize: int,
    name: Seq<char>,
)
    requires
        0 < strx < strsize,
        0 <= stroff,
        name_stands(data, stroff + strx, name),
    ensures
        crate::macho::table_name(data, strx, stroff, strsize) == name,
{
    let rest = data.subrange(stroff + strx, data.len() as int);
    lemma_name_in_rest(data, stroff + strx, data.len() as int, name);
    lemma_cstr_is_name(rest, name);
}

/// A Mach-O section or segment has the name that stands in its field of sixteen bytes.
pub proof fn law_macho_fields_are_read(data: Seq<u8>, off: int, name: Seq<char>)
    requires
        0 <= off,
        off + 16 <= data.len(),
        name_stands(data.subrange(off, off + 16), 0, name),
    ensures
        crate::macho::name16(data, off) == name,
{
    lemma_cstr_is_name(data.subrange(off, off + 16), name);
}

/// A name of at most eight bytes stands in the record of a COFF symbol itself, a longer one in the
/// string table, at the offset behind four zeros.
pub proof fn law_coff_names_are_read(data: Seq<u8>, at: int, strtab: Seq<u8>, name: Seq<char>)
    requires
        0 <= at,
        at + 8 <= data.len(),
        name.len() > 0,
        name_stands(data.subrange(at, at + 8), 0, name) || bytes::u32_at(data, at) == 0
            && 4 <= bytes::u32_at(data, at + 4) < strtab.len() && name_stands(
            strtab,
            bytes::u32_at(data, at + 4) as int,
            name,
        ),
    ensures
        coff::coff_name(data, at, strtab) == name,
{
    let field = data.subrange(at, at + 8);
    let b = encode_utf8(name);
    if name_stands(field, 0, name) {
        lemma_cstr_is_name(field, name);
        encode_utf8_decode_utf8(name);
        if b.len() == 0 {
            assert(b =~= encode_utf8(Seq::<char>::empty()));
            encode_utf8_decode_utf8(Seq::<char>::empty());
        }
        assert(field[0] == field.subrange(0, b.len() as int)[0]);
        assert(b.contains(b[0]));
        assert(data[at] != 0);
        law_integers_are_sums(data, at);
    } else {
        let off = bytes::u32_at(data, at + 4) as int;
        lemma_name_in_rest(strtab, off, strtab.len() as int, name);
        lemma_cstr_is_name(strtab.subrange(off, strtab.len() as int), name);
    }
}

/// The fields of the header, the section headers, the symbols and the relocations of an ELF object
/// stand where its format says.
pub proof fn law_elf_records_are_read(data: Seq<u8>, off: int)
    requires
        0 <= off,
        off + 64 <= data.len(),
    ensures
        crate::elf::elf_header(data) is Ok <==> data.subrange(0, 6) == seq![
            0x7fu8,
            0x45u8,
            0x4cu8,
            0x46u8,
            2u8,
            1u8,
        ],
        crate::elf::elf_header(data) matches Ok(h) ==> h.e_type == bytes::u16_at(data, 16)
            && h.e_machine == bytes::u16_at(data, 18) && h.e_shoff == bytes::u64_at(data, 40)
            && h.e_shnum == bytes::u16_at(data, 60) && h.e_shstrndx == bytes::u16_at(data, 62),
        crate::elf::section_header_at(data, off) matches Ok(h) && h.name_offset == bytes::u32_at(
            data,
            off,
        ) && h.sh_type == bytes::u32_at(data, off + 4) && h.sh_flags == bytes::u64_at(data, off + 8)
            && h.sh_addr == bytes::u64_at(data, off + 16) && h.sh_offset == bytes::u64_at(
            data,
            off + 24,
        ) && h.sh_size == bytes::u64_at(data, off + 32) && h.sh_link == bytes::u32_at(
            data,
            off + 40,
        ) && h.sh_info == bytes::u32_at(data, off + 44) && h.sh_addralign == bytes::u64_at(
            data,
            off + 48,
        ) && h.sh_entsize == bytes::u64_at(data, off + 56),
        crate::elf::elf_symbol_at(data, off) matches Ok(s) && s.name_offset == bytes::u32_at(
            data,
            off,
        ) && s.bind == data[off + 4] / 16 && s.sym_type == data[off + 4] % 16 && s.st_shndx
            == bytes::u16_at(data, off + 6) && s.st_value == bytes::u64_at(data, off + 8)
            && s.st_size == bytes::u64_at(data, off + 16),
        crate::elf::rela_at(data, off) matches Ok(r) && r.r_offset == bytes::u64_at(data, off)
            && r.r_type == bytes::u32_at(data, off + 8) && r.r_sym == bytes::u32_at(data, off + 12)
            && (r.r_addend - bytes::u64_at(data, off + 16)) % 0x1_0000_0000_0000_0000 == 0,
{
    let info = data[off + 4];
    assert(info >> 4 == info / 16 && info & 0xf == info % 16) by (bit_vector);
    law_integers_are_sums(data, off + 8);
    let word = bytes::u64_at(data, off + 8);
    let addend = bytes::u64_at(data, off + 16);
    assert((word >> 32) as u32 == word / 0x1_0000_0000 && (word & 0xffff_ffff) as u32 == word
        % 0x1_0000_0000 && (addend as i64 == addend || addend as i64 == addend
        - 0x1_0000_0000_0000_0000)) by (bit_vector);
    assert(crate::elf::elf_magic(data) && data[4] == 2 && data[5] == 1 <==> data.subrange(0, 6)
        =~= seq![0x7fu8, 0x45u8, 0x4cu8, 0x46u8, 2u8, 1u8]) by {
        let start = data.subrange(0, 6);
        assert(start[0] == data[0] && start[1] == data[1] && start[2] == data[2] && start[3]
            == data[3] && start[4] == data[4] && start[5] == data[5]);
    }
}

} // verus!

//! Reading 64-bit ELF relocatable objects.
use vstd::prelude::*;
use vstd::string::*;
use vstd::utf8::*;
use crate::bytes;
use crate::bytes::{has_bytes, offset_index, offset_sum, read_u16_le, read_u32_le, read_u64_le};
use crate::model;
use crate::text;
use crate::text::{decode_text, with_number};

pub mod reloc_type;

verus! {

pub const SHT_PROGBITS: u32 = 1;

pub const SHT_SYMTAB: u32 = 2;

pub const SHT_RELA: u32 = 4;

pub const SHT_NOBITS: u32 = 8;

/// The size of a symbol table entry.
pub const ELF64_SYM_SIZE: usize = 24;

/// The size of a relocation with an addend.
pub const ELF64_RELA_SIZE: usize = 24;

/// The kind of an ELF file.
#[derive(Debug, Clone, Copy, PartialEq, Eq, Structural)]
pub enum ElfType {
    Relocatable,
    Executable,
    Dynamic,
}

impl ElfType {
    /// The number in the file's header.
    pub fn raw(self) -> (r: u16)
        ensures
            r == match self {
                ElfType::Relocatable => 1u16,
                ElfType::Executable => 2,
                ElfType::Dynamic => 3,
            },
    {
        match self {
            ElfType::Relocatable => 1,
            ElfType::Executable => 2,
            ElfType::Dynamic => 3,
        }
    }
}

/// The kind of a section.
#[derive(Debug, Clone, Copy, PartialEq, Eq, Structural)]
pub enum SectionType {
    Null,
    Progbits,
    Symtab,
    Strtab,
    Rela,
}

impl SectionType {
    /// The number in the section's header.
    pub fn raw(self) -> (r: u16)
        ensures
            r == match self {
                SectionType::Null => 0u16,
                SectionType::Progbits => 1,
                SectionType::Symtab => 2,
                SectionType::Strtab => 3,
                SectionType::Rela => 4,
            },
    {
        match self {
            SectionType::Null => 0,
            SectionType::Progbits => 1,
            SectionType::Symtab => 2,
            SectionType::Strtab => 3,
            SectionType::Rela => 4,
        }
    }
}

/// How far a symbol is visible.
#[derive(Debug, Clone, Copy, PartialEq, Eq, Structural)]
pub enum SymBind {
    Local,
    Global,
    Weak,
}

impl SymBind {
    /// The number in the symbol's entry.
    pub fn raw(self) -> (r: u8)
        ensures
            r == match self {
                SymBind::Local => 0u8,
                SymBind::Global => 1,
                SymBind::Weak => 2,
            },
    {
        match self {
            SymBind::Local => 0,
            SymBind::Global => 1,
            SymBind::Weak => 2,
        }
    }
}

/// What a symbol stands for.
#[derive(Debug, Clone, Copy, PartialEq, Eq, Structural)]
pub enum SymType {
    Notype,
    Object,
    Func,
    Section,
    File,
}

impl SymType {
    /// The number in the symbol's entry.
    pub fn raw(self) -> (r: u8)
        ensures
            r == match self {
                SymType::Notype => 0u8,
                SymType::Object => 1,
                SymType::Func => 2,
                SymType::Section => 3,
                SymType::File => 4,
            },
    {
        match self {
            SymType::Notype => 0,
            SymType::Object => 1,
            SymType::Func => 2,
            SymType::Section => 3,
            SymType::File => 4,
        }
    }
}

/// A symbol table entry.
#[derive(Debug, Clone, Copy)]
pub struct Symbol {
    pub name_offset: u32,
    pub bind: u8,
    pub sym_type: u8,
    pub st_shndx: u16,
    pub st_value: u64,
    pub st_size: u64,
}

impl View for Symbol {
    type V = Symbol;

    open spec fn view(&self) -> Symbol {
        *self
    }
}

/// A section header.
#[derive(Debug, Clone, Copy)]
pub struct SectionHeader {
    pub name_offset: u32,
    pub sh_type: u32,
    pub sh_flags: u64,
    pub sh_addr: u64,
    pub sh_offset: u64,
    pub sh_size: u64,
    pub sh_link: u32,
    pub sh_info: u32,
    pub sh_addralign: u64,
    pub sh_entsize: u64,
}

impl View for SectionHeader {
    type V = SectionHeader;

    open spec fn view(&self) -> SectionHeader {
        *self
    }
}

/// The fields of a file's header that linking reads.
#[derive(Debug, Clone, Copy)]
pub struct Elf64Header {
    pub e_type: u16,
    pub e_machine: u16,
    pub e_shoff: u64,
    pub e_shnum: u16,
    pub e_shstrndx: u16,
}

impl View for Elf64Header {
    type V = Elf64Header;

    open spec fn view(&self) -> Elf64Header {
        *self
    }
}

/// A relocation with an addend.
#[derive(Debug, Clone, Copy)]
pub struct RelaEntry {
    pub r_offset: u64,
    pub r_sym: u32,
    pub r_type: u32,
    pub r_addend: i64,
}

impl View for RelaEntry {
    type V = RelaEntry;

    open spec fn view(&self) -> RelaEntry {
        *self
    }
}

/// Whether a file starts with the ELF magic number.
pub open spec fn elf_magic(data: Seq<u8>) -> bool {
    data.len() >= 4 && data[0] == 0x7f && data[1] == 0x45 && data[2] == 0x4c && data[3] == 0x46
}

/// The header of a file.
pub open spec fn elf_header(data: Seq<u8>) -> Result<Elf64Header, Seq<char>> {
    if data.len() < 64 {
        Err("file too short for ELF64 header"@)
    } else if !elf_magic(data) {
        Err("not an ELF file"@)
    } else if data[4] != 2 {
        Err("not ELF64"@)
    } else if data[5] != 1 {
        Err("not little-endian"@)
    } else {
        Ok(
            Elf64Header {
                e_type: bytes::u16_at(data, 16),
                e_machine: bytes::u16_at(data, 18),
                e_shoff: bytes::u64_at(data, 40),
                e_shnum: bytes::u16_at(data, 60),
                e_shstrndx: bytes::u16_at(data, 62),
            },
        )
    }
}

/// The section header at `off`.
pub open spec fn section_header_at(data: Seq<u8>, off: int) -> Result<SectionHeader, Seq<char>> {
    if data.len() < off + 64 {
        Err("file too short for section header"@)
    } else {
        Ok(
            SectionHeader {
                name_offset: bytes::u32_at(data, off),
                sh_type: bytes::u32_at(data, off + 4),
                sh_flags: bytes::u64_at(data, off + 8),
                sh_addr: bytes::u64_at(data, off + 16),
                sh_offset: bytes::u64_at(data, off + 24),
                sh_size: bytes::u64_at(data, off + 32),
                sh_link: bytes::u32_at(data, off + 40),
                sh_info: bytes::u32_at(data, off + 44),
                sh_addralign: bytes::u64_at(data, off + 48),
                sh_entsize: bytes::u64_at(data, off + 56),
            },
        )
    }
}

/// The symbol at `off`.
pub open spec fn elf_symbol_at(data: Seq<u8>, off: int) -> Result<Symbol, Seq<char>> {
    if data.len() < off + 24 {
        Err("file too short for symbol entry"@)
    } else {
        Ok(
            Symbol {
                name_offset: bytes::u32_at(data, off),
                bind: data[off + 4] >> 4,
                sym_type: data[off + 4] & 0xf,
                st_shndx: bytes::u16_at(data, off + 6),
                st_value: bytes::u64_at(data, off + 8),
                st_size: bytes::u64_at(data, off + 16),
            },
        )
    }
}

/// The relocation at `off`.
pub open spec fn rela_at(data: Seq<u8>, off: int) -> Result<RelaEntry, Seq<char>> {
    if data.len() < off + 24 {
        Err("file too short for RELA entry"@)
    } else {
        Ok(
            RelaEntry {
                r_offset: bytes::u64_at(data, off),
                r_sym: (bytes::u64_at(data, off + 8) >> 32) as u32,
                r_type: (bytes::u64_at(data, off + 8) & 0xffff_ffff) as u32,
                r_addend: bytes::u64_at(data, off + 16) as i64,
            },
        )
    }
}

/// The string at `off` in a string table, if it is UTF-8.
pub open spec fn string_at(strtab: Seq<u8>, off: int) -> Option<Seq<char>> {
    if off > strtab.len() {
        None
    } else {
        let b = strtab.subrange(off, bytes::first_zero(strtab, off));
        if valid_utf8(b) {
            Some(decode_utf8(b))
        } else {
            None
        }
    }
}

/// The string at `offset` in a string table; the one at zero is empty.
pub open spec fn strtab_string(strtab: Seq<u8>, offset: u32) -> Option<Seq<char>> {
    if offset == 0 {
        Some(seq![])
    } else {
        string_at(strtab, offset as int)
    }
}

/// The bytes of a section; none where the file does not hold them all.
pub open spec fn section_contents(data: Seq<u8>, sh: SectionHeader) -> Seq<u8> {
    match bytes::get_range(data, sh.sh_offset as int, sh.sh_offset + sh.sh_size) {
        Some(b) => b,
        None => seq![],
    }
}

/// `found`, followed by the `n` symbols from `off` on.
pub open spec fn elf_symbols_from(data: Seq<u8>, off: int, n: nat, found: Seq<Symbol>) -> Result<
    Seq<Symbol>,
    Seq<char>,
>
    decreases n,
{
    if n == 0 {
        Ok(found)
    } else {
        match elf_symbol_at(data, off) {
            Ok(s) => elf_symbols_from(data, off + 24, (n - 1) as nat, found.push(s)),
            Err(e) => Err(e),
        }
    }
}

/// How many symbols a symbol table holds.
pub open spec fn symbol_count(sh: SectionHeader) -> nat {
    if sh.sh_entsize > 0 {
        (sh.sh_size / sh.sh_entsize) as nat
    } else {
        (sh.sh_size / 24) as nat
    }
}

/// The symbols of a symbol table.
pub open spec fn symbols_of(data: Seq<u8>, sh: SectionHeader) -> Result<Seq<Symbol>, Seq<char>> {
    elf_symbols_from(data, sh.sh_offset as int, symbol_count(sh), seq![])
}

/// `found`, followed by the `n` relocations from `off` on, `size` bytes apart.
pub open spec fn relas_from(
    data: Seq<u8>,
    off: int,
    size: int,
    n: nat,
    found: Seq<RelaEntry>,
) -> Result<Seq<RelaEntry>, Seq<char>>
    decreases n,
{
    if n == 0 {
        Ok(found)
    } else {
        match rela_at(data, off) {
            Ok(r) => relas_from(data, off + size, size, (n - 1) as nat, found.push(r)),
            Err(e) => Err(e),
        }
    }
}

/// The distance of the entries of a relocation section.
pub open spec fn rela_size(sh: SectionHeader) -> u64 {
    if sh.sh_entsize > 24 {
        sh.sh_entsize
    } else {
        24
    }
}

/// The relocations of a relocation section.
pub open spec fn relas_of(data: Seq<u8>, sh: SectionHeader) -> Result<Seq<RelaEntry>, Seq<char>> {
    relas_from(
        data,
        sh.sh_offset as int,
        rela_size(sh) as int,
        (sh.sh_size / rela_size(sh)) as nat,
        seq![],
    )
}

/// `found`, followed by the `n` section headers from `off` on.
pub open spec fn section_headers_from(
    data: Seq<u8>,
    off: int,
    n: nat,
    found: Seq<SectionHeader>,
) -> Result<Seq<SectionHeader>, Seq<char>>
    decreases n,
{
    if n == 0 {
        Ok(found)
    } else {
        match section_header_at(data, off) {
            Ok(s) => section_headers_from(data, off + 64, (n - 1) as nat, found.push(s)),
            Err(e) => Err(e),
        }
    }
}

/// The name of a section; its offset in angle brackets where the table holds none.
pub open spec fn section_name(shstrtab: Seq<u8>, name_offset: u32) -> Seq<char> {
    match string_at(shstrtab, name_offset as int) {
        Some(s) => s,
        None => "<"@ + text::decimal(name_offset as nat) + ">"@,
    }
}

/// The table of section names.
pub open spec fn section_name_table(
    data: Seq<u8>,
    h: Elf64Header,
    sections: Seq<SectionHeader>,
) -> Seq<u8> {
    if h.e_shstrndx < sections.len() {
        section_contents(data, sections[h.e_shstrndx as int])
    } else {
        seq![]
    }
}

/// An object's header, sections and section names.
pub struct ElfModel {
    pub header: Elf64Header,
    pub sections: Seq<SectionHeader>,
    pub names: Seq<Seq<char>>,
}

/// The object that a file holds.
pub open spec fn elf_of(data: Seq<u8>) -> Result<ElfModel, Seq<char>> {
    match elf_header(data) {
        Err(e) => Err(e),
        Ok(header) => match section_headers_from(
            data,
            header.e_shoff as int,
            header.e_shnum as nat,
            seq![],
        ) {
            Err(e) => Err(e),
            Ok(sections) => {
                let table = section_name_table(data, header, sections);
                Ok(
                    ElfModel {
                        header,
                        sections,
                        names: Seq::new(
                            sections.len(),
                            |i: int| section_name(table, sections[i].name_offset),
                        ),
                    },
                )
            },
        },
    }
}

/// Reads a file's header.
pub fn parse_elf64_header(data: &[u8]) -> (r: Result<Elf64Header, String>)
    ensures
        model::outcome(r) == elf_header(data@),
{
    if data.len() < 64 {
        return Err("file too short for ELF64 header".to_string());
    }
    if data[0] != 0x7f || data[1] != 0x45 || data[2] != 0x4c || data[3] != 0x46 {
        return Err("not an ELF file".to_string());
    }
    if data[4] != 2 {
        return Err("not ELF64".to_string());
    }
    if data[5] != 1 {
        return Err("not little-endian".to_string());
    }
    let e_type: u16 = read_u16_le(data, 16).unwrap();
    let e_machine: u16 = read_u16_le(data, 18).unwrap();
    let e_shoff: u64 = read_u64_le(data, 40).unwrap();
    let e_shnum: u16 = read_u16_le(data, 60).unwrap();
    let e_shstrndx: u16 = read_u16_le(data, 62).unwrap();
    Ok(Elf64Header { e_type, e_machine, e_shoff, e_shnum, e_shstrndx })
}

/// Reads the section header at `off`.
pub fn parse_section_header(data: &[u8], off: u64) -> (r: Result<SectionHeader, String>)
    ensures
        model::outcome(r) == section_header_at(data@, off as int),
{
    let off: usize = offset_index(off);
    if !has_bytes(data, off, 64) {
        return Err("file too short for section header".to_string());
    }
    let name_offset: u32 = read_u32_le(data, off).unwrap();
    let sh_type: u32 = read_u32_le(data, off + 4).unwrap();
    let sh_flags: u64 = read_u64_le(data, off + 8).unwrap();
    let sh_addr: u64 = read_u64_le(data, off + 16).unwrap();
    let sh_offset: u64 = read_u64_le(data, off + 24).unwrap();
    let sh_size: u64 = read_u64_le(data, off + 32).unwrap();
    let sh_link: u32 = read_u32_le(data, off + 40).unwrap();
    let sh_info: u32 = read_u32_le(data, off + 44).unwrap();
    let sh_addralign: u64 = read_u64_le(data, off + 48).unwrap();
    let sh_entsize: u64 = read_u64_le(data, off + 56).unwrap();
    Ok(
        SectionHeader {
            name_offset,
            sh_type,
            sh_flags,
            sh_addr,
            sh_offset,
            sh_size,
            sh_link,
            sh_info,
            sh_addralign,
            sh_entsize,
        },
    )
}

/// Reads the symbol at `off`.
pub fn parse_symbol_entry(data: &[u8], off: usize) -> (r: Result<Symbol, String>)
    ensures
        model::outcome(r) == elf_symbol_at(data@, off as int),
{
    if !has_bytes(data, off, ELF64_SYM_SIZE) {
        return Err("file too short for symbol entry".to_string());
    }
    let name_offset: u32 = read_u32_le(data, off).unwrap();
    let st_info: u8 = data[off + 4];
    let st_shndx: u16 = read_u16_le(data, off + 6).unwrap();
    let st_value: u64 = read_u64_le(data, off + 8).unwrap();
    let st_size: u64 = read_u64_le(data, off + 16).unwrap();
    Ok(
        Symbol {
            name_offset,
            bind: st_info >> 4,
            sym_type: st_info & 0xf,
            st_shndx,
            st_value,
            st_size,
        },
    )
}

/// The string at `off`.
fn read_string(strtab: &[u8], off: usize) -> (r: Option<String>)
    ensures
        model::view_opt(r) == string_at(strtab@, off as int),
{
    let n: usize = strtab.len();
    if off > n {
        return None;
    }
    let mut i: usize = off;
    while i < n && strtab[i] != 0
        invariant
            off <= i <= n,
            n == strtab@.len(),
            bytes::first_zero(strtab@, off as int) == bytes::first_zero(strtab@, i as int),
        decreases n - i,
    {
        i = i + 1;
    }
    decode_text(vstd::slice::slice_subrange(strtab, off, i))
}

/// The string at `offset` in a string table.
pub fn get_strtab_string(strtab: &[u8], offset: u32) -> (r: Option<String>)
    ensures
        model::view_opt(r) == strtab_string(strtab@, offset),
{
    if offset == 0 {
        let s = String::new();
        assert(s@ =~= seq![]);
        return Some(s);
    }
    read_string(strtab, offset as usize)
}

/// Reads the symbols of a symbol table.
pub fn parse_symtab(data: &[u8], symtab_sh: &SectionHeader) -> (r: Result<Vec<Symbol>, String>)
    ensures
        model::outcome(r) == symbols_of(data@, *symtab_sh),
{
    let entsize: u64 = if symtab_sh.sh_entsize > 0 {
        symtab_sh.sh_entsize
    } else {
        24
    };
    let mut left: u64 = symtab_sh.sh_size / entsize;
    let mut symbols: Vec<Symbol> = Vec::new();
    let mut off: usize = offset_index(symtab_sh.sh_offset);
    let ghost mut at: int = symtab_sh.sh_offset as int;
    while left > 0
        invariant
            at <= usize::MAX ==> off == at,
            at > usize::MAX ==> off == usize::MAX,
            elf_symbols_from(data@, at, left as nat, symbols@) == symbols_of(data@, *symtab_sh),
        decreases left,
    {
        assert(data.len() == data@.len());
        match parse_symbol_entry(data, off) {
            Ok(s) => {
                symbols.push(s);
            },
            Err(e) => {
                return Err(e);
            },
        }
        off = offset_sum(off, ELF64_SYM_SIZE);
        proof {
            at = at + 24;
        }
        left = left - 1;
    }
    Ok(symbols)
}

/// The name at `name_offset` in the table of section names.
pub fn get_section_name(_data: &[u8], shstrtab: &[u8], name_offset: u32) -> (r: Option<String>)
    ensures
        model::view_opt(r) == string_at(shstrtab@, name_offset as int),
{
    read_string(shstrtab, name_offset as usize)
}

/// Reads the relocation at `off`.
pub fn parse_rela_entry(data: &[u8], off: usize) -> (r: Result<RelaEntry, String>)
    ensures
        model::outcome(r) == rela_at(data@, off as int),
{
    if !has_bytes(data, off, ELF64_RELA_SIZE) {
        return Err("file too short for RELA entry".to_string());
    }
    let r_offset: u64 = read_u64_le(data, off).unwrap();
    let r_info: u64 = read_u64_le(data, off + 8).unwrap();
    let r_addend: i64 = read_u64_le(data, off + 16).unwrap() as i64;
    Ok(
        RelaEntry {
            r_offset,
            r_sym: (r_info >> 32) as u32,
            r_type: (r_info & 0xffff_ffff) as u32,
            r_addend,
        },
    )
}

/// Reads the relocations of a relocation section.
pub fn parse_rela_section(data: &[u8], rela_sh: &SectionHeader) -> (r: Result<
    Vec<RelaEntry>,
    String,
>)
    ensures
        model::outcome(r) == relas_of(data@, *rela_sh),
{
    let size: u64 = if rela_sh.sh_entsize > 24 {
        rela_sh.sh_entsize
    } else {
        24
    };
    let mut left: u64 = rela_sh.sh_size / size;
    let mut entries: Vec<RelaEntry> = Vec::new();
    let step: usize = offset_index(size);
    let mut off: usize = offset_index(rela_sh.sh_offset);
    let ghost mut at: int = rela_sh.sh_offset as int;
    while left > 0
        invariant
            at <= usize::MAX ==> off == at,
            at > usize::MAX ==> off == usize::MAX,
            size <= usize::MAX ==> step == size,
            size > usize::MAX ==> step == usize::MAX,
            at >= 0,
            size == rela_size(*rela_sh),
            relas_from(data@, at, size as int, left as nat, entries@) == relas_of(data@, *rela_sh),
        decreases left,
    {
        assert(data.len() == data@.len());
        match parse_rela_entry(data, off) {
            Ok(e) => {
                entries.push(e);
            },
            Err(e) => {
                return Err(e);
            },
        }
        off = offset_sum(off, step);
        proof {
            at = at + size;
        }
        left = left - 1;
    }
    Ok(entries)
}

/// The bytes of a section, or none where the file does not hold them all.
pub fn get_strtab_from_section<'a>(data: &'a [u8], sh: &SectionHeader) -> (r: &'a [u8])
    ensures
        r@ == section_contents(data@, *sh),
{
    let len: u64 = data.len() as u64;
    if sh.sh_offset <= len && sh.sh_size <= len - sh.sh_offset {
        let start: usize = sh.sh_offset as usize;
        vstd::slice::slice_subrange(data, start, start + sh.sh_size as usize)
    } else {
        let r = vstd::slice::slice_subrange(data, 0, 0);
        assert(r@ =~= seq![]);
        r
    }
}

/// Reads an object's header, its section headers and the names of its sections.
pub fn parse_elf64_slice(data: &[u8]) -> (r: Result<
    (Elf64Header, Vec<SectionHeader>, Vec<String>),
    String,
>)
    ensures
        match r {
            Ok((header, sections, names)) => elf_of(data@) == Ok::<ElfModel, Seq<char>>(
                (ElfModel { header, sections: sections@, names: model::views(names@) }),
            ),
            Err(e) => elf_of(data@) == Err::<ElfModel, Seq<char>>(e@),
        },
{
    broadcast use model::group_views;
    let header = match parse_elf64_header(data) {
        Ok(h) => h,
        Err(e) => {
            return Err(e);
        },
    };
    let mut sections: Vec<SectionHeader> = Vec::new();
    let mut left: u16 = header.e_shnum;
    let mut off: u64 = header.e_shoff;
    let ghost mut at: int = header.e_shoff as int;
    while left > 0
        invariant
            at <= u64::MAX ==> off == at,
            at > u64::MAX ==> off == u64::MAX,
            elf_header(data@) == Ok::<Elf64Header, Seq<char>>(header),
            section_headers_from(data@, at, left as nat, sections@) == section_headers_from(
                data@,
                header.e_shoff as int,
                header.e_shnum as nat,
                seq![],
            ),
        decreases left,
    {
        assert(data.len() == data@.len());
        match parse_section_header(data, off) {
            Ok(s) => {
                sections.push(s);
            },
            Err(e) => {
                return Err(e);
            },
        }
        off = if off > u64::MAX - 64 {
            u64::MAX
        } else {
            off + 64
        };
        proof {
            at = at + 64;
        }
        left = left - 1;
    }
    let table: &[u8] = if (header.e_shstrndx as usize) < sections.len() {
        get_strtab_from_section(data, &sections[header.e_shstrndx as usize])
    } else {
        let none = vstd::slice::slice_subrange(data, 0, 0);
        assert(none@ =~= seq![]);
        none
    };
    let mut names: Vec<String> = Vec::new();
    let ghost all = Seq::new(
        sections@.len(),
        |i: int| section_name(table@, sections@[i].name_offset),
    );
    let mut i: usize = 0;
    while i < sections.len()
        invariant
            i <= sections@.len(),
            all == Seq::new(
                sections@.len(),
                |i: int| section_name(table@, sections@[i].name_offset),
            ),
            model::views(names@) == all.subrange(0, i as int),
        decreases sections@.len() - i,
    {
        broadcast use model::group_views;
        let name = match get_section_name(data, table, sections[i].name_offset) {
            Some(s) => s,
            None => with_number("<", sections[i].name_offset as u64, ">"),
        };
        names.push(name);
        assert(model::views(names@) =~= all.subrange(0, i + 1));
        i = i + 1;
    }
    assert(model::views(names@) =~= all);
    Ok((header, sections, names))
}

proof fn lemma_headers_are_read(data: Seq<u8>, off: int, n: nat, found: Seq<SectionHeader>)
    requires
        0 <= off,
    ensures
        ({
            let r = section_headers_from(data, off, n, found);
            &&& r is Ok <==> n == 0 || off + 64 * n <= data.len()
            &&& r is Err ==> r->Err_0 == "file too short for section header"@
            &&& r is Ok ==> r->Ok_0.len() == found.len() + n
            &&& r is Ok ==> forall|i: int|
                0 <= i < found.len() ==> #[trigger] r->Ok_0[i] == found[i]
            &&& r is Ok ==> forall|i: int|
                found.len() <= i < found.len() + n ==> section_header_at(
                    data,
                    off + 64 * (i - found.len()),
                ) == Ok::<SectionHeader, Seq<char>>(#[trigger] r->Ok_0[i])
        }),
    decreases n,
{
    if n > 0 {
        if let Ok(s) = section_header_at(data, off) {
            let next = found.push(s);
            lemma_headers_are_read(data, off + 64, (n - 1) as nat, next);
            let r = section_headers_from(data, off, n, found);
            if r is Ok {
                assert(r->Ok_0[found.len() as int] == next[found.len() as int]);
                assert forall|i: int| 0 <= i < found.len() implies #[trigger] r->Ok_0[i]
                    == found[i] by {
                    assert(r->Ok_0[i] == next[i]);
                }
            }
        }
    }
}

/// A file with an ELF header can be read if it holds all its section headers, and only then. They
/// stand 64 bytes apart, and the name of each stands in the table of section names.
pub proof fn law_elf_sections_are_read(data: Seq<u8>)
    requires
        elf_header(data) is Ok,
    ensures
        ({
            let h = elf_header(data)->Ok_0;
            let m = elf_of(data)->Ok_0;
            &&& elf_of(data) is Ok <==> h.e_shnum == 0 || h.e_shoff + 64 * h.e_shnum <= data.len()
            &&& elf_of(data) is Err ==> elf_of(data)->Err_0 == "file too short for section header"@
            &&& elf_of(data) is Ok ==> m.header == h && m.sections.len() == h.e_shnum
                && m.names.len() == h.e_shnum
            &&& elf_of(data) is Ok ==> forall|i: int|
                0 <= i < h.e_shnum ==> section_header_at(data, h.e_shoff + 64 * i) == Ok::<
                    SectionHeader,
                    Seq<char>,
                >(#[trigger] m.sections[i])
            &&& elf_of(data) is Ok ==> forall|i: int|
                0 <= i < h.e_shnum ==> #[trigger] m.names[i] == section_name(
                    section_name_table(data, h, m.sections),
                    m.sections[i].name_offset,
                )
        }),
{
    let h = elf_header(data)->Ok_0;
    let none: Seq<SectionHeader> = seq![];
    lemma_headers_are_read(data, h.e_shoff as int, h.e_shnum as nat, none);
}

proof fn lemma_symbols_are_read(data: Seq<u8>, off: int, n: nat, found: Seq<Symbol>)
    requires
        0 <= off,
    ensures
        ({
            let r = elf_symbols_from(data, off, n, found);
            &&& r is Ok <==> n == 0 || off + 24 * n <= data.len()
            &&& r is Ok ==> r->Ok_0.len() == found.len() + n
            &&& r is Ok ==> forall|i: int|
                0 <= i < found.len() ==> #[trigger] r->Ok_0[i] == found[i]
            &&& r is Ok ==> forall|i: int|
                found.len() <= i < found.len() + n ==> elf_symbol_at(
                    data,
                    off + 24 * (i - found.len()),
                ) == Ok::<Symbol, Seq<char>>(#[trigger] r->Ok_0[i])
        }),
    decreases n,
{
    if n > 0 {
        if let Ok(s) = elf_symbol_at(data, off) {
            let next = found.push(s);
            lemma_symbols_are_read(data, off + 24, (n - 1) as nat, next);
            let r = elf_symbols_from(data, off, n, found);
            if r is Ok {
                assert(r->Ok_0[found.len() as int] == next[found.len() as int]);
                assert forall|i: int| 0 <= i < found.len() implies #[trigger] r->Ok_0[i]
                    == found[i] by {
                    assert(r->Ok_0[i] == next[i]);
                }
            }
        }
    }
}

/// A symbol table can be read if the file holds all its symbols, and only then. They stand 24
/// bytes apart.
pub proof fn law_symbols_are_read(data: Seq<u8>, sh: SectionHeader)
    ensures
        ({
            let r = symbols_of(data, sh);
            let n = symbol_count(sh);
            &&& r is Ok <==> n == 0 || sh.sh_offset + 24 * n <= data.len()
            &&& r is Ok ==> r->Ok_0.len() == n
            &&& r is Ok ==> forall|i: int|
                0 <= i < n ==> elf_symbol_at(data, sh.sh_offset + 24 * i) == Ok::<
                    Symbol,
                    Seq<char>,
                >(#[trigger] r->Ok_0[i])
        }),
{
    let none: Seq<Symbol> = seq![];
    lemma_symbols_are_read(data, sh.sh_offset as int, symbol_count(sh), none);
}

proof fn lemma_relas_are_read(
    data: Seq<u8>,
    off: int,
    size: int,
    n: nat,
    found: Seq<RelaEntry>,
    k: int,
)
    requires
        0 <= off,
        24 <= size,
        0 <= k < found.len() + n,
    ensures
        ({
            let r = relas_from(data, off, size, n, found);
            &&& r is Ok <==> n == 0 || off + size * (n - 1) + 24 <= data.len()
            &&& r is Ok ==> r->Ok_0.len() == found.len() + n
            &&& r is Ok && k < found.len() ==> r->Ok_0[k] == found[k]
            &&& r is Ok && k >= found.len() ==> rela_at(data, off + size * (k - found.len()))
                == Ok::<RelaEntry, Seq<char>>(r->Ok_0[k])
        }),
    decreases n,
{
    if n > 0 {
        assert(size * (n - 1) >= 0) by (nonlinear_arith)
            requires
                size >= 24,
                n >= 1,
        ;
        assert(size * (n - 1) == size + size * (n - 2)) by (nonlinear_arith);
        if let Ok(r) = rela_at(data, off) {
            let next = found.push(r);
            lemma_relas_are_read(data, off + size, size, (n - 1) as nat, next, k);
            if k >= found.len() {
                let d = k - found.len();
                assert(size * d == size + size * (d - 1)) by (nonlinear_arith);
                assert(size * 0 == 0) by (nonlinear_arith);
            }
        }
    }
}

/// A relocation section can be read if the file holds all its relocations, and only then. They
/// stand as far apart as the section says, but at least 24 bytes.
pub proof fn law_relocations_are_read(data: Seq<u8>, sh: SectionHeader, k: int)
    requires
        0 <= k < sh.sh_size / rela_size(sh),
    ensures
        ({
            let r = relas_of(data, sh);
            let n = sh.sh_size / rela_size(sh);
            &&& r is Ok <==> sh.sh_offset + rela_size(sh) * (n - 1) + 24 <= data.len()
            &&& r is Ok ==> r->Ok_0.len() == n
            &&& r is Ok ==> rela_at(data, sh.sh_offset + rela_size(sh) * k) == Ok::<
                RelaEntry,
                Seq<char>,
            >(r->Ok_0[k])
        }),
{
    let none: Seq<RelaEntry> = seq![];
    lemma_relas_are_read(
        data,
        sh.sh_offset as int,
        rela_size(sh) as int,
        (sh.sh_size / rela_size(sh)) as nat,
        none,
        k,
    );
}

} // verus!

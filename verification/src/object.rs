//! Choosing the objects to link: recognising formats, taking one architecture
//! out of a universal file, and picking the members of archives that are needed.
use vstd::prelude::*;
use vstd::string::*;
use vstd::utf8::*;
use crate::bytes;
use crate::bytes::{has_bytes, offset_sum, read_u32_be, read_u64_be};
use crate::coff;
use crate::coff::{
    ObjectSymbolSummary, SummaryModel, collect_coff_symbol_summary, empty_summary, is_coff,
    settle,
};
use crate::elf::{
    SHT_SYMTAB, SectionHeader, Symbol, get_strtab_from_section, get_strtab_string,
    parse_elf64_slice, parse_symtab,
};
use crate::link::elf_symbols::SHN_UNDEF;
use crate::macho::{
    CPU_TYPE_ARM64, CPU_TYPE_X86_64, MH_DYLIB, N_EXT, SymbolModel, is_macho64, is_macho_dylib,
    parse_macho64_object,
};
use crate::model;
use crate::names::NameSet;
use crate::text::{decode_text, str_eq};

verus! {

pub const FAT_MAGIC: u32 = 0xCAFEBABE;

pub const FAT_MAGIC_64: u32 = 0xCAFEBABF;

pub const STB_GLOBAL: u8 = 1;

pub const STB_WEAK: u8 = 2;

/// The format of the objects of a link.
#[derive(Debug, Clone, Copy, PartialEq, Eq, Structural)]
pub enum ObjectFormat {
    Elf,
    MachO,
    Coff,
}

/// A file that was read.
#[derive(Debug, Clone)]
pub struct InputFile {
    pub path: String,
    pub data: Vec<u8>,
}

/// The view of a file that was read.
pub struct InputModel {
    pub path: Seq<char>,
    pub data: Seq<u8>,
}

impl View for InputFile {
    type V = InputModel;

    open spec fn view(&self) -> InputModel {
        InputModel { path: self.path@, data: self.data@ }
    }
}

/// Whether a file starts with the ELF magic number.
pub fn is_elf(data: &[u8]) -> (r: bool)
    ensures
        r == crate::elf::elf_magic(data@),
{
    data.len() >= 4 && data[0] == 0x7f && data[1] == 0x45 && data[2] == 0x4c && data[3] == 0x46
}

/// Whether a file starts with the magic number of archives.
pub open spec fn ar_magic(data: Seq<u8>) -> bool {
    data.len() >= 8 && data[0] == 0x21 && data[1] == 0x3c && data[2] == 0x61 && data[3] == 0x72
        && data[4] == 0x63 && data[5] == 0x68 && data[6] == 0x3e && data[7] == 0x0a
}

/// Whether a file starts with the magic number of archives.
pub fn is_ar(data: &[u8]) -> (r: bool)
    ensures
        r == ar_magic(data@),
{
    data.len() >= 8 && data[0] == 0x21 && data[1] == 0x3c && data[2] == 0x61 && data[3] == 0x72
        && data[4] == 0x63 && data[5] == 0x68 && data[6] == 0x3e && data[7] == 0x0a
}

/// Whether a file is a Mach-O dynamic library.
pub open spec fn macho_dylib(data: Seq<u8>) -> bool {
    crate::macho::macho_magic(data) && data.len() >= 16 && bytes::u32_at(data, 12) == MH_DYLIB
}

/// The Mach-O CPU type of a host architecture, by its name.
pub open spec fn host_cputype(arch: Seq<char>) -> Option<u32> {
    if arch == "x86_64"@ {
        Some(CPU_TYPE_X86_64)
    } else if arch == "aarch64"@ {
        Some(CPU_TYPE_ARM64)
    } else {
        None
    }
}

/// The Mach-O CPU type of the host architecture named `arch`, as `std::env::consts::ARCH` names
/// it.
pub fn host_macho_cputype(arch: &str) -> (r: Option<u32>)
    ensures
        r == host_cputype(arch@),
{
    if str_eq(arch, "x86_64") {
        Some(CPU_TYPE_X86_64)
    } else if str_eq(arch, "aarch64") {
        Some(CPU_TYPE_ARM64)
    } else {
        None
    }
}

/// The place of the slice that the entry `idx` of a universal file describes, and its CPU type.
pub struct FatSlice {
    pub cputype: u32,
    pub offset: u64,
    pub size: u64,
}

/// The entry at `off` of a universal file.
pub open spec fn fat_slice_at(data: Seq<u8>, off: int, wide: bool) -> FatSlice {
    if wide {
        FatSlice {
            cputype: bytes::be_u32_at(data, off),
            offset: bytes::be_u64_at(data, off + 8),
            size: bytes::be_u64_at(data, off + 16),
        }
    } else {
        FatSlice {
            cputype: bytes::be_u32_at(data, off),
            offset: bytes::be_u32_at(data, off + 8) as u64,
            size: bytes::be_u32_at(data, off + 12) as u64,
        }
    }
}

/// The slice to take from the entries from `idx` on: the first one for the CPU type `wanted`, or
/// else the first of all, among those that the file holds. None where a place overflows.
pub open spec fn pick_slice(
    data: Seq<u8>,
    wide: bool,
    n: nat,
    idx: nat,
    wanted: Option<u32>,
    first: Option<FatSlice>,
) -> Option<FatSlice>
    decreases n - idx,
{
    if idx >= n {
        first
    } else {
        let s = fat_slice_at(
            data,
            (8 + idx * (if wide {
                32nat
            } else {
                20
            })) as int,
            wide,
        );
        if s.offset + s.size > u64::MAX {
            None
        } else if s.offset + s.size > data.len() {
            pick_slice(data, wide, n, idx + 1, wanted, first)
        } else if Some(s.cputype) == wanted {
            Some(s)
        } else {
            pick_slice(
                data,
                wide,
                n,
                idx + 1,
                wanted,
                if first is Some {
                    first
                } else {
                    Some(s)
                },
            )
        }
    }
}

/// The slice of a universal file for the CPU type `wanted`; none where it is no such file.
pub open spec fn thinned(data: Seq<u8>, wanted: Option<u32>) -> Option<Seq<u8>> {
    if data.len() < 8 {
        None
    } else {
        let magic = bytes::be_u32_at(data, 0);
        let wide = magic == FAT_MAGIC_64;
        let n = bytes::be_u32_at(data, 4) as nat;
        let size = if wide {
            32nat
        } else {
            20
        };
        if (magic != FAT_MAGIC && !wide) || 8 + n * size > data.len() {
            None
        } else {
            match pick_slice(data, wide, n, 0, wanted, None) {
                Some(s) => Some(data.subrange(s.offset as int, s.offset + s.size)),
                None => None,
            }
        }
    }
}

fn read_fat_slice(data: &[u8], off: usize, wide: bool) -> (r: FatSlice)
    requires
        off + 20 <= data@.len(),
        wide ==> off + 32 <= data@.len(),
    ensures
        r == fat_slice_at(data@, off as int, wide),
{
    assert(data.len() == data@.len());
    let cputype: u32 = read_u32_be(data, off).unwrap();
    if wide {
        let offset: u64 = read_u64_be(data, off + 8).unwrap();
        let size: u64 = read_u64_be(data, off + 16).unwrap();
        FatSlice { cputype, offset, size }
    } else {
        let offset: u64 = read_u32_be(data, off + 8).unwrap() as u64;
        let size: u64 = read_u32_be(data, off + 12).unwrap() as u64;
        FatSlice { cputype, offset, size }
    }
}

/// A slice that was picked lies in the file.
proof fn lemma_picked_slice(
    data: Seq<u8>,
    wide: bool,
    n: nat,
    idx: nat,
    wanted: Option<u32>,
    first: Option<FatSlice>,
)
    requires
        first matches Some(f) ==> f.offset + f.size <= data.len(),
    ensures
        pick_slice(data, wide, n, idx, wanted, first) matches Some(s) ==> s.offset + s.size
            <= data.len(),
    decreases n - idx,
{
    if idx < n {
        let s = fat_slice_at(
            data,
            (8 + idx * (if wide {
                32nat
            } else {
                20
            })) as int,
            wide,
        );
        lemma_picked_slice(data, wide, n, idx + 1, wanted, first);
        if s.offset + s.size <= data.len() {
            lemma_picked_slice(
                data,
                wide,
                n,
                idx + 1,
                wanted,
                if first is Some {
                    first
                } else {
                    Some(s)
                },
            );
        }
    }
}

fn find_slice(data: &[u8], wide: bool, n: u32, wanted: Option<u32>) -> (r: Option<FatSlice>)
    requires
        8 + n * (if wide {
            32int
        } else {
            20
        }) <= data@.len(),
    ensures
        r == pick_slice(data@, wide, n as nat, 0, wanted, None),
{
    let len: u64 = data.len() as u64;
    let step: usize = if wide {
        32
    } else {
        20
    };
    let mut first: Option<FatSlice> = None;
    let mut idx: u32 = 0;
    let mut off: usize = 8;
    while idx < n
        invariant
            idx <= n,
            len == data@.len(),
            step == if wide {
                32int
            } else {
                20
            },
            off == 8 + idx * step,
            8 + n * step <= data@.len(),
            data@.len() <= usize::MAX,
            pick_slice(data@, wide, n as nat, 0, wanted, None) == pick_slice(
                data@,
                wide,
                n as nat,
                idx as nat,
                wanted,
                first,
            ),
        decreases n - idx,
    {
        assert(off + step <= 8 + n * step) by (nonlinear_arith)
            requires
                off == 8 + idx * step,
                idx < n,
        ;
        let s = read_fat_slice(data, off, wide);
        if s.size > u64::MAX - s.offset {
            return None;
        }
        if s.offset + s.size <= len {
            let matches_wanted: bool = match wanted {
                Some(w) => w == s.cputype,
                None => false,
            };
            if matches_wanted {
                return Some(s);
            }
            if first.is_none() {
                first = Some(s);
            }
        }
        assert(8 + (idx + 1) * step == off + step) by (nonlinear_arith)
            requires
                off == 8 + idx * step,
        ;
        off = off + step;
        idx = idx + 1;
    }
    first
}

/// Takes the slice for the CPU type `wanted` out of a universal file, or its first slice.
pub fn thin_fat_macho_binary(data: &[u8], wanted: Option<u32>) -> (r: Option<Vec<u8>>)
    ensures
        model::view_opt(r) == thinned(data@, wanted),
{
    if data.len() < 8 {
        return None;
    }
    let magic: u32 = read_u32_be(data, 0).unwrap();
    let wide: bool = magic == FAT_MAGIC_64;
    if magic != FAT_MAGIC && !wide {
        return None;
    }
    let n: u32 = read_u32_be(data, 4).unwrap();
    let table: u64 = 8 + n as u64 * (if wide {
        32
    } else {
        20
    });
    if table > data.len() as u64 {
        return None;
    }
    proof {
        lemma_picked_slice(data@, wide, n as nat, 0, wanted, None);
    }
    match find_slice(data, wide, n, wanted) {
        Some(s) => {
            let start: usize = s.offset as usize;
            let end: usize = (s.offset + s.size) as usize;
            Some(vstd::slice::slice_to_vec(vstd::slice::slice_subrange(data, start, end)))
        },
        None => None,
    }
}

/// A file, or the slice of it for the CPU type `wanted` where it is a universal one.
pub open spec fn normalized(data: Seq<u8>, wanted: Option<u32>) -> Seq<u8> {
    match thinned(data, wanted) {
        Some(t) => t,
        None => data,
    }
}

/// A file, or the slice of it for the CPU type `wanted` where it is a universal one.
pub fn normalize_macho_container(data: &[u8], wanted: Option<u32>) -> (r: Vec<u8>)
    ensures
        r@ == normalized(data@, wanted),
{
    match thin_fat_macho_binary(data, wanted) {
        Some(t) => t,
        None => vstd::slice::slice_to_vec(data),
    }
}

/// `s` with the symbols from `i` on of one symbol table; none where a name cannot be read. An
/// undefined weak symbol is no need.
pub open spec fn elf_summary_from(
    symbols: Seq<Symbol>,
    strtab: Seq<u8>,
    i: nat,
    s: SummaryModel,
) -> Option<SummaryModel>
    decreases symbols.len() - i,
{
    if i >= symbols.len() {
        Some(s)
    } else {
        let sym = symbols[i as int];
        if sym.bind != STB_GLOBAL && sym.bind != STB_WEAK {
            elf_summary_from(symbols, strtab, i + 1, s)
        } else {
            match crate::elf::strtab_string(strtab, sym.name_offset) {
                None => None,
                Some(name) => elf_summary_from(
                    symbols,
                    strtab,
                    i + 1,
                    if name.len() == 0 || sym.st_shndx == SHN_UNDEF && sym.bind == STB_WEAK {
                        s
                    } else if sym.st_shndx == SHN_UNDEF {
                        SummaryModel { undefined: s.undefined.insert(name), ..s }
                    } else {
                        SummaryModel { defined: s.defined.insert(name), ..s }
                    },
                ),
            }
        }
    }
}

/// `s` with the symbol tables from `i` on.
pub open spec fn elf_summary_tables(
    data: Seq<u8>,
    sections: Seq<SectionHeader>,
    i: nat,
    s: SummaryModel,
) -> Option<SummaryModel>
    decreases sections.len() - i,
{
    if i >= sections.len() {
        Some(s)
    } else {
        let sh = sections[i as int];
        if sh.sh_type != SHT_SYMTAB {
            elf_summary_tables(data, sections, i + 1, s)
        } else if sh.sh_link >= sections.len() {
            None
        } else {
            match crate::elf::symbols_of(data, sh) {
                Err(_) => None,
                Ok(symbols) => match elf_summary_from(
                    symbols,
                    crate::elf::section_contents(data, sections[sh.sh_link as int]),
                    0,
                    s,
                ) {
                    None => None,
                    Some(next) => elf_summary_tables(data, sections, i + 1, next),
                },
            }
        }
    }
}

/// The external names of an ELF object.
pub open spec fn elf_summary(data: Seq<u8>) -> Option<SummaryModel> {
    match crate::elf::elf_of(data) {
        Err(_) => None,
        Ok(elf) => match elf_summary_tables(data, elf.sections, 0, coff::no_symbols()) {
            None => None,
            Some(s) => Some(coff::settled(s)),
        },
    }
}

fn add_elf_symbols(
    symbols: &Vec<Symbol>,
    strtab: &[u8],
    summary: &mut ObjectSymbolSummary,
) -> (r: bool)
    ensures
        match elf_summary_from(symbols@, strtab@, 0, old(summary)@) {
            Some(s) => r && final(summary)@ == s,
            None => !r,
        },
{
    let mut i: usize = 0;
    while i < symbols.len()
        invariant
            i <= symbols@.len(),
            elf_summary_from(symbols@, strtab@, 0, old(summary)@) == elf_summary_from(
                symbols@,
                strtab@,
                i as nat,
                summary@,
            ),
        decreases symbols@.len() - i,
    {
        let sym = &symbols[i];
        if sym.bind == STB_GLOBAL || sym.bind == STB_WEAK {
            let name = match get_strtab_string(strtab, sym.name_offset) {
                Some(s) => s,
                None => {
                    return false;
                },
            };
            if name.as_str().unicode_len() != 0 {
                if sym.st_shndx == SHN_UNDEF {
                    if sym.bind != STB_WEAK {
                        summary.undefined.insert(name);
                    }
                } else {
                    summary.defined.insert(name);
                }
            }
        }
        i = i + 1;
    }
    true
}

fn collect_elf_symbol_summary(data: &[u8]) -> (r: Option<ObjectSymbolSummary>)
    ensures
        model::view_opt(r) == elf_summary(data@),
{
    let sections = match parse_elf64_slice(data) {
        Ok((_, s, _)) => s,
        Err(_) => {
            return None;
        },
    };
    let mut summary = empty_summary();
    let ghost total = elf_summary_tables(data@, sections@, 0, coff::no_symbols());
    let mut i: usize = 0;
    while i < sections.len()
        invariant
            i <= sections@.len(),
            total == elf_summary_tables(data@, sections@, i as nat, summary@),
            elf_summary(data@) == match total {
                None => None,
                Some(s) => Some(coff::settled(s)),
            },
        decreases sections@.len() - i,
    {
        let sh = &sections[i];
        if sh.sh_type == SHT_SYMTAB {
            let link: usize = sh.sh_link as usize;
            if link >= sections.len() {
                return None;
            }
            let strtab = get_strtab_from_section(data, &sections[link]);
            let symbols = match parse_symtab(data, sh) {
                Ok(v) => v,
                Err(_) => {
                    return None;
                },
            };
            if !add_elf_symbols(&symbols, strtab, &mut summary) {
                return None;
            }
        }
        i = i + 1;
    }
    Some(settle(summary))
}

/// `s` with the external symbols from `i` on. A weak reference is no need.
pub open spec fn macho_summary_from(
    symbols: Seq<SymbolModel>,
    i: nat,
    s: SummaryModel,
) -> SummaryModel
    decreases symbols.len() - i,
{
    if i >= symbols.len() {
        s
    } else {
        let sym = symbols[i as int];
        macho_summary_from(
            symbols,
            i + 1,
            if sym.name.len() == 0 || sym.n_type & N_EXT == 0 {
                s
            } else if sym.is_defined {
                SummaryModel { defined: s.defined.insert(sym.name), ..s }
            } else if sym.is_weak_ref {
                s
            } else {
                SummaryModel { undefined: s.undefined.insert(sym.name), ..s }
            },
        )
    }
}

/// The external names of a Mach-O object.
pub open spec fn macho_summary(data: Seq<u8>) -> Option<SummaryModel> {
    match crate::macho::object_of(data) {
        Err(_) => None,
        Ok(obj) => Some(coff::settled(macho_summary_from(obj.symbols, 0, coff::no_symbols()))),
    }
}

fn collect_macho_symbol_summary(data: &[u8]) -> (r: Option<ObjectSymbolSummary>)
    ensures
        model::view_opt(r) == macho_summary(data@),
{
    let obj = match parse_macho64_object(data) {
        Ok(o) => o,
        Err(_) => {
            return None;
        },
    };
    let mut summary = empty_summary();
    let mut i: usize = 0;
    while i < obj.symbols.len()
        invariant
            i <= obj.symbols@.len(),
            macho_summary_from(obj@.symbols, 0, coff::no_symbols()) == macho_summary_from(
                obj@.symbols,
                i as nat,
                summary@,
            ),
        decreases obj.symbols@.len() - i,
    {
        let sym = &obj.symbols[i];
        assert(obj@.symbols[i as int] == sym@);
        if sym.name.as_str().unicode_len() != 0 && sym.n_type & N_EXT != 0 {
            if sym.is_defined {
                summary.defined.insert(sym.name.clone());
            } else if !sym.is_weak_ref {
                summary.undefined.insert(sym.name.clone());
            }
        }
        i = i + 1;
    }
    Some(settle(summary))
}

/// The external names of an object; none where it cannot be read.
pub open spec fn object_summary(data: Seq<u8>) -> SummaryModel {
    let s = if crate::elf::elf_magic(data) {
        elf_summary(data)
    } else if crate::macho::macho_magic(data) {
        macho_summary(data)
    } else if coff::coff_object(data) {
        coff::coff_summary(data)
    } else {
        None
    };
    match s {
        Some(m) => m,
        None => coff::no_symbols(),
    }
}

/// Collects the external names of an object; none where it cannot be read.
pub fn collect_object_symbol_summary(data: &[u8]) -> (r: ObjectSymbolSummary)
    ensures
        r@ == object_summary(data@),
{
    let s = if is_elf(data) {
        collect_elf_symbol_summary(data)
    } else if is_macho64(data) {
        collect_macho_symbol_summary(data)
    } else if is_coff(data) {
        collect_coff_symbol_summary(data)
    } else {
        None
    };
    match s {
        Some(m) => m,
        None => empty_summary(),
    }
}

/// What an object meets is never among what it needs.
pub proof fn law_summary_is_settled(data: Seq<u8>)
    ensures
        object_summary(data).defined.disjoint(object_summary(data).undefined),
{
}

/// `s` without the bytes `c` at its end.
pub open spec fn trim_end(s: Seq<u8>, c: u8) -> Seq<u8>
    decreases s.len(),
{
    if s.len() > 0 && s.last() == c {
        trim_end(s.drop_last(), c)
    } else {
        s
    }
}

/// The bytes from `start` to `end` without the bytes `c` at their end.
fn trimmed(data: &[u8], start: usize, end: usize, c: u8) -> (r: usize)
    requires
        start <= end <= data@.len(),
    ensures
        start <= r <= end,
        trim_end(data@.subrange(start as int, end as int), c) == data@.subrange(
            start as int,
            r as int,
        ),
{
    let mut k: usize = end;
    while k > start && data[k - 1] == c
        invariant
            start <= k <= end <= data@.len(),
            trim_end(data@.subrange(start as int, end as int), c) == trim_end(
                data@.subrange(start as int, k as int),
                c,
            ),
        decreases k,
    {
        assert(data@.subrange(start as int, k as int).drop_last() =~= data@.subrange(
            start as int,
            k - 1,
        ));
        assert(data@.subrange(start as int, k as int).last() == data@[k - 1]);
        k = k - 1;
    }
    assert(k > start ==> data@.subrange(start as int, k as int).last() == data@[k - 1]);
    k
}

/// The number that the first `n` bytes of `s` write out in base ten.
pub open spec fn digits_value(s: Seq<u8>, n: nat) -> Option<nat>
    decreases n,
{
    if n == 0 {
        Some(0)
    } else {
        match digits_value(s, (n - 1) as nat) {
            Some(v) if 0x30 <= s[n - 1] <= 0x39 => Some((v * 10 + (s[n - 1] - 0x30)) as nat),
            _ => None,
        }
    }
}

/// The number that `s` writes out in base ten, with an optional plus sign in front; zero where it
/// writes out none, or one that is too large for an index.
pub open spec fn number_or_zero(s: Seq<u8>) -> nat {
    let t = if s.len() > 0 && s[0] == 0x2b {
        s.subrange(1, s.len() as int)
    } else {
        s
    };
    if t.len() == 0 {
        0
    } else {
        match digits_value(t, t.len()) {
            Some(v) if v <= usize::MAX => v,
            _ => 0,
        }
    }
}

proof fn lemma_digits_grow(s: Seq<u8>, i: nat, n: nat)
    requires
        i <= n,
        digits_value(s, n) is Some,
    ensures
        digits_value(s, i) is Some,
        digits_value(s, i)->0 <= digits_value(s, n)->0,
    decreases n - i,
{
    if i < n {
        lemma_digits_grow(s, i, (n - 1) as nat);
    }
}

/// Reads a number in base ten, or zero.
pub fn parse_number(s: &[u8]) -> (r: usize)
    ensures
        r == number_or_zero(s@),
{
    let n: usize = s.len();
    let start: usize = if n > 0 && s[0] == 0x2b {
        1
    } else {
        0
    };
    let t = vstd::slice::slice_subrange(s, start, n);
    assert(start == 0 ==> t@ =~= s@);
    let m: usize = t.len();
    if m == 0 {
        return 0;
    }
    let mut value: usize = 0;
    let mut i: usize = 0;
    while i < m
        invariant
            i <= m,
            m == t@.len(),
            m > 0,
            t@ == if s@.len() > 0 && s@[0] == 0x2b {
                s@.subrange(1, s@.len() as int)
            } else {
                s@
            },
            digits_value(t@, i as nat) == Some(value as nat),
        decreases m - i,
    {
        let c: u8 = t[i];
        proof {
            if digits_value(t@, m as nat) is Some {
                lemma_digits_grow(t@, (i + 1) as nat, m as nat);
            }
        }
        if c < 0x30 || c > 0x39 {
            return 0;
        }
        let d: usize = (c - 0x30) as usize;
        if value > (usize::MAX - d) / 10 {
            assert(value * 10 + d > usize::MAX);
            return 0;
        }
        value = value * 10 + d;
        i = i + 1;
    }
    value
}

/// An object in an archive.
pub struct ArchiveMember {
    pub data: Vec<u8>,
    pub symbols: ObjectSymbolSummary,
}

/// The view of an object in an archive.
pub struct MemberModel {
    pub data: Seq<u8>,
    pub symbols: SummaryModel,
}

impl View for ArchiveMember {
    type V = MemberModel;

    open spec fn view(&self) -> MemberModel {
        MemberModel { data: self.data@, symbols: self.symbols@ }
    }
}

/// Whether a file is an object of a format that can be linked.
pub open spec fn is_object(data: Seq<u8>) -> bool {
    crate::elf::elf_magic(data) || crate::macho::macho_magic(data) || coff::coff_object(data)
}

fn has_object_format(data: &[u8]) -> (r: bool)
    ensures
        r == is_object(data@),
{
    is_elf(data) || is_macho64(data) || is_coff(data)
}

/// The name in the header at `off`, without the spaces and slashes at its end; empty where it is
/// not UTF-8.
pub open spec fn member_name(data: Seq<u8>, off: int) -> Seq<u8> {
    let raw = data.subrange(off, off + 16);
    if valid_utf8(raw) {
        trim_end(trim_end(raw, 0x20), 0x2f)
    } else {
        seq![]
    }
}

/// The size in the header at `off`.
pub open spec fn member_size(data: Seq<u8>, off: int) -> nat {
    let raw = data.subrange(off + 48, off + 58);
    if valid_utf8(raw) {
        number_or_zero(trim_end(raw, 0x20))
    } else {
        0
    }
}

/// Whether a name tells that the real one stands in front of the contents.
pub open spec fn name_is_inside(name: Seq<u8>) -> bool {
    name.len() >= 3 && name[0] == 0x23 && name[1] == 0x31 && name[2] == 0x2f
}

/// The contents of a member without the name in front of them.
pub open spec fn member_payload(name: Seq<u8>, body: Seq<u8>) -> Seq<u8> {
    let n = number_or_zero(name.subrange(3, name.len() as int));
    if name_is_inside(name) && n < body.len() {
        body.subrange(n as int, body.len() as int)
    } else {
        body
    }
}

/// The object in the member with the header at `off`.
pub open spec fn member_at(data: Seq<u8>, off: int, wanted: Option<u32>) -> Option<MemberModel> {
    let name = member_name(data, off);
    let size = member_size(data, off);
    let start = off + 60;
    if size > 0 && start + size <= data.len() && name.len() != 0 {
        let object = normalized(member_payload(name, data.subrange(start, start + size)), wanted);
        if is_object(object) {
            Some(MemberModel { data: object, symbols: object_summary(object) })
        } else {
            None
        }
    } else {
        None
    }
}

/// Where the member behind the one with the header at `off` starts: at an even offset.
pub open spec fn next_member(data: Seq<u8>, off: int) -> int {
    let end = off + 60 + member_size(data, off);
    if end % 2 == 0 {
        end
    } else {
        end + 1
    }
}

/// `found`, followed by the objects of the archive from `off` on.
pub open spec fn members_from(
    data: Seq<u8>,
    off: int,
    wanted: Option<u32>,
    found: Seq<MemberModel>,
) -> Seq<MemberModel>
    decreases
            (if off + 60 <= data.len() {
                data.len() - off
            } else {
                0
            }),
{
    if off + 60 > data.len() {
        found
    } else {
        members_from(
            data,
            next_member(data, off),
            wanted,
            match member_at(data, off, wanted) {
                Some(m) => found.push(m),
                None => found,
            },
        )
    }
}

/// The objects of an archive.
pub open spec fn archive_members(data: Seq<u8>, wanted: Option<u32>) -> Seq<MemberModel> {
    if ar_magic(data) {
        members_from(data, 8, wanted, seq![])
    } else {
        seq![]
    }
}

fn read_member_name(data: &[u8], off: usize) -> (r: usize)
    requires
        off + 16 <= data@.len(),
    ensures
        off <= r <= off + 16,
        member_name(data@, off as int) == data@.subrange(off as int, r as int),
{
    assert(data.len() == data@.len());
    if decode_text(vstd::slice::slice_subrange(data, off, off + 16)).is_none() {
        assert(data@.subrange(off as int, off as int) =~= seq![]);
        return off;
    }
    let k: usize = trimmed(data, off, off + 16, 0x20);
    trimmed(data, off, k, 0x2f)
}

fn read_member_size(data: &[u8], off: usize) -> (r: usize)
    requires
        off + 60 <= data@.len(),
    ensures
        r == member_size(data@, off as int),
{
    assert(data.len() == data@.len());
    if decode_text(vstd::slice::slice_subrange(data, off + 48, off + 58)).is_none() {
        return 0;
    }
    let k: usize = trimmed(data, off + 48, off + 58, 0x20);
    parse_number(vstd::slice::slice_subrange(data, off + 48, k))
}

fn read_member(
    data: &[u8],
    off: usize,
    size: usize,
    wanted: Option<u32>,
) -> (r: Option<ArchiveMember>)
    requires
        off + 60 <= data@.len(),
        size == member_size(data@, off as int),
    ensures
        model::view_opt(r) == member_at(data@, off as int, wanted),
{
    let len: usize = data.len();
    let name_end: usize = read_member_name(data, off);
    let start: usize = off + 60;
    if size == 0 || size > len - start || name_end == off {
        return None;
    }
    let name = vstd::slice::slice_subrange(data, off, name_end);
    let body = vstd::slice::slice_subrange(data, start, start + size);
    let payload: &[u8] = if name.len() >= 3 && name[0] == 0x23 && name[1] == 0x31 && name[2]
        == 0x2f {
        let n: usize = parse_number(vstd::slice::slice_subrange(name, 3, name.len()));
        if n < body.len() {
            vstd::slice::slice_subrange(body, n, body.len())
        } else {
            body
        }
    } else {
        body
    };
    let object = normalize_macho_container(payload, wanted);
    if has_object_format(object.as_slice()) {
        let symbols = collect_object_symbol_summary(object.as_slice());
        Some(ArchiveMember { data: object, symbols })
    } else {
        None
    }
}

/// The objects of an archive.
pub fn extract_ar_members(data: &[u8], wanted: Option<u32>) -> (r: Vec<ArchiveMember>)
    ensures
        model::views(r@) == archive_members(data@, wanted),
{
    broadcast use model::group_views;
    let mut out: Vec<ArchiveMember> = Vec::new();
    if !is_ar(data) {
        return out;
    }
    let mut off: usize = 8;
    let ghost mut at: int = 8;
    while has_bytes(data, off, 60)
        invariant
            at <= usize::MAX ==> off == at,
            at > usize::MAX ==> off == usize::MAX,
            at >= 8,
            members_from(data@, at, wanted, model::views(out@))
                == members_from(data@, 8, wanted, seq![]),
        decreases usize::MAX - off,
    {
        broadcast use model::group_views;
        let size: usize = read_member_size(data, off);
        if let Some(m) = read_member(data, off, size, wanted) {
            out.push(m);
        }
        let end: usize = offset_sum(off + 60, size);
        off = if end % 2 == 0 {
            end
        } else {
            offset_sum(end, 1)
        };
        proof {
            at = next_member(data@, at);
        }
    }
    assert(data.len() == data@.len());
    out
}

/// The objects chosen so far, the dynamic libraries met, and the names that the objects define
/// and still need.
pub struct Choice {
    pub objects: Seq<Seq<u8>>,
    pub dylibs: Seq<Seq<char>>,
    pub defined: Set<Seq<char>>,
    pub unresolved: Set<Seq<char>>,
}

/// The objects chosen so far.
pub struct Chosen {
    pub objects: Vec<Vec<u8>>,
    pub dylibs: Vec<String>,
    pub defined: NameSet,
    pub unresolved: NameSet,
}

/// The bytes of each object.
pub open spec fn object_bytes(v: Seq<Vec<u8>>) -> Seq<Seq<u8>> {
    Seq::new(v.len(), |i: int| v[i]@)
}

impl View for Chosen {
    type V = Choice;

    open spec fn view(&self) -> Choice {
        Choice {
            objects: object_bytes(self.objects@),
            dylibs: model::views(self.dylibs@),
            defined: self.defined@,
            unresolved: self.unresolved@,
        }
    }
}

/// `c` with one object more: what it defines is no longer needed, and what it needs is, unless
/// it is defined.
pub open spec fn with_object(c: Choice, data: Seq<u8>, s: SummaryModel) -> Choice {
    let defined = c.defined.union(s.defined);
    Choice {
        objects: c.objects.push(data),
        defined,
        unresolved: c.unresolved.difference(s.defined).union(s.undefined.difference(defined)),
        ..c
    }
}

fn choose_object(c: &mut Chosen, data: Vec<u8>, summary: &ObjectSymbolSummary)
    ensures
        final(c)@ == with_object(old(c)@, data@, summary@),
{
    c.defined.add_all(&summary.defined);
    c.unresolved.remove_all(&summary.defined);
    let mut needs = NameSet::new();
    needs.add_all(&summary.undefined);
    needs.remove_all(&c.defined);
    c.unresolved.add_all(&needs);
    c.objects.push(data);
    proof {
        assert(Set::<Seq<char>>::empty().union(summary@.undefined) =~= summary@.undefined);
        assert(object_bytes(c.objects@) =~= object_bytes(old(c).objects@).push(data@));
    }
}

/// Which members are picked, and the choice, after the members from `i` on have been looked at
/// once. A member is picked where it defines a name that is needed.
pub open spec fn pick_pass(members: Seq<MemberModel>, i: nat, picked: Seq<bool>, c: Choice) -> (
    Seq<bool>,
    Choice,
)
    decreases members.len() - i,
{
    if i >= members.len() {
        (picked, c)
    } else {
        let m = members[i as int];
        if picked[i as int] || m.symbols.defined.disjoint(c.unresolved) {
            pick_pass(members, i + 1, picked, c)
        } else {
            pick_pass(
                members,
                i + 1,
                picked.update(i as int, true),
                with_object(c, m.data, m.symbols),
            )
        }
    }
}

/// How many of the first `n` members are not picked.
pub open spec fn unpicked(picked: Seq<bool>, n: nat) -> nat
    decreases n,
{
    if n == 0 {
        0
    } else {
        unpicked(picked, (n - 1) as nat) + if picked[n - 1] {
            0nat
        } else {
            1
        }
    }
}

/// Picking more leaves fewer.
pub proof fn lemma_unpicked_le(p: Seq<bool>, q: Seq<bool>, n: nat)
    requires
        p.len() == q.len(),
        n <= p.len(),
        forall|i: int| 0 <= i < p.len() && p[i] ==> q[i],
    ensures
        unpicked(q, n) <= unpicked(p, n),
        (exists|i: int| 0 <= i < n && p[i] != q[i]) ==> unpicked(q, n) < unpicked(p, n),
    decreases n,
{
    if n > 0 {
        lemma_unpicked_le(p, q, (n - 1) as nat);
    }
}

/// A pass over the members drops none that was picked.
pub proof fn lemma_pass_keeps(members: Seq<MemberModel>, i: nat, picked: Seq<bool>, c: Choice)
    requires
        picked.len() == members.len(),
    ensures
        pick_pass(members, i, picked, c).0.len() == picked.len(),
        forall|k: int|
            0 <= k < picked.len() && picked[k] ==> pick_pass(members, i, picked, c).0[k],
        forall|k: int|
            0 <= k < i && k < picked.len() ==> pick_pass(members, i, picked, c).0[k] == picked[k],
    decreases members.len() - i,
{
    if i < members.len() {
        let m = members[i as int];
        let p = picked.update(i as int, true);
        let end = pick_pass(members, i, picked, c).0;
        lemma_pass_keeps(members, i + 1, picked, c);
        lemma_pass_keeps(members, i + 1, p, with_object(c, m.data, m.symbols));
        assert forall|k: int| 0 <= k < picked.len() && picked[k] implies end[k] by {
            assert(p[k]);
        }
        assert forall|k: int| 0 <= k < i && k < picked.len() implies end[k] == picked[k] by {
            assert(p[k] == picked[k]);
        }
    }
}

/// Which members are picked, and the choice, once a pass picks no more.
pub open spec fn pick_members(members: Seq<MemberModel>, picked: Seq<bool>, c: Choice) -> (
    Seq<bool>,
    Choice,
)
    decreases unpicked(picked, picked.len()),
{
    let (next, after) = pick_pass(members, 0, picked, c);
    if picked.len() != members.len() || next == picked {
        (next, after)
    } else {
        proof {
            lemma_pass_keeps(members, 0, picked, c);
            if forall|i: int| 0 <= i < picked.len() ==> picked[i] == next[i] {
                assert(next =~= picked);
            }
            lemma_unpicked_le(picked, next, picked.len());
        }
        pick_members(members, next, after)
    }
}

/// No member is picked.
pub open spec fn none_picked(n: nat) -> Seq<bool> {
    Seq::new(n, |i: int| false)
}

/// `c` with the members of an archive that are needed. Where nothing has been chosen at all, the
/// first member is.
pub open spec fn with_archive(c: Choice, members: Seq<MemberModel>) -> Choice {
    let (_, after) = pick_members(members, none_picked(members.len()), c);
    if after.objects.len() == 0 && members.len() > 0 {
        with_object(after, members[0].data, members[0].symbols)
    } else {
        after
    }
}

fn clone_bytes(data: &Vec<u8>) -> (r: Vec<u8>)
    ensures
        r@ == data@,
{
    vstd::slice::slice_to_vec(data.as_slice())
}

fn choose_pass(
    members: &Vec<ArchiveMember>,
    picked: &mut Vec<bool>,
    c: &mut Chosen,
) -> (changed: bool)
    requires
        old(picked)@.len() == members@.len(),
    ensures
        pick_pass(model::views(members@), 0, old(picked)@, old(c)@) == (final(picked)@, final(c)@),
        changed == (final(picked)@ != old(picked)@),
        final(picked)@.len() == members@.len(),
        unpicked(final(picked)@, members@.len()) <= unpicked(old(picked)@, members@.len()),
        changed ==> unpicked(final(picked)@, members@.len()) < unpicked(
            old(picked)@,
            members@.len(),
        ),
{
    let ghost models = model::views(members@);
    let mut changed: bool = false;
    let mut i: usize = 0;
    let n: usize = members.len();
    while i < n
        invariant
            i <= n,
            n == members@.len(),
            models == model::views(members@),
            picked@.len() == n,
            old(picked)@.len() == n,
            pick_pass(models, 0, old(picked)@, old(c)@) == pick_pass(models, i as nat, picked@, c@),
            forall|k: int| 0 <= k < n && old(picked)@[k] ==> picked@[k],
            changed == exists|k: int| 0 <= k < n && old(picked)@[k] != picked@[k],
            forall|k: int| i <= k < n ==> picked@[k] == old(picked)@[k],
        decreases n - i,
    {
        let m = &members[i];
        assert(models[i as int] == m@);
        let ghost before = picked@;
        if !picked[i] && !m.symbols.defined.is_disjoint(&c.unresolved) {
            picked[i] = true;
            choose_object(c, clone_bytes(&m.data), &m.symbols);
            changed = true;
            assert(old(picked)@[i as int] != picked@[i as int]);
        }
        i = i + 1;
    }
    proof {
        lemma_unpicked_le(old(picked)@, picked@, n as nat);
        if !changed {
            assert(picked@ =~= old(picked)@);
        }
    }
    changed
}

fn choose_from_archive(members: &Vec<ArchiveMember>, c: &mut Chosen)
    ensures
        final(c)@ == with_archive(old(c)@, model::views(members@)),
{
    let n: usize = members.len();
    let ghost models = model::views(members@);
    let mut picked: Vec<bool> = vec![false; n];
    assert(picked@ =~= none_picked(n as nat));
    let ghost total = pick_members(models, picked@, c@);
    let mut again: bool = true;
    while again
        invariant
            n == members@.len(),
            models == model::views(members@),
            picked@.len() == n,
            again ==> pick_members(models, picked@, c@) == total,
            !again ==> (picked@, c@) == total,
        decreases unpicked(picked@, n as nat) + if again {
            1nat
        } else {
            0
        },
    {
        again = choose_pass(members, &mut picked, c);
    }
    if c.objects.len() == 0 && n > 0 {
        assert(models[0] == members@[0]@);
        choose_object(c, clone_bytes(&members[0].data), &members[0].symbols);
    }
}

/// `c` with one file more; none where it is neither an object, nor an archive, nor a dynamic
/// library.
pub open spec fn with_file(c: Choice, file: InputModel, wanted: Option<u32>) -> Option<Choice> {
    let data = normalized(file.data, wanted);
    if macho_dylib(data) {
        Some(Choice { dylibs: c.dylibs.push(file.path), ..c })
    } else if ar_magic(data) {
        Some(with_archive(c, archive_members(data, wanted)))
    } else if is_object(data) {
        Some(with_object(c, data, object_summary(data)))
    } else {
        None
    }
}

/// `c` with the files from `i` on.
pub open spec fn with_files(
    c: Choice,
    files: Seq<InputModel>,
    wanted: Option<u32>,
    i: nat,
) -> Option<Choice>
    decreases files.len() - i,
{
    if i >= files.len() {
        Some(c)
    } else {
        match with_file(c, files[i as int], wanted) {
            Some(next) => with_files(next, files, wanted, i + 1),
            None => None,
        }
    }
}

/// Nothing chosen.
pub open spec fn no_choice() -> Choice {
    Choice {
        objects: seq![],
        dylibs: seq![],
        defined: Set::empty(),
        unresolved: Set::empty(),
    }
}

/// The format of an object.
pub open spec fn format_of(data: Seq<u8>) -> Option<ObjectFormat> {
    if crate::elf::elf_magic(data) {
        Some(ObjectFormat::Elf)
    } else if crate::macho::macho_magic(data) {
        Some(ObjectFormat::MachO)
    } else if coff::coff_object(data) {
        Some(ObjectFormat::Coff)
    } else {
        None
    }
}

/// Whether a file has a format.
pub open spec fn has_format(data: Seq<u8>, f: ObjectFormat) -> bool {
    match f {
        ObjectFormat::Elf => crate::elf::elf_magic(data),
        ObjectFormat::MachO => crate::macho::macho_magic(data),
        ObjectFormat::Coff => coff::coff_object(data),
    }
}

/// The objects to link and their common format, with the dynamic libraries among the files; none
/// where there is no object, or their formats differ, or a file is of no known kind.
pub open spec fn loaded(files: Seq<InputModel>, wanted: Option<u32>) -> Option<
    (ObjectFormat, Seq<Seq<u8>>, Seq<Seq<char>>),
> {
    match with_files(no_choice(), files, wanted, 0) {
        None => None,
        Some(c) => if c.objects.len() == 0 {
            None
        } else {
            match format_of(c.objects[0]) {
                None => None,
                Some(f) => if forall|i: int|
                    0 <= i < c.objects.len() ==> has_format(#[trigger] c.objects[i], f) {
                    Some((f, c.objects, c.dylibs))
                } else {
                    None
                },
            }
        },
    }
}

fn choose_file(c: &mut Chosen, file: &InputFile, wanted: Option<u32>) -> (r: bool)
    ensures
        match with_file(old(c)@, file@, wanted) {
            Some(next) => r && final(c)@ == next,
            None => !r,
        },
{
    broadcast use model::group_views;
    let data = normalize_macho_container(file.data.as_slice(), wanted);
    if is_macho_dylib(data.as_slice()) {
        c.dylibs.push(file.path.clone());
        return true;
    }
    if is_ar(data.as_slice()) {
        let members = extract_ar_members(data.as_slice(), wanted);
        choose_from_archive(&members, c);
        return true;
    }
    if !has_object_format(data.as_slice()) {
        return false;
    }
    let summary = collect_object_symbol_summary(data.as_slice());
    choose_object(c, data, &summary);
    true
}

fn check_format(data: &[u8], f: ObjectFormat) -> (r: bool)
    ensures
        r == has_format(data@, f),
{
    match f {
        ObjectFormat::Elf => is_elf(data),
        ObjectFormat::MachO => is_macho64(data),
        ObjectFormat::Coff => is_coff(data),
    }
}

fn detect_format(data: &[u8]) -> (r: Option<ObjectFormat>)
    ensures
        r == format_of(data@),
{
    if is_elf(data) {
        Some(ObjectFormat::Elf)
    } else if is_macho64(data) {
        Some(ObjectFormat::MachO)
    } else if is_coff(data) {
        Some(ObjectFormat::Coff)
    } else {
        None
    }
}

/// Chooses the objects to link from the files, in their order. Of universal files the slice for
/// the CPU type `wanted` is taken, of archives the members that are needed.
pub fn load_objects(files: &[InputFile], wanted: Option<u32>) -> (r: Option<
    (ObjectFormat, Vec<Vec<u8>>, Vec<String>),
>)
    ensures
        match r {
            Some((f, objects, dylibs)) => loaded(model::views(files@), wanted) == Some(
                (f, object_bytes(objects@), model::views(dylibs@)),
            ),
            None => loaded(model::views(files@), wanted) is None,
        },
{
    broadcast use model::group_views;
    let mut c = Chosen {
        objects: Vec::new(),
        dylibs: Vec::new(),
        defined: NameSet::new(),
        unresolved: NameSet::new(),
    };
    assert(c@.objects =~= seq![]);
    let ghost total = with_files(no_choice(), model::views(files@), wanted, 0);
    let mut i: usize = 0;
    while i < files.len()
        invariant
            i <= files@.len(),
            total == with_files(no_choice(), model::views(files@), wanted, 0),
            total == with_files(c@, model::views(files@), wanted, i as nat),
        decreases files@.len() - i,
    {
        assert(model::views(files@)[i as int] == files@[i as int]@);
        if !choose_file(&mut c, &files[i], wanted) {
            return None;
        }
        i = i + 1;
    }
    let ghost chosen = c@;
    assert(chosen.objects.len() == c.objects@.len());
    if c.objects.len() == 0 {
        return None;
    }
    assert(chosen.objects[0] == c.objects@[0]@);
    let format = match detect_format(c.objects[0].as_slice()) {
        Some(f) => f,
        None => {
            return None;
        },
    };
    let mut k: usize = 0;
    while k < c.objects.len()
        invariant
            k <= c.objects@.len(),
            chosen == c@,
            c.objects@.len() > 0,
            format_of(chosen.objects[0]) == Some(format),
            total == Some(chosen),
            total == with_files(no_choice(), model::views(files@), wanted, 0),
            forall|j: int| 0 <= j < k ==> has_format(#[trigger] chosen.objects[j], format),
        decreases c.objects@.len() - k,
    {
        assert(chosen.objects[k as int] == c.objects@[k as int]@);
        if !check_format(c.objects[k].as_slice(), format) {
            return None;
        }
        k = k + 1;
    }
    Some((format, c.objects, c.dylibs))
}

/// The contents of ELF files, of universal ones the slice; none where a file is no ELF file.
pub open spec fn elf_files(files: Seq<InputModel>, wanted: Option<u32>) -> Option<Seq<Seq<u8>>> {
    if files.len() > 0 && forall|i: int|
        0 <= i < files.len()
            ==> crate::elf::elf_magic(normalized((#[trigger] files[i]).data, wanted)) {
        Some(Seq::new(files.len(), |i: int| normalized(files[i].data, wanted)))
    } else {
        None
    }
}

/// Takes files that must all be ELF files.
pub fn load_elf_objects(files: &[InputFile], wanted: Option<u32>) -> (r: Option<Vec<Vec<u8>>>)
    ensures
        match r {
            Some(v) => elf_files(model::views(files@), wanted) == Some(object_bytes(v@)),
            None => elf_files(model::views(files@), wanted) is None,
        },
{
    if files.len() == 0 {
        return None;
    }
    let ghost models = model::views(files@);
    let mut out: Vec<Vec<u8>> = Vec::new();
    let mut i: usize = 0;
    while i < files.len()
        invariant
            i <= files@.len(),
            files@.len() > 0,
            models == model::views(files@),
            out@.len() == i,
            forall|k: int|
                0 <= k < i ==> crate::elf::elf_magic(normalized((#[trigger] models[k]).data,
                    wanted))
                    && out@[k]@ == normalized(models[k].data, wanted),
        decreases files@.len() - i,
    {
        assert(models[i as int] == files@[i as int]@);
        let data = normalize_macho_container(files[i].data.as_slice(), wanted);
        if !is_elf(data.as_slice()) {
            return None;
        }
        out.push(data);
        i = i + 1;
    }
    assert(object_bytes(out@) =~= Seq::new(
        models.len(),
        |i: int| normalized(models[i].data, wanted),
    ));
    Some(out)
}

/// The Mach-O objects to link, with the dynamic libraries among the files.
pub open spec fn loaded_macho(files: Seq<InputModel>, wanted: Option<u32>) -> Option<
    (Seq<Seq<u8>>, Seq<Seq<char>>),
> {
    match loaded(files, wanted) {
        Some((f, objects, dylibs)) => if f == ObjectFormat::MachO {
            Some((objects, dylibs))
        } else {
            None
        },
        None => None,
    }
}

/// Chooses the objects to link where they are Mach-O objects.
pub fn load_macho_objects(files: &[InputFile], wanted: Option<u32>) -> (r: Option<
    (Vec<Vec<u8>>, Vec<String>),
>)
    ensures
        match r {
            Some((objects, dylibs)) => loaded_macho(model::views(files@), wanted) == Some(
                (object_bytes(objects@), model::views(dylibs@)),
            ),
            None => loaded_macho(model::views(files@), wanted) is None,
        },
{
    match load_objects(files, wanted) {
        Some((f, objects, dylibs)) => if matches!(f, ObjectFormat::MachO) {
            Some((objects, dylibs))
        } else {
            None
        },
        None => None,
    }
}

/// Once the members of an archive have been picked, none that is left defines a name that is
/// needed.
pub proof fn law_no_needed_member_is_left(
    members: Seq<MemberModel>,
    picked: Seq<bool>,
    c: Choice,
    k: int,
)
    requires
        picked.len() == members.len(),
        0 <= k < members.len(),
    ensures
        ({
            let (end, after) = pick_members(members, picked, c);
            !end[k] ==> members[k].symbols.defined.disjoint(after.unresolved)
        }),
    decreases unpicked(picked, picked.len()),
{
    let (next, after) = pick_pass(members, 0, picked, c);
    lemma_pass_keeps(members, 0, picked, c);
    if next == picked {
        lemma_idle_pass(members, 0, picked, c, k);
    } else {
        if forall|i: int| 0 <= i < picked.len() ==> picked[i] == next[i] {
            assert(next =~= picked);
        }
        lemma_unpicked_le(picked, next, picked.len());
        law_no_needed_member_is_left(members, next, after, k);
    }
}

proof fn lemma_idle_pass(members: Seq<MemberModel>, i: nat, picked: Seq<bool>, c: Choice, k: int)
    requires
        picked.len() == members.len(),
        i <= k < members.len(),
        pick_pass(members, i, picked, c).0 == picked,
    ensures
        pick_pass(members, i, picked, c).1 == c,
        !picked[k] ==> members[k].symbols.defined.disjoint(c.unresolved),
    decreases members.len() - i,
{
    let m = members[i as int];
    if picked[i as int] || m.symbols.defined.disjoint(c.unresolved) {
        if i < k {
            lemma_idle_pass(members, i + 1, picked, c, k);
        } else if i + 1 < members.len() {
            lemma_idle_pass(members, i + 1, picked, c, (i + 1) as int);
        } else {
            assert(pick_pass(members, i + 1, picked, c) == (picked, c));
        }
    } else {
        let p = picked.update(i as int, true);
        lemma_pass_keeps(members, i + 1, p, with_object(c, m.data, m.symbols));
        assert(p[i as int]);
        assert(pick_pass(members, i, picked, c).0[i as int]);
    }
}

/// What an object defines is not needed any more once it is chosen, and the names that are needed
/// are never among those that are defined.
pub proof fn law_chosen_object_settles(c: Choice, data: Seq<u8>, s: SummaryModel)
    requires
        c.defined.disjoint(c.unresolved),
    ensures
        with_object(c, data, s).unresolved.disjoint(s.defined),
        with_object(c, data, s).defined.disjoint(with_object(c, data, s).unresolved),
{
}

/// A file has at most one of the formats.
pub proof fn law_formats_exclude_each_other(data: Seq<u8>)
    ensures
        crate::elf::elf_magic(data) ==> !crate::macho::macho_magic(data)
            && !coff::coff_object(data),
        crate::macho::macho_magic(data) ==> !coff::coff_object(data),
{
    reveal(bytes::u16_at);
    reveal(bytes::u32_at);
    if data.len() >= 4 {
        let a = data[0];
        let b = data[1];
        let c = data[2];
        let d = data[3];
        let half: u16 = (a as u16) | ((b as u16) << 8);
        let word: u32 = (a as u32) | ((b as u32) << 8) | ((c as u32) << 16) | ((d as u32) << 24);
        assert((word & 0xffff) as u16 == half && (a == 0x7f && b == 0x45 && c == 0x4c && d == 0x46
            ==> word == 0x464c457fu32 && half == 0x457fu16) && (0xFEEDFACFu32 & 0xffff) as u16
            == 0xFACFu16 && (0xCFFAEDFEu32 & 0xffff) as u16 == 0xEDFEu16) by (bit_vector)
            requires
                half == (a as u16) | ((b as u16) << 8),
                word == (a as u32) | ((b as u32) << 8) | ((c as u32) << 16) | ((d as u32) << 24),
        ;
    }
}

/// The entry `i` of a universal file.
pub open spec fn fat_slice(data: Seq<u8>, wide: bool, i: int) -> FatSlice {
    fat_slice_at(
        data,
        8 + i * (if wide {
            32int
        } else {
            20
        }),
        wide,
    )
}

/// The first slice for the wanted CPU type that the file holds is taken, wherever it stands.
pub proof fn law_wanted_slice_is_taken(
    data: Seq<u8>,
    wide: bool,
    n: nat,
    idx: nat,
    wanted: u32,
    first: Option<FatSlice>,
    j: int,
)
    requires
        idx <= j < n,
        fat_slice(data, wide, j).cputype == wanted,
        fat_slice(data, wide, j).offset + fat_slice(data, wide, j).size <= data.len(),
        data.len() <= u64::MAX,
        forall|i: int|
            idx <= i < j ==> (#[trigger] fat_slice(data, wide, i)).offset + fat_slice(
                data,
                wide,
                i,
            ).size <= u64::MAX,
        forall|i: int|
            idx <= i < j ==> (#[trigger] fat_slice(data, wide, i)).cputype != wanted || fat_slice(
                data,
                wide,
                i,
            ).offset + fat_slice(data, wide, i).size > data.len(),
    ensures
        pick_slice(data, wide, n, idx, Some(wanted), first) == Some(fat_slice(data, wide, j)),
    decreases j - idx,
{
    let s = fat_slice(data, wide, idx as int);
    if idx < j {
        assert(s.offset + s.size <= u64::MAX);
        assert(s.cputype != wanted || s.offset + s.size > data.len());
        let next = if s.offset + s.size > data.len() || first is Some {
            first
        } else {
            Some(s)
        };
        law_wanted_slice_is_taken(data, wide, n, idx + 1, wanted, next, j);
    }
}

/// Whether a file is an object, and neither a container nor a dynamic library.
pub open spec fn plain_object(data: Seq<u8>, wanted: Option<u32>) -> bool {
    normalized(data, wanted) == data && !macho_dylib(data) && !ar_magic(data) && format_of(
        data,
    ) is Some
}

/// The contents of files.
pub open spec fn file_contents(files: Seq<InputModel>) -> Seq<Seq<u8>> {
    Seq::new(files.len(), |i: int| files[i].data)
}

/// All objects that are given as such are linked, in their order.
pub proof fn law_given_objects_are_linked(
    c: Choice,
    files: Seq<InputModel>,
    wanted: Option<u32>,
    i: nat,
)
    requires
        i <= files.len(),
        forall|k: int| i <= k < files.len() ==> plain_object((#[trigger] files[k]).data, wanted),
    ensures
        with_files(c, files, wanted, i) is Some,
        with_files(c, files, wanted, i)->0.objects == c.objects + file_contents(files).subrange(
            i as int,
            files.len() as int,
        ),
        with_files(c, files, wanted, i)->0.dylibs == c.dylibs,
    decreases files.len() - i,
{
    let rest = file_contents(files).subrange(i as int, files.len() as int);
    if i < files.len() {
        assert(plain_object(files[i as int].data, wanted));
        let next = with_file(c, files[i as int], wanted)->0;
        law_given_objects_are_linked(next, files, wanted, i + 1);
        let tail = file_contents(files).subrange(i as int + 1, files.len() as int);
        assert(next.objects + tail =~= c.objects + rest);
    } else {
        assert(c.objects + rest =~= c.objects);
    }
}

} // verus!

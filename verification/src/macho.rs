//! Reading 64-bit Mach-O files: the header, the segments with their sections,
//! the symbol table and relocation records.
use vstd::prelude::*;
use vstd::string::*;
use crate::bytes;
use crate::bytes::{has_bytes, offset_sum, read_u16_le, read_u32_le, read_u64_le, trim_cstr};
use crate::model;
use crate::text;
use crate::text::decode_text_lossy;

verus! {

pub const MH_MAGIC_64: u32 = 0xFEEDFACF;

pub const MH_CIGAM_64: u32 = 0xCFFAEDFE;

pub const MH_OBJECT: u32 = 1;

pub const MH_DYLIB: u32 = 6;

pub const LC_SEGMENT_64: u32 = 0x19;

pub const LC_SYMTAB: u32 = 0x0b;

pub const LC_SYMSEG: u32 = 0x02;

pub const CPU_TYPE_X86_64: u32 = 0x01000007;

pub const CPU_TYPE_ARM64: u32 = 0x0100000C;

pub const N_TYPE: u8 = 0x0e;

pub const N_SECT: u8 = 0x0e;

pub const N_EXT: u8 = 0x01;

pub const N_WEAK_REF: u16 = 0x0040;

pub const GENERIC_RELOC_VANILLA: u32 = 0;

pub const ARM64_RELOC_BRANCH26: u32 = 2;

pub const ARM64_RELOC_PAGE21: u32 = 3;

pub const ARM64_RELOC_PAGEOFF12: u32 = 4;

pub const ARM64_RELOC_GOT_LOAD_PAGE21: u32 = 5;

pub const ARM64_RELOC_GOT_LOAD_PAGEOFF12: u32 = 6;

pub const ARM64_RELOC_TLVP_LOAD_PAGE21: u32 = 8;

pub const ARM64_RELOC_TLVP_LOAD_PAGEOFF12: u32 = 9;

pub const ARM64_RELOC_ADDEND: u32 = 10;

pub const X86_64_RELOC_BRANCH: u32 = 2;

/// A CPU type that Mach-O files can be read for.
#[derive(Debug, Clone, Copy, PartialEq, Eq, Structural)]
pub enum MachoCpuType {
    X86_64,
    Arm64,
}

/// The CPU type with a given number.
pub open spec fn cpu_type_of(v: u32) -> Option<MachoCpuType> {
    if v == CPU_TYPE_X86_64 {
        Some(MachoCpuType::X86_64)
    } else if v == CPU_TYPE_ARM64 {
        Some(MachoCpuType::Arm64)
    } else {
        None
    }
}

impl MachoCpuType {
    /// The CPU type with the number `v`.
    pub fn from_raw(v: u32) -> (r: Option<Self>)
        ensures
            r == cpu_type_of(v),
    {
        if v == CPU_TYPE_X86_64 {
            Some(MachoCpuType::X86_64)
        } else if v == CPU_TYPE_ARM64 {
            Some(MachoCpuType::Arm64)
        } else {
            None
        }
    }
}

/// A segment.
#[derive(Debug, Clone)]
pub struct MachoSegment {
    pub name: String,
    pub vmaddr: u64,
    pub vmsize: u64,
    pub fileoff: u64,
    pub filesize: u64,
}

/// The view of a segment.
pub struct SegmentModel {
    pub name: Seq<char>,
    pub vmaddr: u64,
    pub vmsize: u64,
    pub fileoff: u64,
    pub filesize: u64,
}

impl View for MachoSegment {
    type V = SegmentModel;

    open spec fn view(&self) -> SegmentModel {
        SegmentModel {
            name: self.name@,
            vmaddr: self.vmaddr,
            vmsize: self.vmsize,
            fileoff: self.fileoff,
            filesize: self.filesize,
        }
    }
}

/// A section.
#[derive(Debug, Clone)]
pub struct MachoSection {
    pub sectname: String,
    pub segname: String,
    pub addr: u64,
    pub size: u64,
    pub offset: u32,
    pub align: u32,
    pub reloff: u32,
    pub nreloc: u32,
    pub flags: u32,
}

/// The view of a section.
pub struct SectionModel {
    pub sectname: Seq<char>,
    pub segname: Seq<char>,
    pub addr: u64,
    pub size: u64,
    pub offset: u32,
    pub align: u32,
    pub reloff: u32,
    pub nreloc: u32,
    pub flags: u32,
}

impl View for MachoSection {
    type V = SectionModel;

    open spec fn view(&self) -> SectionModel {
        SectionModel {
            sectname: self.sectname@,
            segname: self.segname@,
            addr: self.addr,
            size: self.size,
            offset: self.offset,
            align: self.align,
            reloff: self.reloff,
            nreloc: self.nreloc,
            flags: self.flags,
        }
    }
}

/// A relocation record.
#[derive(Debug, Clone, Copy)]
pub struct MachoReloc {
    pub r_address: u32,
    pub r_symbolnum: u32,
    pub r_pcrel: bool,
    pub r_length: u32,
    pub r_extern: bool,
    pub r_type: u32,
}

/// A symbol.
#[derive(Debug, Clone)]
pub struct MachoSymbol {
    pub name: String,
    pub value: u64,
    pub sect: u8,
    pub n_type: u8,
    pub n_desc: u16,
    pub is_defined: bool,
    pub is_weak_ref: bool,
}

/// The view of a symbol.
pub struct SymbolModel {
    pub name: Seq<char>,
    pub value: u64,
    pub sect: u8,
    pub n_type: u8,
    pub n_desc: u16,
    pub is_defined: bool,
    pub is_weak_ref: bool,
}

impl View for MachoSymbol {
    type V = SymbolModel;

    open spec fn view(&self) -> SymbolModel {
        SymbolModel {
            name: self.name@,
            value: self.value,
            sect: self.sect,
            n_type: self.n_type,
            n_desc: self.n_desc,
            is_defined: self.is_defined,
            is_weak_ref: self.is_weak_ref,
        }
    }
}

/// A file's header, with its segments.
#[derive(Debug, Clone)]
pub struct Macho64Header {
    pub cputype: u32,
    pub filetype: u32,
    pub ncmds: u32,
    pub sizeofcmds: u32,
    pub segments: Vec<MachoSegment>,
}

/// The view of a header.
pub struct HeaderModel {
    pub cputype: u32,
    pub filetype: u32,
    pub ncmds: u32,
    pub sizeofcmds: u32,
    pub segments: Seq<SegmentModel>,
}

impl View for Macho64Header {
    type V = HeaderModel;

    open spec fn view(&self) -> HeaderModel {
        HeaderModel {
            cputype: self.cputype,
            filetype: self.filetype,
            ncmds: self.ncmds,
            sizeofcmds: self.sizeofcmds,
            segments: model::views(self.segments@),
        }
    }
}

/// A relocatable object.
#[derive(Debug, Clone)]
pub struct Macho64Object {
    pub header: Macho64Header,
    pub sections: Vec<MachoSection>,
    pub symbols: Vec<MachoSymbol>,
    pub data: Vec<u8>,
}

/// The view of an object.
pub struct ObjectModel {
    pub header: HeaderModel,
    pub sections: Seq<SectionModel>,
    pub symbols: Seq<SymbolModel>,
    pub data: Seq<u8>,
}

impl View for Macho64Object {
    type V = ObjectModel;

    open spec fn view(&self) -> ObjectModel {
        ObjectModel {
            header: self.header@,
            sections: model::views(self.sections@),
            symbols: model::views(self.symbols@),
            data: self.data@,
        }
    }
}

/// Whether a file starts with the Mach-O magic number, in either byte order.
pub open spec fn macho_magic(data: Seq<u8>) -> bool {
    data.len() >= 4 && (bytes::u32_at(data, 0) == MH_MAGIC_64 || bytes::u32_at(data, 0)
        == MH_CIGAM_64)
}

/// The name in a field of sixteen bytes.
pub open spec fn name16(data: Seq<u8>, off: int) -> Seq<char> {
    text::lossy_text(bytes::cstr(data.subrange(off, off + 16)))
}

/// The segment that the load command at `off` describes.
pub open spec fn segment_at(data: Seq<u8>, off: int) -> Result<SegmentModel, Seq<char>> {
    if data.len() < off + 32 {
        Err("bad vmaddr"@)
    } else if data.len() < off + 40 {
        Err("bad vmsize"@)
    } else if data.len() < off + 48 {
        Err("bad fileoff"@)
    } else if data.len() < off + 56 {
        Err("bad filesize"@)
    } else {
        Ok(
            SegmentModel {
                name: name16(data, off + 8),
                vmaddr: bytes::u64_at(data, off + 24),
                vmsize: bytes::u64_at(data, off + 32),
                fileoff: bytes::u64_at(data, off + 40),
                filesize: bytes::u64_at(data, off + 48),
            },
        )
    }
}

/// `found`, followed by the segments of the next `n` load commands, from `off` on.
pub open spec fn segments_from(data: Seq<u8>, off: int, n: nat, found: Seq<SegmentModel>) -> Result<
    Seq<SegmentModel>,
    Seq<char>,
>
    decreases n,
{
    if n == 0 || data.len() < off + 8 {
        Ok(found)
    } else {
        let cmd = bytes::u32_at(data, off);
        let cmdsize = bytes::u32_at(data, off + 4);
        if cmd == LC_SEGMENT_64 && cmdsize >= 72 {
            match segment_at(data, off) {
                Ok(s) => segments_from(data, off + cmdsize, (n - 1) as nat, found.push(s)),
                Err(e) => Err(e),
            }
        } else {
            segments_from(data, off + cmdsize, (n - 1) as nat, found)
        }
    }
}

/// The header of a file.
pub open spec fn header_of(data: Seq<u8>) -> Result<HeaderModel, Seq<char>> {
    if data.len() < 32 {
        Err("file too short for Mach-O 64 header"@)
    } else if !macho_magic(data) {
        Err("not Mach-O 64"@)
    } else if bytes::u32_at(data, 0) == MH_CIGAM_64 {
        Err("big-endian Mach-O not supported"@)
    } else {
        match segments_from(data, 32, bytes::u32_at(data, 16) as nat, seq![]) {
            Ok(segments) => Ok(
                HeaderModel {
                    cputype: bytes::u32_at(data, 4),
                    filetype: bytes::u32_at(data, 12),
                    ncmds: bytes::u32_at(data, 16),
                    sizeofcmds: bytes::u32_at(data, 20),
                    segments,
                },
            ),
            Err(e) => Err(e),
        }
    }
}

/// Whether `data` starts with the Mach-O magic number.
pub fn is_macho64(data: &[u8]) -> (r: bool)
    ensures
        r == macho_magic(data@),
{
    match read_u32_le(data, 0) {
        Some(magic) => magic == MH_MAGIC_64 || magic == MH_CIGAM_64,
        None => false,
    }
}

/// Whether `data` is a Mach-O dynamic library.
pub fn is_macho_dylib(data: &[u8]) -> (r: bool)
    ensures
        r == (macho_magic(data@) && data@.len() >= 16 && bytes::u32_at(data@, 12) == MH_DYLIB),
{
    if !is_macho64(data) {
        return false;
    }
    match read_u32_le(data, 12) {
        Some(ft) => ft == MH_DYLIB,
        None => false,
    }
}

fn read_name16(data: &[u8], off: usize) -> (r: String)
    requires
        off + 16 <= data@.len(),
    ensures
        r@ == name16(data@, off as int),
{
    assert(data.len() == data@.len());
    decode_text_lossy(trim_cstr(vstd::slice::slice_subrange(data, off, off + 16)))
}

fn read_segment(data: &[u8], off: usize) -> (r: Result<MachoSegment, String>)
    requires
        off + 8 <= data@.len(),
    ensures
        model::outcome(r) == segment_at(data@, off as int),
{
    if !has_bytes(data, off, 32) {
        return Err("bad vmaddr".to_string());
    }
    if !has_bytes(data, off, 40) {
        return Err("bad vmsize".to_string());
    }
    if !has_bytes(data, off, 48) {
        return Err("bad fileoff".to_string());
    }
    if !has_bytes(data, off, 56) {
        return Err("bad filesize".to_string());
    }
    let name = read_name16(data, off + 8);
    let vmaddr: u64 = read_u64_le(data, off + 24).unwrap();
    let vmsize: u64 = read_u64_le(data, off + 32).unwrap();
    let fileoff: u64 = read_u64_le(data, off + 40).unwrap();
    let filesize: u64 = read_u64_le(data, off + 48).unwrap();
    Ok(MachoSegment { name, vmaddr, vmsize, fileoff, filesize })
}

/// Reads the header and the segments.
pub fn parse_macho64_header(data: &[u8]) -> (r: Result<Macho64Header, String>)
    ensures
        model::outcome(r) == header_of(data@),
{
    broadcast use model::group_views;
    if data.len() < 32 {
        return Err("file too short for Mach-O 64 header".to_string());
    }
    let magic: u32 = read_u32_le(data, 0).unwrap();
    if magic != MH_MAGIC_64 && magic != MH_CIGAM_64 {
        return Err("not Mach-O 64".to_string());
    }
    if magic == MH_CIGAM_64 {
        return Err("big-endian Mach-O not supported".to_string());
    }
    let cputype: u32 = read_u32_le(data, 4).unwrap();
    let filetype: u32 = read_u32_le(data, 12).unwrap();
    let ncmds: u32 = read_u32_le(data, 16).unwrap();
    let sizeofcmds: u32 = read_u32_le(data, 20).unwrap();

    let mut segments: Vec<MachoSegment> = Vec::new();
    let mut off: usize = 32;
    let ghost mut at: int = 32;
    let mut left: u32 = ncmds;
    let ghost total = segments_from(data@, 32, ncmds as nat, seq![]);
    while left > 0 && has_bytes(data, off, 8)
        invariant
            at <= usize::MAX ==> off == at,
            at > usize::MAX ==> off == usize::MAX,
            at >= 32,
            segments_from(data@, at, left as nat, model::views(segments@)) == total,
            total == segments_from(data@, 32, ncmds as nat, seq![]),
            header_of(data@) == match total {
                Ok(s) => Ok::<HeaderModel, Seq<char>>(
                    (HeaderModel { cputype, filetype, ncmds, sizeofcmds, segments: s }),
                ),
                Err(e) => Err(e),
            },
        decreases left,
    {
        broadcast use model::group_views;
        let cmd: u32 = read_u32_le(data, off).unwrap();
        let cmdsize: u32 = read_u32_le(data, off + 4).unwrap();
        if cmd == LC_SEGMENT_64 && cmdsize >= 72 {
            match read_segment(data, off) {
                Ok(s) => {
                    segments.push(s);
                },
                Err(e) => {
                    return Err(e);
                },
            }
        }
        off = offset_sum(off, cmdsize as usize);
        proof {
            at = at + cmdsize;
        }
        left = left - 1;
    }
    Ok(Macho64Header { cputype, filetype, ncmds, sizeofcmds, segments })
}

/// `found`, followed by the `n` sections described from `off` on, as far as the file holds them.
pub open spec fn sections_from(data: Seq<u8>, off: int, n: nat, found: Seq<SectionModel>) -> Seq<
    SectionModel,
>
    decreases n,
{
    if n == 0 || data.len() < off + 80 {
        found
    } else {
        sections_from(data, off + 80, (n - 1) as nat, found.push(section_at(data, off)))
    }
}

/// The section described at `off`.
pub open spec fn section_at(data: Seq<u8>, off: int) -> SectionModel {
    SectionModel {
        sectname: name16(data, off),
        segname: name16(data, off + 16),
        addr: bytes::u64_at(data, off + 32),
        size: bytes::u64_at(data, off + 40),
        offset: bytes::u32_at(data, off + 48),
        align: bytes::u32_at(data, off + 52),
        reloff: bytes::u32_at(data, off + 56),
        nreloc: bytes::u32_at(data, off + 60),
        flags: bytes::u32_at(data, off + 64),
    }
}

/// `found`, followed by the sections of the segment command at `off`.
pub open spec fn segment_sections(data: Seq<u8>, off: int, found: Seq<SectionModel>) -> Seq<
    SectionModel,
> {
    if data.len() < off + 68 {
        found
    } else {
        sections_from(data, off + 72, bytes::u32_at(data, off + 64) as nat, found)
    }
}

/// The name at `strx` in the string table of `strsize` bytes at `stroff`; empty where there
/// is none.
pub open spec fn table_name(data: Seq<u8>, strx: int, stroff: int, strsize: int) -> Seq<char> {
    if 0 < strx < strsize && stroff + strx <= data.len() {
        text::lossy_text(bytes::cstr(data.subrange(stroff + strx, data.len() as int)))
    } else {
        seq![]
    }
}

/// The symbol described at `off`.
pub open spec fn symbol_at(data: Seq<u8>, off: int, stroff: int, strsize: int) -> SymbolModel {
    let n_type = data[off + 4];
    let n_sect = data[off + 5];
    let n_desc = bytes::u16_at(data, off + 6);
    let is_defined = n_type & N_TYPE == N_SECT && n_sect != 0;
    SymbolModel {
        name: table_name(data, bytes::u32_at(data, off) as int, stroff, strsize),
        value: bytes::u64_at(data, off + 8),
        sect: n_sect,
        n_type,
        n_desc,
        is_defined,
        is_weak_ref: !is_defined && n_desc & N_WEAK_REF != 0,
    }
}

/// `found`, followed by the `n` symbols described from `off` on, as far as the file holds them.
pub open spec fn symbols_from(
    data: Seq<u8>,
    off: int,
    n: nat,
    stroff: int,
    strsize: int,
    found: Seq<SymbolModel>,
) -> Seq<SymbolModel>
    decreases n,
{
    if n == 0 || data.len() < off + 16 {
        found
    } else {
        symbols_from(
            data,
            off + 16,
            (n - 1) as nat,
            stroff,
            strsize,
            found.push(symbol_at(data, off, stroff, strsize)),
        )
    }
}

/// The relocation record at `off`.
pub open spec fn reloc_at(data: Seq<u8>, off: int) -> MachoReloc {
    let info = bytes::u32_at(data, off + 4);
    MachoReloc {
        r_address: bytes::u32_at(data, off),
        r_symbolnum: info & 0xFFFFFF,
        r_pcrel: (info >> 24) & 1 != 0,
        r_length: (info >> 25) & 3,
        r_extern: (info >> 27) & 1 != 0,
        r_type: (info >> 28) & 0xF,
    }
}

/// How many of `nreloc` records from `reloff` on the file holds.
pub open spec fn reloc_count(data: Seq<u8>, reloff: int, nreloc: int) -> int {
    if data.len() < reloff {
        0
    } else if (data.len() - reloff) / 8 < nreloc {
        (data.len() - reloff) / 8
    } else {
        nreloc
    }
}

/// The relocation records from `reloff` on, as far as the file holds them.
pub open spec fn relocs_of(data: Seq<u8>, reloff: u32, nreloc: u32) -> Seq<MachoReloc> {
    Seq::new(
        reloc_count(data, reloff as int, nreloc as int) as nat,
        |i: int| reloc_at(data, reloff + i * 8),
    )
}

/// Where the symbol table and its strings stand.
#[derive(Debug, Clone, Copy)]
pub struct SymtabPlace {
    pub symoff: u32,
    pub nsyms: u32,
    pub stroff: u32,
    pub strsize: u32,
}

/// What the load commands of an object describe.
pub struct Commands {
    pub sections: Seq<SectionModel>,
    pub symtab: SymtabPlace,
}

/// The larger of the symbol table seen so far and the one that the command at `off` describes.
pub open spec fn larger_symtab(data: Seq<u8>, off: int, seen: SymtabPlace) -> Result<
    SymtabPlace,
    Seq<char>,
> {
    if data.len() < off + 12 {
        Err("bad symoff"@)
    } else if data.len() < off + 16 {
        Err("bad nsyms"@)
    } else if data.len() < off + 20 {
        Err("bad stroff"@)
    } else if data.len() < off + 24 {
        Err("bad strsize"@)
    } else if bytes::u32_at(data, off + 12) > seen.nsyms {
        Ok(
            SymtabPlace {
                symoff: bytes::u32_at(data, off + 8),
                nsyms: bytes::u32_at(data, off + 12),
                stroff: bytes::u32_at(data, off + 16),
                strsize: bytes::u32_at(data, off + 20),
            },
        )
    } else {
        Ok(seen)
    }
}

/// `seen`, with what the next `n` load commands from `off` on describe.
pub open spec fn commands_from(data: Seq<u8>, off: int, n: nat, seen: Commands) -> Result<
    Commands,
    Seq<char>,
>
    decreases n,
{
    if n == 0 || data.len() < off + 8 {
        Ok(seen)
    } else {
        let cmd = bytes::u32_at(data, off);
        let cmdsize = bytes::u32_at(data, off + 4);
        if cmd == LC_SEGMENT_64 && cmdsize >= 72 {
            commands_from(
                data,
                off + cmdsize,
                (n - 1) as nat,
                Commands { sections: segment_sections(data, off, seen.sections), ..seen },
            )
        } else if (cmd == LC_SYMTAB || cmd == LC_SYMSEG) && cmdsize >= 24 {
            match larger_symtab(data, off, seen.symtab) {
                Ok(symtab) => commands_from(
                    data,
                    off + cmdsize,
                    (n - 1) as nat,
                    Commands { symtab, ..seen },
                ),
                Err(e) => Err(e),
            }
        } else {
            commands_from(data, off + cmdsize, (n - 1) as nat, seen)
        }
    }
}

/// The object that a file holds.
pub open spec fn object_of(data: Seq<u8>) -> Result<ObjectModel, Seq<char>> {
    match header_of(data) {
        Err(e) => Err(e),
        Ok(header) => if header.filetype != MH_OBJECT {
            Err("expected MH_OBJECT"@)
        } else {
            match commands_from(
                data,
                32,
                header.ncmds as nat,
                Commands {
                    sections: seq![],
                    symtab: SymtabPlace { symoff: 0, nsyms: 0, stroff: 0, strsize: 0 },
                },
            ) {
                Err(e) => Err(e),
                Ok(c) => Ok(
                    ObjectModel {
                        header,
                        sections: c.sections,
                        symbols: symbols_from(
                            data,
                            c.symtab.symoff as int,
                            c.symtab.nsyms as nat,
                            c.symtab.stroff as int,
                            c.symtab.strsize as int,
                            seq![],
                        ),
                        data,
                    },
                ),
            }
        },
    }
}

fn parse_section(data: &[u8], off: usize) -> (r: MachoSection)
    requires
        off + 80 <= data@.len(),
    ensures
        r@ == section_at(data@, off as int),
{
    assert(data.len() == data@.len());
    let sectname = read_name16(data, off);
    let segname = read_name16(data, off + 16);
    let addr: u64 = read_u64_le(data, off + 32).unwrap();
    let size: u64 = read_u64_le(data, off + 40).unwrap();
    let offset: u32 = read_u32_le(data, off + 48).unwrap();
    let align: u32 = read_u32_le(data, off + 52).unwrap();
    let reloff: u32 = read_u32_le(data, off + 56).unwrap();
    let nreloc: u32 = read_u32_le(data, off + 60).unwrap();
    let flags: u32 = read_u32_le(data, off + 64).unwrap();
    MachoSection { sectname, segname, addr, size, offset, align, reloff, nreloc, flags }
}

/// Appends the sections of the segment command at `off`.
fn parse_sections_from_segment(data: &[u8], off: usize, found: &mut Vec<MachoSection>)
    requires
        off + 8 <= data@.len(),
    ensures
        model::views(final(found)@)
            == segment_sections(data@, off as int, model::views(old(found)@)),
{
    if !has_bytes(data, off, 68) {
        return;
    }
    let nsects: u32 = read_u32_le(data, off + 64).unwrap();
    let mut left: u32 = nsects;
    let mut sec_off: usize = offset_sum(off, 72);
    let ghost mut at: int = off + 72;
    let ghost total = segment_sections(data@, off as int, model::views(found@));
    while left > 0 && has_bytes(data, sec_off, 80)
        invariant
            at <= usize::MAX ==> sec_off == at,
            at > usize::MAX ==> sec_off == usize::MAX,
            sections_from(data@, at, left as nat, model::views(found@)) == total,
        decreases left,
    {
        broadcast use model::group_views;
        let s = parse_section(data, sec_off);
        found.push(s);
        sec_off = offset_sum(sec_off, 80);
        proof {
            at = at + 80;
        }
        left = left - 1;
    }
}

fn symbol_name(data: &[u8], strx: u32, stroff: u32, strsize: u32) -> (r: String)
    ensures
        r@ == table_name(data@, strx as int, stroff as int, strsize as int),
{
    if 0 < strx && strx < strsize {
        let start: u64 = stroff as u64 + strx as u64;
        if start <= data.len() as u64 {
            let rest = vstd::slice::slice_subrange(data, start as usize, data.len());
            return decode_text_lossy(trim_cstr(rest));
        }
    }
    let r = String::new();
    assert(r@ =~= seq![]);
    r
}

fn parse_symtab(data: &[u8], place: &SymtabPlace) -> (r: Vec<MachoSymbol>)
    ensures
        model::views(r@) == symbols_from(
            data@,
            place.symoff as int,
            place.nsyms as nat,
            place.stroff as int,
            place.strsize as int,
            seq![],
        ),
{
    broadcast use model::group_views;
    let mut symbols: Vec<MachoSymbol> = Vec::new();
    let mut left: u32 = place.nsyms;
    let mut off: usize = place.symoff as usize;
    let ghost mut at: int = off as int;
    let ghost total = symbols_from(
        data@,
        place.symoff as int,
        place.nsyms as nat,
        place.stroff as int,
        place.strsize as int,
        seq![],
    );
    while left > 0 && has_bytes(data, off, 16)
        invariant
            at <= usize::MAX ==> off == at,
            at > usize::MAX ==> off == usize::MAX,
            symbols_from(
                data@,
                at,
                left as nat,
                place.stroff as int,
                place.strsize as int,
                model::views(symbols@),
            ) == total,
        decreases left,
    {
        broadcast use model::group_views;
        let strx: u32 = read_u32_le(data, off).unwrap();
        let n_type: u8 = data[off + 4];
        let sect: u8 = data[off + 5];
        let n_desc: u16 = read_u16_le(data, off + 6).unwrap();
        let value: u64 = read_u64_le(data, off + 8).unwrap();
        let name = symbol_name(data, strx, place.stroff, place.strsize);
        let is_defined = n_type & N_TYPE == N_SECT && sect != 0;
        let is_weak_ref = !is_defined && n_desc & N_WEAK_REF != 0;
        symbols.push(MachoSymbol { name, value, sect, n_type, n_desc, is_defined, is_weak_ref });
        off = offset_sum(off, 16);
        proof {
            at = at + 16;
        }
        left = left - 1;
    }
    symbols
}

/// Reads up to `nreloc` relocation records from `reloff` on.
pub fn parse_macho_relocs(data: &[u8], reloff: u32, nreloc: u32) -> (r: Vec<MachoReloc>)
    ensures
        r@ == relocs_of(data@, reloff, nreloc),
{
    let mut out: Vec<MachoReloc> = Vec::new();
    let mut i: u32 = 0;
    let mut off: usize = reloff as usize;
    while i < nreloc && has_bytes(data, off, 8)
        invariant
            i <= nreloc,
            reloff + i * 8 <= usize::MAX ==> off == reloff + i * 8,
            reloff + i * 8 > usize::MAX ==> off == usize::MAX,
            i <= reloc_count(data@, reloff as int, nreloc as int),
            out@ == Seq::new(i as nat, |k: int| reloc_at(data@, reloff + k * 8)),
        decreases nreloc - i,
    {
        let r_address: u32 = read_u32_le(data, off).unwrap();
        let info: u32 = read_u32_le(data, off + 4).unwrap();
        out.push(
            MachoReloc {
                r_address,
                r_symbolnum: info & 0xFFFFFF,
                r_pcrel: (info >> 24) & 1 != 0,
                r_length: (info >> 25) & 3,
                r_extern: (info >> 27) & 1 != 0,
                r_type: (info >> 28) & 0xF,
            },
        );
        off = offset_sum(off, 8);
        i = i + 1;
        assert(out@ =~= Seq::new(i as nat, |k: int| reloc_at(data@, reloff + k * 8)));
    }
    assert(data.len() == data@.len());
    assert(i == reloc_count(data@, reloff as int, nreloc as int));
    out
}

/// Reads the symbol table command at `off`.
fn read_symtab_command(data: &[u8], off: usize, seen: SymtabPlace) -> (r: Result<
    SymtabPlace,
    String,
>)
    requires
        off + 8 <= data@.len(),
    ensures
        match r {
            Ok(p) => larger_symtab(data@, off as int, seen) == Ok::<SymtabPlace, Seq<char>>(p),
            Err(e) => larger_symtab(data@, off as int, seen) == Err::<SymtabPlace, Seq<char>>(e@),
        },
{
    if !has_bytes(data, off, 12) {
        return Err("bad symoff".to_string());
    }
    if !has_bytes(data, off, 16) {
        return Err("bad nsyms".to_string());
    }
    if !has_bytes(data, off, 20) {
        return Err("bad stroff".to_string());
    }
    if !has_bytes(data, off, 24) {
        return Err("bad strsize".to_string());
    }
    let nsyms: u32 = read_u32_le(data, off + 12).unwrap();
    if nsyms > seen.nsyms {
        let symoff: u32 = read_u32_le(data, off + 8).unwrap();
        let stroff: u32 = read_u32_le(data, off + 16).unwrap();
        let strsize: u32 = read_u32_le(data, off + 20).unwrap();
        Ok(SymtabPlace { symoff, nsyms, stroff, strsize })
    } else {
        Ok(seen)
    }
}

/// Reads a relocatable object.
pub fn parse_macho64_object(data: &[u8]) -> (r: Result<Macho64Object, String>)
    ensures
        model::outcome(r) == object_of(data@),
{
    broadcast use model::group_views;
    let header = match parse_macho64_header(data) {
        Ok(h) => h,
        Err(e) => {
            return Err(e);
        },
    };
    if header.filetype != MH_OBJECT {
        return Err("expected MH_OBJECT".to_string());
    }
    let mut sections: Vec<MachoSection> = Vec::new();
    let mut symtab = SymtabPlace { symoff: 0, nsyms: 0, stroff: 0, strsize: 0 };
    let mut off: usize = 32;
    let ghost mut at: int = 32;
    let mut left: u32 = header.ncmds;
    let ghost total = commands_from(
        data@,
        32,
        header.ncmds as nat,
        Commands { sections: seq![], symtab },
    );
    while left > 0 && has_bytes(data, off, 8)
        invariant
            at <= usize::MAX ==> off == at,
            at > usize::MAX ==> off == usize::MAX,
            at >= 32,
            commands_from(
                data@,
                at,
                left as nat,
                Commands { sections: model::views(sections@), symtab },
            ) == total,
            header_of(data@) == Ok::<HeaderModel, Seq<char>>(header@),
            header.filetype == MH_OBJECT,
            total == commands_from(
                data@,
                32,
                header.ncmds as nat,
                (Commands {
                    sections: seq![],
                    symtab: (SymtabPlace { symoff: 0, nsyms: 0, stroff: 0, strsize: 0 }),
                }),
            ),
        decreases left,
    {
        let cmd: u32 = read_u32_le(data, off).unwrap();
        let cmdsize: u32 = read_u32_le(data, off + 4).unwrap();
        if cmd == LC_SEGMENT_64 && cmdsize >= 72 {
            parse_sections_from_segment(data, off, &mut sections);
        } else if (cmd == LC_SYMTAB || cmd == LC_SYMSEG) && cmdsize >= 24 {
            match read_symtab_command(data, off, symtab) {
                Ok(s) => {
                    symtab = s;
                },
                Err(e) => {
                    return Err(e);
                },
            }
        }
        off = offset_sum(off, cmdsize as usize);
        proof {
            at = at + cmdsize;
        }
        left = left - 1;
    }
    let symbols = parse_symtab(data, &symtab);
    Ok(Macho64Object { header, sections, symbols, data: vstd::slice::slice_to_vec(data) })
}

/// Whether a symbol is defined and whether it is a weak reference are told by its record alone: it
/// is defined where its type is that of a section and it names one, and it is a weak reference
/// where it is not defined and its description says so.
pub open spec fn is_settled(s: SymbolModel) -> bool {
    &&& s.is_defined == (s.n_type & 0x0e == 0x0e && s.sect != 0)
    &&& s.is_weak_ref == (!s.is_defined && s.n_desc & 0x40 != 0)
}

proof fn lemma_symbols_are_settled(
    data: Seq<u8>,
    off: int,
    n: nat,
    stroff: int,
    strsize: int,
    found: Seq<SymbolModel>,
)
    requires
        forall|i: int| 0 <= i < found.len() ==> is_settled(#[trigger] found[i]),
    ensures
        ({
            let r = symbols_from(data, off, n, stroff, strsize, found);
            forall|i: int| 0 <= i < r.len() ==> is_settled(#[trigger] r[i])
        }),
    decreases n,
{
    if n > 0 && data.len() >= off + 16 {
        let s = symbol_at(data, off, stroff, strsize);
        let next = found.push(s);
        assert(is_settled(s));
        lemma_symbols_are_settled(data, off + 16, (n - 1) as nat, stroff, strsize, next);
        assert(symbols_from(data, off, n, stroff, strsize, found) == symbols_from(
            data,
            off + 16,
            (n - 1) as nat,
            stroff,
            strsize,
            next,
        ));
    } else {
        assert(symbols_from(data, off, n, stroff, strsize, found) == found);
    }
}

/// Only relocatable objects are read as objects. What is read keeps the header and the bytes of
/// the file, and every symbol of it is defined, or a weak reference, as its record says.
pub proof fn law_object_is_as_its_file(data: Seq<u8>)
    requires
        header_of(data) is Ok,
    ensures
        ({
            let h = header_of(data)->Ok_0;
            let o = object_of(data)->Ok_0;
            &&& h.filetype != 1 ==> object_of(data) == Err::<ObjectModel, Seq<char>>(
                "expected MH_OBJECT"@,
            )
            &&& object_of(data) is Ok ==> h.filetype == 1 && o.header == h && o.data == data
            &&& object_of(data) is Ok ==> forall|i: int|
                0 <= i < o.symbols.len() ==> is_settled(#[trigger] o.symbols[i])
        }),
{
    let h = header_of(data)->Ok_0;
    if object_of(data) is Ok {
        let place = SymtabPlace { symoff: 0, nsyms: 0, stroff: 0, strsize: 0 };
        let c = commands_from(
            data,
            32,
            h.ncmds as nat,
            Commands { sections: seq![], symtab: place },
        )->Ok_0;
        let none: Seq<SymbolModel> = seq![];
        lemma_symbols_are_settled(
            data,
            c.symtab.symoff as int,
            c.symtab.nsyms as nat,
            c.symtab.stroff as int,
            c.symtab.strsize as int,
            none,
        );
    }
}

} // verus!

//! Writing Mach-O executables.
use vstd::prelude::*;
use vstd::string::*;
use vstd::utf8::*;
use crate::arch;
use crate::arch::TargetArch;
use crate::bytes;
use crate::bytes::{push_bytes, push_u32, push_u64, push_zeros};
use crate::link;
use crate::link::{LayoutModel, MergedLayout};
use crate::macho::{LC_SEGMENT_64, MH_MAGIC_64};
use crate::segment;
use crate::segment::{build_segment_buffer, padding};
use crate::text;
use crate::text::{split_once_dot, starts_with, str_eq};

pub use crate::emit::macho_dynamic::emit_macho_executable_dynamic;

verus! {

pub const LC_MAIN: u32 = 0x80000028;

pub const LC_LOAD_DYLINKER: u32 = 0x0E;

pub const LC_LOAD_DYLIB: u32 = 0x0C;

pub const LC_UUID: u32 = 0x1B;

pub const LC_DYLD_INFO_ONLY: u32 = 0x80000022;

pub const LC_BUILD_VERSION: u32 = 0x32;

pub const LC_SYMTAB_TABLE: u32 = 0x2;

pub const LC_DYSYMTAB: u32 = 0xb;

/// The address of the first segment.
pub const MACHO_BASE: u64 = 0x100000000;

/// A name in sixteen bytes: cut off, or filled up with zeros.
pub open spec fn name16_bytes(name: Seq<char>) -> Seq<u8> {
    let b = encode_utf8(name);
    if b.len() >= 16 {
        b.subrange(0, 16)
    } else {
        b + bytes::zeros(16 - b.len())
    }
}

fn push_name16(out: &mut Vec<u8>, name: &str)
    ensures
        final(out)@ == old(out)@ + name16_bytes(name@),
{
    let b = name.as_bytes();
    if b.len() >= 16 {
        push_bytes(out, vstd::slice::slice_subrange(b, 0, 16));
    } else {
        push_bytes(out, b);
        push_zeros(out, 16 - b.len());
    }
    assert(out@ =~= old(out)@ + name16_bytes(name@));
}

/// The segment and the section name under which a merged section is written.
pub open spec fn name_fields(name: Seq<char>) -> (Seq<char>, Seq<char>) {
    if name == ".text"@ {
        ("__TEXT"@, "__text"@)
    } else if name == "__got"@ {
        ("__DATA"@, "__got"@)
    } else if name == "__data"@ || name == "__bss"@ || name == "__common"@ || name
        == "__thread_bss"@ || name == "__thread_data"@ || name == "__thread_vars"@ {
        ("__DATA"@, name)
    } else if name == "__stubs"@ || name == "__stub_helper"@ {
        ("__TEXT"@, name)
    } else {
        match text::split_at_first(name, '.') {
            Some((seg, sect)) => if (text::is_prefix("__DATA"@, seg)
                || text::is_prefix("__AUTH"@, seg))
                && text::is_prefix("__"@, sect) {
                ("__DATA"@, sect)
            } else if text::is_prefix("__"@, seg) && text::is_prefix("__"@, sect) {
                (seg, sect)
            } else {
                ("__TEXT"@, name)
            },
            None => ("__TEXT"@, name),
        }
    }
}

/// The segment and the section name under which a merged section is written.
pub fn section_name_fields(name: &str) -> (r: (String, String))
    ensures
        (r.0@, r.1@) == name_fields(name@),
{
    if str_eq(name, ".text") {
        return ("__TEXT".to_string(), "__text".to_string());
    }
    if str_eq(name, "__got") {
        return ("__DATA".to_string(), "__got".to_string());
    }
    if str_eq(name, "__data") || str_eq(name, "__bss") || str_eq(name, "__common") || str_eq(
        name,
        "__thread_bss",
    ) || str_eq(name, "__thread_data") || str_eq(name, "__thread_vars") {
        return ("__DATA".to_string(), name.to_string());
    }
    if str_eq(name, "__stubs") || str_eq(name, "__stub_helper") {
        return ("__TEXT".to_string(), name.to_string());
    }
    if let Some((seg, sect)) = split_once_dot(name) {
        if (starts_with(seg.as_str(), "__DATA") || starts_with(seg.as_str(), "__AUTH"))
            && starts_with(sect.as_str(), "__") {
            return ("__DATA".to_string(), sect);
        }
        if starts_with(seg.as_str(), "__") && starts_with(sect.as_str(), "__") {
            return (seg, sect);
        }
    }
    ("__TEXT".to_string(), name.to_string())
}

/// The flags of a section.
pub open spec fn section_kind(sectname: Seq<char>) -> u32 {
    if sectname == "__text"@ || sectname == "__stubs"@ || sectname == "__stub_helper"@ {
        0x80000400
    } else if sectname == "__cstring"@ {
        2
    } else if sectname == "__bss"@ || sectname == "__common"@ {
        1
    } else if sectname == "__thread_data"@ {
        0x11
    } else if sectname == "__thread_bss"@ {
        0x12
    } else if sectname == "__thread_vars"@ {
        0x13
    } else {
        0
    }
}

/// The flags of a section.
pub fn section_meta(name: &str) -> (r: u32)
    ensures
        r == section_kind(name@),
{
    if str_eq(name, "__text") || str_eq(name, "__stubs") || str_eq(name, "__stub_helper") {
        0x80000400
    } else if str_eq(name, "__cstring") {
        2
    } else if str_eq(name, "__bss") || str_eq(name, "__common") {
        1
    } else if str_eq(name, "__thread_data") {
        0x11
    } else if str_eq(name, "__thread_bss") {
        0x12
    } else if str_eq(name, "__thread_vars") {
        0x13
    } else {
        0
    }
}

/// The description of a section, 80 bytes long.
pub open spec fn section_record(
    sectname: Seq<char>,
    segname: Seq<char>,
    addr: u64,
    size: u64,
    offset: u32,
    align: u32,
    flags: u32,
) -> Seq<u8> {
    name16_bytes(sectname) + name16_bytes(segname) + bytes::le64(addr) + bytes::le64(size)
        + bytes::le32(offset) + bytes::le32(
        align,
    ) + bytes::le32(0) + bytes::le32(0) + bytes::le32(flags) + bytes::le32(0) + bytes::le32(0)
        + bytes::le32(0)
}

/// Appends the description of a section.
pub fn push_section_record(
    out: &mut Vec<u8>,
    sectname: &str,
    segname: &str,
    addr: u64,
    size: u64,
    offset: u32,
    align: u32,
    flags: u32,
)
    ensures
        final(out)@ == old(out)@ + section_record(
            sectname@,
            segname@,
            addr,
            size,
            offset,
            align,
            flags,
        ),
{
    let mut h: Vec<u8> = Vec::new();
    push_name16(&mut h, sectname);
    assert(h@ =~= name16_bytes(sectname@));
    push_name16(&mut h, segname);
    push_u64(&mut h, addr);
    push_u64(&mut h, size);
    push_u32(&mut h, offset);
    push_u32(&mut h, align);
    push_u32(&mut h, 0);
    push_u32(&mut h, 0);
    push_u32(&mut h, flags);
    push_u32(&mut h, 0);
    push_u32(&mut h, 0);
    push_u32(&mut h, 0);
    push_bytes(out, h.as_slice());
}

/// A segment: where it stands in memory and in the file, and how it is protected.
pub struct SegmentFields {
    pub vmaddr: u64,
    pub vmsize: u64,
    pub fileoff: u64,
    pub filesize: u64,
    pub prot: u32,
}

/// The command that describes a segment with `n` sections.
pub open spec fn segment_command(
    name: Seq<char>,
    f: SegmentFields,
    n: nat,
    records: Seq<u8>,
) -> Seq<u8> {
    bytes::le32(LC_SEGMENT_64) + bytes::le32((72 + 80 * n) as u32) + name16_bytes(name)
        + bytes::le64(f.vmaddr) + bytes::le64(
        f.vmsize,
    ) + bytes::le64(f.fileoff) + bytes::le64(f.filesize) + bytes::le32(f.prot)
        + bytes::le32(f.prot) + bytes::le32(n as u32) + bytes::le32(0)
        + records
}

/// Appends the command that describes a segment with `n` sections.
pub fn push_segment(out: &mut Vec<u8>, name: &str, f: &SegmentFields, n: usize, records: &Vec<u8>)
    requires
        72 + 80 * n <= u32::MAX,
    ensures
        final(out)@ == old(out)@ + segment_command(name@, *f, n as nat, records@),
{
    let mut h: Vec<u8> = Vec::new();
    push_u32(&mut h, LC_SEGMENT_64);
    assert(h@ =~= bytes::le32(LC_SEGMENT_64));
    push_u32(&mut h, (72 + 80 * n) as u32);
    push_name16(&mut h, name);
    push_u64(&mut h, f.vmaddr);
    push_u64(&mut h, f.vmsize);
    push_u64(&mut h, f.fileoff);
    push_u64(&mut h, f.filesize);
    push_u32(&mut h, f.prot);
    push_u32(&mut h, f.prot);
    push_u32(&mut h, n as u32);
    push_u32(&mut h, 0);
    push_bytes(&mut h, records.as_slice());
    push_bytes(out, h.as_slice());
}

/// The command that names the entry point.
pub open spec fn main_command(offset: u64) -> Seq<u8> {
    bytes::le32(LC_MAIN) + bytes::le32(24) + bytes::le64(offset) + bytes::le64(0)
}

/// Appends the command that names the entry point.
pub fn push_main(out: &mut Vec<u8>, offset: u64)
    ensures
        final(out)@ == old(out)@ + main_command(offset),
{
    push_u32(out, LC_MAIN);
    push_u32(out, 24);
    push_u64(out, offset);
    push_u64(out, 0);
    assert(out@ =~= old(out)@ + main_command(offset));
}

/// A path closed by a zero, filled up so that `used` bytes before it and the path are a multiple
/// of eight bytes.
pub open spec fn path_bytes(path: Seq<char>, used: int) -> Seq<u8> {
    let b = encode_utf8(path);
    b + bytes::zeros(segment::padded(used + b.len() + 1, 8) - used - b.len())
}

/// The command that names the dynamic linker.
pub open spec fn dylinker_command() -> Seq<u8> {
    let p = path_bytes("/usr/lib/dyld"@, 12);
    bytes::le32(LC_LOAD_DYLINKER) + bytes::le32((12 + p.len()) as u32) + bytes::le32(12) + p
}

/// The command that names a dynamic library.
pub open spec fn dylib_command(path: Seq<char>) -> Seq<u8> {
    let p = path_bytes(path, 24);
    bytes::le32(LC_LOAD_DYLIB) + bytes::le32((24 + p.len()) as u32) + bytes::le32(24)
        + bytes::le32(0) + bytes::le32(0x10000) + bytes::le32(
        0x10000,
    ) + p
}

fn padded_path(path: &str, used: usize) -> (r: Vec<u8>)
    requires
        used <= 64,
    ensures
        r@ == path_bytes(path@, used as int),
{
    let b = path.as_bytes();
    let mut out: Vec<u8> = Vec::new();
    push_bytes(&mut out, b);
    assert(out@ =~= b@);
    let m: usize = (b.len() % 8 + used + 1) % 8;
    let pad: usize = (8 - m) % 8;
    assert(segment::padded(used + b@.len() + 1, 8) == used + b@.len() + 1 + pad);
    push_zeros(&mut out, pad + 1);
    assert(out@ =~= path_bytes(path@, used as int));
    out
}

/// Appends the command that names the dynamic linker.
pub fn push_dylinker(out: &mut Vec<u8>)
    ensures
        final(out)@ == old(out)@ + dylinker_command(),
{
    let p = padded_path("/usr/lib/dyld", 12);
    proof {
        reveal_strlit("/usr/lib/dyld");
        lemma_ascii_len("/usr/lib/dyld"@);
    }
    push_u32(out, LC_LOAD_DYLINKER);
    push_u32(out, (12 + p.len()) as u32);
    push_u32(out, 12);
    push_bytes(out, p.as_slice());
    assert(out@ =~= old(out)@ + dylinker_command());
}

/// A string of plain characters has as many bytes as characters.
proof fn lemma_ascii_len(s: Seq<char>)
    requires
        is_ascii_chars(s),
    ensures
        encode_utf8(s).len() == s.len(),
{
    is_ascii_chars_encode_utf8(s);
}

/// The longest path of a library whose command has a 32-bit size.
pub open spec fn path_fits(path: Seq<char>) -> bool {
    encode_utf8(path).len() + 40 <= u32::MAX
}

/// Appends the command that names a dynamic library.
pub fn push_dylib(out: &mut Vec<u8>, path: &str)
    requires
        path_fits(path@),
    ensures
        final(out)@ == old(out)@ + dylib_command(path@),
{
    let p = padded_path(path, 24);
    push_u32(out, LC_LOAD_DYLIB);
    push_u32(out, (24 + p.len()) as u32);
    push_u32(out, 24);
    push_u32(out, 0);
    push_u32(out, 0x10000);
    push_u32(out, 0x10000);
    push_bytes(out, p.as_slice());
    assert(out@ =~= old(out)@ + dylib_command(path@));
}

/// The command that identifies the image.
pub open spec fn uuid_command() -> Seq<u8> {
    bytes::le32(LC_UUID) + bytes::le32(24) + seq![
        0x57u8,
        0x45u8,
        0x4cu8,
        0x44u8,
        0x2du8,
        0x4cu8,
        0x49u8,
        0x4eu8,
        0x4bu8,
        0x45u8,
        0x52u8,
        0x2du8,
        0x30u8,
        0x30u8,
        0x30u8,
        0x31u8,
    ]
}

/// Appends the command that identifies the image.
pub fn push_uuid(out: &mut Vec<u8>)
    ensures
        final(out)@ == old(out)@ + uuid_command(),
{
    push_u32(out, LC_UUID);
    push_u32(out, 24);
    let ghost before = out@;
    out.push(0x57);
    out.push(0x45);
    out.push(0x4c);
    out.push(0x44);
    out.push(0x2d);
    out.push(0x4c);
    out.push(0x49);
    out.push(0x4e);
    out.push(0x4b);
    out.push(0x45);
    out.push(0x52);
    out.push(0x2d);
    out.push(0x30);
    out.push(0x30);
    out.push(0x30);
    out.push(0x31);
    assert(out@ =~= old(out)@ + uuid_command());
}

/// The command that tells for which system the image was built.
pub open spec fn build_command() -> Seq<u8> {
    bytes::le32(LC_BUILD_VERSION) + bytes::le32(32) + bytes::le32(1) + bytes::le32(0x001A0000)
        + bytes::le32(0x001A0200) + bytes::le32(1)
        + bytes::le32(3) + bytes::le32(0x04CE0100)
}

/// Appends the command that tells for which system the image was built.
pub fn push_build(out: &mut Vec<u8>)
    ensures
        final(out)@ == old(out)@ + build_command(),
{
    push_u32(out, LC_BUILD_VERSION);
    push_u32(out, 32);
    push_u32(out, 1);
    push_u32(out, 0x001A0000);
    push_u32(out, 0x001A0200);
    push_u32(out, 1);
    push_u32(out, 3);
    push_u32(out, 0x04CE0100);
    assert(out@ =~= old(out)@ + build_command());
}

/// The header of an executable, followed by its commands and filled up to the page size.
pub open spec fn macho_head(cputype: u32, ncmds: u32, cmds: Seq<u8>) -> Seq<u8> {
    bytes::le32(MH_MAGIC_64) + bytes::le32(cputype) + bytes::le32(0) + bytes::le32(2)
        + bytes::le32(ncmds) + bytes::le32(cmds.len() as u32)
        + bytes::le32(0x0020_0085) + bytes::le32(0) + cmds
            + bytes::zeros(segment::padded(32 + cmds.len() as int, 0x4000) - 32 - cmds.len())
}

/// Appends the header of an executable and its commands, filled up to the page size.
pub fn push_macho_head(out: &mut Vec<u8>, cputype: u32, ncmds: u32, cmds: &Vec<u8>)
    requires
        cmds@.len() <= u32::MAX,
    ensures
        final(out)@ == old(out)@ + macho_head(cputype, ncmds, cmds@),
{
    let mut h: Vec<u8> = Vec::new();
    push_u32(&mut h, MH_MAGIC_64);
    assert(h@ =~= bytes::le32(MH_MAGIC_64));
    push_u32(&mut h, cputype);
    push_u32(&mut h, 0);
    push_u32(&mut h, 2);
    push_u32(&mut h, ncmds);
    push_u32(&mut h, cmds.len() as u32);
    push_u32(&mut h, 0x0020_0085);
    push_u32(&mut h, 0);
    push_bytes(&mut h, cmds.as_slice());
    let pad: usize = (0x4000 - (cmds.len() % 0x4000 + 32) % 0x4000) % 0x4000;
    assert(pad == segment::padded(32 + cmds@.len() as int, 0x4000) - 32 - cmds@.len());
    push_zeros(&mut h, pad);
    push_bytes(out, h.as_slice());
}

/// The distance of the entry point from the start of the image, which the header precedes.
pub open spec fn entry_distance(entry: u64, base: u64) -> int {
    if entry + 0x4000 >= base {
        entry + 0x4000 - base
    } else {
        0
    }
}

/// The distance of the entry point from the start of the image, which the header precedes.
pub fn entry_offset(entry: u64, base: u64) -> (r: u64)
    requires
        entry_distance(entry, base) <= u64::MAX,
    ensures
        r == entry_distance(entry, base),
{
    if entry >= base {
        entry - base + 0x4000
    } else if base - entry <= 0x4000 {
        0x4000 - (base - entry)
    } else {
        0
    }
}

/// The commands of a statically linked executable with `size` bytes of code.
pub open spec fn static_commands(size: nat, entry: u64) -> Seq<u8> {
    let total = (0x4000 + segment::padded(size as int, 0x4000)) as u64;
    segment_command(
        "__PAGEZERO"@,
        SegmentFields { vmaddr: 0, vmsize: MACHO_BASE, fileoff: 0, filesize: 0, prot: 0 },
        0,
        seq![],
    ) + segment_command(
        "__TEXT"@,
        SegmentFields { vmaddr: MACHO_BASE, vmsize: total, fileoff: 0, filesize: total, prot: 5 },
        1,
        section_record("__text"@, "__TEXT"@, 0x100004000, size as u64, 0x4000, 4, 0x80000400),
    ) + main_command(entry_distance(entry, MACHO_BASE) as u64) + dylinker_command() + uuid_command()
        + dylib_command("/usr/lib/libSystem.B.dylib"@) + build_command()
}

/// A statically linked executable: all sections as one block of code.
pub open spec fn static_macho(l: LayoutModel, arch: TargetArch, entry: u64) -> Result<
    Seq<u8>,
    Seq<char>,
> {
    let image = segment::memory_image(l, segment::image_base(l, MACHO_BASE));
    let cmds = static_commands(image.len(), entry);
    if arch::macho_cputype(arch) == 0 {
        Err("RISC-V not supported for Mach-O"@)
    } else if 0x4000 + segment::padded(image.len() as int, 0x4000) > u64::MAX {
        Err(link::layout_too_large())
    } else {
        Ok(
            macho_head(arch::macho_cputype(arch), 7, cmds) + image + bytes::zeros(
                segment::padded(image.len() as int, 0x4000) - image.len(),
            ),
        )
    }
}

fn build_static_commands(size: usize, total: u64, entry: u64) -> (r: Vec<u8>)
    requires
        total == 0x4000 + segment::padded(size as int, 0x4000),
    ensures
        r@ == static_commands(size as nat, entry),
        r@.len() <= 0x1000,
{
    let mut cmds: Vec<u8> = Vec::new();
    let none: Vec<u8> = Vec::new();
    assert(none@ =~= seq![]);
    push_segment(
        &mut cmds,
        "__PAGEZERO",
        &SegmentFields { vmaddr: 0, vmsize: MACHO_BASE, fileoff: 0, filesize: 0, prot: 0 },
        0,
        &none,
    );
    let ghost zero = segment_command(
        "__PAGEZERO"@,
        SegmentFields { vmaddr: 0, vmsize: MACHO_BASE, fileoff: 0, filesize: 0, prot: 0 },
        0,
        seq![],
    );
    assert(cmds@ =~= zero);
    let mut record: Vec<u8> = Vec::new();
    push_section_record(
        &mut record,
        "__text",
        "__TEXT",
        0x100004000,
        size as u64,
        0x4000,
        4,
        0x80000400,
    );
    assert(record@ =~= section_record(
        "__text"@,
        "__TEXT"@,
        0x100004000,
        size as u64,
        0x4000,
        4,
        0x80000400,
    ));
    push_segment(
        &mut cmds,
        "__TEXT",
        &SegmentFields { vmaddr: MACHO_BASE, vmsize: total, fileoff: 0, filesize: total, prot: 5 },
        1,
        &record,
    );
    push_main(&mut cmds, entry_offset(entry, MACHO_BASE));
    push_dylinker(&mut cmds);
    push_uuid(&mut cmds);
    proof {
        lemma_system_path();
    }
    push_dylib(&mut cmds, "/usr/lib/libSystem.B.dylib");
    push_build(&mut cmds);
    proof {
        lemma_static_commands_len(size as nat, entry);
    }
    cmds
}

proof fn lemma_system_path()
    ensures
        path_fits("/usr/lib/libSystem.B.dylib"@),
{
    reveal_strlit("/usr/lib/libSystem.B.dylib");
    lemma_ascii_len("/usr/lib/libSystem.B.dylib"@);
}

/// Appends a statically linked executable.
pub fn emit_macho_executable(
    layout: &MergedLayout,
    arch: TargetArch,
    entry: u64,
    out: &mut Vec<u8>,
) -> (r: Result<(), String>)
    requires
        segment::has_image(layout@),
    ensures
        match static_macho(layout@, arch, entry) {
            Ok(b) => r is Ok && final(out)@ == old(out)@ + b,
            Err(e) => r is Err && r->Err_0@ == e && final(out)@ == old(out)@,
        },
{
    let (_base, image) = build_segment_buffer(layout, MACHO_BASE);
    let cputype: u32 = arch.to_macho_cputype();
    if cputype == 0 {
        return Err("RISC-V not supported for Mach-O".to_string());
    }
    let n: usize = image.len();
    let pad: usize = padding(n, 0x4000);
    if n as u64 > u64::MAX - 0x4000 - pad as u64 {
        return Err("layout exceeds the address space".to_string());
    }
    let cmds = build_static_commands(n, 0x4000 + n as u64 + pad as u64, entry);
    push_macho_head(out, cputype, 7, &cmds);
    push_bytes(out, image.as_slice());
    push_zeros(out, pad);
    assert(out@ =~= old(out)@ + static_macho(layout@, arch, entry)->Ok_0);
    Ok(())
}

/// Every name field is sixteen bytes long.
proof fn lemma_name16_len(name: Seq<char>)
    ensures
        name16_bytes(name).len() == 16,
{
}

proof fn lemma_static_commands_len(size: nat, entry: u64)
    ensures
        static_commands(size, entry).len() <= 0x1000,
{
    broadcast use bytes::group_le_len;
    reveal_strlit("/usr/lib/dyld");
    reveal_strlit("/usr/lib/libSystem.B.dylib");
    lemma_ascii_len("/usr/lib/dyld"@);
    lemma_ascii_len("/usr/lib/libSystem.B.dylib"@);
    lemma_name16_len("__PAGEZERO"@);
    lemma_name16_len("__TEXT"@);
    lemma_name16_len("__text"@);
}

} // verus!

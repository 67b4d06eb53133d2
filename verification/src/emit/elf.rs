//! Writing ELF executables.
//!
//! The image is one segment that holds all sections. A dynamically linked
//! executable names its dynamic linker in front of it.
use vstd::prelude::*;
use vstd::string::*;
use vstd::utf8::*;
use crate::arch;
use crate::arch::TargetArch;
use crate::bytes;
use crate::bytes::{push_bytes, push_u16, push_u32, push_u64, push_zeros};
use crate::link::{DynamicLinkInfo, LayoutModel, MergedLayout, MergedModel, MergedSection};
use crate::segment;
use crate::segment::{align_up_u64, build_segment_buffer};

verus! {

pub const PT_LOAD: u32 = 1;

pub const PT_DYNAMIC: u32 = 2;

pub const PT_INTERP: u32 = 3;

pub const PT_GNU_STACK: u32 = 0x6474e551;

/// The page size to which the segment is aligned.
pub const ELF_PAGE: u64 = 0x1000;

/// The header of an executable with `phnum` program headers behind it.
pub open spec fn ehdr_bytes(machine: u16, entry: u64, phnum: u16) -> Seq<u8> {
    seq![0x7fu8, 0x45u8, 0x4cu8, 0x46u8, 2u8, 1u8, 1u8] + bytes::zeros(9) + bytes::le16(2)
        + bytes::le16(machine) + bytes::le32(
        1,
    ) + bytes::le64(entry) + bytes::le64(64) + bytes::le64(0) + bytes::le32(0) + bytes::le16(64)
        + bytes::le16(56) + bytes::le16(phnum) + bytes::zeros(6)
}

/// A program header.
pub open spec fn phdr_bytes(
    kind: u32,
    flags: u32,
    offset: u64,
    vaddr: u64,
    size: u64,
    align: u64,
) -> Seq<u8> {
    bytes::le32(kind) + bytes::le32(flags) + bytes::le64(offset) + bytes::le64(vaddr)
        + bytes::le64(vaddr) + bytes::le64(size) + bytes::le64(size)
        + bytes::le64(align)
}

/// Where the segment starts in a file with `phnum` program headers.
pub open spec fn segment_offset(phnum: u16) -> u64 {
    segment::aligned((64 + phnum * 56) as u64, ELF_PAGE)
}

/// A statically linked executable.
pub open spec fn executable_bytes(l: LayoutModel, arch: TargetArch, entry: u64) -> Seq<u8> {
    let base = segment::image_base(l, arch::load_base(arch));
    let image = segment::memory_image(l, base);
    ehdr_bytes(arch::elf_machine(arch), entry, 2) + phdr_bytes(
        PT_LOAD,
        7,
        segment_offset(2),
        base,
        image.len() as u64,
        ELF_PAGE,
    ) + phdr_bytes(PT_GNU_STACK, 6, 0, 0, 0, 0) + bytes::zeros(segment_offset(2) - 176) + image
}

/// The name of the dynamic linker, closed by a zero and filled up to a multiple of eight bytes.
pub open spec fn interp_bytes(name: Seq<char>) -> Seq<u8> {
    let bytes = encode_utf8(name) + seq![0u8];
    bytes + bytes::zeros((8 - bytes.len() as int % 8) % 8)
}

/// The section of a name, where there is one.
pub open spec fn named_section(l: LayoutModel, name: Seq<char>) -> Option<MergedModel> {
    if l.by_name.dom().contains(name) && l.by_name[name] < l.sections.len() {
        Some(l.sections[l.by_name[name] as int])
    } else {
        None
    }
}

/// A dynamically linked executable.
pub open spec fn dynamic_executable_bytes(
    l: LayoutModel,
    arch: TargetArch,
    entry: u64,
    interpreter: Option<Seq<char>>,
) -> Result<Seq<u8>, Seq<char>> {
    match (interpreter, named_section(l, ".dynamic"@)) {
        (None, _) => Err("no interpreter"@),
        (_, None) => Err("no .dynamic"@),
        (Some(name), Some(dynamic)) => {
            let base = segment::image_base(l, arch::load_base(arch));
            let start = segment_offset(4);
            let interp = interp_bytes(name);
            let image = segment::memory_image(l, base);
            Ok(
                ehdr_bytes(arch::elf_machine(arch), entry, 4) + phdr_bytes(
                    PT_LOAD,
                    7,
                    start,
                    base,
                    (interp.len() + image.len()) as u64,
                    ELF_PAGE,
                ) + phdr_bytes(
                    PT_DYNAMIC,
                    0,
                    start.wrapping_add(interp.len() as u64).wrapping_add(
                        (dynamic.vaddr - base) as u64,
                    ),
                    dynamic.vaddr,
                    dynamic.data.len() as u64,
                    0,
                ) + phdr_bytes(
                    PT_INTERP,
                    4,
                    start,
                    base,
                    (encode_utf8(name).len() + 1) as u64,
                    0,
                ) + phdr_bytes(PT_GNU_STACK, 6, 0, 0, 0, 0) + bytes::zeros(start - 288) + interp
                    + image,
            )
        },
    }
}

fn push_ehdr(out: &mut Vec<u8>, machine: u16, entry: u64, phnum: u16)
    ensures
        final(out)@ == old(out)@ + ehdr_bytes(machine, entry, phnum),
{
    out.push(0x7f);
    out.push(0x45);
    out.push(0x4c);
    out.push(0x46);
    out.push(2);
    out.push(1);
    out.push(1);
    push_zeros(out, 9);
    push_u16(out, 2);
    push_u16(out, machine);
    push_u32(out, 1);
    push_u64(out, entry);
    push_u64(out, 64);
    push_u64(out, 0);
    push_u32(out, 0);
    push_u16(out, 64);
    push_u16(out, 56);
    push_u16(out, phnum);
    push_zeros(out, 6);
    assert(out@ =~= old(out)@ + ehdr_bytes(machine, entry, phnum));
}

fn push_phdr(
    out: &mut Vec<u8>,
    kind: u32,
    flags: u32,
    offset: u64,
    vaddr: u64,
    size: u64,
    align: u64,
)
    ensures
        final(out)@ == old(out)@ + phdr_bytes(kind, flags, offset, vaddr, size, align),
{
    push_u32(out, kind);
    push_u32(out, flags);
    push_u64(out, offset);
    push_u64(out, vaddr);
    push_u64(out, vaddr);
    push_u64(out, size);
    push_u64(out, size);
    push_u64(out, align);
    assert(out@ =~= old(out)@ + phdr_bytes(kind, flags, offset, vaddr, size, align));
}

/// Appends a statically linked executable. It always succeeds.
pub fn emit_elf_executable(
    layout: &MergedLayout,
    arch: TargetArch,
    entry: u64,
    out: &mut Vec<u8>,
) -> (r: Result<(), String>)
    requires
        segment::has_image(layout@),
    ensures
        r is Ok,
        final(out)@ == old(out)@ + executable_bytes(layout@, arch, entry),
{
    let (base, image) = build_segment_buffer(layout, arch.default_load_base());
    let start: u64 = align_up_u64(64 + 2 * 56, arch.page_align());
    proof {
        segment::law_align_up_bounds(176, ELF_PAGE);
    }
    push_ehdr(out, arch.to_elf_machine(), entry, 2);
    push_phdr(out, PT_LOAD, 7, start, base, image.len() as u64, arch.page_align());
    push_phdr(out, PT_GNU_STACK, 6, 0, 0, 0, 0);
    push_zeros(out, (start - 176) as usize);
    push_bytes(out, image.as_slice());
    assert(out@ =~= old(out)@ + executable_bytes(layout@, arch, entry));
    Ok(())
}

fn find_section<'a>(layout: &'a MergedLayout, name: &str) -> (r: Option<&'a MergedSection>)
    ensures
        match r {
            Some(s) => named_section(layout@, name@) == Some(s@),
            None => named_section(layout@, name@) is None,
        },
{
    match layout.section_by_name.get(name) {
        Some(i) => if *i < layout.sections.len() {
            assert(layout@.sections[*i as int] == layout.sections@[*i as int]@);
            Some(&layout.sections[*i])
        } else {
            None
        },
        None => None,
    }
}

/// Appends a dynamically linked executable.
pub fn emit_elf_executable_dynamic(
    layout: &MergedLayout,
    arch: TargetArch,
    entry: u64,
    dynamic: &DynamicLinkInfo,
    out: &mut Vec<u8>,
) -> (r: Result<(), String>)
    requires
        segment::has_image(layout@),
    ensures
        match dynamic_executable_bytes(layout@, arch, entry, dynamic@.interpreter) {
            Ok(b) => r is Ok && final(out)@ == old(out)@ + b,
            Err(e) => r is Err && r->Err_0@ == e && final(out)@ == old(out)@,
        },
{
    let interpreter = match &dynamic.interpreter {
        Some(s) => s,
        None => {
            return Err("no interpreter".to_string());
        },
    };
    let section = match find_section(layout, ".dynamic") {
        Some(s) => s,
        None => {
            return Err("no .dynamic".to_string());
        },
    };
    let (base, image) = build_segment_buffer(layout, arch.default_load_base());
    let mut full: Vec<u8> = Vec::new();
    push_bytes(&mut full, interpreter.as_str().as_bytes());
    full.push(0);
    let interp_len: usize = full.len();
    push_zeros(&mut full, (8 - interp_len % 8) % 8);
    assert(full@ =~= interp_bytes(interpreter@));
    let interp_aligned: usize = full.len();
    push_bytes(&mut full, image.as_slice());
    let start: u64 = align_up_u64(64 + 4 * 56, arch.page_align());
    proof {
        segment::law_align_up_bounds(288, ELF_PAGE);
        assert(layout@.sections[0].vaddr <= layout@.sections[layout@.by_name[".dynamic"@] as int].vaddr);
    }
    let dynamic_offset: u64 = start.wrapping_add(interp_aligned as u64).wrapping_add(
        section.vaddr - base,
    );
    push_ehdr(out, arch.to_elf_machine(), entry, 4);
    push_phdr(out, PT_LOAD, 7, start, base, full.len() as u64, arch.page_align());
    push_phdr(
        out,
        PT_DYNAMIC,
        0,
        dynamic_offset,
        section.vaddr,
        section.data.len() as u64,
        0,
    );
    push_phdr(out, PT_INTERP, 4, start, base, interp_len as u64, 0);
    push_phdr(out, PT_GNU_STACK, 6, 0, 0, 0, 0);
    push_zeros(out, (start - 288) as usize);
    push_bytes(out, full.as_slice());
    assert(out@ =~= old(out)@ + dynamic_executable_bytes(
        layout@,
        arch,
        entry,
        dynamic@.interpreter,
    )->Ok_0);
    Ok(())
}

} // verus!

//! What a loader finds in the ELF executables that are written.
use vstd::prelude::*;
use vstd::string::*;
use vstd::utf8::*;
use crate::arch;
use crate::arch::TargetArch;
use crate::bytes;
use crate::elf::Elf64Header;
use crate::emit;
use crate::emit::elf::{ELF_PAGE, PT_DYNAMIC, PT_GNU_STACK, PT_INTERP, PT_LOAD};
use crate::link::LayoutModel;
use crate::segment;

verus! {

proof fn lemma_ehdr(machine: u16, entry: u64, phnum: u16)
    ensures
        emit::elf::ehdr_bytes(machine, entry, phnum).len() == 64,
        crate::elf::elf_header(emit::elf::ehdr_bytes(machine, entry, phnum)) == Ok::<Elf64Header,
            Seq<char>>(
            Elf64Header { e_type: 2, e_machine: machine, e_shoff: 0, e_shnum: 0, e_shstrndx: 0 },
        ),
        bytes::u64_at(emit::elf::ehdr_bytes(machine, entry, phnum), 24) == entry,
        bytes::u64_at(emit::elf::ehdr_bytes(machine, entry, phnum), 32) == 64,
        bytes::u16_at(emit::elf::ehdr_bytes(machine, entry, phnum), 56) == phnum,
{
    broadcast use bytes::group_le_len;
    let e = emit::elf::ehdr_bytes(machine, entry, phnum);
    assert(e.subrange(16, 18) =~= bytes::le16(2));
    assert(e.subrange(18, 20) =~= bytes::le16(machine));
    assert(e.subrange(24, 32) =~= bytes::le64(entry));
    assert(e.subrange(32, 40) =~= bytes::le64(64));
    assert(e.subrange(40, 48) =~= bytes::le64(0));
    assert(e.subrange(56, 58) =~= bytes::le16(phnum));
    bytes::lemma_read_u16(e, 16, 2);
    bytes::lemma_read_u16(e, 18, machine);
    bytes::lemma_read_u64(e, 24, entry);
    bytes::lemma_read_u64(e, 32, 64);
    bytes::lemma_read_u64(e, 40, 0);
    bytes::lemma_read_u16(e, 56, phnum);
    bytes::lemma_zero_u16(e, 60);
    bytes::lemma_zero_u16(e, 62);
}

/// A program header as a loader reads it.
pub struct ProgramHeader {
    pub kind: u32,
    pub flags: u32,
    pub offset: u64,
    pub vaddr: u64,
    pub file_size: u64,
    pub memory_size: u64,
    pub align: u64,
}

/// The program header `i` of an executable, as a loader reads it.
pub open spec fn program_header(file: Seq<u8>, i: int) -> ProgramHeader {
    let at = bytes::u64_at(file, 32) + 56 * i;
    ProgramHeader {
        kind: bytes::u32_at(file, at),
        flags: bytes::u32_at(file, at + 4),
        offset: bytes::u64_at(file, at + 8),
        vaddr: bytes::u64_at(file, at + 16),
        file_size: bytes::u64_at(file, at + 32),
        memory_size: bytes::u64_at(file, at + 40),
        align: bytes::u64_at(file, at + 48),
    }
}

proof fn lemma_phdr(
    file: Seq<u8>,
    i: int,
    kind: u32,
    flags: u32,
    offset: u64,
    vaddr: u64,
    size: u64,
    align: u64,
)
    requires
        0 <= i,
        bytes::u64_at(file, 32) == 64,
        120 + 56 * i <= file.len(),
        file.subrange(64 + 56 * i, 120 + 56 * i) == emit::elf::phdr_bytes(
            kind,
            flags,
            offset,
            vaddr,
            size,
            align,
        ),
    ensures
        program_header(file, i) == (ProgramHeader {
            kind,
            flags,
            offset,
            vaddr,
            file_size: size,
            memory_size: size,
            align,
        }),
{
    broadcast use bytes::group_le_len;
    let at = 64 + 56 * i;
    let h = file.subrange(at, at + 56);
    assert(file.subrange(at, at + 4) =~= h.subrange(0, 4));
    assert(file.subrange(at + 4, at + 8) =~= h.subrange(4, 8));
    assert(file.subrange(at + 8, at + 16) =~= h.subrange(8, 16));
    assert(file.subrange(at + 16, at + 24) =~= h.subrange(16, 24));
    assert(file.subrange(at + 32, at + 40) =~= h.subrange(32, 40));
    assert(file.subrange(at + 40, at + 48) =~= h.subrange(40, 48));
    assert(file.subrange(at + 48, at + 56) =~= h.subrange(48, 56));
    assert(h.subrange(0, 4) =~= bytes::le32(kind));
    assert(h.subrange(4, 8) =~= bytes::le32(flags));
    assert(h.subrange(8, 16) =~= bytes::le64(offset));
    assert(h.subrange(16, 24) =~= bytes::le64(vaddr));
    assert(h.subrange(32, 40) =~= bytes::le64(size));
    assert(h.subrange(40, 48) =~= bytes::le64(size));
    assert(h.subrange(48, 56) =~= bytes::le64(align));
    bytes::lemma_read_u32(file, at, kind);
    bytes::lemma_read_u32(file, at + 4, flags);
    bytes::lemma_read_u64(file, at + 8, offset);
    bytes::lemma_read_u64(file, at + 16, vaddr);
    bytes::lemma_read_u64(file, at + 32, size);
    bytes::lemma_read_u64(file, at + 40, size);
    bytes::lemma_read_u64(file, at + 48, align);
}

proof fn lemma_phdr_len(kind: u32, flags: u32, offset: u64, vaddr: u64, size: u64, align: u64)
    ensures
        emit::elf::phdr_bytes(kind, flags, offset, vaddr, size, align).len() == 56,
{
    broadcast use bytes::group_le_len;
}

proof fn lemma_segment_offset(phnum: u16)
    requires
        phnum <= 4,
    ensures
        64 + phnum * 56 <= emit::elf::segment_offset(phnum) < 0x2000,
{
    segment::law_align_up_bounds((64 + phnum * 56) as u64, ELF_PAGE);
}

/// What follows a header is behind it, and the header itself can be read in the whole.
proof fn lemma_header_in_front(e: Seq<u8>, machine: u16, entry: u64, phnum: u16)
    requires
        e.len() >= 64,
        e.subrange(0, 64) == emit::elf::ehdr_bytes(machine, entry, phnum),
    ensures
        executable_header(e, machine, entry, phnum),
{
    reveal(bytes::u16_at);
    reveal(bytes::u64_at);
    lemma_ehdr(machine, entry, phnum);
    let h = e.subrange(0, 64);
    assert forall|i: int| 0 <= i < 64 implies e[i] == h[i] by {}
    assert(h == emit::elf::ehdr_bytes(machine, entry, phnum));
}

/// Whether a file has the header of an executable for a machine, with an entry point and a number
/// of program headers.
pub open spec fn executable_header(e: Seq<u8>, machine: u16, entry: u64, phnum: u16) -> bool {
    &&& crate::elf::elf_header(e) == Ok::<Elf64Header, Seq<char>>(
        Elf64Header { e_type: 2, e_machine: machine, e_shoff: 0, e_shnum: 0, e_shstrndx: 0 },
    )
    &&& bytes::u64_at(e, 24) == entry
    &&& bytes::u64_at(e, 32) == 64
    &&& bytes::u16_at(e, 56) == phnum
}

/// A statically linked executable is an ELF executable for its machine, starts at its entry point,
/// and has its whole image loaded at the base address: the loader finds the image where the first
/// program header says.
pub proof fn law_executable_is_loaded(l: LayoutModel, arch: TargetArch, entry: u64)
    requires
        segment::has_image(l),
        segment::memory_image(l, segment::image_base(l, arch::load_base(arch))).len() <= u64::MAX,
    ensures
        ({
            let e = emit::elf::executable_bytes(l, arch, entry);
            let base = segment::image_base(l, arch::load_base(arch));
            let image = segment::memory_image(l, base);
            let p = program_header(e, 0);
            &&& executable_header(e, arch::elf_machine(arch), entry, 2)
            &&& p.kind == PT_LOAD && p.flags == 7
            &&& p.vaddr == base && p.file_size == image.len() && p.memory_size == image.len()
            &&& p.offset + p.file_size == e.len()
            &&& e.subrange(p.offset as int, e.len() as int) == image
            &&& program_header(e, 1).kind == PT_GNU_STACK && program_header(e, 1).flags == 6
        }),
{
    let e = emit::elf::executable_bytes(l, arch, entry);
    let base = segment::image_base(l, arch::load_base(arch));
    let image = segment::memory_image(l, base);
    let size = image.len() as u64;
    let h = emit::elf::ehdr_bytes(arch::elf_machine(arch), entry, 2);
    let p0 = emit::elf::phdr_bytes(PT_LOAD, 7, emit::elf::segment_offset(2), base, size, ELF_PAGE);
    let p1 = emit::elf::phdr_bytes(PT_GNU_STACK, 6, 0, 0, 0, 0);
    let gap = bytes::zeros(emit::elf::segment_offset(2) - 176);
    lemma_segment_offset(2);
    lemma_ehdr(arch::elf_machine(arch), entry, 2);
    lemma_phdr_len(PT_LOAD, 7, emit::elf::segment_offset(2), base, size, ELF_PAGE);
    lemma_phdr_len(PT_GNU_STACK, 6, 0, 0, 0, 0);
    assert(e == h + p0 + p1 + gap + image);
    assert(e.subrange(0, 64) =~= h);
    assert(e.subrange(64, 120) =~= p0);
    assert(e.subrange(120, 176) =~= p1);
    lemma_header_in_front(e, arch::elf_machine(arch), entry, 2);
    lemma_phdr(e, 0, PT_LOAD, 7, emit::elf::segment_offset(2), base, size, ELF_PAGE);
    lemma_phdr(e, 1, PT_GNU_STACK, 6, 0, 0, 0, 0);
    assert(e.subrange(emit::elf::segment_offset(2) as int, e.len() as int) =~= image);
}

/// Each section of a statically linked executable is loaded at its address: its bytes stand in the
/// file as far behind the start of the loaded segment as its address is behind that of the segment.
pub proof fn law_executable_holds_sections(l: LayoutModel, arch: TargetArch, entry: u64, i: int)
    requires
        segment::has_image(l),
        segment::sections_apart(l),
        0 <= i < l.sections.len(),
    ensures
        ({
            let e = emit::elf::executable_bytes(l, arch, entry);
            let p = program_header(e, 0);
            let s = l.sections[i];
            let at = p.offset + (s.vaddr - p.vaddr);
            &&& p.vaddr <= s.vaddr && at + s.data.len() <= e.len()
            &&& e.subrange(at, at + s.data.len()) == s.data
        }),
{
    let base = segment::image_base(l, arch::load_base(arch));
    let image = segment::memory_image(l, base);
    let e = emit::elf::executable_bytes(l, arch, entry);
    segment::lemma_memory_image_len(l, base);
    segment::law_image_holds_sections(l, i);
    segment::lemma_image_end(l, base, l.sections.len());
    law_executable_is_loaded(l, arch, entry);
    let p = program_header(e, 0);
    let s = l.sections[i];
    let at = p.offset + (s.vaddr - base);
    assert(e.subrange(at, at + s.data.len()) =~= e.subrange(
        p.offset as int,
        e.len() as int,
    ).subrange(s.vaddr - base, s.vaddr - base + s.data.len()));
}

/// A dynamically linked executable names its dynamic linker and its dynamic table: the loader
/// finds the path, ended by a zero, and the bytes of `.dynamic` where the program headers say. The
/// image stands behind the path.
pub proof fn law_dynamic_executable_is_loaded(
    l: LayoutModel,
    arch: TargetArch,
    entry: u64,
    name: Seq<char>,
)
    requires
        segment::has_image(l),
        segment::sections_apart(l),
        emit::elf::named_section(l, ".dynamic"@) is Some,
        encode_utf8(name).len() + segment::memory_image(
            l,
            segment::image_base(l, arch::load_base(arch)),
        ).len() + 0x3000 <= u64::MAX,
    ensures
        ({
            let e = emit::elf::dynamic_executable_bytes(l, arch, entry, Some(name))->Ok_0;
            let base = segment::image_base(l, arch::load_base(arch));
            let image = segment::memory_image(l, base);
            let path = encode_utf8(name);
            let dynamic = emit::elf::named_section(l, ".dynamic"@)->0;
            let load = program_header(e, 0);
            let table = program_header(e, 1);
            let interp = program_header(e, 2);
            &&& emit::elf::dynamic_executable_bytes(l, arch, entry, Some(name)) is Ok
            &&& executable_header(e, arch::elf_machine(arch), entry, 4)
            &&& load.kind == PT_LOAD && load.vaddr == base && load.offset + load.file_size
                == e.len()
            &&& interp.kind == PT_INTERP && interp.file_size == path.len() + 1
            &&& interp.offset + interp.file_size <= e.len()
            &&& e.subrange(interp.offset as int, interp.offset + interp.file_size) == path + seq![
                0u8,
            ]
            &&& table.kind == PT_DYNAMIC && table.vaddr == dynamic.vaddr
            &&& table.offset + table.file_size <= e.len()
            &&& e.subrange(table.offset as int, table.offset + table.file_size) == dynamic.data
            &&& e.subrange(e.len() - image.len(), e.len() as int) == image
        }),
{
    let machine = arch::elf_machine(arch);
    let base = segment::image_base(l, arch::load_base(arch));
    let image = segment::memory_image(l, base);
    let start = emit::elf::segment_offset(4);
    let interp = emit::elf::interp_bytes(name);
    let path = encode_utf8(name) + seq![0u8];
    let dynamic = emit::elf::named_section(l, ".dynamic"@)->0;
    let index = l.by_name[".dynamic"@] as int;
    let e = emit::elf::dynamic_executable_bytes(l, arch, entry, Some(name))->Ok_0;
    lemma_segment_offset(4);
    lemma_ehdr(machine, entry, 4);
    segment::lemma_memory_image_len(l, base);
    segment::lemma_image_end(l, base, l.sections.len());
    segment::law_image_holds_sections(l, index);
    let total = (interp.len() + image.len()) as u64;
    let place = start.wrapping_add(interp.len() as u64).wrapping_add((dynamic.vaddr - base) as u64);
    let size = dynamic.data.len() as u64;
    let h = emit::elf::ehdr_bytes(machine, entry, 4);
    let p0 = emit::elf::phdr_bytes(PT_LOAD, 7, start, base, total, ELF_PAGE);
    let p1 = emit::elf::phdr_bytes(PT_DYNAMIC, 0, place, dynamic.vaddr, size, 0);
    let p2 = emit::elf::phdr_bytes(PT_INTERP, 4, start, base, path.len() as u64, 0);
    let p3 = emit::elf::phdr_bytes(PT_GNU_STACK, 6, 0, 0, 0, 0);
    lemma_phdr_len(PT_LOAD, 7, start, base, total, ELF_PAGE);
    lemma_phdr_len(PT_DYNAMIC, 0, place, dynamic.vaddr, size, 0);
    lemma_phdr_len(PT_INTERP, 4, start, base, path.len() as u64, 0);
    lemma_phdr_len(PT_GNU_STACK, 6, 0, 0, 0, 0);
    let head = h + p0 + p1 + p2 + p3;
    let gap = bytes::zeros(start - 288);
    assert(e == head + gap + interp + image);
    assert(e.subrange(0, 64) =~= h);
    assert(e.subrange(64, 120) =~= p0);
    assert(e.subrange(120, 176) =~= p1);
    assert(e.subrange(176, 232) =~= p2);
    lemma_header_in_front(e, machine, entry, 4);
    lemma_phdr(e, 0, PT_LOAD, 7, start, base, total, ELF_PAGE);
    lemma_phdr(e, 1, PT_DYNAMIC, 0, place, dynamic.vaddr, size, 0);
    lemma_phdr(e, 2, PT_INTERP, 4, start, base, path.len() as u64, 0);
    assert(e.subrange(start as int, start + path.len()) =~= path);
    assert(e.subrange(e.len() - image.len(), e.len() as int) =~= image);
    assert(place == start + interp.len() + (dynamic.vaddr - base));
    assert(e.subrange(place as int, place + size) =~= image.subrange(
        dynamic.vaddr - base,
        dynamic.vaddr - base + size,
    ));
}

/// Both kinds of executables start with the header of an executable.
pub proof fn lemma_executables_have_headers(
    l: LayoutModel,
    arch: TargetArch,
    entry: u64,
    interpreter: Option<Seq<char>>,
)
    ensures
        executable_header(
            emit::elf::executable_bytes(l, arch, entry),
            arch::elf_machine(arch),
            entry,
            2,
        ),
        emit::elf::dynamic_executable_bytes(l, arch, entry, interpreter) matches Ok(b)
            ==> executable_header(b, arch::elf_machine(arch), entry, 4),
{
    let machine = arch::elf_machine(arch);
    let base = segment::image_base(l, arch::load_base(arch));
    let image = segment::memory_image(l, base);
    lemma_ehdr(machine, entry, 2);
    lemma_ehdr(machine, entry, 4);
    let e = emit::elf::executable_bytes(l, arch, entry);
    assert(e.subrange(0, 64) =~= emit::elf::ehdr_bytes(machine, entry, 2));
    lemma_header_in_front(e, machine, entry, 2);
    if let Ok(b) = emit::elf::dynamic_executable_bytes(l, arch, entry, interpreter) {
        assert(b.subrange(0, 64) =~= emit::elf::ehdr_bytes(machine, entry, 4));
        lemma_header_in_front(b, machine, entry, 4);
    }
}

} // verus!

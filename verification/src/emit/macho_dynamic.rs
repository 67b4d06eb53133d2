//! Writing dynamically linked Mach-O executables.
//!
//! The code, the data and what the dynamic linker reads are three segments. The
//! code stands behind the header, the data behind the code.
use vstd::prelude::*;
use vstd::string::*;
use vstd::utf8::*;
use crate::arch;
use crate::arch::TargetArch;
use crate::bytes;
use crate::bytes::{push_bytes, push_u16, push_u32, push_u64, push_zeros};
use crate::emit;
use crate::emit::macho::{
    LC_DYLD_INFO_ONLY, LC_DYSYMTAB, LC_SYMTAB_TABLE, MACHO_BASE, SegmentFields, entry_offset,
    push_build, push_dylib, push_dylinker, push_macho_head, push_main, push_section_record,
    push_segment, push_uuid, section_meta, section_name_fields,
};
use crate::emit::opcodes;
use crate::emit::opcodes::{build_bind_opcodes, build_rebase_opcodes};
use crate::link;
use crate::link::{
    DynamicLinkInfo, DynamicModel, LayoutModel, MergedLayout, MergedModel, MergedSection,
};
use crate::link::macho::is_data_layout_section;
use crate::model;
use crate::names::{NameMap, clone_names};
use crate::order;
use crate::order::{add_addr, sorted_binds};
use crate::segment;
use crate::segment::build_segment_buffer;
use crate::text::str_eq;

verus! {

/// The number of the data segment.
pub const DATA_SEGMENT_INDEX: u32 = 2;

/// The sections among the first `n` that belong, or do not belong, to the data segment.
pub open spec fn segment_part(s: Seq<MergedModel>, data: bool, n: nat) -> Seq<MergedModel>
    decreases n,
{
    if n == 0 {
        seq![]
    } else {
        let before = segment_part(s, data, (n - 1) as nat);
        if link::macho::is_data_name(s[n - 1].name) == data {
            before.push(s[n - 1])
        } else {
            before
        }
    }
}

/// The code of a layout.
pub open spec fn text_part(l: LayoutModel) -> LayoutModel {
    LayoutModel { sections: segment_part(l.sections, false, l.sections.len()),
        by_name: Map::empty() }
}

/// The data of a layout: eight zeros where it has none.
pub open spec fn data_part(l: LayoutModel) -> LayoutModel {
    let s = segment_part(l.sections, true, l.sections.len());
    LayoutModel {
        sections: if s.len() > 0 {
            s
        } else {
            seq![MergedModel { name: "__data"@, data: bytes::zeros(8), vaddr: 0, flags: 0,
                align: 3 }]
        },
        by_name: Map::empty(),
    }
}

/// Copies a section.
fn copy_section(s: &MergedSection) -> (r: MergedSection)
    ensures
        r@ == s@,
{
    MergedSection {
        name: s.name.clone(),
        data: vstd::slice::slice_to_vec(s.data.as_slice()),
        vaddr: s.vaddr,
        flags: s.flags,
        align: s.align,
    }
}

fn split_part(layout: &MergedLayout, data: bool) -> (r: Vec<MergedSection>)
    ensures
        model::views(r@) == segment_part(layout@.sections, data, layout@.sections.len()),
{
    broadcast use model::group_views;
    let mut out: Vec<MergedSection> = Vec::new();
    let mut i: usize = 0;
    while i < layout.sections.len()
        invariant
            i <= layout.sections@.len(),
            model::views(out@) == segment_part(layout@.sections, data, i as nat),
        decreases layout.sections@.len() - i,
    {
        broadcast use model::group_views;
        assert(layout@.sections[i as int] == layout.sections@[i as int]@);
        if is_data_layout_section(layout.sections[i].name.as_str()) == data {
            out.push(copy_section(&layout.sections[i]));
        }
        i = i + 1;
    }
    out
}

/// A part of sections that follow each other follows each other.
proof fn lemma_part_ascends(s: Seq<MergedModel>, data: bool, n: nat)
    requires
        n <= s.len(),
        forall|i: int| 0 <= i < s.len() ==> link::section_end(#[trigger] s[i]) <= u64::MAX,
        forall|i: int, j: int|
            0 <= i < j < s.len() ==> link::section_end(#[trigger] s[i]) <= (#[trigger] s[j]).vaddr,
    ensures
        forall|i: int|
            0 <= i < segment_part(s, data, n).len() ==> link::section_end(
                #[trigger] segment_part(s, data, n)[i],
            ) <= u64::MAX,
        forall|i: int, j: int|
            0 <= i < j < segment_part(s, data, n).len() ==> link::section_end(
                #[trigger] segment_part(s, data, n)[i],
            ) <= (#[trigger] segment_part(s, data, n)[j]).vaddr,
        forall|i: int|
            0 <= i < segment_part(s, data, n).len() ==> exists|k: int|
                0 <= k < n && #[trigger] s[k] == #[trigger] segment_part(s, data, n)[i],
    decreases n,
{
    if n > 0 {
        lemma_part_ascends(s, data, (n - 1) as nat);
        let before = segment_part(s, data, (n - 1) as nat);
        let after = segment_part(s, data, n);
        assert forall|i: int| 0 <= i < after.len() implies exists|k: int|
            0 <= k < n && #[trigger] s[k] == #[trigger] after[i] by {
            if i < before.len() {
                let k = choose|k: int| 0 <= k < n - 1 && #[trigger] s[k] == before[i];
                assert(s[k] == after[i]);
            } else {
                assert(s[n - 1] == after[i]);
            }
        }
        assert forall|i: int, j: int| 0 <= i < j < after.len() implies link::section_end(
            #[trigger] after[i],
        ) <= (#[trigger] after[j]).vaddr by {
            if j < before.len() {
                assert(link::section_end(before[i]) <= before[j].vaddr);
            } else {
                let k = choose|k: int| 0 <= k < n - 1 && #[trigger] s[k] == before[i];
                assert(link::section_end(s[k]) <= s[n - 1].vaddr);
            }
        }
    }
}

/// The parts of a layout whose sections follow each other have memory images.
pub proof fn lemma_parts_have_images(l: LayoutModel)
    requires
        link::sections_ascend(l),
    ensures
        segment::has_image(text_part(l)),
        segment::has_image(data_part(l)),
{
    lemma_part_ascends(l.sections, false, l.sections.len());
    lemma_part_ascends(l.sections, true, l.sections.len());
    segment::lemma_ascending_has_image(text_part(l));
    if segment_part(l.sections, true, l.sections.len()).len() > 0 {
        segment::lemma_ascending_has_image(data_part(l));
    }
}

/// The descriptions of the first `n` sections of a segment whose first section, at `base` in the
/// layout, stands at `addr` in memory and at `off` in the file.
pub open spec fn section_records(
    s: Seq<MergedModel>,
    base: u64,
    addr: int,
    off: int,
    n: nat,
) -> Seq<u8>
    decreases n,
{
    if n == 0 {
        seq![]
    } else {
        let sec = s[n - 1];
        let (segname, sectname) = emit::macho::name_fields(sec.name);
        let distance = sec.vaddr - base;
        section_records(s, base, addr, off, (n - 1) as nat) + emit::macho::section_record(
            sectname,
            segname,
            (addr + distance) as u64,
            sec.data.len() as u64,
            ((off + distance) as u64) as u32,
            sec.align as u32,
            emit::macho::section_kind(sectname),
        )
    }
}

fn build_section_records(s: &Vec<MergedSection>, base: u64, addr: u64, off: u64) -> (r: Vec<u8>)
    requires
        forall|i: int|
            0 <= i < s@.len() ==> base <= (#[trigger] s@[i]).vaddr && addr + (s@[i].vaddr - base)
                <= u64::MAX && off + (s@[i].vaddr - base) <= u64::MAX,
    ensures
        r@ == section_records(model::views(s@), base, addr as int, off as int, s@.len()),
{
    let ghost models = model::views(s@);
    let mut out: Vec<u8> = Vec::new();
    let mut i: usize = 0;
    while i < s.len()
        invariant
            i <= s@.len(),
            models == model::views(s@),
            forall|i: int|
                0 <= i < s@.len() ==> base <= (#[trigger] s@[i]).vaddr && addr + (s@[i].vaddr
                    - base) <= u64::MAX && off + (s@[i].vaddr - base) <= u64::MAX,
            out@ == section_records(models, base, addr as int, off as int, i as nat),
        decreases s@.len() - i,
    {
        let sec = &s[i];
        assert(models[i as int] == sec@);
        let (segname, sectname) = section_name_fields(sec.name.as_str());
        let distance: u64 = sec.vaddr - base;
        push_section_record(
            &mut out,
            sectname.as_str(),
            segname.as_str(),
            addr + distance,
            sec.data.len() as u64,
            (off + distance) as u32,
            sec.align as u32,
            section_meta(sectname.as_str()),
        );
        i = i + 1;
    }
    out
}

/// The offset of the first section at or after `i` that is named `__got`, from `base`; zero where
/// there is none.
pub open spec fn got_distance(s: Seq<MergedModel>, base: u64, i: nat) -> u64
    decreases s.len() - i,
{
    if i >= s.len() {
        0
    } else if s[i as int].name == "__got"@ {
        (s[i as int].vaddr - base) as u64
    } else {
        got_distance(s, base, i + 1)
    }
}

fn find_got(s: &Vec<MergedSection>, base: u64) -> (r: u64)
    requires
        forall|i: int| 0 <= i < s@.len() ==> base <= (#[trigger] s@[i]).vaddr,
    ensures
        r == got_distance(model::views(s@), base, 0),
{
    let mut i: usize = 0;
    while i < s.len()
        invariant
            i <= s@.len(),
            forall|i: int| 0 <= i < s@.len() ==> base <= (#[trigger] s@[i]).vaddr,
            got_distance(model::views(s@), base, 0)
                == got_distance(model::views(s@), base, i as nat),
        decreases s@.len() - i,
    {
        assert(model::views(s@)[i as int] == s@[i as int]@);
        if str_eq(s[i].name.as_str(), "__got") {
            return s[i].vaddr - base;
        }
        i = i + 1;
    }
    0
}

/// Whether a pointer at `addr` lies in the data segment.
pub open spec fn in_data(addr: u64, base: u64, size: nat) -> bool {
    base <= addr && addr - base + 8 <= size
}

/// The offsets, ascending, of the first `n` pointers that lie in the data segment.
pub open spec fn rebase_offsets(addrs: Seq<u64>, base: u64, size: nat, n: nat) -> Seq<u64>
    decreases n,
{
    if n == 0 {
        seq![]
    } else {
        let before = rebase_offsets(addrs, base, size, (n - 1) as nat);
        if in_data(addrs[n - 1], base, size) {
            order::insert_addr(before, (addrs[n - 1] - base) as u64)
        } else {
            before
        }
    }
}

/// The places among the first `n` that lie in the data segment, by their offsets.
pub open spec fn bind_offsets(
    binds: Seq<(u64, Seq<char>, bool, i64)>,
    base: u64,
    size: nat,
    n: nat,
) -> Seq<(u64, Seq<char>, bool, i64)>
    decreases n,
{
    if n == 0 {
        seq![]
    } else {
        let before = bind_offsets(binds, base, size, (n - 1) as nat);
        let (addr, name, weak, addend) = binds[n - 1];
        if in_data(addr, base, size) {
            before.push(((addr - base) as u64, name, weak, addend))
        } else {
            before
        }
    }
}

fn lies_in_data(addr: u64, base: u64, size: usize) -> (r: bool)
    ensures
        r == in_data(addr, base, size as nat),
{
    base <= addr && size >= 8 && addr - base <= (size - 8) as u64
}

fn collect_rebase_offsets(addrs: &Vec<u64>, base: u64, size: usize) -> (r: Vec<u64>)
    ensures
        r@ == rebase_offsets(addrs@, base, size as nat, addrs@.len()),
{
    let mut out: Vec<u64> = Vec::new();
    let mut i: usize = 0;
    while i < addrs.len()
        invariant
            i <= addrs@.len(),
            out@ == rebase_offsets(addrs@, base, size as nat, i as nat),
        decreases addrs@.len() - i,
    {
        if lies_in_data(addrs[i], base, size) {
            add_addr(&mut out, addrs[i] - base);
        }
        i = i + 1;
    }
    out
}

fn collect_bind_offsets(binds: &Vec<(u64, String, bool, i64)>, base: u64, size: usize) -> (r: Vec<
    (u64, String, bool, i64),
>)
    ensures
        model::views(r@) == order::dedup_binds(
            order::sort_binds(bind_offsets(model::views(binds@), base, size as nat, binds@.len())),
        ),
{
    broadcast use model::group_views;
    let mut out: Vec<(u64, String, bool, i64)> = Vec::new();
    let mut i: usize = 0;
    while i < binds.len()
        invariant
            i <= binds@.len(),
            model::views(out@) == bind_offsets(model::views(binds@), base, size as nat, i as nat),
        decreases binds@.len() - i,
    {
        broadcast use model::group_views;
        let b = &binds[i];
        assert(model::views(binds@)[i as int] == b@);
        if lies_in_data(b.0, base, size) {
            out.push((b.0 - base, b.1.clone(), b.2, b.3));
        }
        i = i + 1;
    }
    sorted_binds(&out)
}

/// The paths of the libraries that an image loads.
pub open spec fn library_path(name: Seq<char>) -> Seq<char> {
    if name == "libSystem.B.dylib"@ {
        "/usr/lib/libSystem.B.dylib"@
    } else {
        name
    }
}

/// The commands for the first `n` libraries.
pub open spec fn library_commands(needed: Seq<Seq<char>>, n: nat) -> Seq<u8>
    decreases n,
{
    if n == 0 {
        seq![]
    } else {
        library_commands(needed, (n - 1) as nat)
            + emit::macho::dylib_command(library_path(needed[n - 1]))
    }
}

/// The libraries that an image loads: the system's where none is named.
pub open spec fn libraries(needed: Seq<Seq<char>>) -> Seq<Seq<char>> {
    if needed.len() == 0 {
        seq!["libSystem.B.dylib"@]
    } else {
        needed
    }
}

/// Whether the commands of the libraries have 32-bit sizes.
pub open spec fn libraries_fit(needed: Seq<Seq<char>>) -> bool {
    forall|i: int| 0 <= i < needed.len()
        ==> emit::macho::path_fits(library_path(#[trigger] needed[i]))
}

fn build_library_commands(needed: &Vec<String>) -> (r: Option<Vec<u8>>)
    ensures
        match r {
            Some(b) => libraries_fit(model::views(needed@)) && b@ == library_commands(
                model::views(needed@),
                needed@.len(),
            ),
            None => !libraries_fit(model::views(needed@)),
        },
{
    let ghost models = model::views(needed@);
    let mut out: Vec<u8> = Vec::new();
    let mut i: usize = 0;
    while i < needed.len()
        invariant
            i <= needed@.len(),
            models == model::views(needed@),
            forall|k: int| 0 <= k < i
                ==> emit::macho::path_fits(library_path(#[trigger] models[k])),
            out@ == library_commands(models, i as nat),
        decreases needed@.len() - i,
    {
        assert(models[i as int] == needed@[i as int]@);
        let path = if str_eq(needed[i].as_str(), "libSystem.B.dylib") {
            "/usr/lib/libSystem.B.dylib"
        } else {
            needed[i].as_str()
        };
        if path.as_bytes().len() as u64 > 0xffff_ffff - 40 {
            assert(!emit::macho::path_fits(library_path(models[i as int])));
            return None;
        }
        push_dylib(&mut out, path);
        i = i + 1;
    }
    Some(out)
}

/// The strings of the symbol table.
pub open spec fn image_strings() -> Seq<u8> {
    seq![0u8] + encode_utf8("__mh_execute_header"@) + seq![0u8] + encode_utf8("_main"@) + seq![0u8]
}

/// A symbol of the image.
pub open spec fn image_symbol(strx: u32, value: u64) -> Seq<u8> {
    bytes::le32(strx) + seq![0x0fu8, 1u8] + bytes::le16(0) + bytes::le64(value)
}

/// The symbol table: the header and the entry point.
pub open spec fn image_symbols(base: u64, entry: u64) -> Seq<u8> {
    image_symbol(1, base) + image_symbol(21, (entry + 0x4000) as u64)
}

fn build_symbols(base: u64, entry: u64) -> (r: Vec<u8>)
    requires
        entry + 0x4000 <= u64::MAX,
    ensures
        r@ == image_symbols(base, entry),
        r@.len() == 32,
{
    broadcast use bytes::group_le_len;
    let mut out: Vec<u8> = Vec::new();
    push_u32(&mut out, 1);
    out.push(0x0f);
    out.push(1);
    push_u16(&mut out, 0);
    push_u64(&mut out, base);
    assert(out@ =~= image_symbol(1, base));
    let ghost first = out@;
    push_u32(&mut out, 21);
    out.push(0x0f);
    out.push(1);
    push_u16(&mut out, 0);
    push_u64(&mut out, entry + 0x4000);
    assert(out@ =~= first + image_symbol(21, (entry + 0x4000) as u64));
    out
}

fn build_strings() -> (r: Vec<u8>)
    ensures
        r@ == image_strings(),
        r@.len() == 27,
{
    let mut out: Vec<u8> = Vec::new();
    out.push(0);
    push_bytes(&mut out, "__mh_execute_header".as_bytes());
    out.push(0);
    push_bytes(&mut out, "_main".as_bytes());
    out.push(0);
    assert(out@ =~= image_strings());
    proof {
        reveal_strlit("__mh_execute_header");
        reveal_strlit("_main");
        is_ascii_chars_encode_utf8("__mh_execute_header"@);
        is_ascii_chars_encode_utf8("_main"@);
    }
    out
}

/// What a dynamically linked image consists of.
pub struct DynamicImage {
    pub text_base: u64,
    pub text: Seq<u8>,
    pub data_base: u64,
    pub data: Seq<u8>,
    pub rebase: Seq<u8>,
    pub bind: Seq<u8>,
}

/// What the image of a layout consists of.
pub open spec fn dynamic_image(l: LayoutModel, d: DynamicModel) -> DynamicImage {
    let text_base = segment::image_base(text_part(l), MACHO_BASE);
    let data_base = segment::image_base(data_part(l), 0x100008000);
    let data = segment::memory_image(data_part(l), data_base);
    DynamicImage {
        text_base,
        text: segment::memory_image(text_part(l), text_base),
        data_base,
        data,
        rebase: opcodes::rebase_program(
            DATA_SEGMENT_INDEX,
            rebase_offsets(d.macho_rebase_addrs, data_base, data.len(), d.macho_rebase_addrs.len()),
        ),
        bind: opcodes::bind_program(
            d.plt_symbols,
            d.weak_plt_symbols,
            DATA_SEGMENT_INDEX,
            got_distance(data_part(l).sections, data_base, 0),
            order::dedup_binds(
                order::sort_binds(
                    bind_offsets(
                        d.macho_direct_binds,
                        data_base,
                        data.len(),
                        d.macho_direct_binds.len(),
                    ),
                ),
            ),
        ),
    }
}

/// Where the parts of an image stand in memory and in the file.
pub struct DynamicPlan {
    pub text_size: int,
    pub data_size: int,
    pub data_vmaddr: int,
    pub linkedit_vmaddr: int,
    pub data_off: int,
    pub linkedit_off: int,
    pub bind_off: int,
    pub symbols_off: int,
    pub linkedit_size: int,
}

/// Where the parts of an image stand.
pub open spec fn dynamic_plan(m: DynamicImage) -> DynamicPlan {
    let text_size = segment::padded(m.text.len() as int, 0x4000);
    let data_size = segment::padded(m.data.len() as int, 0x4000);
    let behind_text = segment::padded(m.text_base + 0x4000 + text_size, 0x4000);
    let data_vmaddr = if m.data_base + 0x4000 > behind_text {
        m.data_base + 0x4000
    } else {
        behind_text
    };
    let data_off = 0x4000 + text_size;
    let linkedit_off = data_off + data_size;
    let bind_off = segment::padded(linkedit_off + m.rebase.len(), 8);
    let symbols_off = segment::padded(bind_off + m.bind.len(), 8);
    DynamicPlan {
        text_size,
        data_size,
        data_vmaddr,
        linkedit_vmaddr: segment::padded(data_vmaddr + data_size, 0x4000),
        data_off,
        linkedit_off,
        bind_off,
        symbols_off,
        linkedit_size: symbols_off - linkedit_off + 59,
    }
}

/// Whether an image has 64-bit addresses.
pub open spec fn dynamic_fits(m: DynamicImage, entry: u64) -> bool {
    let p = dynamic_plan(m);
    &&& entry + 0x4000 <= u64::MAX
    &&& p.linkedit_vmaddr <= u64::MAX
    &&& p.linkedit_off + segment::padded(p.linkedit_size, 0x4000) <= u64::MAX
}

/// The command that tells where the symbol table stands.
pub open spec fn symtab_command(symbols_off: u32) -> Seq<u8> {
    bytes::le32(LC_SYMTAB_TABLE) + bytes::le32(24) + bytes::le32(symbols_off) + bytes::le32(2)
        + bytes::le32(
        symbols_off.wrapping_add(32),
    ) + bytes::le32(27)
}

/// The command that sorts the symbols: none local, two external, none undefined.
pub open spec fn dysymtab_command() -> Seq<u8> {
    bytes::le32(LC_DYSYMTAB) + bytes::le32(80) + bytes::le32(0) + bytes::le32(0) + bytes::le32(0)
        + bytes::le32(2) + bytes::le32(2) + bytes::le32(0) + bytes::zeros(
        48,
    )
}

/// The command that tells where the programs of the dynamic linker stand.
pub open spec fn dyld_info_command(
    rebase_off: u32,
    rebase: u32,
    bind_off: u32,
    bind: u32,
) -> Seq<u8> {
    bytes::le32(LC_DYLD_INFO_ONLY) + bytes::le32(48) + bytes::le32(rebase_off)
        + bytes::le32(rebase) + bytes::le32(bind_off) + bytes::le32(
        bind,
    ) + bytes::zeros(24)
}

/// The commands of a dynamically linked executable.
pub open spec fn dynamic_commands(
    l: LayoutModel,
    m: DynamicImage,
    needed: Seq<Seq<char>>,
    entry: u64,
) -> Seq<u8> {
    let p = dynamic_plan(m);
    let text = text_part(l).sections;
    let data = data_part(l).sections;
    emit::macho::segment_command(
        "__PAGEZERO"@,
        SegmentFields { vmaddr: 0, vmsize: m.text_base, fileoff: 0, filesize: 0, prot: 0 },
        0,
        seq![],
    ) + emit::macho::segment_command(
        "__TEXT"@,
        SegmentFields {
            vmaddr: m.text_base,
            vmsize: p.data_off as u64,
            fileoff: 0,
            filesize: p.data_off as u64,
            prot: 5,
        },
        text.len(),
        section_records(text, m.text_base, m.text_base + 0x4000, 0x4000, text.len()),
    ) + emit::macho::segment_command(
        "__DATA"@,
        SegmentFields {
            vmaddr: p.data_vmaddr as u64,
            vmsize: p.data_size as u64,
            fileoff: p.data_off as u64,
            filesize: p.data_size as u64,
            prot: 3,
        },
        data.len(),
        section_records(data, m.data_base, p.data_vmaddr, p.data_off, data.len()),
    ) + emit::macho::segment_command(
        "__LINKEDIT"@,
        SegmentFields {
            vmaddr: p.linkedit_vmaddr as u64,
            vmsize: segment::padded(p.linkedit_size, 0x4000) as u64,
            fileoff: p.linkedit_off as u64,
            filesize: p.linkedit_size as u64,
            prot: 1,
        },
        0,
        seq![],
    ) + symtab_command((p.symbols_off as u64) as u32) + dysymtab_command()
        + emit::macho::dylinker_command()
        + emit::macho::uuid_command() + emit::macho::build_command() + emit::macho::main_command(
        emit::macho::entry_distance(entry, m.text_base) as u64,
    ) + library_commands(libraries(needed), libraries(needed).len()) + dyld_info_command(
        (p.linkedit_off as u64) as u32,
        (m.rebase.len() as u64) as u32,
        (p.bind_off as u64) as u32,
        (m.bind.len() as u64) as u32,
    )
}

/// The file of an image, behind its header and commands: the segments, each filled up to the
/// page size, then the programs of the dynamic linker and the symbols.
pub open spec fn image_file(head: Seq<u8>, m: DynamicImage, entry: u64) -> Seq<u8> {
    let p = dynamic_plan(m);
    head + m.text + bytes::zeros(p.text_size - m.text.len()) + m.data
        + bytes::zeros(p.data_size - m.data.len())
        + m.rebase + bytes::zeros(p.bind_off - p.linkedit_off - m.rebase.len()) + m.bind
            + bytes::zeros(
        p.symbols_off - p.bind_off - m.bind.len(),
    ) + image_symbols(m.text_base, entry) + image_strings()
}

/// A dynamically linked executable.
pub open spec fn dynamic_macho(
    l: LayoutModel,
    arch: TargetArch,
    entry: u64,
    d: DynamicModel,
) -> Result<Seq<u8>, Seq<char>> {
    let m = dynamic_image(l, d);
    let cmds = dynamic_commands(l, m, d.needed, entry);
    let libs = libraries(d.needed);
    if arch::macho_cputype(arch) == 0 {
        Err("RISC-V not supported for Mach-O"@)
    } else if !dynamic_fits(m, entry) || !libraries_fit(libs) || 72 + 80 * l.sections.len()
        > u32::MAX || cmds.len() > u32::MAX || 11 + libs.len() > u32::MAX {
        Err(link::layout_too_large())
    } else {
        Ok(
            image_file(
                emit::macho::macho_head(arch::macho_cputype(arch), (11 + libs.len()) as u32, cmds),
                m,
                entry,
            ),
        )
    }
}

/// What an image consists of, as bytes.
struct ImageParts {
    text: MergedLayout,
    data: MergedLayout,
    text_base: u64,
    text_bytes: Vec<u8>,
    data_base: u64,
    data_bytes: Vec<u8>,
    rebase: Vec<u8>,
    bind: Vec<u8>,
}

impl ImageParts {
    spec fn image(&self) -> DynamicImage {
        DynamicImage {
            text_base: self.text_base,
            text: self.text_bytes@,
            data_base: self.data_base,
            data: self.data_bytes@,
            rebase: self.rebase@,
            bind: self.bind@,
        }
    }
}

fn split_text(layout: &MergedLayout) -> (r: MergedLayout)
    ensures
        r@ == text_part(layout@),
{
    MergedLayout { sections: split_part(layout, false), section_by_name: NameMap::new() }
}

fn split_data(layout: &MergedLayout) -> (r: MergedLayout)
    ensures
        r@ == data_part(layout@),
{
    broadcast use model::group_views;
    let mut sections = split_part(layout, true);
    assert(model::views(sections@).len() == sections@.len());
    if sections.len() == 0 {
        let mut data: Vec<u8> = Vec::new();
        push_zeros(&mut data, 8);
        assert(data@ =~= bytes::zeros(8));
        sections.push(
            MergedSection { name: "__data".to_string(), data, vaddr: 0, flags: 0, align: 3 },
        );
        assert(model::views(sections@) =~= data_part(layout@).sections);
    }
    MergedLayout { sections, section_by_name: NameMap::new() }
}

fn build_image(layout: &MergedLayout, d: &DynamicLinkInfo) -> (r: ImageParts)
    requires
        segment::has_image(text_part(layout@)),
        segment::has_image(data_part(layout@)),
    ensures
        r.text@ == text_part(layout@),
        r.data@ == data_part(layout@),
        r.image() == dynamic_image(layout@, d@),
{
    let text = split_text(layout);
    let data = split_data(layout);
    let (text_base, text_bytes) = build_segment_buffer(&text, MACHO_BASE);
    let (data_base, data_bytes) = build_segment_buffer(&data, 0x100008000);
    let size: usize = data_bytes.len();
    let offsets = collect_rebase_offsets(&d.macho_rebase_addrs, data_base, size);
    let binds = collect_bind_offsets(&d.macho_direct_binds, data_base, size);
    assert forall|i: int| 0 <= i < data.sections@.len() implies data_base <= (
    #[trigger] data.sections@[i]).vaddr by {
        assert(data@.sections[i] == data.sections@[i]@);
        assert(data@.sections[0].vaddr <= data@.sections[i].vaddr);
    }
    let got: u64 = find_got(&data.sections, data_base);
    let rebase = build_rebase_opcodes(DATA_SEGMENT_INDEX, &offsets);
    let bind = build_bind_opcodes(
        &d.plt_symbols,
        &d.weak_plt_symbols,
        DATA_SEGMENT_INDEX,
        got,
        &binds,
    );
    assert(model::views(d.macho_direct_binds@).len() == d.macho_direct_binds@.len());
    ImageParts { text, data, text_base, text_bytes, data_base, data_bytes, rebase, bind }
}

/// Where the parts of an image stand, as plain numbers.
struct Places {
    text_pad: usize,
    data_pad: usize,
    bind_pad: usize,
    symbols_pad: usize,
    data_size: u64,
    data_vmaddr: u64,
    linkedit_vmaddr: u64,
    data_off: u64,
    linkedit_off: u64,
    bind_off: u64,
    symbols_off: u64,
    linkedit_size: u64,
    linkedit_vmsize: u64,
}

impl Places {
    spec fn stand_for(&self, m: DynamicImage) -> bool {
        let p = dynamic_plan(m);
        &&& self.text_pad == p.text_size - m.text.len()
        &&& self.data_pad == p.data_size - m.data.len()
        &&& self.bind_pad == p.bind_off - p.linkedit_off - m.rebase.len()
        &&& self.symbols_pad == p.symbols_off - p.bind_off - m.bind.len()
        &&& self.data_size == p.data_size
        &&& self.data_vmaddr == p.data_vmaddr
        &&& self.linkedit_vmaddr == p.linkedit_vmaddr
        &&& self.data_off == p.data_off
        &&& self.linkedit_off == p.linkedit_off
        &&& self.bind_off == p.bind_off
        &&& self.symbols_off == p.symbols_off
        &&& self.linkedit_size == p.linkedit_size
        &&& self.linkedit_vmsize == segment::padded(p.linkedit_size, 0x4000)
    }
}

/// The sum of two numbers, where it fits.
fn sum(a: Option<u64>, b: u64) -> (r: Option<u64>)
    ensures
        r == match a {
            Some(x) => if x + b <= u64::MAX {
                Some((x + b) as u64)
            } else {
                None
            },
            None => None,
        },
{
    match a {
        Some(x) => if x <= u64::MAX - b {
            Some(x + b)
        } else {
            None
        },
        None => None,
    }
}

/// `a` rounded up to a multiple of `m`, where it fits.
fn round_up(a: Option<u64>, m: u64) -> (r: Option<u64>)
    requires
        0 < m,
    ensures
        r == match a {
            Some(x) => if segment::padded(x as int, m as int) <= u64::MAX {
                Some(segment::padded(x as int, m as int) as u64)
            } else {
                None
            },
            None => None,
        },
        a is Some ==> segment::padded(a->0 as int, m as int) >= a->0,
{
    match a {
        Some(x) => {
            let pad: u64 = (m - x % m) % m;
            sum(Some(x), pad)
        },
        None => None,
    }
}

proof fn lemma_padded_ge(n: int, a: int)
    requires
        0 < a,
    ensures
        n <= segment::padded(n, a) < n + a,
{
    assert(0 <= (a - n % a) % a < a) by (nonlinear_arith)
        requires
            0 < a,
    ;
}

fn plan_image(parts: &ImageParts, entry: u64) -> (r: Option<Places>)
    ensures
        match r {
            Some(p) => p.stand_for(parts.image()) && dynamic_fits(parts.image(), entry),
            None => !dynamic_fits(parts.image(), entry),
        },
{
    let ghost m = parts.image();
    let ghost plan = dynamic_plan(m);
    let tn: u64 = parts.text_bytes.len() as u64;
    let dn: u64 = parts.data_bytes.len() as u64;
    let rn: u64 = parts.rebase.len() as u64;
    let bn: u64 = parts.bind.len() as u64;
    proof {
        lemma_padded_ge(m.text.len() as int, 0x4000);
        lemma_padded_ge(m.data.len() as int, 0x4000);
        lemma_padded_ge(m.text_base + 0x4000 + plan.text_size, 0x4000);
        lemma_padded_ge(plan.data_vmaddr + plan.data_size, 0x4000);
        lemma_padded_ge(plan.linkedit_off + m.rebase.len(), 8);
        lemma_padded_ge(plan.bind_off + m.bind.len(), 8);
        lemma_padded_ge(plan.linkedit_size, 0x4000);
    }
    let text_size = round_up(Some(tn), 0x4000);
    let data_size = round_up(Some(dn), 0x4000);
    let (text_size, data_size) = match (text_size, data_size) {
        (Some(a), Some(b)) => (a, b),
        _ => {
            return None;
        },
    };
    let behind_text = round_up(sum(sum(Some(parts.text_base), 0x4000), text_size), 0x4000);
    let derived = sum(Some(parts.data_base), 0x4000);
    let (behind_text, derived) = match (behind_text, derived) {
        (Some(a), Some(b)) => (a, b),
        _ => {
            return None;
        },
    };
    let data_vmaddr: u64 = if derived > behind_text {
        derived
    } else {
        behind_text
    };
    let linkedit_vmaddr = round_up(sum(Some(data_vmaddr), data_size), 0x4000);
    let data_off = sum(Some(0x4000), text_size);
    let linkedit_off = sum(data_off, data_size);
    let bind_off = round_up(sum(linkedit_off, rn), 8);
    let symbols_off = round_up(sum(bind_off, bn), 8);
    let end = sum(symbols_off, 59);
    let (linkedit_vmaddr, data_off, linkedit_off, bind_off, symbols_off, end) = match (
        linkedit_vmaddr,
        data_off,
        linkedit_off,
        bind_off,
        symbols_off,
        end,
    ) {
        (Some(a), Some(b), Some(c), Some(d), Some(e), Some(f)) => (a, b, c, d, e, f),
        _ => {
            return None;
        },
    };
    let linkedit_size: u64 = end - linkedit_off;
    let linkedit_vmsize: u64 = match round_up(Some(linkedit_size), 0x4000) {
        Some(v) => v,
        None => {
            return None;
        },
    };
    if linkedit_vmsize > u64::MAX - linkedit_off || entry > u64::MAX - 0x4000 {
        return None;
    }
    Some(
        Places {
            text_pad: (text_size - tn) as usize,
            data_pad: (data_size - dn) as usize,
            bind_pad: (bind_off - linkedit_off - rn) as usize,
            symbols_pad: (symbols_off - bind_off - bn) as usize,
            data_size,
            data_vmaddr,
            linkedit_vmaddr,
            data_off,
            linkedit_off,
            bind_off,
            symbols_off,
            linkedit_size,
            linkedit_vmsize,
        },
    )
}

fn push_symtab(out: &mut Vec<u8>, symbols_off: u32)
    ensures
        final(out)@ == old(out)@ + symtab_command(symbols_off),
{
    push_u32(out, LC_SYMTAB_TABLE);
    push_u32(out, 24);
    push_u32(out, symbols_off);
    push_u32(out, 2);
    push_u32(out, symbols_off.wrapping_add(32));
    push_u32(out, 27);
    assert(out@ =~= old(out)@ + symtab_command(symbols_off));
}

fn push_dysymtab(out: &mut Vec<u8>)
    ensures
        final(out)@ == old(out)@ + dysymtab_command(),
{
    push_u32(out, LC_DYSYMTAB);
    push_u32(out, 80);
    push_u32(out, 0);
    push_u32(out, 0);
    push_u32(out, 0);
    push_u32(out, 2);
    push_u32(out, 2);
    push_u32(out, 0);
    push_zeros(out, 48);
    assert(out@ =~= old(out)@ + dysymtab_command());
}

fn push_dyld_info(out: &mut Vec<u8>, rebase_off: u32, rebase: u32, bind_off: u32, bind: u32)
    ensures
        final(out)@ == old(out)@ + dyld_info_command(rebase_off, rebase, bind_off, bind),
{
    push_u32(out, LC_DYLD_INFO_ONLY);
    push_u32(out, 48);
    push_u32(out, rebase_off);
    push_u32(out, rebase);
    push_u32(out, bind_off);
    push_u32(out, bind);
    push_zeros(out, 24);
    assert(out@ =~= old(out)@ + dyld_info_command(rebase_off, rebase, bind_off, bind));
}

/// A section of an image ends with the image.
proof fn lemma_section_in_image(l: LayoutModel, base: u64, i: int)
    requires
        segment::has_image(l),
        base == l.sections[0].vaddr,
        0 <= i < l.sections.len(),
    ensures
        base <= l.sections[i].vaddr,
        l.sections[i].vaddr - base <= segment::memory_image(l, base).len(),
{
    segment::lemma_image_end(l, base, l.sections.len());
    segment::lemma_memory_image_len(l, base);
}

proof fn lemma_part_len(s: Seq<MergedModel>, data: bool, n: nat)
    ensures
        segment_part(s, data, n).len() <= n,
    decreases n,
{
    if n > 0 {
        lemma_part_len(s, data, (n - 1) as nat);
    }
}

fn build_dynamic_commands(
    layout: &MergedLayout,
    parts: &ImageParts,
    p: &Places,
    library_cmds: &Vec<u8>,
    entry: u64,
    Ghost(needed): Ghost<Seq<Seq<char>>>,
    Ghost(d): Ghost<DynamicModel>,
) -> (r: Vec<u8>)
    requires
        segment::has_image(text_part(layout@)),
        segment::has_image(data_part(layout@)),
        parts.text@ == text_part(layout@),
        parts.data@ == data_part(layout@),
        parts.image() == dynamic_image(layout@, d),
        p.stand_for(parts.image()),
        dynamic_fits(parts.image(), entry),
        library_cmds@ == library_commands(libraries(needed), libraries(needed).len()),
        72 + 80 * layout@.sections.len() <= u32::MAX,
    ensures
        r@ == dynamic_commands(layout@, parts.image(), needed, entry),
{
    let ghost m = parts.image();
    let ghost text = text_part(layout@);
    let ghost data = data_part(layout@);
    let ghost plan = dynamic_plan(m);
    proof {
        lemma_padded_ge(m.text.len() as int, 0x4000);
        lemma_padded_ge(m.data.len() as int, 0x4000);
        lemma_padded_ge(m.text_base + 0x4000 + plan.text_size, 0x4000);
        lemma_padded_ge(plan.data_vmaddr + plan.data_size, 0x4000);
        lemma_padded_ge(plan.linkedit_off + m.rebase.len(), 8);
        lemma_padded_ge(plan.bind_off + m.bind.len(), 8);
        lemma_padded_ge(plan.linkedit_size, 0x4000);
        lemma_part_len(layout@.sections, false, layout@.sections.len());
        lemma_part_len(layout@.sections, true, layout@.sections.len());
        assert forall|i: int| 0 <= i < parts.text.sections@.len() implies parts.text_base <= (
        #[trigger] parts.text.sections@[i]).vaddr && parts.text_base + 0x4000 + (
        parts.text.sections@[i].vaddr - parts.text_base) <= u64::MAX && 0x4000 + (
        parts.text.sections@[i].vaddr - parts.text_base) <= u64::MAX by {
            assert(text.sections[i] == parts.text.sections@[i]@);
            lemma_section_in_image(text, parts.text_base, i);
        }
        assert forall|i: int| 0 <= i < parts.data.sections@.len() implies parts.data_base <= (
        #[trigger] parts.data.sections@[i]).vaddr && p.data_vmaddr + (
        parts.data.sections@[i].vaddr - parts.data_base) <= u64::MAX && p.data_off + (
        parts.data.sections@[i].vaddr - parts.data_base) <= u64::MAX by {
            assert(data.sections[i] == parts.data.sections@[i]@);
            lemma_section_in_image(data, parts.data_base, i);
        }
    }
    let text_records = build_section_records(
        &parts.text.sections,
        parts.text_base,
        parts.text_base + 0x4000,
        0x4000,
    );
    let data_records = build_section_records(
        &parts.data.sections,
        parts.data_base,
        p.data_vmaddr,
        p.data_off,
    );
    assert(parts.text.sections@.len() == text.sections.len());
    assert(parts.data.sections@.len() == data.sections.len());
    let none: Vec<u8> = Vec::new();
    assert(none@ =~= seq![]);
    let mut cmds: Vec<u8> = Vec::new();
    push_segment(
        &mut cmds,
        "__PAGEZERO",
        &SegmentFields { vmaddr: 0, vmsize: parts.text_base, fileoff: 0, filesize: 0, prot: 0 },
        0,
        &none,
    );
    assert(cmds@ =~= emit::macho::segment_command(
        "__PAGEZERO"@,
        SegmentFields { vmaddr: 0, vmsize: m.text_base, fileoff: 0, filesize: 0, prot: 0 },
        0,
        seq![],
    ));
    push_segment(
        &mut cmds,
        "__TEXT",
        &SegmentFields {
            vmaddr: parts.text_base,
            vmsize: p.data_off,
            fileoff: 0,
            filesize: p.data_off,
            prot: 5,
        },
        parts.text.sections.len(),
        &text_records,
    );
    push_segment(
        &mut cmds,
        "__DATA",
        &SegmentFields {
            vmaddr: p.data_vmaddr,
            vmsize: p.data_size,
            fileoff: p.data_off,
            filesize: p.data_size,
            prot: 3,
        },
        parts.data.sections.len(),
        &data_records,
    );
    push_segment(
        &mut cmds,
        "__LINKEDIT",
        &SegmentFields {
            vmaddr: p.linkedit_vmaddr,
            vmsize: p.linkedit_vmsize,
            fileoff: p.linkedit_off,
            filesize: p.linkedit_size,
            prot: 1,
        },
        0,
        &none,
    );
    push_symtab(&mut cmds, p.symbols_off as u32);
    push_dysymtab(&mut cmds);
    push_dylinker(&mut cmds);
    push_uuid(&mut cmds);
    push_build(&mut cmds);
    push_main(&mut cmds, entry_offset(entry, parts.text_base));
    push_bytes(&mut cmds, library_cmds.as_slice());
    push_dyld_info(
        &mut cmds,
        p.linkedit_off as u32,
        parts.rebase.len() as u64 as u32,
        p.bind_off as u32,
        parts.bind.len() as u64 as u32,
    );
    cmds
}

fn assemble(
    cputype: u32,
    ncmds: u32,
    cmds: &Vec<u8>,
    parts: &ImageParts,
    p: &Places,
    entry: u64,
) -> (r: Vec<u8>)
    requires
        p.stand_for(parts.image()),
        entry + 0x4000 <= u64::MAX,
        cmds@.len() <= u32::MAX,
    ensures
        r@ == image_file(emit::macho::macho_head(cputype, ncmds, cmds@), parts.image(), entry),
{
    let mut out: Vec<u8> = Vec::new();
    push_macho_head(&mut out, cputype, ncmds, cmds);
    assert(out@ =~= emit::macho::macho_head(cputype, ncmds, cmds@));
    push_bytes(&mut out, parts.text_bytes.as_slice());
    push_zeros(&mut out, p.text_pad);
    push_bytes(&mut out, parts.data_bytes.as_slice());
    push_zeros(&mut out, p.data_pad);
    push_bytes(&mut out, parts.rebase.as_slice());
    push_zeros(&mut out, p.bind_pad);
    push_bytes(&mut out, parts.bind.as_slice());
    push_zeros(&mut out, p.symbols_pad);
    let symbols = build_symbols(parts.text_base, entry);
    push_bytes(&mut out, symbols.as_slice());
    let strings = build_strings();
    push_bytes(&mut out, strings.as_slice());
    out
}

/// Appends a dynamically linked executable.
pub fn emit_macho_executable_dynamic(
    layout: &MergedLayout,
    arch: TargetArch,
    entry: u64,
    dyn_info: &DynamicLinkInfo,
    out: &mut Vec<u8>,
) -> (r: Result<(), String>)
    requires
        segment::has_image(text_part(layout@)),
        segment::has_image(data_part(layout@)),
    ensures
        match dynamic_macho(layout@, arch, entry, dyn_info@) {
            Ok(b) => r is Ok && final(out)@ == old(out)@ + b,
            Err(e) => r is Err && r->Err_0@ == e && final(out)@ == old(out)@,
        },
{
    broadcast use model::group_views;
    let cputype: u32 = arch.to_macho_cputype();
    if cputype == 0 {
        return Err("RISC-V not supported for Mach-O".to_string());
    }
    let parts = build_image(layout, dyn_info);
    let ghost m = parts.image();
    let p = match plan_image(&parts, entry) {
        Some(p) => p,
        None => {
            return Err("layout exceeds the address space".to_string());
        },
    };
    let mut libs = clone_names(&dyn_info.needed);
    assert(model::views(libs@).len() == libs@.len());
    assert(model::views(dyn_info.needed@).len() == dyn_info.needed@.len());
    if libs.len() == 0 {
        libs.push("libSystem.B.dylib".to_string());
        assert(model::views(libs@) =~= seq!["libSystem.B.dylib"@]);
    }
    assert(model::views(libs@) == libraries(dyn_info@.needed));
    assert(model::views(libs@).len() == libs@.len());
    let library_cmds = match build_library_commands(&libs) {
        Some(b) => b,
        None => {
            return Err("layout exceeds the address space".to_string());
        },
    };
    assert(layout@.sections.len() == layout.sections@.len());
    if layout.sections.len() as u64 > (0xffff_ffff - 72) / 80 {
        return Err("layout exceeds the address space".to_string());
    }
    let cmds = build_dynamic_commands(
        layout,
        &parts,
        &p,
        &library_cmds,
        entry,
        Ghost(dyn_info@.needed),
        Ghost(dyn_info@),
    );
    if cmds.len() as u64 > 0xffff_ffff || libs.len() as u64 > 0xffff_ffff - 11 {
        return Err("layout exceeds the address space".to_string());
    }
    let file = assemble(cputype, 11 + libs.len() as u32, &cmds, &parts, &p, entry);
    push_bytes(out, file.as_slice());
    Ok(())
}

} // verus!

//! What a loader finds in the Mach-O executables that are written.
use vstd::prelude::*;
use vstd::string::*;
use vstd::utf8::*;
use crate::arch;
use crate::arch::TargetArch;
use crate::bytes;
use crate::emit;
use crate::emit::macho::{MACHO_BASE, SegmentFields};
use crate::emit::macho_dynamic;
use crate::emit::macho_dynamic::DynamicImage;
use crate::link;
use crate::link::{DynamicModel, LayoutModel, MergedModel};
use crate::link::macho::SEG_BASE;
use crate::macho::MH_MAGIC_64;
use crate::segment;

verus! {

/// Whether a file has the header of an executable for a CPU type, with `ncmds` commands behind it.
pub open spec fn macho_executable_header(
    e: Seq<u8>,
    cputype: u32,
    ncmds: u32,
    cmds: Seq<u8>,
) -> bool {
    &&& e.len() >= 32 + cmds.len()
    &&& crate::macho::macho_magic(e)
    &&& bytes::u32_at(e, 4) == cputype
    &&& bytes::u32_at(e, 12) == 2
    &&& bytes::u32_at(e, 16) == ncmds
    &&& bytes::u32_at(e, 20) == cmds.len()
    &&& e.subrange(32, 32 + cmds.len() as int) == cmds
}

/// A file that starts with the head of an executable has the header of one.
pub proof fn lemma_macho_head(cputype: u32, ncmds: u32, cmds: Seq<u8>, rest: Seq<u8>)
    requires
        cmds.len() <= u32::MAX,
    ensures
        macho_executable_header(
            emit::macho::macho_head(cputype, ncmds, cmds) + rest,
            cputype,
            ncmds,
            cmds,
        ),
        emit::macho::macho_head(cputype, ncmds, cmds).len() == segment::padded(
            32 + cmds.len() as int,
            0x4000,
        ),
{
    broadcast use bytes::group_le_len;
    let h = emit::macho::macho_head(cputype, ncmds, cmds);
    let e = h + rest;
    assert(e.subrange(0, 4) =~= bytes::le32(MH_MAGIC_64));
    assert(e.subrange(4, 8) =~= bytes::le32(cputype));
    assert(e.subrange(12, 16) =~= bytes::le32(2));
    assert(e.subrange(16, 20) =~= bytes::le32(ncmds));
    assert(e.subrange(20, 24) =~= bytes::le32(cmds.len() as u32));
    bytes::lemma_read_u32(e, 0, MH_MAGIC_64);
    bytes::lemma_read_u32(e, 4, cputype);
    bytes::lemma_read_u32(e, 12, 2);
    bytes::lemma_read_u32(e, 16, ncmds);
    bytes::lemma_read_u32(e, 20, cmds.len() as u32);
    assert(e.subrange(32, 32 + cmds.len() as int) =~= cmds);
}

pub proof fn lemma_name16_len(name: Seq<char>)
    ensures
        emit::macho::name16_bytes(name).len() == 16,
{
}

pub proof fn lemma_segment_command_len(name: Seq<char>, f: SegmentFields, n: nat, records: Seq<u8>)
    ensures
        emit::macho::segment_command(name, f, n, records).len() == 72 + records.len(),
{
    broadcast use bytes::group_le_len;
    lemma_name16_len(name);
}

pub proof fn lemma_section_record_len(
    sectname: Seq<char>,
    segname: Seq<char>,
    addr: u64,
    size: u64,
    offset: u32,
    align: u32,
    flags: u32,
)
    ensures
        emit::macho::section_record(sectname, segname, addr, size, offset, align, flags).len()
            == 80,
{
    broadcast use bytes::group_le_len;
    lemma_name16_len(sectname);
    lemma_name16_len(segname);
}

proof fn lemma_static_commands_len(size: nat, entry: u64)
    ensures
        emit::macho::static_commands(size, entry).len() == 392,
{
    broadcast use bytes::group_le_len;
    let total = (0x4000 + segment::padded(size as int, 0x4000)) as u64;
    let record = emit::macho::section_record(
        "__text"@,
        "__TEXT"@,
        0x100004000,
        size as u64,
        0x4000,
        4,
        0x80000400,
    );
    lemma_section_record_len("__text"@, "__TEXT"@, 0x100004000, size as u64, 0x4000, 4, 0x80000400);
    let zero = SegmentFields { vmaddr: 0, vmsize: MACHO_BASE, fileoff: 0, filesize: 0, prot: 0 };
    let code = SegmentFields {
        vmaddr: MACHO_BASE,
        vmsize: total,
        fileoff: 0,
        filesize: total,
        prot: 5,
    };
    lemma_segment_command_len("__PAGEZERO"@, zero, 0, seq![]);
    lemma_segment_command_len("__TEXT"@, code, 1, record);
    reveal_strlit("/usr/lib/dyld");
    reveal_strlit("/usr/lib/libSystem.B.dylib");
    is_ascii_chars_encode_utf8("/usr/lib/dyld"@);
    is_ascii_chars_encode_utf8("/usr/lib/libSystem.B.dylib"@);
}

/// A statically linked executable is a Mach-O executable for its CPU type. Its image stands
/// behind the first page of the file, which holds the header and the commands, and the file ends
/// with a full page.
pub proof fn law_static_macho_is_loaded(l: LayoutModel, arch: TargetArch, entry: u64)
    requires
        emit::macho::static_macho(l, arch, entry) is Ok,
    ensures
        ({
            let e = emit::macho::static_macho(l, arch, entry)->Ok_0;
            let image = segment::memory_image(l, segment::image_base(l, MACHO_BASE));
            &&& macho_executable_header(
                e,
                arch::macho_cputype(arch),
                7,
                emit::macho::static_commands(image.len(), entry),
            )
            &&& e.len() == 0x4000 + segment::padded(image.len() as int, 0x4000)
            &&& e.subrange(0x4000, 0x4000 + image.len() as int) == image
        }),
{
    let image = segment::memory_image(l, segment::image_base(l, MACHO_BASE));
    let cmds = emit::macho::static_commands(image.len(), entry);
    let fill = bytes::zeros(segment::padded(image.len() as int, 0x4000) - image.len());
    lemma_static_commands_len(image.len(), entry);
    lemma_one_part(arch::macho_cputype(arch), 7, cmds, image, fill);
}

proof fn lemma_one_part(cputype: u32, ncmds: u32, cmds: Seq<u8>, image: Seq<u8>, fill: Seq<u8>)
    requires
        32 + cmds.len() <= 0x4000,
    ensures
        ({
            let e = emit::macho::macho_head(cputype, ncmds, cmds) + image + fill;
            &&& macho_executable_header(e, cputype, ncmds, cmds)
            &&& e.len() == 0x4000 + image.len() + fill.len()
            &&& e.subrange(0x4000, 0x4000 + image.len() as int) == image
        }),
{
    let head = emit::macho::macho_head(cputype, ncmds, cmds);
    lemma_macho_head(cputype, ncmds, cmds, image + fill);
    assert(head + image + fill =~= head + (image + fill));
    assert((head + image + fill).subrange(0x4000, 0x4000 + image.len() as int) =~= image);
}

/// Parts, each filled up, stand one behind the other.
proof fn lemma_parts(
    h: Seq<u8>,
    text: Seq<u8>,
    text_fill: Seq<u8>,
    data: Seq<u8>,
    data_fill: Seq<u8>,
    rest: Seq<u8>,
)
    ensures
        ({
            let e = h + text + text_fill + data + data_fill + rest;
            let at = h.len() + text.len() + text_fill.len();
            let behind = at + data.len() + data_fill.len();
            &&& e == h + (text + text_fill + data + data_fill + rest)
            &&& e.len() == behind + rest.len()
            &&& e.subrange(h.len() as int, (h.len() + text.len()) as int) == text
            &&& e.subrange(at as int, (at + data.len()) as int) == data
            &&& e.subrange(behind as int, (behind + rest.len()) as int) == rest
        }),
{
    let e = h + text + text_fill + data + data_fill + rest;
    let at = h.len() + text.len() + text_fill.len();
    let behind = at + data.len() + data_fill.len();
    assert(e =~= h + (text + text_fill + data + data_fill + rest));
    assert(e.subrange(h.len() as int, (h.len() + text.len()) as int) =~= text);
    assert(e.subrange(at as int, (at + data.len()) as int) =~= data);
    assert(e.subrange(behind as int, (behind + rest.len()) as int) =~= rest);
}

/// Whether the parts of an image stand where its plan says, in the file and in memory, and do not
/// overlap: the code behind the first page, then the data, then the programs for the loader and
/// the symbols.
pub open spec fn parts_stand(e: Seq<u8>, m: DynamicImage, entry: u64) -> bool {
    let p = macho_dynamic::dynamic_plan(m);
    &&& e.len() == p.linkedit_off + p.linkedit_size
    &&& 0x4000 + m.text.len() <= p.data_off
    &&& p.data_off + m.data.len() <= p.linkedit_off
    &&& p.linkedit_off + m.rebase.len() <= p.bind_off
    &&& p.bind_off + m.bind.len() <= p.symbols_off
    &&& m.text_base + p.data_off <= p.data_vmaddr
    &&& p.data_vmaddr + p.data_size <= p.linkedit_vmaddr
    &&& e.subrange(0x4000, 0x4000 + m.text.len() as int) == m.text
    &&& e.subrange(p.data_off, p.data_off + m.data.len()) == m.data
    &&& e.subrange(p.linkedit_off, p.linkedit_off + m.rebase.len()) == m.rebase
    &&& e.subrange(p.bind_off, p.bind_off + m.bind.len()) == m.bind
    &&& e.subrange(p.symbols_off, p.symbols_off + 32) == macho_dynamic::image_symbols(
        m.text_base,
        entry,
    )
    &&& e.subrange(p.symbols_off + 32, p.symbols_off + 59) == macho_dynamic::image_strings()
}

/// A dynamically linked executable is a Mach-O executable for its CPU type, and its parts stand
/// where the commands say. This holds where the commands leave room in the first page.
pub proof fn law_dynamic_macho_is_loaded(
    l: LayoutModel,
    arch: TargetArch,
    entry: u64,
    d: DynamicModel,
)
    requires
        macho_dynamic::dynamic_macho(l, arch, entry, d) is Ok,
        32 + macho_dynamic::dynamic_commands(
            l,
            macho_dynamic::dynamic_image(l, d),
            d.needed,
            entry,
        ).len() <= 0x4000,
    ensures
        ({
            let e = macho_dynamic::dynamic_macho(l, arch, entry, d)->Ok_0;
            let m = macho_dynamic::dynamic_image(l, d);
            &&& macho_executable_header(
                e,
                arch::macho_cputype(arch),
                (11 + macho_dynamic::libraries(d.needed).len()) as u32,
                macho_dynamic::dynamic_commands(l, m, d.needed, entry),
            )
            &&& parts_stand(e, m, entry)
        }),
{
    let m = macho_dynamic::dynamic_image(l, d);
    let cmds = macho_dynamic::dynamic_commands(l, m, d.needed, entry);
    let n = (11 + macho_dynamic::libraries(d.needed).len()) as u32;
    lemma_image_file(arch::macho_cputype(arch), n, cmds, m, entry);
}

proof fn lemma_image_file(cputype: u32, ncmds: u32, cmds: Seq<u8>, m: DynamicImage, entry: u64)
    requires
        32 + cmds.len() <= 0x4000,
    ensures
        ({
            let head = emit::macho::macho_head(cputype, ncmds, cmds);
            let e = macho_dynamic::image_file(head, m, entry);
            macho_executable_header(e, cputype, ncmds, cmds) && parts_stand(e, m, entry)
        }),
{
    let head = emit::macho::macho_head(cputype, ncmds, cmds);
    lemma_macho_head(cputype, ncmds, cmds, seq![]);
    let rest = lemma_parts_stand(head, m, entry);
    lemma_macho_head(cputype, ncmds, cmds, rest);
}

pub proof fn lemma_plan(m: DynamicImage)
    ensures
        ({
            let p = macho_dynamic::dynamic_plan(m);
            &&& m.text.len() <= p.text_size && p.data_off == 0x4000 + p.text_size
            &&& m.data.len() <= p.data_size && p.linkedit_off == p.data_off + p.data_size
            &&& p.linkedit_off + m.rebase.len() <= p.bind_off
            &&& p.bind_off + m.bind.len() <= p.symbols_off
            &&& p.linkedit_size == p.symbols_off - p.linkedit_off + 59
            &&& m.text_base + p.data_off <= p.data_vmaddr
            &&& p.data_vmaddr + p.data_size <= p.linkedit_vmaddr
        }),
{
}

proof fn lemma_parts_stand(head: Seq<u8>, m: DynamicImage, entry: u64) -> (rest: Seq<u8>)
    requires
        head.len() == 0x4000,
    ensures
        macho_dynamic::image_file(head, m, entry) == head + rest,
        parts_stand(macho_dynamic::image_file(head, m, entry), m, entry),
{
    let p = macho_dynamic::dynamic_plan(m);
    let symbols = macho_dynamic::image_symbols(m.text_base, entry);
    let strings = macho_dynamic::image_strings();
    let tz = bytes::zeros(p.text_size - m.text.len());
    let dz = bytes::zeros(p.data_size - m.data.len());
    let rz = bytes::zeros(p.bind_off - p.linkedit_off - m.rebase.len());
    let bz = bytes::zeros(p.symbols_off - p.bind_off - m.bind.len());
    let tail = m.rebase + rz + m.bind + bz + (symbols + strings);
    let e = macho_dynamic::image_file(head, m, entry);
    lemma_plan(m);
    lemma_symbols_len(m.text_base, entry);
    lemma_regroup(head + m.text + tz + m.data + dz, m.rebase, rz, m.bind, bz, symbols, strings);
    assert(e == head + m.text + tz + m.data + dz + tail);
    lemma_parts(head, m.text, tz, m.data, dz, tail);
    assert(e.len() == p.linkedit_off + tail.len());
    lemma_tail(e, p.linkedit_off, m.rebase, rz, m.bind, bz, symbols, strings);
    m.text + tz + m.data + dz + tail
}

pub proof fn lemma_symbols_len(base: u64, entry: u64)
    ensures
        macho_dynamic::image_symbols(base, entry).len() == 32,
        macho_dynamic::image_strings().len() == 27,
{
    broadcast use bytes::group_le_len;
    reveal_strlit("__mh_execute_header");
    reveal_strlit("_main");
    is_ascii_chars_encode_utf8("__mh_execute_header"@);
    is_ascii_chars_encode_utf8("_main"@);
}

proof fn lemma_regroup(
    x: Seq<u8>,
    a: Seq<u8>,
    b: Seq<u8>,
    c: Seq<u8>,
    d: Seq<u8>,
    s: Seq<u8>,
    t: Seq<u8>,
)
    ensures
        x + a + b + c + d + s + t == x + (a + b + c + d + (s + t)),
{
    assert(x + a + b + c + d + s + t =~= x + (a + b + c + d + (s + t)));
}

proof fn lemma_tail(
    e: Seq<u8>,
    at: int,
    a: Seq<u8>,
    b: Seq<u8>,
    c: Seq<u8>,
    d: Seq<u8>,
    s: Seq<u8>,
    t: Seq<u8>,
)
    requires
        0 <= at,
        e.len() == at + a.len() + b.len() + c.len() + d.len() + s.len() + t.len(),
        e.subrange(at, e.len() as int) == a + b + c + d + (s + t),
    ensures
        ({
            let mid = at + a.len() + b.len();
            let end = mid + c.len() + d.len();
            &&& e.subrange(at, at + a.len()) == a
            &&& e.subrange(mid, mid + c.len()) == c
            &&& e.subrange(end, end + s.len()) == s
            &&& e.subrange(end + s.len(), end + s.len() + t.len()) == t
        }),
{
    let tail = e.subrange(at, e.len() as int);
    let mid = at + a.len() + b.len();
    let end = mid + c.len() + d.len();
    assert forall|k: int| at <= k < e.len() implies #[trigger] e[k] == tail[k - at] by {}
    assert(e.subrange(at, at + a.len()) =~= a);
    assert(e.subrange(mid, mid + c.len()) =~= c);
    assert(e.subrange(end, end + s.len()) =~= s);
    assert(e.subrange(end + s.len(), end + s.len() + t.len()) =~= t);
}

/// The position of the first section at or after `i` of the data segment, or of the others.
spec fn first_index(s: Seq<MergedModel>, data: bool, i: nat) -> int
    decreases s.len() - i,
{
    if i >= s.len() || link::macho::is_data_name(s[i as int].name) == data {
        i as int
    } else {
        first_index(s, data, i + 1)
    }
}

proof fn lemma_first_index(s: Seq<MergedModel>, data: bool, i: nat)
    requires
        i <= s.len(),
    ensures
        i <= first_index(s, data, i) <= s.len(),
        forall|k: int|
            i <= k < first_index(s, data, i) ==> link::macho::is_data_name((#[trigger] s[k]).name)
                != data,
        first_index(s, data, i) < s.len() ==> link::macho::is_data_name(
            s[first_index(s, data, i)].name,
        ) == data,
    decreases s.len() - i,
{
    if i < s.len() && link::macho::is_data_name(s[i as int].name) != data {
        lemma_first_index(s, data, i + 1);
    }
}

proof fn lemma_first_addr(l: LayoutModel, data: bool, i: nat)
    requires
        i <= l.sections.len(),
    ensures
        link::macho::first_addr(l, data, i) == (if first_index(l.sections, data, i)
            < l.sections.len() {
            Some(l.sections[first_index(l.sections, data, i)].vaddr)
        } else {
            None
        }),
    decreases l.sections.len() - i,
{
    lemma_first_index(l.sections, data, i);
    if i < l.sections.len() && link::macho::is_data_name(l.sections[i as int].name) != data {
        lemma_first_addr(l, data, i + 1);
    }
}

proof fn lemma_segment_part_first(s: Seq<MergedModel>, data: bool, n: nat)
    requires
        n <= s.len(),
    ensures
        ({
            let part = macho_dynamic::segment_part(s, data, n);
            let j = first_index(s, data, 0);
            &&& part.len() > 0 <==> j < n
            &&& j < n ==> part[0] == s[j]
        }),
    decreases n,
{
    lemma_first_index(s, data, 0);
    if n > 0 {
        lemma_segment_part_first(s, data, (n - 1) as nat);
    }
}

proof fn lemma_text_end(l: LayoutModel, base: u64, n: nat)
    requires
        n <= l.sections.len(),
        SEG_BASE <= base,
    ensures
        ({
            let part = LayoutModel {
                sections: macho_dynamic::segment_part(l.sections, false, n),
                by_name: Map::empty(),
            };
            segment::image_end(part, base, part.sections.len()) == if link::macho::text_end(l, n)
                > base {
                link::macho::text_end(l, n)
            } else {
                base as int
            }
        }),
    decreases n,
{
    if n > 0 {
        lemma_text_end(l, base, (n - 1) as nat);
        let before = LayoutModel {
            sections: macho_dynamic::segment_part(l.sections, false, (n - 1) as nat),
            by_name: Map::empty(),
        };
        let part = LayoutModel {
            sections: macho_dynamic::segment_part(l.sections, false, n),
            by_name: Map::empty(),
        };
        if !link::macho::is_data_name(l.sections[n - 1].name) {
            assert(part.sections.drop_last() =~= before.sections);
            lemma_image_end_prefix(part, before, base, before.sections.len());
        }
    }
}

proof fn lemma_image_end_prefix(a: LayoutModel, b: LayoutModel, base: u64, n: nat)
    requires
        n <= a.sections.len(),
        n <= b.sections.len(),
        forall|i: int| 0 <= i < n ==> #[trigger] a.sections[i] == b.sections[i],
    ensures
        segment::image_end(a, base, n) == segment::image_end(b, base, n),
    decreases n,
{
    if n > 0 {
        lemma_image_end_prefix(a, b, base, (n - 1) as nat);
    }
}

proof fn lemma_padded_page(x: u64)
    requires
        segment::align_fits(x, 0x4000),
    ensures
        segment::aligned(x, 0x4000) == segment::padded(x as int, 0x4000),
{
    vstd::arithmetic::power2::lemma2_to64();
    assert(segment::is_power(0x4000, 14));
    segment::law_align_up_bounds(x, 0x4000);
    segment::law_align_up_multiple(x, 0x4000, 14);
    let a = segment::aligned(x, 0x4000) as int;
    let p = segment::padded(x as int, 0x4000);
    assert(p % 0x4000 == 0 && x <= p < x + 0x4000);
    assert(a % 0x4000 == 0 && x <= a < x + 0x4000);
}

/// Relocation and writing agree on where an image is loaded: the code stands in memory as far
/// behind its addresses in the layout as relocations assume, and so does the data.
pub proof fn law_image_is_loaded_where_relocated(l: LayoutModel, d: DynamicModel)
    requires
        segment::has_image(macho_dynamic::text_part(l)),
        forall|i: int| 0 <= i < l.sections.len() ==> SEG_BASE <= (#[trigger] l.sections[i]).vaddr,
        link::macho::first_addr(l, true, 0) is Some,
        link::macho::runtime_shifts(l) is Some,
    ensures
        ({
            let m = macho_dynamic::dynamic_image(l, d);
            let p = macho_dynamic::dynamic_plan(m);
            let (text_shift, data_shift) = link::macho::runtime_shifts(l)->0;
            &&& text_shift == 0x4000
            &&& m.data_base == link::macho::first_addr(l, true, 0)->0
            &&& link::macho::first_addr(l, false, 0) is Some ==> m.text_base
                == link::macho::first_addr(l, false, 0)->0
            &&& p.data_vmaddr == m.data_base + data_shift
        }),
{
    let n = l.sections.len();
    lemma_first_addr(l, true, 0);
    lemma_first_addr(l, false, 0);
    lemma_segment_part_first(l.sections, true, n);
    lemma_segment_part_first(l.sections, false, n);
    lemma_first_index(l.sections, true, 0);
    lemma_first_index(l.sections, false, 0);
    let m = macho_dynamic::dynamic_image(l, d);
    let text = macho_dynamic::text_part(l);
    lemma_text_end(l, m.text_base, n);
    let end = link::macho::text_end(l, n);
    if text.sections.len() > 0 {
        let j = first_index(l.sections, false, 0);
        lemma_text_end_reaches(l, n, j);
    } else {
        lemma_no_text_end(l, n);
    }
    segment::lemma_memory_image_len(text, m.text_base);
    segment::lemma_image_end(text, m.text_base, text.sections.len());
    assert(end >= m.text_base);
    let size = (end - m.text_base) as u64;
    assert(m.text.len() == size);
    lemma_padded_page(size);
    lemma_padded_page((m.text_base + 0x4000 + segment::aligned(size, 0x4000)) as u64);
}

proof fn lemma_text_end_reaches(l: LayoutModel, n: nat, j: int)
    requires
        0 <= j < n <= l.sections.len(),
        !link::macho::is_data_name(l.sections[j].name),
    ensures
        link::section_end(l.sections[j]) <= link::macho::text_end(l, n),
    decreases n,
{
    if j < n - 1 {
        lemma_text_end_reaches(l, (n - 1) as nat, j);
    }
}

proof fn lemma_no_text_end(l: LayoutModel, n: nat)
    requires
        n <= l.sections.len(),
        macho_dynamic::segment_part(l.sections, false, n).len() == 0,
    ensures
        link::macho::text_end(l, n) == SEG_BASE,
    decreases n,
{
    if n > 0 {
        lemma_no_text_end(l, (n - 1) as nat);
    }
}

} // verus!

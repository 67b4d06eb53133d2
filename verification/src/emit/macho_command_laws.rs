//! What the load commands of a Mach-O executable tell a loader: the entry point, the segments and
//! their sections, the symbols, the programs of the dynamic linker, and the libraries.
use vstd::prelude::*;
use vstd::string::*;
use vstd::utf8::*;
use crate::arch;
use crate::arch::TargetArch;
use crate::bytes;
use crate::emit;
use crate::emit::macho::{MACHO_BASE, SegmentFields};
use crate::emit::macho_dynamic;
use crate::emit::macho_dynamic::DynamicImage;
use crate::link;
use crate::link::{DynamicModel, LayoutModel, MergedModel};
use crate::reading_laws;
use crate::segment;

verus! {

/// Where the load command `i` of an executable stands: the first behind the header, and each
/// further one behind the bytes of the one before it, which its second word counts.
pub open spec fn command_at(e: Seq<u8>, i: nat) -> int
    decreases i,
{
    if i == 0 {
        32
    } else {
        let before = command_at(e, (i - 1) as nat);
        before + bytes::u32_at(e, before + 4)
    }
}

/// What the load command `i` is for: its first word.
pub open spec fn command_kind(e: Seq<u8>, i: nat) -> u32 {
    bytes::u32_at(e, command_at(e, i))
}

/// The first `n` commands, one behind the other.
spec fn joined(list: Seq<Seq<u8>>, n: nat) -> Seq<u8>
    decreases n,
{
    if n == 0 {
        seq![]
    } else {
        joined(list, (n - 1) as nat) + list[n - 1]
    }
}

/// Whether a command is of a kind and counts its own bytes.
spec fn is_command(c: Seq<u8>, kind: u32) -> bool {
    c.len() >= 8 && bytes::u32_at(c, 0) == kind && bytes::u32_at(c, 4) == c.len()
}

proof fn lemma_is_command(c: Seq<u8>, kind: u32, size: u32)
    requires
        c.len() >= 8,
        c.len() == size,
        c.subrange(0, 4) == bytes::le32(kind),
        c.subrange(4, 8) == bytes::le32(size),
    ensures
        is_command(c, kind),
{
    bytes::lemma_read_u32(c, 0, kind);
    bytes::lemma_read_u32(c, 4, size);
}

proof fn lemma_joined_part(list: Seq<Seq<u8>>, i: nat, n: nat)
    requires
        i < n,
    ensures
        ({
            let at = joined(list, i).len() as int;
            &&& at + list[i as int].len() <= joined(list, n).len()
            &&& joined(list, n).subrange(at, at + list[i as int].len()) == list[i as int]
        }),
    decreases n,
{
    let at = joined(list, i).len() as int;
    let all = joined(list, n);
    if i + 1 < n {
        lemma_joined_part(list, i, (n - 1) as nat);
        let before = joined(list, (n - 1) as nat);
        assert(all.subrange(at, at + list[i as int].len()) =~= before.subrange(
            at,
            at + list[i as int].len(),
        ));
    } else {
        assert(all.subrange(at, at + list[i as int].len()) =~= list[i as int]);
    }
}

/// Whether a file holds some commands behind its header.
spec fn holds_commands(e: Seq<u8>, list: Seq<Seq<u8>>) -> bool {
    &&& 32 + joined(list, list.len()).len() <= e.len()
    &&& e.subrange(32, 32 + joined(list, list.len()).len() as int) == joined(list, list.len())
    &&& forall|k: int|
        0 <= k < list.len() ==> is_command(#[trigger] list[k], bytes::u32_at(list[k], 0))
}

proof fn lemma_command_place(e: Seq<u8>, list: Seq<Seq<u8>>, i: nat)
    requires
        holds_commands(e, list),
        i < list.len(),
        command_at(e, i) == 32 + joined(list, i).len(),
    ensures
        ({
            let at = command_at(e, i);
            &&& at + list[i as int].len() <= e.len()
            &&& e.subrange(at, at + list[i as int].len()) == list[i as int]
            &&& bytes::u32_at(e, at) == bytes::u32_at(list[i as int], 0)
            &&& bytes::u32_at(e, at + 4) == list[i as int].len()
        }),
{
    let all = joined(list, list.len());
    let c = list[i as int];
    let from = joined(list, i).len() as int;
    lemma_joined_part(list, i, list.len());
    bytes::lemma_in_part(e, 32, all, from, from + c.len());
    assert(is_command(list[i as int], bytes::u32_at(list[i as int], 0)));
    assert forall|k: int| 0 <= k < c.len() implies e[32 + from + k] == #[trigger] c[k] by {
        assert(e.subrange(32 + from, 32 + from + c.len())[k] == c[k]);
    }
    bytes::lemma_same_u32(e, 32 + from, c, 0);
    bytes::lemma_same_u32(e, 32 + from + 4, c, 4);
}

/// Walking over the commands of a file by their sizes, each is found.
proof fn lemma_commands_are_found(e: Seq<u8>, list: Seq<Seq<u8>>, i: nat)
    requires
        holds_commands(e, list),
        i <= list.len(),
    ensures
        command_at(e, i) == 32 + joined(list, i).len(),
        i < list.len() ==> ({
            let at = command_at(e, i);
            &&& at + list[i as int].len() <= e.len()
            &&& e.subrange(at, at + list[i as int].len()) == list[i as int]
            &&& bytes::u32_at(e, at) == bytes::u32_at(list[i as int], 0)
            &&& bytes::u32_at(e, at + 4) == list[i as int].len()
        }),
    decreases i,
{
    if i > 0 {
        lemma_commands_are_found(e, list, (i - 1) as nat);
    }
    if i < list.len() {
        lemma_command_place(e, list, i);
    }
}

proof fn lemma_segment_is_command(name: Seq<char>, f: SegmentFields, n: nat, records: Seq<u8>)
    requires
        records.len() == 80 * n,
        72 + 80 * n <= u32::MAX,
    ensures
        is_command(emit::macho::segment_command(name, f, n, records), 0x19),
{
    broadcast use bytes::group_le_len;
    let c = emit::macho::segment_command(name, f, n, records);
    emit::macho_laws::lemma_segment_command_len(name, f, n, records);
    assert(c.subrange(0, 4) =~= bytes::le32(0x19));
    assert(c.subrange(4, 8) =~= bytes::le32((72 + 80 * n) as u32));
    lemma_is_command(c, 0x19, (72 + 80 * n) as u32);
}

proof fn lemma_small_commands(symbols_off: u32, a: u32, b: u32, c: u32, d: u32, offset: u64)
    ensures
        is_command(macho_dynamic::symtab_command(symbols_off), 2),
        macho_dynamic::symtab_command(symbols_off).len() == 24,
        is_command(macho_dynamic::dysymtab_command(), 0xb),
        is_command(macho_dynamic::dyld_info_command(a, b, c, d), 0x80000022),
        macho_dynamic::dyld_info_command(a, b, c, d).len() == 48,
        is_command(emit::macho::main_command(offset), 0x80000028),
        emit::macho::main_command(offset).len() == 24,
        is_command(emit::macho::uuid_command(), 0x1b),
        is_command(emit::macho::build_command(), 0x32),
{
    broadcast use bytes::group_le_len;
    let s = macho_dynamic::symtab_command(symbols_off);
    assert(s.subrange(0, 4) =~= bytes::le32(2));
    assert(s.subrange(4, 8) =~= bytes::le32(24));
    lemma_is_command(s, 2, 24);
    let y = macho_dynamic::dysymtab_command();
    assert(y.subrange(0, 4) =~= bytes::le32(0xb));
    assert(y.subrange(4, 8) =~= bytes::le32(80));
    lemma_is_command(y, 0xb, 80);
    let i = macho_dynamic::dyld_info_command(a, b, c, d);
    assert(i.subrange(0, 4) =~= bytes::le32(0x80000022));
    assert(i.subrange(4, 8) =~= bytes::le32(48));
    lemma_is_command(i, 0x80000022, 48);
    let m = emit::macho::main_command(offset);
    assert(m.subrange(0, 4) =~= bytes::le32(0x80000028));
    assert(m.subrange(4, 8) =~= bytes::le32(24));
    lemma_is_command(m, 0x80000028, 24);
    let u = emit::macho::uuid_command();
    assert(u.subrange(0, 4) =~= bytes::le32(0x1b));
    assert(u.subrange(4, 8) =~= bytes::le32(24));
    lemma_is_command(u, 0x1b, 24);
    let v = emit::macho::build_command();
    assert(v.subrange(0, 4) =~= bytes::le32(0x32));
    assert(v.subrange(4, 8) =~= bytes::le32(32));
    lemma_is_command(v, 0x32, 32);
}

proof fn lemma_path_commands(path: Seq<char>)
    requires
        emit::macho::path_fits(path),
    ensures
        is_command(emit::macho::dylib_command(path), 0xc),
        is_command(emit::macho::dylinker_command(), 0xe),
{
    broadcast use bytes::group_le_len;
    let c = emit::macho::dylib_command(path);
    let p = emit::macho::path_bytes(path, 24);
    assert(c.subrange(0, 4) =~= bytes::le32(0xc));
    assert(c.subrange(4, 8) =~= bytes::le32((24 + p.len()) as u32));
    lemma_is_command(c, 0xc, (24 + p.len()) as u32);
    let d = emit::macho::dylinker_command();
    let q = emit::macho::path_bytes("/usr/lib/dyld"@, 12);
    reveal_strlit("/usr/lib/dyld");
    is_ascii_chars_encode_utf8("/usr/lib/dyld"@);
    assert(d.subrange(0, 4) =~= bytes::le32(0xe));
    assert(d.subrange(4, 8) =~= bytes::le32((12 + q.len()) as u32));
    lemma_is_command(d, 0xe, (12 + q.len()) as u32);
}

proof fn lemma_joined_same(a: Seq<Seq<u8>>, b: Seq<Seq<u8>>, n: nat)
    requires
        forall|k: int| 0 <= k < n ==> #[trigger] a[k] == b[k],
    ensures
        joined(a, n) == joined(b, n),
    decreases n,
{
    if n > 0 {
        lemma_joined_same(a, b, (n - 1) as nat);
    }
}

proof fn lemma_joined_add(a: Seq<Seq<u8>>, b: Seq<Seq<u8>>, n: nat)
    requires
        n <= b.len(),
    ensures
        joined(a + b, a.len() + n) == joined(a, a.len()) + joined(b, n),
    decreases n,
{
    if n == 0 {
        lemma_joined_same(a + b, a, a.len());
        assert(joined(a, a.len()) + joined(b, 0) =~= joined(a, a.len()));
    } else {
        lemma_joined_add(a, b, (n - 1) as nat);
        assert((a + b)[a.len() + n - 1] == b[n - 1]);
        assert(joined(a + b, a.len() + n) =~= joined(a, a.len()) + joined(b, n));
    }
}

/// The commands that name libraries.
spec fn library_list(libs: Seq<Seq<char>>) -> Seq<Seq<u8>> {
    Seq::new(
        libs.len(),
        |k: int| emit::macho::dylib_command(macho_dynamic::library_path(libs[k])),
    )
}

proof fn lemma_library_list(libs: Seq<Seq<char>>, n: nat)
    requires
        n <= libs.len(),
    ensures
        joined(library_list(libs), n) == macho_dynamic::library_commands(libs, n),
    decreases n,
{
    if n > 0 {
        lemma_library_list(libs, (n - 1) as nat);
    }
}

proof fn lemma_ten_commands(
    a: Seq<u8>,
    b: Seq<u8>,
    c: Seq<u8>,
    d: Seq<u8>,
    e: Seq<u8>,
    f: Seq<u8>,
    g: Seq<u8>,
    h: Seq<u8>,
    i: Seq<u8>,
    j: Seq<u8>,
)
    ensures
        joined(seq![a, b, c, d, e, f, g, h, i, j], 10) == a + b + c + d + e + f + g + h + i + j,
{
    reveal_with_fuel(joined, 11);
    let none: Seq<u8> = seq![];
    assert(none + a =~= a);
}

proof fn lemma_records_len(s: Seq<MergedModel>, base: u64, addr: int, off: int, n: nat)
    ensures
        macho_dynamic::section_records(s, base, addr, off, n).len() == 80 * n,
    decreases n,
{
    if n > 0 {
        lemma_records_len(s, base, addr, off, (n - 1) as nat);
        let sec = s[n - 1];
        let (segname, sectname) = emit::macho::name_fields(sec.name);
        let distance = sec.vaddr - base;
        emit::macho_laws::lemma_section_record_len(
            sectname,
            segname,
            (addr + distance) as u64,
            sec.data.len() as u64,
            ((off + distance) as u64) as u32,
            sec.align as u32,
            emit::macho::section_kind(sectname),
        );
    }
}

proof fn lemma_segment_part_len(s: Seq<MergedModel>, data: bool, n: nat)
    ensures
        macho_dynamic::segment_part(s, data, n).len() <= n,
    decreases n,
{
    if n > 0 {
        lemma_segment_part_len(s, data, (n - 1) as nat);
    }
}

/// The segment that no address in reach of a null pointer belongs to.
spec fn zero_segment(m: DynamicImage) -> Seq<u8> {
    emit::macho::segment_command(
        "__PAGEZERO"@,
        SegmentFields { vmaddr: 0, vmsize: m.text_base, fileoff: 0, filesize: 0, prot: 0 },
        0,
        seq![],
    )
}

/// The segment with the code.
spec fn text_segment(l: LayoutModel, m: DynamicImage) -> Seq<u8> {
    let p = macho_dynamic::dynamic_plan(m);
    let text = macho_dynamic::text_part(l).sections;
    emit::macho::segment_command(
        "__TEXT"@,
        SegmentFields {
            vmaddr: m.text_base,
            vmsize: p.data_off as u64,
            fileoff: 0,
            filesize: p.data_off as u64,
            prot: 5,
        },
        text.len(),
        macho_dynamic::section_records(
            text,
            m.text_base,
            m.text_base + 0x4000,
            0x4000,
            text.len(),
        ),
    )
}

/// The segment with the data.
spec fn data_segment(l: LayoutModel, m: DynamicImage) -> Seq<u8> {
    let p = macho_dynamic::dynamic_plan(m);
    let data = macho_dynamic::data_part(l).sections;
    emit::macho::segment_command(
        "__DATA"@,
        SegmentFields {
            vmaddr: p.data_vmaddr as u64,
            vmsize: p.data_size as u64,
            fileoff: p.data_off as u64,
            filesize: p.data_size as u64,
            prot: 3,
        },
        data.len(),
        macho_dynamic::section_records(data, m.data_base, p.data_vmaddr, p.data_off, data.len()),
    )
}

/// The segment with what the dynamic linker reads.
spec fn link_segment(m: DynamicImage) -> Seq<u8> {
    let p = macho_dynamic::dynamic_plan(m);
    emit::macho::segment_command(
        "__LINKEDIT"@,
        SegmentFields {
            vmaddr: p.linkedit_vmaddr as u64,
            vmsize: segment::padded(p.linkedit_size, 0x4000) as u64,
            fileoff: p.linkedit_off as u64,
            filesize: p.linkedit_size as u64,
            prot: 1,
        },
        0,
        seq![],
    )
}

/// The command that tells where the programs of the dynamic linker stand.
spec fn info_command(m: DynamicImage) -> Seq<u8> {
    let p = macho_dynamic::dynamic_plan(m);
    macho_dynamic::dyld_info_command(
        (p.linkedit_off as u64) as u32,
        (m.rebase.len() as u64) as u32,
        (p.bind_off as u64) as u32,
        (m.bind.len() as u64) as u32,
    )
}

/// The command that names the entry point.
spec fn entry_command(m: DynamicImage, entry: u64) -> Seq<u8> {
    emit::macho::main_command(emit::macho::entry_distance(entry, m.text_base) as u64)
}

/// The command that tells where the symbols stand.
spec fn symbols_command(m: DynamicImage) -> Seq<u8> {
    macho_dynamic::symtab_command((macho_dynamic::dynamic_plan(m).symbols_off as u64) as u32)
}

/// The commands in front of those for the libraries.
spec fn first_list(l: LayoutModel, m: DynamicImage, entry: u64) -> Seq<Seq<u8>> {
    seq![
        zero_segment(m),
        text_segment(l, m),
        data_segment(l, m),
        link_segment(m),
        symbols_command(m),
        macho_dynamic::dysymtab_command(),
        emit::macho::dylinker_command(),
        emit::macho::uuid_command(),
        emit::macho::build_command(),
        entry_command(m, entry),
    ]
}

/// All commands.
#[verifier::opaque]
spec fn dynamic_list(
    l: LayoutModel,
    m: DynamicImage,
    needed: Seq<Seq<char>>,
    entry: u64,
) -> Seq<Seq<u8>> {
    first_list(l, m, entry) + library_list(macho_dynamic::libraries(needed)) + seq![
        info_command(m),
    ]
}

proof fn lemma_listed(l: LayoutModel, m: DynamicImage, needed: Seq<Seq<char>>, entry: u64)
    ensures
        ({
            let list = dynamic_list(l, m, needed, entry);
            let libs = macho_dynamic::libraries(needed);
            &&& list.len() == 11 + libs.len()
            &&& libs.len() > 0
            &&& forall|k: int| 0 <= k < 10 ==> #[trigger] list[k] == first_list(l, m, entry)[k]
            &&& forall|k: int|
                10 <= k < 10 + libs.len() ==> #[trigger] list[k] == emit::macho::dylib_command(
                    macho_dynamic::library_path(libs[k - 10]),
                )
            &&& list[10 + libs.len() as int] == info_command(m)
        }),
{
    reveal(dynamic_list);
}

proof fn lemma_dynamic_list(
    l: LayoutModel,
    m: DynamicImage,
    needed: Seq<Seq<char>>,
    entry: u64,
)
    ensures
        joined(dynamic_list(l, m, needed, entry), dynamic_list(l, m, needed, entry).len())
            == macho_dynamic::dynamic_commands(l, m, needed, entry),
{
    reveal(dynamic_list);
    let libs = macho_dynamic::libraries(needed);
    let first = first_list(l, m, entry);
    let more = library_list(libs);
    let last = seq![info_command(m)];
    lemma_ten_commands(
        zero_segment(m),
        text_segment(l, m),
        data_segment(l, m),
        link_segment(m),
        symbols_command(m),
        macho_dynamic::dysymtab_command(),
        emit::macho::dylinker_command(),
        emit::macho::uuid_command(),
        emit::macho::build_command(),
        entry_command(m, entry),
    );
    lemma_library_list(libs, libs.len());
    lemma_joined_add(first, more, more.len());
    lemma_joined_add(first + more, last, 1);
    assert(joined(last, 1) =~= info_command(m)) by {
        reveal_with_fuel(joined, 2);
    }
}

/// The kinds of the commands.
proof fn lemma_kinds(l: LayoutModel, m: DynamicImage, needed: Seq<Seq<char>>, entry: u64, k: int)
    requires
        72 + 80 * l.sections.len() <= u32::MAX,
        macho_dynamic::libraries_fit(macho_dynamic::libraries(needed)),
        0 <= k < dynamic_list(l, m, needed, entry).len(),
    ensures
        is_command(
            dynamic_list(l, m, needed, entry)[k],
            if k < 4 {
                0x19
            } else if k == 4 {
                2
            } else if k == 5 {
                0xb
            } else if k == 6 {
                0xe
            } else if k == 7 {
                0x1b
            } else if k == 8 {
                0x32
            } else if k == 9 {
                0x80000028
            } else if k + 1 < dynamic_list(l, m, needed, entry).len() {
                0xc
            } else {
                0x80000022
            },
        ),
{
    let libs = macho_dynamic::libraries(needed);
    let list = dynamic_list(l, m, needed, entry);
    lemma_listed(l, m, needed, entry);
    if k < 4 {
        lemma_segment_kind(l, m, k);
        assert(list[k] == first_list(l, m, entry)[k]);
    } else if 10 <= k < 10 + libs.len() {
        assert(emit::macho::path_fits(macho_dynamic::library_path(libs[k - 10])));
        lemma_path_commands(macho_dynamic::library_path(libs[k - 10]));
    } else {
        assert(emit::macho::path_fits(macho_dynamic::library_path(libs[0])));
        lemma_other_kinds(m, entry, macho_dynamic::library_path(libs[0]));
        if k < 10 {
            assert(list[k] == first_list(l, m, entry)[k]);
        }
    }
}

proof fn lemma_other_kinds(m: DynamicImage, entry: u64, path: Seq<char>)
    requires
        emit::macho::path_fits(path),
    ensures
        is_command(symbols_command(m), 2),
        is_command(macho_dynamic::dysymtab_command(), 0xb),
        is_command(emit::macho::dylinker_command(), 0xe),
        is_command(emit::macho::uuid_command(), 0x1b),
        is_command(emit::macho::build_command(), 0x32),
        is_command(entry_command(m, entry), 0x80000028),
        is_command(info_command(m), 0x80000022),
{
    let p = macho_dynamic::dynamic_plan(m);
    lemma_path_commands(path);
    lemma_small_commands(
        (p.symbols_off as u64) as u32,
        (p.linkedit_off as u64) as u32,
        (m.rebase.len() as u64) as u32,
        (p.bind_off as u64) as u32,
        (m.bind.len() as u64) as u32,
        emit::macho::entry_distance(entry, m.text_base) as u64,
    );
}

proof fn lemma_segment_kind(l: LayoutModel, m: DynamicImage, k: int)
    requires
        72 + 80 * l.sections.len() <= u32::MAX,
        0 <= k < 4,
    ensures
        is_command(seq![zero_segment(m), text_segment(l, m), data_segment(l, m), link_segment(m)][k], 0x19),
{
    let p = macho_dynamic::dynamic_plan(m);
    let text = macho_dynamic::text_part(l).sections;
    let data = macho_dynamic::data_part(l).sections;
    let none: Seq<u8> = seq![];
    lemma_segment_part_len(l.sections, false, l.sections.len());
    lemma_segment_part_len(l.sections, true, l.sections.len());
    if k == 0 {
        lemma_segment_is_command(
            "__PAGEZERO"@,
            SegmentFields { vmaddr: 0, vmsize: m.text_base, fileoff: 0, filesize: 0, prot: 0 },
            0,
            none,
        );
    } else if k == 1 {
        lemma_records_len(text, m.text_base, m.text_base + 0x4000, 0x4000, text.len());
        lemma_segment_is_command(
            "__TEXT"@,
            SegmentFields {
                vmaddr: m.text_base,
                vmsize: p.data_off as u64,
                fileoff: 0,
                filesize: p.data_off as u64,
                prot: 5,
            },
            text.len(),
            macho_dynamic::section_records(
                text,
                m.text_base,
                m.text_base + 0x4000,
                0x4000,
                text.len(),
            ),
        );
    } else if k == 2 {
        lemma_records_len(data, m.data_base, p.data_vmaddr, p.data_off, data.len());
        lemma_segment_is_command(
            "__DATA"@,
            SegmentFields {
                vmaddr: p.data_vmaddr as u64,
                vmsize: p.data_size as u64,
                fileoff: p.data_off as u64,
                filesize: p.data_size as u64,
                prot: 3,
            },
            data.len(),
            macho_dynamic::section_records(
                data,
                m.data_base,
                p.data_vmaddr,
                p.data_off,
                data.len(),
            ),
        );
    } else {
        lemma_segment_is_command(
            "__LINKEDIT"@,
            SegmentFields {
                vmaddr: p.linkedit_vmaddr as u64,
                vmsize: segment::padded(p.linkedit_size, 0x4000) as u64,
                fileoff: p.linkedit_off as u64,
                filesize: p.linkedit_size as u64,
                prot: 1,
            },
            0,
            none,
        );
    }
}

proof fn lemma_behind_head(
    h: Seq<u8>,
    a: Seq<u8>,
    b: Seq<u8>,
    c: Seq<u8>,
    d: Seq<u8>,
    e: Seq<u8>,
    f: Seq<u8>,
    g: Seq<u8>,
    i: Seq<u8>,
    j: Seq<u8>,
    k: Seq<u8>,
)
    ensures
        h + a + b + c + d + e + f + g + i + j + k == h + (a + b + c + d + e + f + g + i + j + k),
{
    assert(h + a + b + c + d + e + f + g + i + j + k =~= h + (a + b + c + d + e + f + g + i + j
        + k));
}

/// The file of an image starts with its header and commands.
pub proof fn lemma_image_head(cputype: u32, n: u32, cmds: Seq<u8>, m: DynamicImage, entry: u64)
    requires
        cmds.len() <= u32::MAX,
    ensures
        emit::macho_laws::macho_executable_header(
            macho_dynamic::image_file(emit::macho::macho_head(cputype, n, cmds), m, entry),
            cputype,
            n,
            cmds,
        ),
{
    let p = macho_dynamic::dynamic_plan(m);
    let head = emit::macho::macho_head(cputype, n, cmds);
    let symbols = macho_dynamic::image_symbols(m.text_base, entry);
    let strings = macho_dynamic::image_strings();
    let tz = bytes::zeros(p.text_size - m.text.len());
    let dz = bytes::zeros(p.data_size - m.data.len());
    let rz = bytes::zeros(p.bind_off - p.linkedit_off - m.rebase.len());
    let bz = bytes::zeros(p.symbols_off - p.bind_off - m.bind.len());
    lemma_behind_head(head, m.text, tz, m.data, dz, m.rebase, rz, m.bind, bz, symbols, strings);
    let rest = m.text + tz + m.data + dz + m.rebase + rz + m.bind + bz + symbols + strings;
    assert(macho_dynamic::image_file(head, m, entry) == head + rest);
    emit::macho_laws::lemma_macho_head(cputype, n, cmds, rest);
}

proof fn lemma_all_kinds(l: LayoutModel, m: DynamicImage, needed: Seq<Seq<char>>, entry: u64)
    requires
        72 + 80 * l.sections.len() <= u32::MAX,
        macho_dynamic::libraries_fit(macho_dynamic::libraries(needed)),
    ensures
        ({
            let list = dynamic_list(l, m, needed, entry);
            &&& forall|k: int|
                0 <= k < list.len() ==> is_command(#[trigger] list[k], bytes::u32_at(list[k], 0))
            &&& forall|k: int|
                0 <= k < list.len() ==> (bytes::u32_at(#[trigger] list[k], 0) == 0x80000028 <==> k
                    == 9)
        }),
{
    let list = dynamic_list(l, m, needed, entry);
    assert forall|k: int| 0 <= k < list.len() implies is_command(
        #[trigger] list[k],
        bytes::u32_at(list[k], 0),
    ) by {
        lemma_kinds(l, m, needed, entry, k);
    }
    assert forall|k: int| 0 <= k < list.len() implies (bytes::u32_at(#[trigger] list[k], 0)
        == 0x80000028 <==> k == 9) by {
        lemma_kinds(l, m, needed, entry, k);
    }
}

/// Whether an executable holds its commands, and its header counts them.
#[verifier::opaque]
spec fn commands_stand(e: Seq<u8>, list: Seq<Seq<u8>>) -> bool {
    &&& holds_commands(e, list)
    &&& bytes::u32_at(e, 16) == list.len()
    &&& bytes::u32_at(e, 20) == joined(list, list.len()).len()
}

/// A dynamically linked executable holds its commands.
proof fn lemma_dynamic_commands_held(
    l: LayoutModel,
    arch: TargetArch,
    entry: u64,
    d: DynamicModel,
)
    requires
        macho_dynamic::dynamic_macho(l, arch, entry, d) is Ok,
    ensures
        commands_stand(
            macho_dynamic::dynamic_macho(l, arch, entry, d)->Ok_0,
            dynamic_list(l, macho_dynamic::dynamic_image(l, d), d.needed, entry),
        ),
        72 + 80 * l.sections.len() <= u32::MAX,
        macho_dynamic::libraries_fit(macho_dynamic::libraries(d.needed)),
        entry + 0x4000 <= u64::MAX,
{
    let m = macho_dynamic::dynamic_image(l, d);
    let cmds = macho_dynamic::dynamic_commands(l, m, d.needed, entry);
    let n = (11 + macho_dynamic::libraries(d.needed).len()) as u32;
    reveal(commands_stand);
    lemma_dynamic_list(l, m, d.needed, entry);
    lemma_listed(l, m, d.needed, entry);
    lemma_all_kinds(l, m, d.needed, entry);
    lemma_image_head(arch::macho_cputype(arch), n, cmds, m, entry);
}

proof fn lemma_commands_len(e: Seq<u8>, list: Seq<Seq<u8>>)
    requires
        commands_stand(e, list),
    ensures
        bytes::u32_at(e, 20) == joined(list, list.len()).len(),
{
    reveal(commands_stand);
}

/// What is found of the command `i`.
proof fn lemma_standing_command(e: Seq<u8>, list: Seq<Seq<u8>>, i: nat)
    requires
        commands_stand(e, list),
        i < list.len(),
    ensures
        ({
            let at = command_at(e, i);
            &&& 32 <= at && at + list[i as int].len() <= 32 + bytes::u32_at(e, 20)
            &&& e.subrange(at, at + list[i as int].len()) == list[i as int]
            &&& command_kind(e, i) == bytes::u32_at(list[i as int], 0)
            &&& bytes::u32_at(e, at + 4) == list[i as int].len()
            &&& bytes::u32_at(e, 16) == list.len()
            &&& command_at(e, list.len()) == 32 + bytes::u32_at(e, 20)
            &&& 32 + bytes::u32_at(e, 20) <= e.len()
        }),
{
    reveal(commands_stand);
    lemma_commands_are_found(e, list, i);
    lemma_commands_are_found(e, list, list.len());
    lemma_joined_part(list, i, list.len());
}

proof fn lemma_main_fields(c: Seq<u8>, offset: u64)
    requires
        c == emit::macho::main_command(offset),
    ensures
        c.len() == 24,
        c.subrange(8, 16) == bytes::le64(offset),
{
    broadcast use bytes::group_le_len;
    assert(c.subrange(8, 16) =~= bytes::le64(offset));
}

proof fn lemma_entry_is_named(e: Seq<u8>, list: Seq<Seq<u8>>, j: nat, offset: u64)
    requires
        commands_stand(e, list),
        j < list.len(),
        list[j as int] == emit::macho::main_command(offset),
        forall|k: int|
            0 <= k < list.len() ==> (bytes::u32_at(#[trigger] list[k], 0) == 0x80000028 <==> k
                == j),
    ensures
        bytes::u32_at(e, 16) > j,
        command_at(e, bytes::u32_at(e, 16) as nat) == 32 + bytes::u32_at(e, 20),
        32 + bytes::u32_at(e, 20) <= e.len(),
        forall|i: nat|
            i < bytes::u32_at(e, 16) ==> (#[trigger] command_kind(e, i) == 0x80000028 <==> i == j),
        command_at(e, j) + 24 <= 32 + bytes::u32_at(e, 20),
        bytes::u32_at(e, command_at(e, j) + 4) == 24,
        bytes::u64_at(e, command_at(e, j) + 8) == offset,
{
    let c = list[j as int];
    let at = command_at(e, j);
    lemma_standing_command(e, list, j);
    assert forall|i: nat| i < bytes::u32_at(e, 16) implies (#[trigger] command_kind(e, i)
        == 0x80000028 <==> i == j) by {
        lemma_standing_command(e, list, i);
    }
    lemma_main_fields(c, offset);
    bytes::lemma_in_part(e, at, c, 8, 16);
    bytes::lemma_read_u64(e, at + 8, offset);
}

proof fn lemma_entry_is_listed(
    l: LayoutModel,
    m: DynamicImage,
    needed: Seq<Seq<char>>,
    entry: u64,
)
    requires
        72 + 80 * l.sections.len() <= u32::MAX,
        macho_dynamic::libraries_fit(macho_dynamic::libraries(needed)),
    ensures
        ({
            let list = dynamic_list(l, m, needed, entry);
            &&& list.len() > 9
            &&& list[9] == emit::macho::main_command(
                emit::macho::entry_distance(entry, m.text_base) as u64,
            )
            &&& forall|k: int|
                0 <= k < list.len() ==> (bytes::u32_at(#[trigger] list[k], 0) == 0x80000028 <==> k
                    == 9)
        }),
{
    lemma_listed(l, m, needed, entry);
    lemma_all_kinds(l, m, needed, entry);
}

/// Walking over the load commands of a dynamically linked executable by their sizes leads from the
/// header to the end of the commands, and exactly one of them, the tenth, names the entry point:
/// its place in the file, which is as far behind the first page as the entry point is behind the
/// start of the code.
pub proof fn law_dynamic_macho_names_entry(
    l: LayoutModel,
    arch: TargetArch,
    entry: u64,
    d: DynamicModel,
)
    requires
        macho_dynamic::dynamic_macho(l, arch, entry, d) is Ok,
    ensures
        ({
            let e = macho_dynamic::dynamic_macho(l, arch, entry, d)->Ok_0;
            let base = macho_dynamic::dynamic_image(l, d).text_base;
            let at = command_at(e, 9);
            &&& bytes::u32_at(e, 16) >= 10
            &&& command_at(e, bytes::u32_at(e, 16) as nat) == 32 + bytes::u32_at(e, 20)
            &&& 32 + bytes::u32_at(e, 20) <= e.len()
            &&& forall|i: nat|
                i < bytes::u32_at(e, 16) ==> (#[trigger] command_kind(e, i) == 0x80000028 <==> i
                    == 9)
            &&& at + 24 <= 32 + bytes::u32_at(e, 20)
            &&& bytes::u32_at(e, at + 4) == 24
            &&& entry >= base ==> bytes::u64_at(e, at + 8) == 0x4000 + (entry - base)
        }),
{
    let e = macho_dynamic::dynamic_macho(l, arch, entry, d)->Ok_0;
    let m = macho_dynamic::dynamic_image(l, d);
    let list = dynamic_list(l, m, d.needed, entry);
    let offset = emit::macho::entry_distance(entry, m.text_base) as u64;
    lemma_dynamic_commands_held(l, arch, entry, d);
    lemma_entry_is_listed(l, m, d.needed, entry);
    lemma_entry_is_named(e, list, 9, offset);
}

/// The place in the file that the entry command names holds the byte of the entry point: that of
/// the section with code whose addresses the entry point is among. This holds where the commands
/// leave room in the first page.
pub proof fn law_dynamic_macho_entry_leads_to_code(
    l: LayoutModel,
    arch: TargetArch,
    entry: u64,
    d: DynamicModel,
    i: int,
)
    requires
        macho_dynamic::dynamic_macho(l, arch, entry, d) is Ok,
        32 + bytes::u32_at(macho_dynamic::dynamic_macho(l, arch, entry, d)->Ok_0, 20) <= 0x4000,
        segment::has_image(macho_dynamic::text_part(l)),
        segment::sections_apart(macho_dynamic::text_part(l)),
        0 <= i < l.sections.len(),
        !link::macho::is_data_name(l.sections[i].name),
        l.sections[i].vaddr <= entry < l.sections[i].vaddr + l.sections[i].data.len(),
    ensures
        ({
            let e = macho_dynamic::dynamic_macho(l, arch, entry, d)->Ok_0;
            let place = bytes::u64_at(e, command_at(e, 9) + 8) as int;
            &&& 0x4000 <= place < e.len()
            &&& e[place] == l.sections[i].data[entry - l.sections[i].vaddr]
        }),
{
    let e = macho_dynamic::dynamic_macho(l, arch, entry, d)->Ok_0;
    let m = macho_dynamic::dynamic_image(l, d);
    let list = dynamic_list(l, m, d.needed, entry);
    lemma_dynamic_commands_held(l, arch, entry, d);
    lemma_commands_len(e, list);
    lemma_dynamic_list(l, m, d.needed, entry);
    law_dynamic_macho_names_entry(l, arch, entry, d);
    lemma_text_in_file(l, arch, entry, d);
    lemma_text_holds_section(l, d, i);
    lemma_byte_in_file(
        e,
        m.text,
        m.text_base as int,
        l.sections[i].data,
        l.sections[i].vaddr as int,
        entry as int,
    );
}

proof fn lemma_text_in_file(l: LayoutModel, arch: TargetArch, entry: u64, d: DynamicModel)
    requires
        macho_dynamic::dynamic_macho(l, arch, entry, d) is Ok,
        32 + macho_dynamic::dynamic_commands(
            l,
            macho_dynamic::dynamic_image(l, d),
            d.needed,
            entry,
        ).len() <= 0x4000,
    ensures
        ({
            let e = macho_dynamic::dynamic_macho(l, arch, entry, d)->Ok_0;
            let m = macho_dynamic::dynamic_image(l, d);
            &&& 0x4000 + m.text.len() <= e.len()
            &&& e.subrange(0x4000, 0x4000 + m.text.len() as int) == m.text
        }),
{
    emit::macho_laws::law_dynamic_macho_is_loaded(l, arch, entry, d);
    emit::macho_laws::lemma_plan(macho_dynamic::dynamic_image(l, d));
}

/// The code holds the bytes of each of its sections at its address.
proof fn lemma_text_holds_section(l: LayoutModel, d: DynamicModel, i: int)
    requires
        segment::has_image(macho_dynamic::text_part(l)),
        segment::sections_apart(macho_dynamic::text_part(l)),
        0 <= i < l.sections.len(),
        !link::macho::is_data_name(l.sections[i].name),
    ensures
        ({
            let m = macho_dynamic::dynamic_image(l, d);
            let s = l.sections[i];
            &&& m.text_base <= s.vaddr
            &&& s.vaddr - m.text_base + s.data.len() <= m.text.len()
            &&& m.text.subrange(s.vaddr - m.text_base, s.vaddr - m.text_base + s.data.len())
                == s.data
        }),
{
    let text = macho_dynamic::text_part(l);
    let base = segment::image_base(text, MACHO_BASE);
    let k = lemma_part_holds(l.sections, false, l.sections.len(), i);
    assert(text.sections[k] == l.sections[i]);
    segment::law_image_holds_sections(text, k);
    segment::lemma_image_end(text, base, text.sections.len());
    segment::lemma_memory_image_len(text, base);
    assert(macho_dynamic::dynamic_image(l, d).text == segment::memory_image(text, base));
}

proof fn lemma_byte_in_file(
    e: Seq<u8>,
    text: Seq<u8>,
    base: int,
    data: Seq<u8>,
    vaddr: int,
    entry: int,
)
    requires
        0x4000 + text.len() <= e.len(),
        e.subrange(0x4000, 0x4000 + text.len() as int) == text,
        base <= vaddr,
        vaddr - base + data.len() <= text.len(),
        text.subrange(vaddr - base, vaddr - base + data.len()) == data,
        vaddr <= entry < vaddr + data.len(),
    ensures
        0x4000 + (entry - base) < e.len(),
        e[0x4000 + (entry - base)] == data[entry - vaddr],
{
    assert(text.subrange(vaddr - base, vaddr - base + data.len())[entry - vaddr] == text[entry
        - base]);
    assert(e.subrange(0x4000, 0x4000 + text.len() as int)[entry - base] == e[0x4000 + (entry
        - base)]);
}

proof fn lemma_segment_fields(name: Seq<char>, f: SegmentFields, n: nat, records: Seq<u8>)
    ensures
        ({
            let c = emit::macho::segment_command(name, f, n, records);
            &&& c.len() == 72 + records.len()
            &&& c.subrange(8, 24) == emit::macho::name16_bytes(name)
            &&& c.subrange(24, 32) == bytes::le64(f.vmaddr)
            &&& c.subrange(32, 40) == bytes::le64(f.vmsize)
            &&& c.subrange(40, 48) == bytes::le64(f.fileoff)
            &&& c.subrange(48, 56) == bytes::le64(f.filesize)
            &&& c.subrange(56, 60) == bytes::le32(f.prot)
            &&& c.subrange(60, 64) == bytes::le32(f.prot)
            &&& c.subrange(64, 68) == bytes::le32(n as u32)
            &&& c.subrange(72, 72 + records.len() as int) == records
        }),
{
    broadcast use bytes::group_le_len;
    let c = emit::macho::segment_command(name, f, n, records);
    emit::macho_laws::lemma_name16_len(name);
    assert(c.subrange(8, 24) =~= emit::macho::name16_bytes(name));
    assert(c.subrange(24, 32) =~= bytes::le64(f.vmaddr));
    assert(c.subrange(32, 40) =~= bytes::le64(f.vmsize));
    assert(c.subrange(40, 48) =~= bytes::le64(f.fileoff));
    assert(c.subrange(48, 56) =~= bytes::le64(f.filesize));
    assert(c.subrange(56, 60) =~= bytes::le32(f.prot));
    assert(c.subrange(60, 64) =~= bytes::le32(f.prot));
    assert(c.subrange(64, 68) =~= bytes::le32(n as u32));
    assert(c.subrange(72, 72 + records.len() as int) =~= records);
}

/// Whether the command `i` describes a segment: its name in sixteen bytes, its place in memory and
/// in the file, how it is protected, and how many sections it has.
pub open spec fn is_segment(
    e: Seq<u8>,
    i: nat,
    name: Seq<char>,
    f: SegmentFields,
    sections: nat,
) -> bool {
    let at = command_at(e, i);
    let b = encode_utf8(name);
    &&& command_kind(e, i) == 0x19
    &&& at + 72 + 80 * sections <= e.len()
    &&& e.subrange(at + 8, at + 24) == b + bytes::zeros(16 - b.len())
    &&& bytes::u64_at(e, at + 24) == f.vmaddr
    &&& bytes::u64_at(e, at + 32) == f.vmsize
    &&& bytes::u64_at(e, at + 40) == f.fileoff
    &&& bytes::u64_at(e, at + 48) == f.filesize
    &&& bytes::u32_at(e, at + 56) == f.prot
    &&& bytes::u32_at(e, at + 60) == f.prot
    &&& bytes::u32_at(e, at + 64) == sections
}

proof fn lemma_segment_is_read(
    e: Seq<u8>,
    list: Seq<Seq<u8>>,
    i: nat,
    name: Seq<char>,
    f: SegmentFields,
    n: nat,
    records: Seq<u8>,
)
    requires
        commands_stand(e, list),
        i < list.len(),
        list[i as int] == emit::macho::segment_command(name, f, n, records),
        records.len() == 80 * n,
        72 + 80 * n <= u32::MAX,
        encode_utf8(name).len() <= 16,
    ensures
        is_segment(e, i, name, f, n),
        e.subrange(command_at(e, i) + 72, command_at(e, i) + 72 + 80 * n) == records,
{
    let c = list[i as int];
    let at = command_at(e, i);
    lemma_standing_command(e, list, i);
    lemma_segment_is_command(name, f, n, records);
    lemma_segment_fields(name, f, n, records);
    bytes::lemma_in_part(e, at, c, 8, 24);
    bytes::lemma_in_part(e, at, c, 24, 32);
    bytes::lemma_in_part(e, at, c, 32, 40);
    bytes::lemma_in_part(e, at, c, 40, 48);
    bytes::lemma_in_part(e, at, c, 48, 56);
    bytes::lemma_in_part(e, at, c, 56, 60);
    bytes::lemma_in_part(e, at, c, 60, 64);
    bytes::lemma_in_part(e, at, c, 64, 68);
    bytes::lemma_in_part(e, at, c, 72, 72 + records.len() as int);
    bytes::lemma_read_u64(e, at + 24, f.vmaddr);
    bytes::lemma_read_u64(e, at + 32, f.vmsize);
    bytes::lemma_read_u64(e, at + 40, f.fileoff);
    bytes::lemma_read_u64(e, at + 48, f.filesize);
    bytes::lemma_read_u32(e, at + 56, f.prot);
    bytes::lemma_read_u32(e, at + 60, f.prot);
    bytes::lemma_read_u32(e, at + 64, n as u32);
    let b = encode_utf8(name);
    assert(emit::macho::name16_bytes(name) =~= b + bytes::zeros(16 - b.len()));
}

proof fn lemma_record_fields(
    sectname: Seq<char>,
    segname: Seq<char>,
    addr: u64,
    size: u64,
    offset: u32,
    align: u32,
    flags: u32,
)
    ensures
        ({
            let r = emit::macho::section_record(
                sectname,
                segname,
                addr,
                size,
                offset,
                align,
                flags,
            );
            &&& r.len() == 80
            &&& r.subrange(0, 16) == emit::macho::name16_bytes(sectname)
            &&& r.subrange(16, 32) == emit::macho::name16_bytes(segname)
            &&& r.subrange(32, 40) == bytes::le64(addr)
            &&& r.subrange(40, 48) == bytes::le64(size)
            &&& r.subrange(48, 52) == bytes::le32(offset)
            &&& r.subrange(52, 56) == bytes::le32(align)
            &&& r.subrange(64, 68) == bytes::le32(flags)
        }),
{
    broadcast use bytes::group_le_len;
    let r = emit::macho::section_record(sectname, segname, addr, size, offset, align, flags);
    emit::macho_laws::lemma_name16_len(sectname);
    emit::macho_laws::lemma_name16_len(segname);
    assert(r.subrange(0, 16) =~= emit::macho::name16_bytes(sectname));
    assert(r.subrange(16, 32) =~= emit::macho::name16_bytes(segname));
    assert(r.subrange(32, 40) =~= bytes::le64(addr));
    assert(r.subrange(40, 48) =~= bytes::le64(size));
    assert(r.subrange(48, 52) =~= bytes::le32(offset));
    assert(r.subrange(52, 56) =~= bytes::le32(align));
    assert(r.subrange(64, 68) =~= bytes::le32(flags));
}

proof fn lemma_record_is_read(
    e: Seq<u8>,
    at: int,
    sectname: Seq<char>,
    segname: Seq<char>,
    addr: u64,
    size: u64,
    offset: u32,
    align: u32,
    flags: u32,
)
    requires
        0 <= at,
        at + 80 <= e.len(),
        e.subrange(at, at + 80) == emit::macho::section_record(
            sectname,
            segname,
            addr,
            size,
            offset,
            align,
            flags,
        ),
    ensures
        bytes::u64_at(e, at + 32) == addr,
        bytes::u64_at(e, at + 40) == size,
        bytes::u32_at(e, at + 48) == offset,
        bytes::u32_at(e, at + 52) == align,
        bytes::u32_at(e, at + 64) == flags,
{
    let r = e.subrange(at, at + 80);
    lemma_record_fields(sectname, segname, addr, size, offset, align, flags);
    bytes::lemma_in_part(e, at, r, 32, 40);
    bytes::lemma_in_part(e, at, r, 40, 48);
    bytes::lemma_in_part(e, at, r, 48, 52);
    bytes::lemma_in_part(e, at, r, 52, 56);
    bytes::lemma_in_part(e, at, r, 64, 68);
    bytes::lemma_read_u64(e, at + 32, addr);
    bytes::lemma_read_u64(e, at + 40, size);
    bytes::lemma_read_u32(e, at + 48, offset);
    bytes::lemma_read_u32(e, at + 52, align);
    bytes::lemma_read_u32(e, at + 64, flags);
}

/// The records of a segment hold one record for each section.
proof fn lemma_record_of(
    s: Seq<MergedModel>,
    base: u64,
    addr: int,
    off: int,
    n: nat,
    j: int,
)
    requires
        0 <= j < n,
    ensures
        ({
            let all = macho_dynamic::section_records(s, base, addr, off, n);
            let sec = s[j];
            let (segname, sectname) = emit::macho::name_fields(sec.name);
            let distance = sec.vaddr - base;
            &&& all.len() == 80 * n
            &&& all.subrange(80 * j, 80 * j + 80) == emit::macho::section_record(
                sectname,
                segname,
                (addr + distance) as u64,
                sec.data.len() as u64,
                ((off + distance) as u64) as u32,
                sec.align as u32,
                emit::macho::section_kind(sectname),
            )
        }),
    decreases n,
{
    lemma_records_len(s, base, addr, off, n);
    lemma_records_len(s, base, addr, off, (n - 1) as nat);
    let all = macho_dynamic::section_records(s, base, addr, off, n);
    let before = macho_dynamic::section_records(s, base, addr, off, (n - 1) as nat);
    if j < n - 1 {
        lemma_record_of(s, base, addr, off, (n - 1) as nat, j);
        assert(all.subrange(80 * j, 80 * j + 80) =~= before.subrange(80 * j, 80 * j + 80));
    } else {
        assert(all.subrange(80 * j, 80 * j + 80) =~= all.subrange(
            before.len() as int,
            all.len() as int,
        ));
        assert(all.subrange(before.len() as int, all.len() as int) =~= {
            let sec = s[j];
            let (segname, sectname) = emit::macho::name_fields(sec.name);
            let distance = sec.vaddr - base;
            emit::macho::section_record(
                sectname,
                segname,
                (addr + distance) as u64,
                sec.data.len() as u64,
                ((off + distance) as u64) as u32,
                sec.align as u32,
                emit::macho::section_kind(sectname),
            )
        });
    }
}

/// The place of a segment in memory and in the file, and its protection, as its command tells.
pub open spec fn segment_fields(e: Seq<u8>, i: nat) -> SegmentFields {
    let at = command_at(e, i);
    SegmentFields {
        vmaddr: bytes::u64_at(e, at + 24),
        vmsize: bytes::u64_at(e, at + 32),
        fileoff: bytes::u64_at(e, at + 40),
        filesize: bytes::u64_at(e, at + 48),
        prot: bytes::u32_at(e, at + 60),
    }
}

/// The fields of the four segments.
spec fn planned_fields(m: DynamicImage, k: int) -> SegmentFields {
    let p = macho_dynamic::dynamic_plan(m);
    if k == 0 {
        SegmentFields { vmaddr: 0, vmsize: m.text_base, fileoff: 0, filesize: 0, prot: 0 }
    } else if k == 1 {
        SegmentFields {
            vmaddr: m.text_base,
            vmsize: p.data_off as u64,
            fileoff: 0,
            filesize: p.data_off as u64,
            prot: 5,
        }
    } else if k == 2 {
        SegmentFields {
            vmaddr: p.data_vmaddr as u64,
            vmsize: p.data_size as u64,
            fileoff: p.data_off as u64,
            filesize: p.data_size as u64,
            prot: 3,
        }
    } else {
        SegmentFields {
            vmaddr: p.linkedit_vmaddr as u64,
            vmsize: segment::padded(p.linkedit_size, 0x4000) as u64,
            fileoff: p.linkedit_off as u64,
            filesize: p.linkedit_size as u64,
            prot: 1,
        }
    }
}

/// The records of the sections with code.
spec fn text_records(l: LayoutModel, m: DynamicImage) -> Seq<u8> {
    let text = macho_dynamic::text_part(l).sections;
    macho_dynamic::section_records(text, m.text_base, m.text_base + 0x4000, 0x4000, text.len())
}

/// The records of the sections with data.
spec fn data_records(l: LayoutModel, m: DynamicImage) -> Seq<u8> {
    let p = macho_dynamic::dynamic_plan(m);
    let data = macho_dynamic::data_part(l).sections;
    macho_dynamic::section_records(data, m.data_base, p.data_vmaddr, p.data_off, data.len())
}

proof fn lemma_parts_are_few(l: LayoutModel)
    requires
        72 + 80 * l.sections.len() <= u32::MAX,
    ensures
        72 + 80 * macho_dynamic::text_part(l).sections.len() <= u32::MAX,
        72 + 80 * macho_dynamic::data_part(l).sections.len() <= u32::MAX,
{
    lemma_segment_part_len(l.sections, false, l.sections.len());
    lemma_segment_part_len(l.sections, true, l.sections.len());
}

proof fn lemma_segment_names()
    ensures
        encode_utf8("__PAGEZERO"@).len() == 10,
        encode_utf8("__TEXT"@).len() == 6,
        encode_utf8("__DATA"@).len() == 6,
        encode_utf8("__LINKEDIT"@).len() == 10,
{
    reveal_strlit("__PAGEZERO");
    reveal_strlit("__TEXT");
    reveal_strlit("__DATA");
    reveal_strlit("__LINKEDIT");
    is_ascii_chars_encode_utf8("__PAGEZERO"@);
    is_ascii_chars_encode_utf8("__TEXT"@);
    is_ascii_chars_encode_utf8("__DATA"@);
    is_ascii_chars_encode_utf8("__LINKEDIT"@);
}

proof fn lemma_segments_are_read(
    e: Seq<u8>,
    l: LayoutModel,
    m: DynamicImage,
    needed: Seq<Seq<char>>,
    entry: u64,
)
    requires
        commands_stand(e, dynamic_list(l, m, needed, entry)),
        72 + 80 * l.sections.len() <= u32::MAX,
    ensures
        is_segment(e, 0, "__PAGEZERO"@, planned_fields(m, 0), 0),
        is_segment(
            e,
            1,
            "__TEXT"@,
            planned_fields(m, 1),
            macho_dynamic::text_part(l).sections.len(),
        ),
        is_segment(
            e,
            2,
            "__DATA"@,
            planned_fields(m, 2),
            macho_dynamic::data_part(l).sections.len(),
        ),
        is_segment(e, 3, "__LINKEDIT"@, planned_fields(m, 3), 0),
        e.subrange(
            command_at(e, 1) + 72,
            command_at(e, 1) + 72 + 80 * macho_dynamic::text_part(l).sections.len(),
        ) == text_records(l, m),
        e.subrange(
            command_at(e, 2) + 72,
            command_at(e, 2) + 72 + 80 * macho_dynamic::data_part(l).sections.len(),
        ) == data_records(l, m),
{
    let list = dynamic_list(l, m, needed, entry);
    let p = macho_dynamic::dynamic_plan(m);
    let text = macho_dynamic::text_part(l).sections;
    let data = macho_dynamic::data_part(l).sections;
    let none: Seq<u8> = seq![];
    lemma_listed(l, m, needed, entry);
    lemma_parts_are_few(l);
    lemma_segment_names();
    lemma_records_len(text, m.text_base, m.text_base + 0x4000, 0x4000, text.len());
    lemma_records_len(data, m.data_base, p.data_vmaddr, p.data_off, data.len());
    assert(list[0] == zero_segment(m));
    assert(list[1] == text_segment(l, m));
    assert(list[2] == data_segment(l, m));
    assert(list[3] == link_segment(m));
    lemma_segment_is_read(e, list, 0, "__PAGEZERO"@, planned_fields(m, 0), 0, none);
    lemma_segment_is_read(
        e,
        list,
        1,
        "__TEXT"@,
        planned_fields(m, 1),
        text.len(),
        text_records(l, m),
    );
    lemma_segment_is_read(
        e,
        list,
        2,
        "__DATA"@,
        planned_fields(m, 2),
        data.len(),
        data_records(l, m),
    );
    lemma_segment_is_read(e, list, 3, "__LINKEDIT"@, planned_fields(m, 3), 0, none);
}

proof fn lemma_planned_fields(m: DynamicImage, entry: u64)
    requires
        macho_dynamic::dynamic_fits(m, entry),
    ensures
        ({
            let p = macho_dynamic::dynamic_plan(m);
            let text = planned_fields(m, 1);
            let data = planned_fields(m, 2);
            let link = planned_fields(m, 3);
            &&& text.vmsize == p.data_off && text.filesize == p.data_off
            &&& data.vmaddr == p.data_vmaddr && data.vmsize == p.data_size
            &&& data.fileoff == p.data_off && data.filesize == p.data_size
            &&& link.vmaddr == p.linkedit_vmaddr && link.filesize == p.linkedit_size
            &&& link.vmsize >= p.linkedit_size && link.fileoff == p.linkedit_off
            &&& m.text_base + p.data_off <= p.data_vmaddr
            &&& p.data_vmaddr + p.data_size <= p.linkedit_vmaddr
            &&& p.data_off % 0x4000 == 0 && p.linkedit_off % 0x4000 == 0
            &&& p.data_off + p.data_size == p.linkedit_off
        }),
{
    emit::macho_laws::lemma_plan(m);
}

/// Whether the segments of a file follow each other, in the file and in memory: a first one, which
/// is not in the file, keeps all addresses below the code away; then come the code, which starts
/// with the header, the data, and what the dynamic linker reads, which reaches to the end of the
/// file.
pub open spec fn segments_follow(e: Seq<u8>, base: u64) -> bool {
    let zero = segment_fields(e, 0);
    let text = segment_fields(e, 1);
    let data = segment_fields(e, 2);
    let link = segment_fields(e, 3);
    &&& zero == (SegmentFields { vmaddr: 0, vmsize: base, fileoff: 0, filesize: 0, prot: 0 })
    &&& text.vmaddr == base && text.fileoff == 0 && text.vmsize == text.filesize && text.prot == 5
    &&& data.fileoff == text.filesize && data.vmsize == data.filesize && data.prot == 3
    &&& link.fileoff == data.fileoff + data.filesize && link.prot == 1
    &&& link.fileoff + link.filesize == e.len() && link.filesize <= link.vmsize
    &&& text.vmaddr + text.vmsize <= data.vmaddr
    &&& data.vmaddr + data.vmsize <= link.vmaddr
    &&& data.fileoff % 0x4000 == 0 && link.fileoff % 0x4000 == 0
}

proof fn lemma_segments_follow(e: Seq<u8>, m: DynamicImage, entry: u64, n: nat, k: nat)
    requires
        macho_dynamic::dynamic_fits(m, entry),
        is_segment(e, 0, "__PAGEZERO"@, planned_fields(m, 0), 0),
        is_segment(e, 1, "__TEXT"@, planned_fields(m, 1), n),
        is_segment(e, 2, "__DATA"@, planned_fields(m, 2), k),
        is_segment(e, 3, "__LINKEDIT"@, planned_fields(m, 3), 0),
        e.len() == macho_dynamic::dynamic_plan(m).linkedit_off + macho_dynamic::dynamic_plan(
            m,
        ).linkedit_size,
    ensures
        segments_follow(e, m.text_base),
        segment_fields(e, 0) == planned_fields(m, 0),
        segment_fields(e, 1) == planned_fields(m, 1),
        segment_fields(e, 2) == planned_fields(m, 2),
        segment_fields(e, 3) == planned_fields(m, 3),
{
    lemma_planned_fields(m, entry);
}

/// What a dynamically linked executable has behind its commands.
proof fn lemma_dynamic_parts(l: LayoutModel, arch: TargetArch, entry: u64, d: DynamicModel)
    requires
        macho_dynamic::dynamic_macho(l, arch, entry, d) is Ok,
        32 + bytes::u32_at(macho_dynamic::dynamic_macho(l, arch, entry, d)->Ok_0, 20) <= 0x4000,
    ensures
        macho_dynamic::dynamic_fits(macho_dynamic::dynamic_image(l, d), entry),
        emit::macho_laws::parts_stand(
            macho_dynamic::dynamic_macho(l, arch, entry, d)->Ok_0,
            macho_dynamic::dynamic_image(l, d),
            entry,
        ),
{
    let e = macho_dynamic::dynamic_macho(l, arch, entry, d)->Ok_0;
    let m = macho_dynamic::dynamic_image(l, d);
    lemma_dynamic_commands_held(l, arch, entry, d);
    lemma_commands_len(e, dynamic_list(l, m, d.needed, entry));
    lemma_dynamic_list(l, m, d.needed, entry);
    emit::macho_laws::law_dynamic_macho_is_loaded(l, arch, entry, d);
}

/// The first four commands of a dynamically linked executable describe its segments, which follow
/// each other. This holds where the commands leave room in the first page.
pub proof fn law_dynamic_macho_segments_follow(
    l: LayoutModel,
    arch: TargetArch,
    entry: u64,
    d: DynamicModel,
)
    requires
        macho_dynamic::dynamic_macho(l, arch, entry, d) is Ok,
        32 + bytes::u32_at(macho_dynamic::dynamic_macho(l, arch, entry, d)->Ok_0, 20) <= 0x4000,
    ensures
        ({
            let e = macho_dynamic::dynamic_macho(l, arch, entry, d)->Ok_0;
            let base = macho_dynamic::dynamic_image(l, d).text_base;
            let n = bytes::u32_at(e, command_at(e, 1) + 64) as nat;
            let k = bytes::u32_at(e, command_at(e, 2) + 64) as nat;
            &&& is_segment(e, 0, "__PAGEZERO"@, segment_fields(e, 0), 0)
            &&& is_segment(e, 1, "__TEXT"@, segment_fields(e, 1), n)
            &&& is_segment(e, 2, "__DATA"@, segment_fields(e, 2), k)
            &&& is_segment(e, 3, "__LINKEDIT"@, segment_fields(e, 3), 0)
            &&& segments_follow(e, base)
        }),
{
    let e = macho_dynamic::dynamic_macho(l, arch, entry, d)->Ok_0;
    let m = macho_dynamic::dynamic_image(l, d);
    lemma_dynamic_commands_held(l, arch, entry, d);
    lemma_dynamic_parts(l, arch, entry, d);
    lemma_segments_are_read(e, l, m, d.needed, entry);
    lemma_segments_follow(
        e,
        m,
        entry,
        macho_dynamic::text_part(l).sections.len(),
        macho_dynamic::data_part(l).sections.len(),
    );
}

/// Whether the record at `r` describes a section that is loaded at `addr`, and whose bytes stand
/// in the file where the record says.
pub open spec fn section_stands(e: Seq<u8>, r: int, addr: int, align: u64, data: Seq<u8>) -> bool {
    let place = bytes::u32_at(e, r + 48) as int;
    &&& bytes::u64_at(e, r + 32) == addr
    &&& bytes::u64_at(e, r + 40) == data.len()
    &&& bytes::u32_at(e, r + 52) == align as u32
    &&& place + data.len() <= e.len()
    &&& e.subrange(place, place + data.len()) == data
}

/// A section of a part of the image stands where its record says.
proof fn lemma_section_stands(
    e: Seq<u8>,
    part: LayoutModel,
    records: Seq<u8>,
    base: u64,
    addr: int,
    off: int,
    r: int,
    j: int,
)
    requires
        part.sections.len() > 0,
        base == part.sections[0].vaddr,
        segment::has_image(part),
        segment::sections_apart(part),
        0 <= j < part.sections.len(),
        records == macho_dynamic::section_records(
            part.sections,
            base,
            addr,
            off,
            part.sections.len(),
        ),
        0 <= r,
        r + 80 * part.sections.len() <= e.len(),
        e.subrange(r, r + 80 * part.sections.len()) == records,
        0 <= off,
        off + segment::memory_image(part, base).len() <= e.len() <= u32::MAX,
        e.subrange(off, off + segment::memory_image(part, base).len()) == segment::memory_image(
            part,
            base,
        ),
        0 <= addr,
        addr + segment::memory_image(part, base).len() <= u64::MAX,
    ensures
        section_stands(
            e,
            r + 80 * j,
            addr + (part.sections[j].vaddr - base),
            part.sections[j].align,
            part.sections[j].data,
        ),
{
    let sec = part.sections[j];
    let image = segment::memory_image(part, base);
    let distance = sec.vaddr - base;
    let (segname, sectname) = emit::macho::name_fields(sec.name);
    segment::law_image_holds_sections(part, j);
    segment::lemma_image_end(part, base, part.sections.len());
    segment::lemma_memory_image_len(part, base);
    assert(distance + sec.data.len() <= image.len());
    lemma_record_of(part.sections, base, addr, off, part.sections.len(), j);
    bytes::lemma_in_part(e, r, records, 80 * j, 80 * j + 80);
    lemma_record_is_read(
        e,
        r + 80 * j,
        sectname,
        segname,
        (addr + distance) as u64,
        sec.data.len() as u64,
        ((off + distance) as u64) as u32,
        sec.align as u32,
        emit::macho::section_kind(sectname),
    );
    assert(((off + distance) as u64) as u32 == off + distance);
    bytes::lemma_in_part(e, off, image, distance, distance + sec.data.len());
}

proof fn lemma_part_holds(s: Seq<MergedModel>, data: bool, n: nat, i: int) -> (k: int)
    requires
        0 <= i < n <= s.len(),
        link::macho::is_data_name(s[i].name) == data,
    ensures
        0 <= k < macho_dynamic::segment_part(s, data, n).len(),
        macho_dynamic::segment_part(s, data, n)[k] == s[i],
    decreases n,
{
    if i < n - 1 {
        lemma_part_holds(s, data, (n - 1) as nat, i)
    } else {
        macho_dynamic::segment_part(s, data, (n - 1) as nat).len() as int
    }
}

/// The records of the two segments, where the parts of the image stand.
proof fn lemma_sections_stand(
    e: Seq<u8>,
    l: LayoutModel,
    d: DynamicModel,
    entry: u64,
    data: bool,
    i: int,
) -> (j: int)
    requires
        commands_stand(e, dynamic_list(l, macho_dynamic::dynamic_image(l, d), d.needed, entry)),
        72 + 80 * l.sections.len() <= u32::MAX,
        macho_dynamic::dynamic_fits(macho_dynamic::dynamic_image(l, d), entry),
        emit::macho_laws::parts_stand(e, macho_dynamic::dynamic_image(l, d), entry),
        e.len() <= u32::MAX,
        0 <= i < l.sections.len(),
        link::macho::is_data_name(l.sections[i].name) == data,
        !data ==> segment::has_image(macho_dynamic::text_part(l)) && segment::sections_apart(
            macho_dynamic::text_part(l),
        ),
        data ==> segment::has_image(macho_dynamic::data_part(l)) && segment::sections_apart(
            macho_dynamic::data_part(l),
        ),
    ensures
        ({
            let m = macho_dynamic::dynamic_image(l, d);
            let p = macho_dynamic::dynamic_plan(m);
            let s = l.sections[i];
            let at = command_at(
                e,
                if data {
                    2
                } else {
                    1
                },
            );
            let addr = if data {
                p.data_vmaddr + (s.vaddr - m.data_base)
            } else {
                s.vaddr + 0x4000
            };
            &&& 0 <= j < bytes::u32_at(e, at + 64)
            &&& section_stands(e, at + 72 + 80 * j, addr, s.align, s.data)
        }),
{
    let m = macho_dynamic::dynamic_image(l, d);
    let p = macho_dynamic::dynamic_plan(m);
    let j = lemma_part_holds(l.sections, data, l.sections.len(), i);
    lemma_segments_are_read(e, l, m, d.needed, entry);
    lemma_planned_fields(m, entry);
    emit::macho_laws::lemma_plan(m);
    if data {
        let part = macho_dynamic::data_part(l);
        assert(part.sections[j] == l.sections[i]);
        lemma_section_stands(
            e,
            part,
            data_records(l, m),
            m.data_base,
            p.data_vmaddr,
            p.data_off,
            command_at(e, 2) + 72,
            j,
        );
    } else {
        let part = macho_dynamic::text_part(l);
        assert(part.sections[j] == l.sections[i]);
        lemma_section_stands(
            e,
            part,
            text_records(l, m),
            m.text_base,
            m.text_base + 0x4000,
            0x4000,
            command_at(e, 1) + 72,
            j,
        );
    }
    j
}

/// Each section with code of a dynamically linked executable has a record in the second segment,
/// and is loaded 0x4000 behind its address in the layout. The bytes of the section stand in the
/// file where the record says. This holds where the commands leave room in the first page, and the
/// file has 32-bit places.
pub proof fn law_dynamic_macho_code_stands(
    l: LayoutModel,
    arch: TargetArch,
    entry: u64,
    d: DynamicModel,
    i: int,
)
    requires
        macho_dynamic::dynamic_macho(l, arch, entry, d) is Ok,
        32 + bytes::u32_at(macho_dynamic::dynamic_macho(l, arch, entry, d)->Ok_0, 20) <= 0x4000,
        macho_dynamic::dynamic_macho(l, arch, entry, d)->Ok_0.len() <= u32::MAX,
        segment::has_image(macho_dynamic::text_part(l)),
        segment::sections_apart(macho_dynamic::text_part(l)),
        0 <= i < l.sections.len(),
        !link::macho::is_data_name(l.sections[i].name),
    ensures
        ({
            let e = macho_dynamic::dynamic_macho(l, arch, entry, d)->Ok_0;
            let s = l.sections[i];
            let at = command_at(e, 1);
            exists|j: int|
                0 <= j < bytes::u32_at(e, at + 64) && #[trigger] section_stands(
                    e,
                    at + 72 + 80 * j,
                    s.vaddr + 0x4000,
                    s.align,
                    s.data,
                )
        }),
{
    let e = macho_dynamic::dynamic_macho(l, arch, entry, d)->Ok_0;
    lemma_dynamic_commands_held(l, arch, entry, d);
    lemma_dynamic_parts(l, arch, entry, d);
    let j = lemma_sections_stand(e, l, d, entry, false, i);
}

/// Each section with data of a dynamically linked executable has a record in the third segment,
/// and is loaded as far behind the start of that segment as its address is behind that of the
/// first section with data. The bytes of the section stand in the file where the record says.
pub proof fn law_dynamic_macho_data_stands(
    l: LayoutModel,
    arch: TargetArch,
    entry: u64,
    d: DynamicModel,
    i: int,
)
    requires
        macho_dynamic::dynamic_macho(l, arch, entry, d) is Ok,
        32 + bytes::u32_at(macho_dynamic::dynamic_macho(l, arch, entry, d)->Ok_0, 20) <= 0x4000,
        macho_dynamic::dynamic_macho(l, arch, entry, d)->Ok_0.len() <= u32::MAX,
        segment::has_image(macho_dynamic::data_part(l)),
        segment::sections_apart(macho_dynamic::data_part(l)),
        0 <= i < l.sections.len(),
        link::macho::is_data_name(l.sections[i].name),
    ensures
        ({
            let e = macho_dynamic::dynamic_macho(l, arch, entry, d)->Ok_0;
            let base = macho_dynamic::dynamic_image(l, d).data_base;
            let s = l.sections[i];
            let at = command_at(e, 2);
            exists|j: int|
                0 <= j < bytes::u32_at(e, at + 64) && #[trigger] section_stands(
                    e,
                    at + 72 + 80 * j,
                    segment_fields(e, 2).vmaddr + (s.vaddr - base),
                    s.align,
                    s.data,
                )
        }),
{
    let e = macho_dynamic::dynamic_macho(l, arch, entry, d)->Ok_0;
    let m = macho_dynamic::dynamic_image(l, d);
    lemma_dynamic_commands_held(l, arch, entry, d);
    lemma_dynamic_parts(l, arch, entry, d);
    lemma_data_vmaddr(e, l, m, d.needed, entry);
    let j = lemma_sections_stand(e, l, d, entry, true, i);
}

proof fn lemma_data_vmaddr(
    e: Seq<u8>,
    l: LayoutModel,
    m: DynamicImage,
    needed: Seq<Seq<char>>,
    entry: u64,
)
    requires
        commands_stand(e, dynamic_list(l, m, needed, entry)),
        72 + 80 * l.sections.len() <= u32::MAX,
        macho_dynamic::dynamic_fits(m, entry),
    ensures
        segment_fields(e, 2).vmaddr == macho_dynamic::dynamic_plan(m).data_vmaddr,
{
    lemma_segments_are_read(e, l, m, needed, entry);
    lemma_planned_fields(m, entry);
}

proof fn lemma_symtab_fields(off: u32)
    ensures
        ({
            let c = macho_dynamic::symtab_command(off);
            &&& c.len() == 24
            &&& c.subrange(8, 12) == bytes::le32(off)
            &&& c.subrange(12, 16) == bytes::le32(2)
            &&& c.subrange(16, 20) == bytes::le32(off.wrapping_add(32))
            &&& c.subrange(20, 24) == bytes::le32(27)
        }),
{
    broadcast use bytes::group_le_len;
    let c = macho_dynamic::symtab_command(off);
    assert(c.subrange(8, 12) =~= bytes::le32(off));
    assert(c.subrange(12, 16) =~= bytes::le32(2));
    assert(c.subrange(16, 20) =~= bytes::le32(off.wrapping_add(32)));
    assert(c.subrange(20, 24) =~= bytes::le32(27));
}

/// The symbols that a file with some bytes at `off` holds.
proof fn lemma_symbols_are_read(e: Seq<u8>, off: int, base: u64, entry: u64)
    requires
        0 <= off,
        off + 59 <= e.len(),
        entry + 0x4000 <= u64::MAX,
        e.subrange(off, off + 32) == macho_dynamic::image_symbols(base, entry),
        e.subrange(off + 32, off + 59) == macho_dynamic::image_strings(),
    ensures
        ({
            let header = crate::macho::symbol_at(e, off, off + 32, 27);
            let main = crate::macho::symbol_at(e, off + 16, off + 32, 27);
            &&& header.name == "__mh_execute_header"@ && header.value == base
            &&& header.n_type == 0x0f && header.sect == 1
            &&& main.name == "_main"@ && main.value == entry + 0x4000
            &&& main.n_type == 0x0f && main.sect == 1
        }),
{
    broadcast use bytes::group_le_len;
    let symbols = macho_dynamic::image_symbols(base, entry);
    let strings = macho_dynamic::image_strings();
    let header = "__mh_execute_header"@;
    let main = "_main"@;
    emit::macho_laws::lemma_symbols_len(base, entry);
    reveal_strlit("__mh_execute_header");
    reveal_strlit("_main");
    is_ascii_chars_encode_utf8(header);
    is_ascii_chars_encode_utf8(main);
    assert(symbols.subrange(0, 4) =~= bytes::le32(1));
    assert(symbols.subrange(8, 16) =~= bytes::le64(base));
    assert(symbols.subrange(16, 20) =~= bytes::le32(21));
    assert(symbols.subrange(24, 32) =~= bytes::le64((entry + 0x4000) as u64));
    assert(symbols[4] == 0x0f && symbols[5] == 1 && symbols[20] == 0x0f && symbols[21] == 1);
    assert forall|k: int| 0 <= k < 32 implies e[off + k] == #[trigger] symbols[k] by {
        assert(e.subrange(off, off + 32)[k] == symbols[k]);
    }
    bytes::lemma_in_part(e, off, symbols, 0, 4);
    bytes::lemma_in_part(e, off, symbols, 8, 16);
    bytes::lemma_in_part(e, off, symbols, 16, 20);
    bytes::lemma_in_part(e, off, symbols, 24, 32);
    bytes::lemma_read_u32(e, off, 1);
    bytes::lemma_read_u64(e, off + 8, base);
    bytes::lemma_read_u32(e, off + 16, 21);
    bytes::lemma_read_u64(e, off + 24, (entry + 0x4000) as u64);
    assert(e[off + 20] == symbols[20] && e[off + 21] == symbols[21]);
    assert(e[off + 4] == symbols[4] && e[off + 5] == symbols[5]);
    assert(strings.subrange(1, 20) =~= encode_utf8(header));
    assert(strings.subrange(21, 26) =~= encode_utf8(main));
    lemma_string_stands(e, off + 32, strings, 1, header);
    lemma_string_stands(e, off + 32, strings, 21, main);
    reading_laws::law_macho_names_are_read(e, 1, off + 32, 27, header);
    reading_laws::law_macho_names_are_read(e, 21, off + 32, 27, main);
}

proof fn lemma_string_stands(e: Seq<u8>, off: int, strings: Seq<u8>, at: int, name: Seq<char>)
    requires
        0 <= off,
        off + strings.len() <= e.len(),
        e.subrange(off, off + strings.len()) == strings,
        0 <= at,
        is_ascii_chars(name),
        forall|k: int| 0 <= k < name.len() ==> name[k] != '\0',
        at + name.len() + 1 <= strings.len(),
        strings.subrange(at, at + name.len()) == encode_utf8(name),
        strings[at + name.len()] == 0,
    ensures
        reading_laws::name_stands(e, off + at, name),
{
    let b = encode_utf8(name);
    is_ascii_chars_encode_utf8(name);
    bytes::lemma_in_part(e, off, strings, at, at + b.len());
    assert(e[off + at + b.len()] == e.subrange(off, off + strings.len())[at + b.len()]);
    assert forall|k: int| 0 <= k < b.len() implies b[k] != 0 by {
        assert(b[k] == name[k] as u8);
    }
}

/// Whether the fifth command tells where two symbols stand: that of the header, which is the start
/// of the code, and the entry point, 0x4000 behind its address in the layout.
pub open spec fn symbols_are_told(e: Seq<u8>, base: u64, entry: u64) -> bool {
    let at = command_at(e, 4);
    let off = bytes::u32_at(e, at + 8) as int;
    let strings = bytes::u32_at(e, at + 16) as int;
    let size = bytes::u32_at(e, at + 20) as int;
    let header = crate::macho::symbol_at(e, off, strings, size);
    let main = crate::macho::symbol_at(e, off + 16, strings, size);
    &&& command_kind(e, 4) == 2
    &&& bytes::u32_at(e, at + 12) == 2
    &&& off + 32 <= strings && strings + size <= e.len()
    &&& header.name == "__mh_execute_header"@ && header.value == base
    &&& header.n_type == 0x0f && header.sect == 1
    &&& main.name == "_main"@ && main.value == entry + 0x4000
    &&& main.n_type == 0x0f && main.sect == 1
}

proof fn lemma_symbols_are_told(e: Seq<u8>, list: Seq<Seq<u8>>, m: DynamicImage, entry: u64)
    requires
        commands_stand(e, list),
        list.len() > 4,
        list[4] == symbols_command(m),
        emit::macho_laws::parts_stand(e, m, entry),
        macho_dynamic::dynamic_fits(m, entry),
        e.len() <= u32::MAX,
    ensures
        symbols_are_told(e, m.text_base, entry),
{
    let p = macho_dynamic::dynamic_plan(m);
    let off = p.symbols_off;
    let at = command_at(e, 4);
    let c = list[4];
    emit::macho_laws::lemma_plan(m);
    assert((off as u64) as u32 == off);
    let word = off as u32;
    lemma_standing_command(e, list, 4);
    lemma_symtab_fields(word);
    lemma_small_commands(word, 0, 0, 0, 0, 0);
    bytes::lemma_in_part(e, at, c, 8, 12);
    bytes::lemma_in_part(e, at, c, 12, 16);
    bytes::lemma_in_part(e, at, c, 16, 20);
    bytes::lemma_in_part(e, at, c, 20, 24);
    bytes::lemma_read_u32(e, at + 8, word);
    bytes::lemma_read_u32(e, at + 12, 2);
    bytes::lemma_read_u32(e, at + 16, word.wrapping_add(32));
    bytes::lemma_read_u32(e, at + 20, 27);
    lemma_symbols_are_read(e, off, m.text_base, entry);
}

proof fn lemma_listed_symbols(
    l: LayoutModel,
    m: DynamicImage,
    needed: Seq<Seq<char>>,
    entry: u64,
)
    ensures
        dynamic_list(l, m, needed, entry).len() > 10,
        dynamic_list(l, m, needed, entry)[4] == symbols_command(m),
        dynamic_list(l, m, needed, entry)[6] == emit::macho::dylinker_command(),
        dynamic_list(l, m, needed, entry).last() == info_command(m),
{
    lemma_listed(l, m, needed, entry);
}

/// A dynamically linked executable has two symbols: its header and its entry point. This holds
/// where the commands leave room in the first page, and the file has 32-bit places.
pub proof fn law_dynamic_macho_has_symbols(
    l: LayoutModel,
    arch: TargetArch,
    entry: u64,
    d: DynamicModel,
)
    requires
        macho_dynamic::dynamic_macho(l, arch, entry, d) is Ok,
        32 + bytes::u32_at(macho_dynamic::dynamic_macho(l, arch, entry, d)->Ok_0, 20) <= 0x4000,
        macho_dynamic::dynamic_macho(l, arch, entry, d)->Ok_0.len() <= u32::MAX,
    ensures
        symbols_are_told(
            macho_dynamic::dynamic_macho(l, arch, entry, d)->Ok_0,
            macho_dynamic::dynamic_image(l, d).text_base,
            entry,
        ),
{
    let e = macho_dynamic::dynamic_macho(l, arch, entry, d)->Ok_0;
    let m = macho_dynamic::dynamic_image(l, d);
    lemma_dynamic_commands_held(l, arch, entry, d);
    lemma_dynamic_parts(l, arch, entry, d);
    lemma_listed_symbols(l, m, d.needed, entry);
    lemma_symbols_are_told(e, dynamic_list(l, m, d.needed, entry), m, entry);
}

proof fn lemma_info_fields(a: u32, b: u32, c: u32, d: u32)
    ensures
        ({
            let i = macho_dynamic::dyld_info_command(a, b, c, d);
            &&& i.len() == 48
            &&& i.subrange(8, 12) == bytes::le32(a)
            &&& i.subrange(12, 16) == bytes::le32(b)
            &&& i.subrange(16, 20) == bytes::le32(c)
            &&& i.subrange(20, 24) == bytes::le32(d)
        }),
{
    broadcast use bytes::group_le_len;
    let i = macho_dynamic::dyld_info_command(a, b, c, d);
    assert(i.subrange(8, 12) =~= bytes::le32(a));
    assert(i.subrange(12, 16) =~= bytes::le32(b));
    assert(i.subrange(16, 20) =~= bytes::le32(c));
    assert(i.subrange(20, 24) =~= bytes::le32(d));
}

/// Whether the command `i` tells the dynamic linker where its programs stand: the one that adjusts
/// pointers, and the one that fills places with addresses of names.
pub open spec fn programs_are_told(
    e: Seq<u8>,
    i: nat,
    rebase: Seq<u8>,
    bind: Seq<u8>,
) -> bool {
    let at = command_at(e, i);
    let first = bytes::u32_at(e, at + 8) as int;
    let second = bytes::u32_at(e, at + 16) as int;
    &&& command_kind(e, i) == 0x80000022
    &&& bytes::u32_at(e, at + 12) == rebase.len() && first + rebase.len() <= e.len()
    &&& e.subrange(first, first + rebase.len()) == rebase
    &&& bytes::u32_at(e, at + 20) == bind.len() && second + bind.len() <= e.len()
    &&& e.subrange(second, second + bind.len()) == bind
}

proof fn lemma_programs_are_told(e: Seq<u8>, list: Seq<Seq<u8>>, m: DynamicImage, entry: u64)
    requires
        commands_stand(e, list),
        list.len() > 0,
        list.last() == info_command(m),
        emit::macho_laws::parts_stand(e, m, entry),
        e.len() <= u32::MAX,
    ensures
        programs_are_told(e, (list.len() - 1) as nat, m.rebase, m.bind),
        bytes::u32_at(e, 16) == list.len(),
{
    let p = macho_dynamic::dynamic_plan(m);
    let i = (list.len() - 1) as nat;
    let at = command_at(e, i);
    let c = list[i as int];
    emit::macho_laws::lemma_plan(m);
    assert((p.linkedit_off as u64) as u32 == p.linkedit_off);
    assert((p.bind_off as u64) as u32 == p.bind_off);
    assert((m.rebase.len() as u64) as u32 == m.rebase.len());
    assert((m.bind.len() as u64) as u32 == m.bind.len());
    let a = p.linkedit_off as u32;
    let b = m.rebase.len() as u32;
    let f = p.bind_off as u32;
    let g = m.bind.len() as u32;
    lemma_standing_command(e, list, i);
    lemma_info_fields(a, b, f, g);
    lemma_small_commands(0, a, b, f, g, 0);
    bytes::lemma_in_part(e, at, c, 8, 12);
    bytes::lemma_in_part(e, at, c, 12, 16);
    bytes::lemma_in_part(e, at, c, 16, 20);
    bytes::lemma_in_part(e, at, c, 20, 24);
    bytes::lemma_read_u32(e, at + 8, a);
    bytes::lemma_read_u32(e, at + 12, b);
    bytes::lemma_read_u32(e, at + 16, f);
    bytes::lemma_read_u32(e, at + 20, g);
}

/// The last command of a dynamically linked executable tells the dynamic linker where the programs
/// stand that adjust the pointers and bind the names of the image. This holds where the commands
/// leave room in the first page, and the file has 32-bit places.
pub proof fn law_dynamic_macho_has_programs(
    l: LayoutModel,
    arch: TargetArch,
    entry: u64,
    d: DynamicModel,
)
    requires
        macho_dynamic::dynamic_macho(l, arch, entry, d) is Ok,
        32 + bytes::u32_at(macho_dynamic::dynamic_macho(l, arch, entry, d)->Ok_0, 20) <= 0x4000,
        macho_dynamic::dynamic_macho(l, arch, entry, d)->Ok_0.len() <= u32::MAX,
    ensures
        ({
            let e = macho_dynamic::dynamic_macho(l, arch, entry, d)->Ok_0;
            let m = macho_dynamic::dynamic_image(l, d);
            &&& bytes::u32_at(e, 16) > 0
            &&& programs_are_told(e, (bytes::u32_at(e, 16) - 1) as nat, m.rebase, m.bind)
        }),
{
    let e = macho_dynamic::dynamic_macho(l, arch, entry, d)->Ok_0;
    let m = macho_dynamic::dynamic_image(l, d);
    lemma_dynamic_commands_held(l, arch, entry, d);
    lemma_dynamic_parts(l, arch, entry, d);
    lemma_listed_symbols(l, m, d.needed, entry);
    lemma_programs_are_told(e, dynamic_list(l, m, d.needed, entry), m, entry);
}

/// Whether the command `i` is of a kind and names a path, which stands in it, ended by a zero.
pub open spec fn names_path(e: Seq<u8>, i: nat, kind: u32, path: Seq<char>) -> bool {
    let at = command_at(e, i);
    let place = at + bytes::u32_at(e, at + 8);
    let b = encode_utf8(path);
    &&& command_kind(e, i) == kind
    &&& place + b.len() < at + bytes::u32_at(e, at + 4) <= e.len()
    &&& e.subrange(place, place + b.len()) == b
    &&& e[place + b.len()] == 0
}

proof fn lemma_path_is_named(
    e: Seq<u8>,
    list: Seq<Seq<u8>>,
    i: nat,
    kind: u32,
    place: u32,
    path: Seq<char>,
)
    requires
        commands_stand(e, list),
        i < list.len(),
        bytes::u32_at(list[i as int], 0) == kind,
        12 <= place,
        list[i as int].subrange(8, 12) == bytes::le32(place),
        place + encode_utf8(path).len() < list[i as int].len(),
        list[i as int].subrange(place as int, place + encode_utf8(path).len()) == encode_utf8(path),
        list[i as int][place + encode_utf8(path).len()] == 0,
    ensures
        names_path(e, i, kind, path),
{
    let c = list[i as int];
    let at = command_at(e, i);
    let b = encode_utf8(path);
    lemma_standing_command(e, list, i);
    bytes::lemma_in_part(e, at, c, 8, 12);
    bytes::lemma_read_u32(e, at + 8, place);
    bytes::lemma_in_part(e, at, c, place as int, place + b.len());
    assert(e.subrange(at, at + c.len())[place + b.len()] == e[at + place + b.len()]);
}

proof fn lemma_path_fields(path: Seq<char>)
    ensures
        ({
            let c = emit::macho::dylib_command(path);
            let n = encode_utf8(path).len();
            &&& c.subrange(8, 12) == bytes::le32(24)
            &&& 24 + n < c.len()
            &&& c.subrange(24, 24 + n as int) == encode_utf8(path)
            &&& c[24 + n as int] == 0
        }),
{
    broadcast use bytes::group_le_len;
    let c = emit::macho::dylib_command(path);
    let n = encode_utf8(path).len();
    assert(c.subrange(8, 12) =~= bytes::le32(24));
    assert(c.subrange(24, 24 + n as int) =~= encode_utf8(path));
}

proof fn lemma_linker_fields()
    ensures
        ({
            let c = emit::macho::dylinker_command();
            let b = encode_utf8("/usr/lib/dyld"@);
            &&& c.subrange(8, 12) == bytes::le32(12)
            &&& 12 + b.len() < c.len()
            &&& c.subrange(12, 12 + b.len() as int) == b
            &&& c[12 + b.len() as int] == 0
        }),
{
    broadcast use bytes::group_le_len;
    let c = emit::macho::dylinker_command();
    let b = encode_utf8("/usr/lib/dyld"@);
    assert(c.subrange(8, 12) =~= bytes::le32(12));
    assert(c.subrange(12, 12 + b.len() as int) =~= b);
}

/// A dynamically linked executable names the dynamic linker of the system, and each of the
/// libraries that it needs, in their order: the system library by its full path, and that one also
/// where none is needed.
pub proof fn law_dynamic_macho_names_libraries(
    l: LayoutModel,
    arch: TargetArch,
    entry: u64,
    d: DynamicModel,
    k: int,
)
    requires
        macho_dynamic::dynamic_macho(l, arch, entry, d) is Ok,
        0 <= k,
    ensures
        ({
            let e = macho_dynamic::dynamic_macho(l, arch, entry, d)->Ok_0;
            &&& names_path(e, 6, 0xe, "/usr/lib/dyld"@)
            &&& k < d.needed.len() ==> names_path(
                e,
                (10 + k) as nat,
                0xc,
                if d.needed[k] == "libSystem.B.dylib"@ {
                    "/usr/lib/libSystem.B.dylib"@
                } else {
                    d.needed[k]
                },
            )
            &&& d.needed.len() == 0 ==> names_path(e, 10, 0xc, "/usr/lib/libSystem.B.dylib"@)
        }),
{
    let e = macho_dynamic::dynamic_macho(l, arch, entry, d)->Ok_0;
    let m = macho_dynamic::dynamic_image(l, d);
    lemma_dynamic_commands_held(l, arch, entry, d);
    lemma_paths_are_named(e, l, m, d.needed, entry, 0);
    if k < d.needed.len() {
        lemma_paths_are_named(e, l, m, d.needed, entry, k);
    }
}

proof fn lemma_paths_are_named(
    e: Seq<u8>,
    l: LayoutModel,
    m: DynamicImage,
    needed: Seq<Seq<char>>,
    entry: u64,
    k: int,
)
    requires
        commands_stand(e, dynamic_list(l, m, needed, entry)),
        macho_dynamic::libraries_fit(macho_dynamic::libraries(needed)),
        0 <= k < macho_dynamic::libraries(needed).len(),
    ensures
        names_path(e, 6, 0xe, "/usr/lib/dyld"@),
        names_path(
            e,
            (10 + k) as nat,
            0xc,
            macho_dynamic::library_path(macho_dynamic::libraries(needed)[k]),
        ),
{
    let list = dynamic_list(l, m, needed, entry);
    let path = macho_dynamic::library_path(macho_dynamic::libraries(needed)[k]);
    lemma_listed(l, m, needed, entry);
    assert(list[6] == first_list(l, m, entry)[6]);
    assert(list[10 + k] == emit::macho::dylib_command(path));
    assert(emit::macho::path_fits(path));
    lemma_path_commands(path);
    lemma_path_fields(path);
    lemma_linker_fields();
    lemma_path_is_named(e, list, 6, 0xe, 12, "/usr/lib/dyld"@);
    lemma_path_is_named(e, list, (10 + k) as nat, 0xc, 24, path);
}

/// The segment with the code of a statically linked executable.
spec fn static_fields(size: nat) -> SegmentFields {
    let total = (0x4000 + segment::padded(size as int, 0x4000)) as u64;
    SegmentFields { vmaddr: MACHO_BASE, vmsize: total, fileoff: 0, filesize: total, prot: 5 }
}

/// The record of the code of a statically linked executable.
spec fn static_record(size: nat) -> Seq<u8> {
    emit::macho::section_record(
        "__text"@,
        "__TEXT"@,
        0x100004000,
        size as u64,
        0x4000,
        4,
        0x80000400,
    )
}

/// The commands of a statically linked executable.
#[verifier::opaque]
spec fn static_list(size: nat, entry: u64) -> Seq<Seq<u8>> {
    seq![
        emit::macho::segment_command(
            "__PAGEZERO"@,
            SegmentFields { vmaddr: 0, vmsize: MACHO_BASE, fileoff: 0, filesize: 0, prot: 0 },
            0,
            seq![],
        ),
        emit::macho::segment_command("__TEXT"@, static_fields(size), 1, static_record(size)),
        emit::macho::main_command(emit::macho::entry_distance(entry, MACHO_BASE) as u64),
        emit::macho::dylinker_command(),
        emit::macho::uuid_command(),
        emit::macho::dylib_command("/usr/lib/libSystem.B.dylib"@),
        emit::macho::build_command(),
    ]
}

proof fn lemma_seven_commands(
    a: Seq<u8>,
    b: Seq<u8>,
    c: Seq<u8>,
    d: Seq<u8>,
    e: Seq<u8>,
    f: Seq<u8>,
    g: Seq<u8>,
)
    ensures
        joined(seq![a, b, c, d, e, f, g], 7) == a + b + c + d + e + f + g,
{
    reveal_with_fuel(joined, 8);
    let none: Seq<u8> = seq![];
    assert(none + a =~= a);
}

proof fn lemma_static_list(size: nat, entry: u64)
    ensures
        static_list(size, entry).len() == 7,
        joined(static_list(size, entry), 7) == emit::macho::static_commands(size, entry),
{
    reveal(static_list);
    let none: Seq<u8> = seq![];
    lemma_seven_commands(
        emit::macho::segment_command(
            "__PAGEZERO"@,
            SegmentFields { vmaddr: 0, vmsize: MACHO_BASE, fileoff: 0, filesize: 0, prot: 0 },
            0,
            none,
        ),
        emit::macho::segment_command("__TEXT"@, static_fields(size), 1, static_record(size)),
        emit::macho::main_command(emit::macho::entry_distance(entry, MACHO_BASE) as u64),
        emit::macho::dylinker_command(),
        emit::macho::uuid_command(),
        emit::macho::dylib_command("/usr/lib/libSystem.B.dylib"@),
        emit::macho::build_command(),
    );
}

proof fn lemma_static_kinds(size: nat, entry: u64)
    ensures
        ({
            let list = static_list(size, entry);
            &&& forall|k: int|
                0 <= k < 7 ==> is_command(#[trigger] list[k], bytes::u32_at(list[k], 0))
            &&& forall|k: int|
                0 <= k < 7 ==> (bytes::u32_at(#[trigger] list[k], 0) == 0x80000028 <==> k == 2)
            &&& list[2] == emit::macho::main_command(
                emit::macho::entry_distance(entry, MACHO_BASE) as u64,
            )
            &&& list[1] == emit::macho::segment_command(
                "__TEXT"@,
                static_fields(size),
                1,
                static_record(size),
            )
            &&& list[3] == emit::macho::dylinker_command()
            &&& list[5] == emit::macho::dylib_command("/usr/lib/libSystem.B.dylib"@)
        }),
{
    reveal(static_list);
    let none: Seq<u8> = seq![];
    let zero = SegmentFields { vmaddr: 0, vmsize: MACHO_BASE, fileoff: 0, filesize: 0, prot: 0 };
    let path = "/usr/lib/libSystem.B.dylib"@;
    reveal_strlit("/usr/lib/libSystem.B.dylib");
    is_ascii_chars_encode_utf8(path);
    emit::macho_laws::lemma_section_record_len(
        "__text"@,
        "__TEXT"@,
        0x100004000,
        size as u64,
        0x4000,
        4,
        0x80000400,
    );
    lemma_segment_is_command("__PAGEZERO"@, zero, 0, none);
    lemma_segment_is_command("__TEXT"@, static_fields(size), 1, static_record(size));
    lemma_path_commands(path);
    lemma_small_commands(
        0,
        0,
        0,
        0,
        0,
        emit::macho::entry_distance(entry, MACHO_BASE) as u64,
    );
}

proof fn lemma_static_commands_held(l: LayoutModel, arch: TargetArch, entry: u64)
    requires
        emit::macho::static_macho(l, arch, entry) is Ok,
    ensures
        ({
            let e = emit::macho::static_macho(l, arch, entry)->Ok_0;
            let image = segment::memory_image(l, segment::image_base(l, MACHO_BASE));
            &&& commands_stand(e, static_list(image.len(), entry))
            &&& e.len() == 0x4000 + segment::padded(image.len() as int, 0x4000)
            &&& e.len() <= u64::MAX
            &&& 0x4000 + image.len() <= e.len()
            &&& e.subrange(0x4000, 0x4000 + image.len() as int) == image
        }),
{
    let image = segment::memory_image(l, segment::image_base(l, MACHO_BASE));
    reveal(commands_stand);
    lemma_static_list(image.len(), entry);
    lemma_static_kinds(image.len(), entry);
    emit::macho_laws::law_static_macho_is_loaded(l, arch, entry);
}

/// Exactly one command of a statically linked executable, the third, names the entry point: its
/// place in the file, which is as far behind the first page as the entry point is behind the
/// address at which executables are loaded. The executable names the dynamic linker and the system
/// library. Its second command describes the code, which is the whole file, and the section in it,
/// which starts behind the first page.
pub proof fn law_static_macho_names_entry(l: LayoutModel, arch: TargetArch, entry: u64)
    requires
        emit::macho::static_macho(l, arch, entry) is Ok,
        entry + 0x4000 <= u64::MAX,
    ensures
        ({
            let e = emit::macho::static_macho(l, arch, entry)->Ok_0;
            let text = command_at(e, 1);
            let image = segment::memory_image(l, segment::image_base(l, MACHO_BASE));
            &&& bytes::u32_at(e, 16) == 7
            &&& command_at(e, 7) == 32 + bytes::u32_at(e, 20)
            &&& forall|i: nat|
                i < 7 ==> (#[trigger] command_kind(e, i) == 0x80000028 <==> i == 2)
            &&& entry >= 0x1_0000_0000 ==> bytes::u64_at(e, command_at(e, 2) + 8) == 0x4000 + (
            entry - 0x1_0000_0000)
            &&& names_path(e, 3, 0xe, "/usr/lib/dyld"@)
            &&& names_path(e, 5, 0xc, "/usr/lib/libSystem.B.dylib"@)
            &&& is_segment(
                e,
                1,
                "__TEXT"@,
                (SegmentFields {
                    vmaddr: 0x1_0000_0000,
                    vmsize: e.len() as u64,
                    fileoff: 0,
                    filesize: e.len() as u64,
                    prot: 5,
                }),
                1,
            )
            &&& bytes::u64_at(e, text + 104) == 0x1_0000_4000
            &&& bytes::u64_at(e, text + 112) == image.len()
            &&& bytes::u32_at(e, text + 120) == 0x4000
        }),
{
    let e = emit::macho::static_macho(l, arch, entry)->Ok_0;
    let image = segment::memory_image(l, segment::image_base(l, MACHO_BASE));
    lemma_static_commands_held(l, arch, entry);
    lemma_static_reads(e, image.len(), entry);
}

proof fn lemma_static_reads(e: Seq<u8>, size: nat, entry: u64)
    requires
        commands_stand(e, static_list(size, entry)),
        e.len() == 0x4000 + segment::padded(size as int, 0x4000),
        e.len() <= u64::MAX,
        size <= e.len(),
        entry + 0x4000 <= u64::MAX,
    ensures
        bytes::u32_at(e, 16) == 7,
        command_at(e, 7) == 32 + bytes::u32_at(e, 20),
        forall|i: nat| i < 7 ==> (#[trigger] command_kind(e, i) == 0x80000028 <==> i == 2),
        entry >= 0x1_0000_0000 ==> bytes::u64_at(e, command_at(e, 2) + 8) == 0x4000 + (entry
            - 0x1_0000_0000),
        names_path(e, 3, 0xe, "/usr/lib/dyld"@),
        names_path(e, 5, 0xc, "/usr/lib/libSystem.B.dylib"@),
        is_segment(e, 1, "__TEXT"@, static_fields(size), 1),
        static_fields(size).vmsize == e.len(),
        bytes::u64_at(e, command_at(e, 1) + 104) == 0x1_0000_4000,
        bytes::u64_at(e, command_at(e, 1) + 112) == size,
        bytes::u32_at(e, command_at(e, 1) + 120) == 0x4000,
{
    let list = static_list(size, entry);
    let path = "/usr/lib/libSystem.B.dylib"@;
    let at = command_at(e, 1);
    lemma_static_list(size, entry);
    lemma_static_kinds(size, entry);
    reveal_strlit("/usr/lib/libSystem.B.dylib");
    is_ascii_chars_encode_utf8(path);
    lemma_path_commands(path);
    lemma_path_fields(path);
    lemma_linker_fields();
    lemma_segment_names();
    emit::macho_laws::lemma_section_record_len(
        "__text"@,
        "__TEXT"@,
        0x100004000,
        size as u64,
        0x4000,
        4,
        0x80000400,
    );
    lemma_entry_is_named(
        e,
        list,
        2,
        emit::macho::entry_distance(entry, MACHO_BASE) as u64,
    );
    lemma_standing_command(e, list, 2);
    lemma_path_is_named(e, list, 3, 0xe, 12, "/usr/lib/dyld"@);
    lemma_path_is_named(e, list, 5, 0xc, 24, path);
    lemma_segment_is_read(e, list, 1, "__TEXT"@, static_fields(size), 1, static_record(size));
    lemma_standing_command(e, list, 1);
    lemma_record_is_read(
        e,
        at + 72,
        "__text"@,
        "__TEXT"@,
        0x100004000,
        size as u64,
        0x4000,
        4,
        0x80000400,
    );
}

} // verus!

//! What a loader finds in the PE executables that are written.
use vstd::prelude::*;
use vstd::string::*;
use vstd::utf8::*;
use crate::bytes;
use crate::emit::pe;
use crate::emit::pe::{
    IMAGE_FILE_MACHINE_AMD64, IMAGE_OPTIONAL_HDR64_MAGIC, ImportModel, PeFields, PePlan,
    PeSectionModel,
};
use crate::link::{DynamicModel, LayoutModel};
use crate::segment;

verus! {

/// Whether a file has the headers of an executable with `n` sections and an entry point.
pub open spec fn pe_headers(e: Seq<u8>, n: nat, entry_rva: u32) -> bool {
    &&& e.len() >= 512
    &&& e[0] == 0x4d && e[1] == 0x5a
    &&& bytes::u32_at(e, 0x3c) == 64
    &&& e.subrange(64, 68) == seq![0x50u8, 0x45u8, 0u8, 0u8]
    &&& bytes::u16_at(e, 68) == IMAGE_FILE_MACHINE_AMD64
    &&& bytes::u16_at(e, 70) == n
    &&& bytes::u16_at(e, 88) == IMAGE_OPTIONAL_HDR64_MAGIC
    &&& bytes::u32_at(e, 104) == entry_rva
}

/// Whether the section `i` stands where its header says.
pub open spec fn pe_section_stands(e: Seq<u8>, i: int, s: PeSectionModel) -> bool {
    let at = 328 + 40 * i;
    &&& bytes::u32_at(e, at + 8) == s.data.len()
    &&& bytes::u32_at(e, at + 12) == s.rva
    &&& bytes::u32_at(e, at + 20) == s.file_off
    &&& s.file_off + s.data.len() <= e.len()
    &&& e.subrange(s.file_off as int, s.file_off + s.data.len()) == s.data
}

/// Whether the section `i` of a file holds the `n` bytes at the address `rva` in memory.
pub open spec fn pe_holds(e: Seq<u8>, i: int, rva: int, n: int) -> bool {
    let at = 328 + 40 * i;
    &&& 0 <= i < bytes::u16_at(e, 70)
    &&& bytes::u32_at(e, at + 12) <= rva
    &&& rva + n <= bytes::u32_at(e, at + 12) + bytes::u32_at(e, at + 8)
}

/// Where the byte at the address `rva` in memory stands in a file, if it belongs to the section
/// `i`.
pub open spec fn pe_place(e: Seq<u8>, i: int, rva: int) -> int {
    let at = 328 + 40 * i;
    bytes::u32_at(e, at + 20) + rva - bytes::u32_at(e, at + 12)
}

proof fn lemma_optional_header(f: PeFields, text_rva: u32, headers_size: u32)
    ensures
        pe::optional_header(f, text_rva, headers_size).len() == 240,
        pe::optional_header(f, text_rva, headers_size).subrange(0, 2) == bytes::le16(
            IMAGE_OPTIONAL_HDR64_MAGIC,
        ),
        pe::optional_header(f, text_rva, headers_size).subrange(16, 20) == bytes::le32(f.entry_rva),
{
    broadcast use bytes::group_le_len;
    let h = pe::optional_header(f, text_rva, headers_size);
    assert(h.subrange(0, 2) =~= bytes::le16(IMAGE_OPTIONAL_HDR64_MAGIC));
    assert(h.subrange(16, 20) =~= bytes::le32(f.entry_rva));
}

proof fn lemma_section_header(s: PeSectionModel)
    ensures
        pe::section_header(s).len() == 40,
        pe::section_header(s).subrange(8, 12) == bytes::le32(s.data.len() as u32),
        pe::section_header(s).subrange(12, 16) == bytes::le32(s.rva),
        pe::section_header(s).subrange(20, 24) == bytes::le32(s.file_off),
{
    broadcast use bytes::group_le_len;
    let h = pe::section_header(s);
    assert(pe::name8(s.name).len() == 8);
    assert(h.subrange(8, 12) =~= bytes::le32(s.data.len() as u32));
    assert(h.subrange(12, 16) =~= bytes::le32(s.rva));
    assert(h.subrange(20, 24) =~= bytes::le32(s.file_off));
}

proof fn lemma_section_headers(s: Seq<PeSectionModel>, k: nat, i: int)
    requires
        k <= s.len(),
    ensures
        pe::section_headers(s, k).len() == 40 * k,
        0 <= i < k ==> pe::section_headers(s, k).subrange(40 * i, 40 * i + 40)
            == pe::section_header(s[i]),
    decreases k,
{
    if k > 0 {
        lemma_section_headers(s, (k - 1) as nat, i);
        lemma_section_header(s[k - 1]);
        let before = pe::section_headers(s, (k - 1) as nat);
        let all = pe::section_headers(s, k);
        if 0 <= i < k - 1 {
            assert(all.subrange(40 * i, 40 * i + 40) =~= before.subrange(40 * i, 40 * i + 40));
        } else if i == k - 1 {
            assert(all.subrange(40 * i, 40 * i + 40) =~= pe::section_header(s[i]));
        }
    }
}

proof fn lemma_section_bodies(s: Seq<PeSectionModel>, k: nat, i: nat)
    requires
        i < k <= s.len(),
    ensures
        ({
            let at = pe::section_bodies(s, i).len() as int;
            let n = s[i as int].data.len();
            &&& at + n <= pe::section_bodies(s, k).len()
            &&& pe::section_bodies(s, k).subrange(at, at + n) == s[i as int].data
        }),
    decreases k,
{
    let at = pe::section_bodies(s, i).len() as int;
    let n = s[i as int].data.len();
    if i < k - 1 {
        lemma_section_bodies(s, (k - 1) as nat, i);
        let before = pe::section_bodies(s, (k - 1) as nat);
        assert(pe::section_bodies(s, k).subrange(at, at + n) =~= before.subrange(at, at + n));
    } else {
        assert(pe::section_bodies(s, k).subrange(at, at + n) =~= s[i as int].data);
    }
}

proof fn lemma_bodies_fill_blocks(s: Seq<PeSectionModel>, k: nat)
    requires
        k <= s.len(),
    ensures
        pe::section_bodies(s, k).len() % 512 == 0,
    decreases k,
{
    if k > 0 {
        lemma_bodies_fill_blocks(s, (k - 1) as nat);
    }
}

/// The parts of an executable: three headers, those of the sections, a gap, and the sections.
proof fn lemma_pe_parts(
    stub: Seq<u8>,
    file: Seq<u8>,
    optional: Seq<u8>,
    headers: Seq<u8>,
    gap: Seq<u8>,
    bodies: Seq<u8>,
)
    requires
        stub.len() == 64,
        file.len() == 24,
        optional.len() == 240,
    ensures
        ({
            let e = stub + file + optional + headers + gap + bodies;
            let n = headers.len() as int;
            let at = 328 + n + gap.len();
            &&& e.len() == at + bodies.len()
            &&& e.subrange(0, 64) == stub
            &&& e.subrange(64, 88) == file
            &&& e.subrange(88, 328) == optional
            &&& e.subrange(328, 328 + n) == headers
            &&& e.subrange(at, at + bodies.len()) == bodies
        }),
{
    let e = stub + file + optional + headers + gap + bodies;
    let n = headers.len() as int;
    let at = 328 + n + gap.len();
    assert(e.subrange(0, 64) =~= stub);
    assert(e.subrange(64, 88) =~= file);
    assert(e.subrange(88, 328) =~= optional);
    assert(e.subrange(328, 328 + n) =~= headers);
    assert(e.subrange(at, at + bodies.len()) =~= bodies);
}

/// A file with few sections has the headers of an executable.
pub proof fn lemma_pe_headers(f: PeFields, sections: Seq<PeSectionModel>)
    requires
        0 < sections.len() <= 4,
    ensures
        pe_headers(pe::pe_file(f, sections), sections.len(), f.entry_rva),
        pe::pe_file(f, sections).len() == 512 + pe::section_bodies(sections, sections.len()).len(),
        pe::pe_file(f, sections).subrange(328, 328 + 40 * sections.len() as int)
            == pe::section_headers(
            sections,
            sections.len(),
        ),
        pe::pe_file(f, sections).subrange(512, pe::pe_file(f, sections).len() as int)
            == pe::section_bodies(
            sections,
            sections.len(),
        ),
{
    broadcast use bytes::group_le_len;
    let n = sections.len();
    let raw = (328 + 40 * n) as int;
    let stub = pe::dos_stub();
    let file = pe::file_header(n as u16);
    let optional = pe::optional_header(f, sections[0].rva, segment::padded(raw, 512) as u32);
    let headers = pe::section_headers(sections, n);
    let bodies = pe::section_bodies(sections, n);
    let e = pe::pe_file(f, sections);
    lemma_optional_header(f, sections[0].rva, segment::padded(raw, 512) as u32);
    lemma_section_headers(sections, n, 0);
    lemma_pe_parts(stub, file, optional, headers, bytes::zeros(pe::file_padding(raw)), bodies);
    assert(stub.subrange(60, 64) =~= bytes::le32(64));
    assert(file.subrange(0, 4) =~= seq![0x50u8, 0x45u8, 0u8, 0u8]);
    assert(file.subrange(4, 6) =~= bytes::le16(IMAGE_FILE_MACHINE_AMD64));
    assert(file.subrange(6, 8) =~= bytes::le16(n as u16));
    bytes::lemma_in_part(e, 0, stub, 60, 64);
    bytes::lemma_in_part(e, 0, stub, 0, 2);
    assert(e[0] == e.subrange(0, 2)[0] && e[1] == e.subrange(0, 2)[1]);
    bytes::lemma_in_part(e, 64, file, 0, 4);
    bytes::lemma_in_part(e, 64, file, 4, 6);
    bytes::lemma_in_part(e, 64, file, 6, 8);
    bytes::lemma_in_part(e, 88, optional, 0, 2);
    bytes::lemma_in_part(e, 88, optional, 16, 20);
    bytes::lemma_read_u32(e, 60, 64);
    bytes::lemma_read_u16(e, 68, IMAGE_FILE_MACHINE_AMD64);
    bytes::lemma_read_u16(e, 70, n as u16);
    bytes::lemma_read_u16(e, 88, IMAGE_OPTIONAL_HDR64_MAGIC);
    bytes::lemma_read_u32(e, 104, f.entry_rva);
}

proof fn lemma_pe_section(e: Seq<u8>, sections: Seq<PeSectionModel>, i: int)
    requires
        0 <= i < sections.len() <= 4,
        sections[i].data.len() <= u32::MAX,
        sections[i].file_off == 512 + pe::section_bodies(sections, i as nat).len(),
        e.len() == 512 + pe::section_bodies(sections, sections.len()).len(),
        e.subrange(328, 328 + 40 * sections.len() as int) == pe::section_headers(
            sections,
            sections.len(),
        ),
        e.subrange(512, e.len() as int) == pe::section_bodies(sections, sections.len()),
    ensures
        pe_section_stands(e, i, sections[i]),
{
    let n = sections.len();
    let s = sections[i];
    let headers = pe::section_headers(sections, n);
    let bodies = pe::section_bodies(sections, n);
    lemma_section_headers(sections, n, i);
    lemma_section_bodies(sections, n, i as nat);
    let from = pe::section_bodies(sections, i as nat).len() as int;
    bytes::lemma_in_part(e, 512, bodies, from, from + s.data.len());
    bytes::lemma_in_part(e, 328, headers, 40 * i, 40 * i + 40);
    lemma_header_fields(e, 328 + 40 * i, s);
}

proof fn lemma_header_fields(e: Seq<u8>, at: int, s: PeSectionModel)
    requires
        0 <= at,
        at + 40 <= e.len(),
        s.data.len() <= u32::MAX,
        e.subrange(at, at + 40) == pe::section_header(s),
    ensures
        bytes::u32_at(e, at + 8) == s.data.len(),
        bytes::u32_at(e, at + 12) == s.rva,
        bytes::u32_at(e, at + 20) == s.file_off,
{
    let h = pe::section_header(s);
    lemma_section_header(s);
    bytes::lemma_in_part(e, at, h, 8, 12);
    bytes::lemma_in_part(e, at, h, 12, 16);
    bytes::lemma_in_part(e, at, h, 20, 24);
    bytes::lemma_read_u32(e, at + 8, s.data.len() as u32);
    bytes::lemma_read_u32(e, at + 12, s.rva);
    bytes::lemma_read_u32(e, at + 20, s.file_off);
}

/// An executable is a PE executable for x86-64 with its entry point. Its sections follow each
/// other in memory, and each stands in the file where its header says; the file ends with a full
/// block.
pub proof fn law_pe_is_loaded(l: LayoutModel, entry: u64, dynamic: Option<DynamicModel>, i: int)
    requires
        pe::pe_executable(l, entry, dynamic) is Ok,
    ensures
        ({
            let e = pe::pe_executable(l, entry, dynamic)->Ok_0;
            let text = pe::first_named(l, ".text"@, 0);
            let data = pe::first_named(l, ".data"@, 0);
            let names = pe::imported_names(dynamic);
            let entries = seq![
                ImportModel {
                    dll_name: "KERNEL32.DLL"@,
                    symbols: pe::kernel_imports(names, names.len()),
                },
            ];
            let sections = pe::pe_sections(
                text,
                data,
                pe::pe_plan(text.len() as int, data.len() as int, entries),
            );
            pe_stands(e, sections, pe::entry_rva(entry), i)
        }),
{
    let text = pe::first_named(l, ".text"@, 0);
    let data = pe::first_named(l, ".data"@, 0);
    let names = pe::imported_names(dynamic);
    let symbols = pe::kernel_imports(names, names.len());
    let entries = seq![ImportModel { dll_name: "KERNEL32.DLL"@, symbols }];
    let p = pe::pe_plan(text.len() as int, data.len() as int, entries);
    let sections = pe::pe_sections(text, data, p);
    let f = PeFields {
        linker_version: 14,
        code_size: segment::padded(text.len() as int, 512) as u32,
        data_size: (segment::padded(p.rdata.len() as int, 512) + segment::padded(
            data.len() as int,
            512,
        )) as u32,
        entry_rva: pe::entry_rva(entry),
        image_size: p.image_size as u32,
        import_rva: p.rdata_rva as u32,
        import_size: 40,
        iat_rva: (p.rdata_rva + pe::import_places(entries).address) as u32,
        iat_size: (8 * (symbols.len() + 1)) as u32,
    };
    lemma_pe_whole(f, text, data, p, i);
    assert(pe::pe_executable(l, entry, dynamic)->Ok_0 == pe::pe_file(f, sections));
}

/// Whether the sections of a file stand where their headers say, one behind the other.
pub open spec fn pe_stands(
    e: Seq<u8>,
    sections: Seq<PeSectionModel>,
    entry_rva: u32,
    i: int,
) -> bool {
    &&& pe_headers(e, sections.len(), entry_rva)
    &&& e.len() % 512 == 0
    &&& 0 <= i < sections.len() ==> pe_section_stands(e, i, sections[i])
    &&& 0 < i < sections.len() ==> sections[i - 1].rva + sections[i - 1].data.len()
        <= sections[i].rva && sections[i].rva % 0x1000 == 0
}

pub proof fn lemma_pe_whole(f: PeFields, text: Seq<u8>, data: Seq<u8>, p: PePlan, i: int)
    requires
        p.data_off == 512 + segment::padded(text.len() as int, 512),
        p.rdata_off == p.data_off + segment::padded(data.len() as int, 512),
        p.data_rva == 0x1000 + segment::padded(text.len() as int, 4096),
        p.rdata_rva == p.data_rva + segment::padded(data.len() as int, 4096),
        p.image_size == p.rdata_rva + segment::padded(p.rdata.len() as int, 4096),
        p.image_size <= u32::MAX,
    ensures
        pe_stands(
            pe::pe_file(f, pe::pe_sections(text, data, p)),
            pe::pe_sections(text, data, p),
            f.entry_rva,
            i,
        ),
{
    lemma_pe_offsets(text, data, p);
    lemma_pe_stands(f, pe::pe_sections(text, data, p), i);
}

/// Whether sections follow each other in the file and in memory.
spec fn sections_follow(s: Seq<PeSectionModel>) -> bool {
    &&& forall|i: int|
        0 <= i < s.len() ==> (#[trigger] s[i]).data.len() <= u32::MAX && s[i].file_off == 512
            + pe::section_bodies(s, i as nat).len() && s[i].rva % 0x1000 == 0
    &&& forall|i: int|
        0 < i < s.len() ==> s[i - 1].rva + s[i - 1].data.len() <= (#[trigger] s[i]).rva
}

proof fn lemma_pe_stands(f: PeFields, sections: Seq<PeSectionModel>, i: int)
    requires
        0 < sections.len() <= 4,
        sections_follow(sections),
    ensures
        pe_stands(pe::pe_file(f, sections), sections, f.entry_rva, i),
{
    lemma_pe_headers(f, sections);
    lemma_file_stands(pe::pe_file(f, sections), sections, f.entry_rva, i);
}

proof fn lemma_file_stands(e: Seq<u8>, sections: Seq<PeSectionModel>, entry_rva: u32, i: int)
    requires
        0 < sections.len() <= 4,
        sections_follow(sections),
        pe_headers(e, sections.len(), entry_rva),
        e.len() == 512 + pe::section_bodies(sections, sections.len()).len(),
        e.subrange(328, 328 + 40 * sections.len() as int) == pe::section_headers(
            sections,
            sections.len(),
        ),
        e.subrange(512, e.len() as int) == pe::section_bodies(sections, sections.len()),
    ensures
        pe_stands(e, sections, entry_rva, i),
{
    lemma_bodies_fill_blocks(sections, sections.len());
    if 0 <= i < sections.len() {
        lemma_pe_section(e, sections, i);
    }
}

proof fn lemma_pe_offsets(text: Seq<u8>, data: Seq<u8>, p: PePlan)
    requires
        p.data_off == 512 + segment::padded(text.len() as int, 512),
        p.rdata_off == p.data_off + segment::padded(data.len() as int, 512),
        p.data_rva == 0x1000 + segment::padded(text.len() as int, 4096),
        p.rdata_rva == p.data_rva + segment::padded(data.len() as int, 4096),
        p.image_size == p.rdata_rva + segment::padded(p.rdata.len() as int, 4096),
        p.image_size <= u32::MAX,
    ensures
        sections_follow(pe::pe_sections(text, data, p)),
        0 < pe::pe_sections(text, data, p).len() <= 3,
{
    let s = pe::pe_sections(text, data, p);
    lemma_padded_parts(text.len() as int);
    lemma_padded_parts(data.len() as int);
    lemma_padded_parts(p.rdata.len() as int);
    lemma_body_len(s, 0);
    lemma_body_len(s, 1);
    assert(s[0].data == text);
    assert(pe::section_bodies(s, 1).len() == segment::padded(text.len() as int, 512));
    if data.len() > 0 {
        assert(s[1].data == data);
        assert(pe::section_bodies(s, 2).len() == segment::padded(text.len() as int, 512)
            + segment::padded(data.len() as int, 512));
    }
}

proof fn lemma_body_len(s: Seq<PeSectionModel>, k: nat)
    ensures
        pe::section_bodies(s, 0).len() == 0,
        pe::section_bodies(s, k + 1).len() == pe::section_bodies(s, k).len() + segment::padded(
            s[k as int].data.len() as int,
            512,
        ),
{
}

proof fn lemma_padded_parts(n: int)
    requires
        0 <= n,
    ensures
        n <= segment::padded(n, 512) <= segment::padded(n, 4096),
        segment::padded(n, 4096) % 4096 == 0,
{
}

proof fn lemma_optional_fields(f: PeFields, text_rva: u32, headers_size: u32)
    ensures
        ({
            let h = pe::optional_header(f, text_rva, headers_size);
            &&& h.len() == 240
            &&& h.subrange(20, 24) == bytes::le32(text_rva)
            &&& h.subrange(24, 32) == bytes::le64(0x1_4000_0000)
            &&& h.subrange(32, 36) == bytes::le32(0x1000)
            &&& h.subrange(36, 40) == bytes::le32(0x200)
            &&& h.subrange(56, 60) == bytes::le32(f.image_size)
            &&& h.subrange(60, 64) == bytes::le32(headers_size)
            &&& h.subrange(68, 70) == bytes::le16(3)
            &&& h.subrange(108, 112) == bytes::le32(16)
            &&& h.subrange(120, 124) == bytes::le32(f.import_rva)
            &&& h.subrange(124, 128) == bytes::le32(f.import_size)
            &&& h.subrange(208, 212) == bytes::le32(f.iat_rva)
            &&& h.subrange(212, 216) == bytes::le32(f.iat_size)
        }),
{
    broadcast use bytes::group_le_len;
    let h = pe::optional_header(f, text_rva, headers_size);
    assert(h.subrange(20, 24) =~= bytes::le32(text_rva));
    assert(h.subrange(24, 32) =~= bytes::le64(0x1_4000_0000));
    assert(h.subrange(32, 36) =~= bytes::le32(0x1000));
    assert(h.subrange(36, 40) =~= bytes::le32(0x200));
    assert(h.subrange(56, 60) =~= bytes::le32(f.image_size));
    assert(h.subrange(60, 64) =~= bytes::le32(headers_size));
    assert(h.subrange(68, 70) =~= bytes::le16(3));
    assert(h.subrange(108, 112) =~= bytes::le32(16));
    assert(h.subrange(120, 124) =~= bytes::le32(f.import_rva));
    assert(h.subrange(124, 128) =~= bytes::le32(f.import_size));
    assert(h.subrange(208, 212) =~= bytes::le32(f.iat_rva));
    assert(h.subrange(212, 216) =~= bytes::le32(f.iat_size));
}

/// Whether the header of a file tells a loader what it needs: where the image is loaded, how far
/// sections and blocks are apart, how large the image and the headers are, that it is a console
/// program, and where the import directory and the address tables stand.
pub open spec fn pe_header_tells(e: Seq<u8>, f: PeFields, text_rva: u32) -> bool {
    &&& bytes::u16_at(e, 84) == 240
    &&& bytes::u16_at(e, 86) == 0x22
    &&& bytes::u32_at(e, 108) == text_rva
    &&& bytes::u64_at(e, 112) == 0x1_4000_0000
    &&& bytes::u32_at(e, 120) == 0x1000
    &&& bytes::u32_at(e, 124) == 0x200
    &&& bytes::u32_at(e, 144) == f.image_size
    &&& bytes::u32_at(e, 148) == 512
    &&& bytes::u16_at(e, 156) == 3
    &&& bytes::u32_at(e, 196) == 16
    &&& bytes::u32_at(e, 208) == f.import_rva
    &&& bytes::u32_at(e, 212) == f.import_size
    &&& bytes::u32_at(e, 296) == f.iat_rva
    &&& bytes::u32_at(e, 300) == f.iat_size
}

proof fn lemma_header_reads(
    e: Seq<u8>,
    file: Seq<u8>,
    optional: Seq<u8>,
    f: PeFields,
    text_rva: u32,
)
    requires
        e.len() >= 328,
        file.len() == 24,
        file.subrange(20, 22) == bytes::le16(240),
        file.subrange(22, 24) == bytes::le16(0x22),
        optional == pe::optional_header(f, text_rva, 512),
        e.subrange(64, 88) == file,
        e.subrange(88, 328) == optional,
    ensures
        pe_header_tells(e, f, text_rva),
{
    lemma_optional_fields(f, text_rva, 512);
    bytes::lemma_in_part(e, 64, file, 20, 22);
    bytes::lemma_in_part(e, 64, file, 22, 24);
    bytes::lemma_in_part(e, 88, optional, 20, 24);
    bytes::lemma_in_part(e, 88, optional, 24, 32);
    bytes::lemma_in_part(e, 88, optional, 32, 36);
    bytes::lemma_in_part(e, 88, optional, 36, 40);
    bytes::lemma_in_part(e, 88, optional, 56, 60);
    bytes::lemma_in_part(e, 88, optional, 60, 64);
    bytes::lemma_in_part(e, 88, optional, 68, 70);
    bytes::lemma_in_part(e, 88, optional, 108, 112);
    bytes::lemma_in_part(e, 88, optional, 120, 124);
    bytes::lemma_in_part(e, 88, optional, 124, 128);
    bytes::lemma_in_part(e, 88, optional, 208, 212);
    bytes::lemma_in_part(e, 88, optional, 212, 216);
    bytes::lemma_read_u16(e, 84, 240);
    bytes::lemma_read_u16(e, 86, 0x22);
    bytes::lemma_read_u32(e, 108, text_rva);
    bytes::lemma_read_u64(e, 112, 0x1_4000_0000);
    bytes::lemma_read_u32(e, 120, 0x1000);
    bytes::lemma_read_u32(e, 124, 0x200);
    bytes::lemma_read_u32(e, 144, f.image_size);
    bytes::lemma_read_u32(e, 148, 512);
    bytes::lemma_read_u16(e, 156, 3);
    bytes::lemma_read_u32(e, 196, 16);
    bytes::lemma_read_u32(e, 208, f.import_rva);
    bytes::lemma_read_u32(e, 212, f.import_size);
    bytes::lemma_read_u32(e, 296, f.iat_rva);
    bytes::lemma_read_u32(e, 300, f.iat_size);
}

/// The header of a file with few sections tells a loader what it needs.
pub proof fn lemma_pe_header_tells(f: PeFields, sections: Seq<PeSectionModel>)
    requires
        0 < sections.len() <= 4,
    ensures
        pe_header_tells(pe::pe_file(f, sections), f, sections[0].rva),
{
    broadcast use bytes::group_le_len;
    let n = sections.len();
    let raw = (328 + 40 * n) as int;
    assert(segment::padded(raw, 512) == 512);
    let stub = pe::dos_stub();
    let file = pe::file_header(n as u16);
    let optional = pe::optional_header(f, sections[0].rva, 512);
    lemma_optional_fields(f, sections[0].rva, 512);
    assert(file.subrange(20, 22) =~= bytes::le16(240));
    assert(file.subrange(22, 24) =~= bytes::le16(0x22));
    lemma_pe_parts(
        stub,
        file,
        optional,
        pe::section_headers(sections, n),
        bytes::zeros(pe::file_padding(raw)),
        pe::section_bodies(sections, n),
    );
    lemma_header_reads(pe::pe_file(f, sections), file, optional, f, sections[0].rva);
}

proof fn lemma_first_named(l: LayoutModel, name: Seq<char>, i: nat, k: int)
    requires
        i <= k < l.sections.len(),
        l.sections[k].name == name,
        forall|j: int| i <= j < k ==> (#[trigger] l.sections[j]).name != name,
    ensures
        pe::first_named(l, name, i) == l.sections[k].data,
    decreases k - i,
{
    if i < k {
        assert(l.sections[i as int].name != name);
        lemma_first_named(l, name, i + 1, k);
    }
}

/// An executable is started at its entry point, and finds its imports in its last section.
pub proof fn law_pe_starts_at_entry(l: LayoutModel, entry: u64, dynamic: Option<DynamicModel>)
    requires
        pe::pe_executable(l, entry, dynamic) is Ok,
        0x1_4000_0000 <= entry < 0x2_4000_0000,
    ensures
        ({
            let e = pe::pe_executable(l, entry, dynamic)->Ok_0;
            let last = 328 + 40 * (bytes::u16_at(e, 70) - 1);
            &&& bytes::u32_at(e, 104) + bytes::u64_at(e, 112) == entry
            &&& bytes::u32_at(e, 208) == bytes::u32_at(e, last + 12)
        }),
{
    let text = pe::first_named(l, ".text"@, 0);
    let data = pe::first_named(l, ".data"@, 0);
    let names = pe::imported_names(dynamic);
    let symbols = pe::kernel_imports(names, names.len());
    let entries = seq![ImportModel { dll_name: "KERNEL32.DLL"@, symbols }];
    let p = pe::pe_plan(text.len() as int, data.len() as int, entries);
    let sections = pe::pe_sections(text, data, p);
    let f = PeFields {
        linker_version: 14,
        code_size: segment::padded(text.len() as int, 512) as u32,
        data_size: (segment::padded(p.rdata.len() as int, 512) + segment::padded(
            data.len() as int,
            512,
        )) as u32,
        entry_rva: pe::entry_rva(entry),
        image_size: p.image_size as u32,
        import_rva: p.rdata_rva as u32,
        import_size: 40,
        iat_rva: (p.rdata_rva + pe::import_places(entries).address) as u32,
        iat_size: (8 * (symbols.len() + 1)) as u32,
    };
    assert(pe::pe_executable(l, entry, dynamic)->Ok_0 == pe::pe_file(f, sections));
    lemma_pe_header_tells(f, sections);
    law_pe_is_loaded(l, entry, dynamic, sections.len() - 1);
}

/// The bytes that the header of the section `i` of a file describes.
pub open spec fn pe_contents(e: Seq<u8>, i: int) -> Seq<u8> {
    let at = 328 + 40 * i;
    e.subrange(
        bytes::u32_at(e, at + 20) as int,
        bytes::u32_at(e, at + 20) + bytes::u32_at(e, at + 8),
    )
}

proof fn lemma_contents(e: Seq<u8>, sections: Seq<PeSectionModel>, rva: u32, i: int)
    requires
        pe_stands(e, sections, rva, i),
        0 <= i < sections.len(),
    ensures
        pe_contents(e, i) == sections[i].data,
{
}

proof fn lemma_sections_are(text: Seq<u8>, data: Seq<u8>, p: PePlan)
    ensures
        pe::pe_sections(text, data, p).len() >= 2,
        pe::pe_sections(text, data, p)[0].data == text,
        data.len() > 0 ==> pe::pe_sections(text, data, p)[1].data == data,
{
}

proof fn lemma_layout_section(l: LayoutModel, entry: u64, dynamic: Option<DynamicModel>, i: int)
    requires
        pe::pe_executable(l, entry, dynamic) is Ok,
        i == 0 || i == 1 && pe::first_named(l, ".data"@, 0).len() > 0,
    ensures
        pe_contents(pe::pe_executable(l, entry, dynamic)->Ok_0, i) == if i == 0 {
            pe::first_named(l, ".text"@, 0)
        } else {
            pe::first_named(l, ".data"@, 0)
        },
{
    let e = pe::pe_executable(l, entry, dynamic)->Ok_0;
    let text = pe::first_named(l, ".text"@, 0);
    let data = pe::first_named(l, ".data"@, 0);
    let names = pe::imported_names(dynamic);
    let entries = seq![
        ImportModel {
            dll_name: "KERNEL32.DLL"@,
            symbols: pe::kernel_imports(names, names.len()),
        },
    ];
    let p = pe::pe_plan(text.len() as int, data.len() as int, entries);
    let sections = pe::pe_sections(text, data, p);
    law_pe_is_loaded(l, entry, dynamic, i);
    lemma_sections_are(text, data, p);
    lemma_contents(e, sections, pe::entry_rva(entry), i);
}

/// The first section of an executable holds the code of the layout, and the second its data if
/// there is any: the bytes of the first section of that name.
pub proof fn law_pe_holds_code_and_data(
    l: LayoutModel,
    entry: u64,
    dynamic: Option<DynamicModel>,
    k: int,
)
    requires
        pe::pe_executable(l, entry, dynamic) is Ok,
        0 <= k < l.sections.len(),
        l.sections[k].name == ".text"@ || l.sections[k].name == ".data"@,
        l.sections[k].data.len() > 0,
        forall|j: int|
            0 <= j < k ==> (#[trigger] l.sections[j]).name != l.sections[k].name,
    ensures
        pe_contents(
            pe::pe_executable(l, entry, dynamic)->Ok_0,
            if l.sections[k].name == ".text"@ {
                0
            } else {
                1
            },
        ) == l.sections[k].data,
{
    lemma_first_named(l, l.sections[k].name, 0, k);
    if l.sections[k].name == ".text"@ {
        lemma_layout_section(l, entry, dynamic, 0);
    } else {
        lemma_layout_section(l, entry, dynamic, 1);
    }
}

} // verus!

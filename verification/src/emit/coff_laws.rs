//! What the executable for a COFF object has of the object: its code, its entry point and its
//! calls.
use vstd::prelude::*;
use vstd::string::*;
use vstd::utf8::*;
use crate::bytes;
use crate::coff;
use crate::emit::coff_link;
use crate::emit::coff_link::CodePlace;
use crate::emit::import_laws;
use crate::emit::pe;
use crate::emit::pe::{ImportModel, PeFields, PePlan, PeSectionModel};
use crate::emit::pe_laws;
use crate::link::dynamic;
use crate::names;
use crate::segment;

verus! {

/// Where the record `i` of the symbol table of a COFF object stands.
pub open spec fn coff_record(data: Seq<u8>, i: int) -> int {
    bytes::u32_at(data, 8) + 18 * i
}

/// The record of the symbol `n`. The byte 16 of the record of a symbol counts the auxiliary
/// records that stand between it and the next symbol.
pub open spec fn coff_symbol(data: Seq<u8>, n: nat) -> int
    decreases n,
{
    if n == 0 {
        0
    } else {
        let before = coff_symbol(data, (n - 1) as nat);
        before + 1 + data[coff_record(data, before) + 16]
    }
}

/// Whether a COFF object has a symbol `n`.
pub open spec fn has_coff_symbol(data: Seq<u8>, n: nat) -> bool {
    coff_symbol(data, n) < bytes::u32_at(data, 12) && coff_record(data, coff_symbol(data, n)) + 18
        <= data.len()
}

/// The string table of a COFF object: it stands behind the symbol table, and starts with its size.
pub open spec fn coff_strings(data: Seq<u8>) -> Seq<u8> {
    let start = coff_record(data, bytes::u32_at(data, 12) as int);
    let len = data.len() as int;
    if start >= len {
        seq![]
    } else if start + 4 <= len && start + bytes::u32_at(data, start) < len {
        data.subrange(start, start + bytes::u32_at(data, start))
    } else {
        data.subrange(start, len)
    }
}

/// The name of the symbol `n`.
pub open spec fn coff_symbol_text(data: Seq<u8>, n: nat) -> Seq<char> {
    coff::coff_name(data, coff_record(data, coff_symbol(data, n)), coff_strings(data))
}

/// The value of the symbol `n`: 32 bits behind its name.
pub open spec fn coff_symbol_value(data: Seq<u8>, n: nat) -> u32 {
    bytes::u32_at(data, coff_record(data, coff_symbol(data, n)) + 8)
}

/// Whether the symbol `n` is named `main` or `_main`.
pub open spec fn is_main(data: Seq<u8>, n: nat) -> bool {
    coff_symbol_text(data, n) == "main"@ || coff_symbol_text(data, n) == "_main"@
}

/// The names of the records as the linker reads them.
spec fn all_names(data: Seq<u8>) -> Seq<Seq<char>> {
    coff_link::record_names(
        data,
        bytes::u32_at(data, 8) as int,
        bytes::u32_at(data, 12) as nat,
        coff_strings(data),
        0,
        seq![],
    )
}

proof fn lemma_names_start(
    data: Seq<u8>,
    table: int,
    count: nat,
    strtab: Seq<u8>,
    i: nat,
    found: Seq<Seq<char>>,
)
    ensures
        ({
            let r = coff_link::record_names(data, table, count, strtab, i, found);
            &&& r.len() >= found.len()
            &&& forall|k: int| 0 <= k < found.len() ==> #[trigger] r[k] == found[k]
        }),
    decreases
            (if i < count {
                count - i
            } else {
                0
            }),
{
    let at = table + i * 18;
    if i < count && at + 18 <= data.len() {
        let aux = data[at + 16] as nat;
        let next = found.push(coff::coff_name(data, at, strtab)) + coff_link::blank_names(aux);
        lemma_names_start(data, table, count, strtab, i + 1 + aux, next);
        let r = coff_link::record_names(data, table, count, strtab, i, found);
        assert forall|k: int| 0 <= k < found.len() implies #[trigger] r[k] == found[k] by {
            assert(r[k] == next[k]);
        }
    }
}

pub proof fn lemma_symbols_ascend(data: Seq<u8>, k: nat, n: nat)
    requires
        k <= n,
    ensures
        0 <= coff_symbol(data, k) <= coff_symbol(data, n),
        k < n ==> coff_symbol(data, k) < coff_symbol(data, n),
        k <= coff_symbol(data, k),
    decreases n,
{
    if k < n {
        lemma_symbols_ascend(data, k, (n - 1) as nat);
    } else if n > 0 {
        lemma_symbols_ascend(data, (n - 1) as nat, (n - 1) as nat);
    }
}

/// Whether the record `p` of the names is one of the first `n` symbols, or has no name.
spec fn is_told(data: Seq<u8>, names: Seq<Seq<char>>, p: int, n: nat) -> bool {
    names[p].len() == 0 || exists|k: nat|
        k < n && p == #[trigger] coff_symbol(data, k) && has_coff_symbol(data, k) && names[p]
            == coff_symbol_text(data, k)
}

/// The names in front of the symbol `n` are those of the symbols before it.
proof fn lemma_walk(data: Seq<u8>, n: nat) -> (found: Seq<Seq<char>>)
    requires
        data.len() >= 20,
        has_coff_symbol(data, n),
    ensures
        found.len() == coff_symbol(data, n),
        all_names(data) == coff_link::record_names(
            data,
            bytes::u32_at(data, 8) as int,
            bytes::u32_at(data, 12) as nat,
            coff_strings(data),
            coff_symbol(data, n) as nat,
            found,
        ),
        forall|p: int| 0 <= p < found.len() ==> #[trigger] is_told(data, found, p, n),
    decreases n,
{
    lemma_symbols_ascend(data, n, n);
    if n == 0 {
        seq![]
    } else {
        let m = (n - 1) as nat;
        lemma_symbols_ascend(data, m, n);
        let before = lemma_walk(data, m);
        let i = coff_symbol(data, m);
        let at = coff_record(data, i);
        let aux = data[at + 16] as nat;
        let found = before.push(coff_symbol_text(data, m)) + coff_link::blank_names(aux);
        assert forall|p: int| 0 <= p < found.len() implies #[trigger] is_told(data, found, p, n) by {
            if p < before.len() {
                assert(is_told(data, before, p, m));
                if before[p].len() != 0 {
                    let k = choose|k: nat|
                        k < m && p == #[trigger] coff_symbol(data, k) && has_coff_symbol(data, k)
                            && before[p] == coff_symbol_text(data, k);
                    assert(coff_symbol(data, k) == p && found[p] == before[p]);
                }
            } else if p == before.len() {
                assert(p == coff_symbol(data, m) && found[p] == coff_symbol_text(data, m));
            } else {
                assert(found[p] == Seq::<char>::empty());
            }
        }
        found
    }
}

/// Each symbol has its name at its record, and between the symbols there are no names.
proof fn lemma_symbol_name(data: Seq<u8>, n: nat)
    requires
        data.len() >= 20,
        has_coff_symbol(data, n),
    ensures
        0 <= coff_symbol(data, n) < all_names(data).len(),
        all_names(data)[coff_symbol(data, n)] == coff_symbol_text(data, n),
        forall|p: int|
            0 <= p < coff_symbol(data, n) ==> #[trigger] is_told(data, all_names(data), p, n),
{
    let found = lemma_walk(data, n);
    let i = coff_symbol(data, n);
    let at = coff_record(data, i);
    let aux = data[at + 16] as nat;
    let names = all_names(data);
    let next = found.push(coff_symbol_text(data, n)) + coff_link::blank_names(aux);
    lemma_names_start(
        data,
        bytes::u32_at(data, 8) as int,
        bytes::u32_at(data, 12) as nat,
        coff_strings(data),
        (i + 1 + aux) as nat,
        next,
    );
    assert(names[i] == next[i]);
    assert forall|p: int| 0 <= p < i implies #[trigger] is_told(data, names, p, n) by {
        assert(names[p] == next[p] && next[p] == found[p]);
        assert(is_told(data, found, p, n));
        if found[p].len() != 0 {
            let k = choose|k: nat|
                k < n && p == #[trigger] coff_symbol(data, k) && has_coff_symbol(data, k)
                    && found[p] == coff_symbol_text(data, k);
            assert(coff_symbol(data, k) == p && names[p] == coff_symbol_text(data, k));
        }
    }
}

proof fn lemma_input(data: Seq<u8>)
    requires
        data.len() >= 20,
    ensures
        coff_link::coff_input(data).names == all_names(data),
        coff_link::coff_input(data).main == coff_link::main_value(
            data,
            bytes::u32_at(data, 8) as int,
            all_names(data),
            0,
        ),
        coff_link::coff_input(data).imports == coff_link::import_names(
            data,
            bytes::u32_at(data, 8) as int,
            all_names(data),
            0,
            seq![],
        ),
{
    let table = bytes::u32_at(data, 8) as int;
    let count = bytes::u32_at(data, 12) as int;
    assert(coff_link::object_strtab(data, table, count) =~= coff_strings(data));
}

proof fn lemma_main_is_found(data: Seq<u8>, table: int, names: Seq<Seq<char>>, i: nat, p: int)
    requires
        i <= p < names.len(),
        names[p] == "main"@ || names[p] == "_main"@,
        forall|q: int| i <= q < p ==> #[trigger] names[q] != "main"@ && names[q] != "_main"@,
        table + p * 18 + 18 <= data.len(),
    ensures
        coff_link::main_value(data, table, names, i) == bytes::u32_at(data, table + p * 18 + 8),
    decreases p - i,
{
    if i < p {
        assert(names[i as int] != "main"@ && names[i as int] != "_main"@);
        lemma_main_is_found(data, table, names, i + 1, p);
    }
}

proof fn lemma_main_of_symbols(data: Seq<u8>, n: nat)
    requires
        data.len() >= 20,
        has_coff_symbol(data, n),
        is_main(data, n),
        forall|k: nat| k < n ==> !#[trigger] is_main(data, k),
    ensures
        coff_link::coff_input(data).main == coff_symbol_value(data, n),
{
    lemma_input(data);
    lemma_symbol_name(data, n);
    let names = all_names(data);
    let p = coff_symbol(data, n);
    reveal_strlit("main");
    reveal_strlit("_main");
    assert forall|q: int| 0 <= q < p implies #[trigger] names[q] != "main"@ && names[q]
        != "_main"@ by {
        assert(is_told(data, names, q, n));
        if names[q].len() != 0 {
            let k = choose|k: nat|
                k < n && q == #[trigger] coff_symbol(data, k) && has_coff_symbol(data, k)
                    && names[q] == coff_symbol_text(data, k);
            assert(!is_main(data, k));
        }
    }
    lemma_main_is_found(data, bytes::u32_at(data, 8) as int, names, 0, p);
}

/// Where the header of the section `s` of a COFF object stands.
pub open spec fn coff_section(s: int) -> int {
    20 + 40 * s
}

/// Whether the section `s` of a COFF object has code that the file holds.
pub open spec fn holds_code(data: Seq<u8>, s: int) -> bool {
    let at = coff_section(s);
    &&& 0 <= s < bytes::u16_at(data, 2)
    &&& at + 40 <= data.len()
    &&& bytes::u32_at(data, at + 36) & 0x20 != 0
    &&& 0 < bytes::u32_at(data, at + 16)
    &&& bytes::u32_at(data, at + 20) + bytes::u32_at(data, at + 16) <= data.len()
}

/// Whether the section `s` is the first one with code.
pub open spec fn is_code_section(data: Seq<u8>, s: int) -> bool {
    holds_code(data, s) && forall|t: int| 0 <= t < s ==> !#[trigger] holds_code(data, t)
}

/// The place in the code that the relocation `j` of the section `s` changes.
pub open spec fn coff_place(data: Seq<u8>, s: int, j: int) -> u32 {
    bytes::u32_at(data, bytes::u32_at(data, coff_section(s) + 24) + 10 * j)
}

/// Whether no relocation of the section `s` changes the byte `k`.
pub open spec fn is_left_alone(data: Seq<u8>, s: int, k: int) -> bool {
    forall|j: int|
        0 <= j < bytes::u16_at(data, coff_section(s) + 32) ==> k < #[trigger] coff_place(
            data,
            s,
            j,
        ) || k >= coff_place(data, s, j) + 4
}

proof fn lemma_code_is_found(data: Seq<u8>, i: nat, s: int)
    requires
        i <= s,
        is_code_section(data, s),
    ensures
        coff_link::code_section(data, bytes::u16_at(data, 2) as nat, i) == Some(
            CodePlace {
                offset: bytes::u32_at(data, coff_section(s) + 20),
                size: bytes::u32_at(data, coff_section(s) + 16),
                relocs: bytes::u32_at(data, coff_section(s) + 24),
                count: bytes::u16_at(data, coff_section(s) + 32),
            },
        ),
    decreases s - i,
{
    if i < s {
        assert(!holds_code(data, i as int));
        lemma_code_is_found(data, i + 1, s);
    }
}

/// What the linker takes from the section with code.
proof fn lemma_code(data: Seq<u8>, s: int)
    requires
        data.len() >= 20,
        is_code_section(data, s),
    ensures
        ({
            let c = coff_link::coff_input(data);
            let at = coff_section(s);
            let off = bytes::u32_at(data, at + 20);
            &&& c.code.offset == off
            &&& c.code.size == bytes::u32_at(data, at + 16)
            &&& c.code.relocs == bytes::u32_at(data, at + 24)
            &&& c.code.count == bytes::u16_at(data, at + 32)
            &&& c.text == data.subrange(off as int, off + c.code.size)
        }),
{
    lemma_code_is_found(data, 0, s);
}

/// Where the address tables stand in the executable, counted from the start of the code.
spec fn tables_of(data: Seq<u8>) -> int {
    let c = coff_link::coff_input(data);
    let entries = coff_link::import_entries(c.imports);
    let p = pe::pe_plan((c.text.len() + 6 * c.imports.len()) as int, 0, entries);
    p.rdata_rva + pe::import_places(entries).address - 0x1000
}

proof fn lemma_turned_len(
    data: Seq<u8>,
    p: CodePlace,
    names: Seq<Seq<char>>,
    imports: Seq<Seq<char>>,
    i: nat,
    text: Seq<u8>,
)
    ensures
        coff_link::turned_calls(data, p, names, imports, i, text).len() == text.len(),
    decreases p.count - i,
{
    broadcast use bytes::group_le_len;
    let at = p.relocs + i * 10;
    if i < p.count && at + 10 <= data.len() {
        let place = bytes::u32_at(data, at);
        let symbol = bytes::u32_at(data, at + 4);
        let thunk = imports.index_of(names[symbol as int]);
        let rel = dynamic::rel32(p.size + thunk * 6, place + 4);
        if place + 4 <= text.len() {
            assert(bytes::patch(text, place as int, bytes::le32(rel)).len() == text.len());
            lemma_turned_len(
                data,
                p,
                names,
                imports,
                i + 1,
                bytes::patch(text, place as int, bytes::le32(rel)),
            );
        }
        lemma_turned_len(data, p, names, imports, i + 1, text);
    }
}

proof fn lemma_thunk_len(names: Seq<Seq<char>>, size: int, tables: int, n: nat)
    ensures
        coff_link::thunk_code(names, size, tables, n).len() == 6 * n,
    decreases n,
{
    broadcast use bytes::group_le_len;
    if n > 0 {
        lemma_thunk_len(names, size, tables, (n - 1) as nat);
    }
}

/// The fields of the header of the executable.
spec fn fields_of(data: Seq<u8>) -> PeFields {
    let c = coff_link::coff_input(data);
    let entries = coff_link::import_entries(c.imports);
    let p = pe::pe_plan((c.text.len() + 6 * c.imports.len()) as int, 0, entries);
    PeFields {
        linker_version: 0,
        code_size: 0,
        data_size: 0,
        entry_rva: ((0x1000 + c.main) as u64) as u32,
        image_size: p.image_size as u32,
        import_rva: p.rdata_rva as u32,
        import_size: (20 * entries.len()) as u32,
        iat_rva: (p.rdata_rva + pe::import_places(entries).address) as u32,
        iat_size: (8 * (pe::symbols_before(entries, entries.len()) + entries.len())) as u32,
    }
}

/// Where the sections of the executable stand.
spec fn plan_of(data: Seq<u8>) -> PePlan {
    let c = coff_link::coff_input(data);
    pe::pe_plan(
        (c.text.len() + 6 * c.imports.len()) as int,
        0,
        coff_link::import_entries(c.imports),
    )
}

/// The code with its thunks.
spec fn code_of(data: Seq<u8>) -> Seq<u8> {
    coff_link::finished_code(data, coff_link::coff_input(data), tables_of(data))
}

/// Whether a file has a section of code and one of imports.
#[verifier::opaque]
spec fn two_sections(e: Seq<u8>, f: PeFields, code: Seq<u8>, p: PePlan) -> bool {
    &&& p.rdata_rva <= p.image_size
    &&& 0x1000 + code.len() <= p.rdata_rva
    &&& pe_laws::pe_headers(e, 2, f.entry_rva)
    &&& pe_laws::pe_header_tells(e, f, 0x1000)
    &&& bytes::u32_at(e, 336) == code.len()
    &&& bytes::u32_at(e, 340) == 0x1000
    &&& bytes::u32_at(e, 348) == 512
    &&& 512 + code.len() <= e.len()
    &&& e.subrange(512, 512 + code.len() as int) == code
    &&& bytes::u32_at(e, 376) == p.rdata.len()
    &&& bytes::u32_at(e, 380) == p.rdata_rva
    &&& bytes::u32_at(e, 388) == p.rdata_off
    &&& 0 <= p.rdata_off
    &&& p.rdata_off + p.rdata.len() <= e.len()
    &&& e.subrange(p.rdata_off, p.rdata_off + p.rdata.len()) == p.rdata
}

/// What a file with a section of code and one of imports holds.
proof fn lemma_two_sections(f: PeFields, code: Seq<u8>, p: PePlan)
    requires
        p.data_off == 512 + segment::padded(code.len() as int, 512),
        p.rdata_off == p.data_off,
        p.data_rva == 0x1000 + segment::padded(code.len() as int, 4096),
        p.rdata_rva == p.data_rva,
        p.image_size == p.rdata_rva + segment::padded(p.rdata.len() as int, 4096),
        p.image_size <= u32::MAX,
    ensures
        two_sections(pe::pe_file(f, pe::pe_sections(code, seq![], p)), f, code, p),
{
    let none: Seq<u8> = seq![];
    let sections = pe::pe_sections(code, none, p);
    let e = pe::pe_file(f, sections);
    let n = code.len() as int;
    assert(segment::padded(0, 512) == 0 && segment::padded(0, 4096) == 0);
    pe_laws::lemma_pe_whole(f, code, none, p, 0);
    pe_laws::lemma_pe_whole(f, code, none, p, 1);
    pe_laws::lemma_pe_header_tells(f, sections);
    lemma_plan_sizes(n, p.rdata.len() as int);
    assert(sections.len() == 2 && sections[0].rva == 0x1000);
    lemma_read_sections(e, f, sections[0], sections[1], code, p);
}

proof fn lemma_plan_sizes(n: int, m: int)
    requires
        0 <= n,
        0 <= m,
    ensures
        n <= segment::padded(n, 4096),
        0 <= segment::padded(n, 512) <= segment::padded(n, 4096) + 0x1000 - 512,
        segment::padded(m, 4096) >= 0,
{
}

proof fn lemma_read_sections(
    e: Seq<u8>,
    f: PeFields,
    first: PeSectionModel,
    second: PeSectionModel,
    code: Seq<u8>,
    p: PePlan,
)
    requires
        pe_laws::pe_headers(e, 2, f.entry_rva),
        pe_laws::pe_header_tells(e, f, 0x1000),
        pe_laws::pe_section_stands(e, 0, first),
        pe_laws::pe_section_stands(e, 1, second),
        first.data == code,
        first.rva == 0x1000,
        first.file_off == 512,
        second.data == p.rdata,
        second.rva == p.rdata_rva,
        second.file_off == p.rdata_off,
        p.rdata_rva <= p.image_size,
        0x1000 + code.len() <= p.rdata_rva,
    ensures
        two_sections(e, f, code, p),
{
    reveal(two_sections);
}

proof fn lemma_code_len(data: Seq<u8>)
    ensures
        code_of(data).len() == coff_link::coff_input(data).text.len() + 6
            * coff_link::coff_input(data).imports.len(),
{
    let c = coff_link::coff_input(data);
    lemma_turned_len(data, c.code, c.names, c.imports, 0, c.text);
    lemma_thunk_len(c.imports, c.text.len() as int, tables_of(data), c.imports.len());
}

proof fn lemma_plan(total: int, entries: Seq<ImportModel>)
    ensures
        ({
            let p = pe::pe_plan(total, 0, entries);
            &&& p.data_off == 512 + segment::padded(total, 512)
            &&& p.rdata_off == p.data_off
            &&& p.data_rva == 0x1000 + segment::padded(total, 4096)
            &&& p.rdata_rva == p.data_rva
            &&& p.image_size == p.rdata_rva + segment::padded(p.rdata.len() as int, 4096)
            &&& p.rdata == pe::import_section(entries, p.rdata_rva)
        }),
{
    assert(segment::padded(0, 512) == 0 && segment::padded(0, 4096) == 0);
}

/// The executable for an object holds the code with its thunks, and the imports.
proof fn lemma_executable(data: Seq<u8>)
    requires
        coff_link::coff_executable(data) is Ok,
    ensures
        two_sections(
            coff_link::coff_executable(data)->Ok_0,
            fields_of(data),
            code_of(data),
            plan_of(data),
        ),
        plan_of(data).image_size <= u32::MAX,
        pe::imports_fit(
            coff_link::import_entries(coff_link::coff_input(data).imports),
            plan_of(data).rdata_rva,
        ),
{
    let c = coff_link::coff_input(data);
    lemma_code_len(data);
    lemma_plan(
        (c.text.len() + 6 * c.imports.len()) as int,
        coff_link::import_entries(c.imports),
    );
    assert(plan_of(data).image_size <= u32::MAX);
    lemma_two_sections(fields_of(data), code_of(data), plan_of(data));
}

proof fn lemma_code_is_held(data: Seq<u8>, e: Seq<u8>)
    requires
        two_sections(e, fields_of(data), code_of(data), plan_of(data)),
    ensures
        bytes::u16_at(e, 70) == 2,
        bytes::u32_at(e, 104) == ((0x1000 + coff_link::coff_input(data).main) as u64) as u32,
        bytes::u64_at(e, 112) == 0x1_4000_0000,
        bytes::u32_at(e, 336) == code_of(data).len(),
        bytes::u32_at(e, 340) == 0x1000,
        bytes::u32_at(e, 348) == 512,
        512 + code_of(data).len() <= e.len(),
        e.subrange(512, 512 + code_of(data).len() as int) == code_of(data),
        code_of(data).len() == coff_link::coff_input(data).text.len() + 6
            * coff_link::coff_input(data).imports.len(),
{
    reveal(two_sections);
    lemma_code_len(data);
}

proof fn lemma_code_byte(data: Seq<u8>, e: Seq<u8>, k: int)
    requires
        two_sections(e, fields_of(data), code_of(data), plan_of(data)),
        0 <= k < code_of(data).len(),
    ensures
        pe_laws::pe_holds(e, 0, 0x1000 + k, 1),
        pe_laws::pe_place(e, 0, 0x1000 + k) == 512 + k,
        e[512 + k] == code_of(data)[k],
{
    lemma_code_is_held(data, e);
    assert(e.subrange(512, 512 + code_of(data).len() as int)[k] == code_of(data)[k]);
}

proof fn lemma_kept_byte(data: Seq<u8>, s: int, k: int)
    requires
        data.len() >= 20,
        is_code_section(data, s),
        0 <= k < bytes::u32_at(data, coff_section(s) + 16),
        is_left_alone(data, s, k),
    ensures
        k < coff_link::coff_input(data).text.len(),
        code_of(data)[k] == data[bytes::u32_at(data, coff_section(s) + 20) + k],
{
    let c = coff_link::coff_input(data);
    lemma_code(data, s);
    let turned = coff_link::turned_calls(data, c.code, c.names, c.imports, 0, c.text);
    assert forall|j: nat| 0 <= j < c.code.count implies !(#[trigger] import_laws::call_place(
        data,
        c.code,
        j,
    ) <= k < import_laws::call_place(data, c.code, j) + 4) by {
        assert(coff_place(data, s, j as int) == import_laws::call_place(data, c.code, j));
    }
    import_laws::lemma_other_calls_keep(data, c.code, c.names, c.imports, 0, c.text, k);
    assert(turned[k] == c.text[k]);
    assert(code_of(data)[k] == turned[k]);
}

/// The code of an object is loaded at the address 0x1000 behind the base of the image. Each of its
/// bytes that no relocation changes is there as it is in the object.
pub proof fn law_coff_code_is_loaded(data: Seq<u8>, s: int, k: int)
    requires
        data.len() >= 20,
        coff_link::coff_executable(data) is Ok,
        is_code_section(data, s),
        0 <= k < bytes::u32_at(data, coff_section(s) + 16),
        is_left_alone(data, s, k),
    ensures
        ({
            let e = coff_link::coff_executable(data)->Ok_0;
            &&& pe_laws::pe_holds(e, 0, 0x1000 + k, 1)
            &&& e[pe_laws::pe_place(e, 0, 0x1000 + k)] == data[bytes::u32_at(
                data,
                coff_section(s) + 20,
            ) + k]
        }),
{
    let e = coff_link::coff_executable(data)->Ok_0;
    lemma_executable(data);
    lemma_kept_byte(data, s, k);
    lemma_code_is_held(data, e);
    lemma_code_byte(data, e, k);
}

/// The entry point of the executable is the value of the first symbol named `main` or `_main`,
/// counted from where the code is loaded, if the sum has 32 bits.
pub proof fn law_coff_entry_is_main(data: Seq<u8>, n: nat)
    requires
        data.len() >= 20,
        coff_link::coff_executable(data) is Ok,
        has_coff_symbol(data, n),
        is_main(data, n),
        forall|k: nat| k < n ==> !#[trigger] is_main(data, k),
        0x1000 + coff_symbol_value(data, n) <= u32::MAX,
    ensures
        ({
            let e = coff_link::coff_executable(data)->Ok_0;
            &&& bytes::u32_at(e, 104) == 0x1000 + coff_symbol_value(data, n)
            &&& bytes::u64_at(e, 112) == 0x1_4000_0000
        }),
{
    let e = coff_link::coff_executable(data)->Ok_0;
    lemma_executable(data);
    lemma_code_is_held(data, e);
    lemma_main_of_symbols(data, n);
}

/// The byte at the entry point in memory is the byte of the code of the object that the first
/// symbol named `main` or `_main` stands for, unless a relocation changes it.
pub proof fn law_coff_entry_leads_to_main(data: Seq<u8>, n: nat, s: int)
    requires
        data.len() >= 20,
        coff_link::coff_executable(data) is Ok,
        has_coff_symbol(data, n),
        is_main(data, n),
        forall|k: nat| k < n ==> !#[trigger] is_main(data, k),
        is_code_section(data, s),
        coff_symbol_value(data, n) < bytes::u32_at(data, coff_section(s) + 16),
        is_left_alone(data, s, coff_symbol_value(data, n) as int),
    ensures
        ({
            let e = coff_link::coff_executable(data)->Ok_0;
            let entry = bytes::u32_at(e, 104) as int;
            &&& pe_laws::pe_holds(e, 0, entry, 1)
            &&& e[pe_laws::pe_place(e, 0, entry)] == data[bytes::u32_at(
                data,
                coff_section(s) + 20,
            ) + coff_symbol_value(data, n)]
        }),
{
    let e = coff_link::coff_executable(data)->Ok_0;
    lemma_executable(data);
    lemma_code_is_held(data, e);
    lemma_kept_byte(data, s, coff_symbol_value(data, n) as int);
    law_coff_code_is_loaded(data, s, coff_symbol_value(data, n) as int);
    law_coff_entry_is_main(data, n);
}

proof fn lemma_import_is_found(
    data: Seq<u8>,
    table: int,
    names: Seq<Seq<char>>,
    i: nat,
    found: Seq<Seq<char>>,
    p: int,
)
    requires
        0 <= p < names.len(),
        names[p].len() != 0,
        coff_link::needs_import(data, table, p),
        i <= p || found.contains(names[p]),
    ensures
        coff_link::import_names(data, table, names, i, found).contains(names[p]),
    decreases names.len() - i,
{
    if i < names.len() {
        let next = if names[i as int].len() != 0 && coff_link::needs_import(
            data,
            table,
            i as int,
        ) {
            names::add_name(found, names[i as int])
        } else {
            found
        };
        names::law_add_name(found, names[i as int], names[p]);
        lemma_import_is_found(data, table, names, i + 1, next, p);
    }
}

/// Whether the symbol `n` is an external name that the object does not define.
pub open spec fn is_import(data: Seq<u8>, n: nat) -> bool {
    let at = coff_record(data, coff_symbol(data, n));
    &&& has_coff_symbol(data, n)
    &&& coff_symbol_text(data, n).len() > 0
    &&& bytes::u16_at(data, at + 12) == 0
    &&& data[at + 17] == 2
}

proof fn lemma_is_imported(data: Seq<u8>, n: nat)
    requires
        data.len() >= 20,
        is_import(data, n),
    ensures
        coff_link::coff_input(data).imports.contains(coff_symbol_text(data, n)),
        coff_symbol(data, n) < coff_link::coff_input(data).names.len(),
        coff_link::coff_input(data).names[coff_symbol(data, n)] == coff_symbol_text(data, n),
{
    lemma_input(data);
    lemma_symbol_name(data, n);
    let none: Seq<Seq<char>> = seq![];
    lemma_import_is_found(
        data,
        bytes::u32_at(data, 8) as int,
        all_names(data),
        0,
        none,
        coff_symbol(data, n),
    );
}

/// Whether the relocation `j` of the section `s` is for a call of the symbol `n`, in code that no
/// later relocation changes.
pub open spec fn is_call(data: Seq<u8>, s: int, j: nat, n: nat) -> bool {
    let at = bytes::u32_at(data, coff_section(s) + 24) + 10 * j;
    let count = bytes::u16_at(data, coff_section(s) + 32);
    let place = coff_place(data, s, j as int);
    &&& j < count
    &&& at + 10 <= data.len()
    &&& bytes::u32_at(data, at + 4) == coff_symbol(data, n)
    &&& bytes::u16_at(data, at + 8) == 4
    &&& place + 4 <= bytes::u32_at(data, coff_section(s) + 16)
    &&& forall|k: int|
        j < k < count ==> place + 4 <= #[trigger] coff_place(data, s, k) || coff_place(data, s, k)
            + 4 <= place
}

/// The call leads to the thunk of the name.
proof fn lemma_call(data: Seq<u8>, s: int, j: nat, n: nat)
    requires
        data.len() >= 20,
        is_code_section(data, s),
        is_import(data, n),
        is_call(data, s, j, n),
        code_of(data).len() < 0x8000_0000,
        code_of(data).len() == coff_link::coff_input(data).text.len() + 6
            * coff_link::coff_input(data).imports.len(),
    ensures
        ({
            let c = coff_link::coff_input(data);
            let place = coff_place(data, s, j as int);
            let thunk = place + 4 + bytes::signed32(bytes::u32_at(code_of(data), place as int));
            &&& place + 4 <= c.text.len()
            &&& thunk == c.text.len() + 6 * c.imports.index_of(coff_symbol_text(data, n))
        }),
{
    let c = coff_link::coff_input(data);
    let place = coff_place(data, s, j as int) as int;
    let name = coff_symbol_text(data, n);
    lemma_is_imported(data, n);
    lemma_code(data, s);
    let turned = coff_link::turned_calls(data, c.code, c.names, c.imports, 0, c.text);
    let idx = c.imports.index_of(name);
    assert(import_laws::call_place(data, c.code, j) == place);
    assert(import_laws::calls_import(data, c.code, c.names, c.imports, j, c.text.len()));
    assert(import_laws::called_name(data, c.code, c.names, j) == name);
    assert forall|k: nat| j < k < c.code.count implies import_laws::call_place(data, c.code, j) + 4
        <= #[trigger] import_laws::call_place(data, c.code, k) || import_laws::call_place(
        data,
        c.code,
        k,
    ) + 4 <= import_laws::call_place(data, c.code, j) by {
        assert(coff_place(data, s, k as int) == import_laws::call_place(data, c.code, k));
    }
    lemma_turned_len(data, c.code, c.names, c.imports, 0, c.text);
    import_laws::law_calls_go_to_thunks(data, c.code, c.names, c.imports, 0, c.text, j);
    bytes::lemma_same_u32(code_of(data), place, turned, place);
}

/// The thunk of a name leads to the slot of the name.
proof fn lemma_thunk(data: Seq<u8>, name: Seq<char>)
    requires
        coff_link::coff_input(data).imports.contains(name),
        code_of(data).len() == coff_link::coff_input(data).text.len() + 6
            * coff_link::coff_input(data).imports.len(),
        code_of(data).len() < 0x8000_0000,
        0 <= tables_of(data) + 8 * coff_link::slot_of(
            coff_link::coff_input(data).imports,
            name,
        ) < 0x8000_0000,
    ensures
        ({
            let c = coff_link::coff_input(data);
            let at = c.text.len() + 6 * c.imports.index_of(name);
            let code = code_of(data);
            &&& c.text.len() <= at && at + 6 <= code.len()
            &&& code[at] == 0xff && code[at + 1] == 0x25
            &&& at + 6 + bytes::signed32(bytes::u32_at(code, at + 2)) == tables_of(data) + 8
                * coff_link::slot_of(c.imports, name)
        }),
{
    let c = coff_link::coff_input(data);
    let size = c.text.len() as int;
    let k = c.imports.index_of(name);
    let thunks = coff_link::thunk_code(c.imports, size, tables_of(data), c.imports.len());
    let at = size + 6 * k;
    lemma_turned_len(data, c.code, c.names, c.imports, 0, c.text);
    lemma_thunk_len(c.imports, size, tables_of(data), c.imports.len());
    import_laws::law_thunks_jump_through_slots(
        c.imports,
        size,
        tables_of(data),
        c.imports.len(),
        k as nat,
    );
    assert(code_of(data)[at] == thunks[6 * k]);
    assert(code_of(data)[at + 1] == thunks[6 * k + 1]);
    bytes::lemma_same_u32(code_of(data), at + 2, thunks, 6 * k + 2);
}

/// Whether some bytes stand at the address `rva` in memory, in the section `i` of a file.
pub open spec fn pe_bytes_at(e: Seq<u8>, i: int, rva: int, b: Seq<u8>) -> bool {
    let place = pe_laws::pe_place(e, i, rva);
    pe_laws::pe_holds(e, i, rva, b.len() as int) && e.subrange(place, place + b.len()) == b
}

/// Whether the second section of a file has some bytes, which it loads at `rva`.
spec fn second_section_is(e: Seq<u8>, section: Seq<u8>, rva: int, off: int) -> bool {
    &&& 0 <= off
    &&& bytes::u16_at(e, 70) == 2
    &&& bytes::u32_at(e, 376) == section.len()
    &&& bytes::u32_at(e, 380) == rva
    &&& bytes::u32_at(e, 388) == off
    &&& off + section.len() <= e.len()
    &&& e.subrange(off, off + section.len()) == section
}

proof fn lemma_second_section(e: Seq<u8>, section: Seq<u8>, rva: int, off: int, at: int)
    requires
        second_section_is(e, section, rva, off),
        0 <= at,
    ensures
        pe_laws::pe_place(e, 1, rva + at) == off + at,
        at + 4 <= section.len() ==> bytes::u32_at(e, off + at) == bytes::u32_at(section, at),
        at + 8 <= section.len() ==> bytes::u64_at(e, off + at) == bytes::u64_at(section, at),
        forall|n: int|
            at + n <= section.len() ==> #[trigger] pe_laws::pe_holds(e, 1, rva + at, n),
{
    assert forall|k: int| 0 <= k < section.len() implies e[off + k] == #[trigger] section[k] by {
        assert(e.subrange(off, off + section.len())[k] == section[k]);
    }
    if at + 4 <= section.len() {
        bytes::lemma_same_u32(e, off + at, section, at);
    }
    if at + 8 <= section.len() {
        bytes::lemma_same_u64(e, off + at, section, at);
    }
}

proof fn lemma_second_text(e: Seq<u8>, section: Seq<u8>, rva: int, off: int, at: int, b: Seq<u8>)
    requires
        second_section_is(e, section, rva, off),
        0 <= at,
        at + b.len() + 1 <= section.len(),
        section.subrange(at, at + b.len()) == b,
        section[at + b.len()] == 0,
    ensures
        pe_bytes_at(e, 1, rva + at, b + seq![0u8]),
{
    lemma_second_section(e, section, rva, off, at);
    assert forall|k: int| 0 <= k < section.len() implies e[off + k] == #[trigger] section[k] by {
        assert(e.subrange(off, off + section.len())[k] == section[k]);
    }
    let both = b + seq![0u8];
    assert forall|k: int| 0 <= k < both.len() implies e[off + at + k] == #[trigger] both[k] by {
        assert(e[off + (at + k)] == section[at + k]);
        if k < b.len() {
            assert(section.subrange(at, at + b.len())[k] == b[k]);
        }
    }
    assert(e.subrange(off + at, off + at + both.len()) =~= both);
    assert(pe_laws::pe_holds(e, 1, rva + at, both.len() as int));
}

/// What a loader finds for the symbol `j` of the library `d`: from the slot the name of the
/// symbol, and from the directory the name of the library and its table of slots.
pub open spec fn import_is_found(
    e: Seq<u8>,
    d: int,
    slot: int,
    name: Seq<char>,
    library: Seq<char>,
) -> bool {
    let record = bytes::u64_at(e, pe_laws::pe_place(e, 1, slot));
    let entry = bytes::u32_at(e, 208) + 20 * d;
    let text = bytes::u32_at(e, pe_laws::pe_place(e, 1, entry) + 12);
    let table = bytes::u32_at(e, pe_laws::pe_place(e, 1, entry) + 16);
    &&& pe_laws::pe_holds(e, 1, slot, 8)
    &&& pe_bytes_at(e, 1, record + 2, encode_utf8(name) + seq![0u8])
    &&& pe_laws::pe_holds(e, 1, entry, 20)
    &&& pe_bytes_at(e, 1, text as int, encode_utf8(library) + seq![0u8])
    &&& table <= slot && (slot - table) % 8 == 0
}

/// The parts of an import section stand in the section of a file that holds it.
proof fn lemma_held_import(
    e: Seq<u8>,
    entries: Seq<ImportModel>,
    rva: int,
    off: int,
    d: int,
    j: int,
)
    requires
        0 <= rva,
        pe::imports_fit(entries, rva),
        0 <= d < entries.len(),
        0 <= j < entries[d].symbols.len(),
        second_section_is(e, pe::import_section(entries, rva), rva, off),
        bytes::u32_at(e, 208) == rva,
    ensures
        import_is_found(
            e,
            d,
            rva + import_laws::import_slot(entries, d, j),
            entries[d].symbols[j],
            entries[d].dll_name,
        ),
{
    import_laws::law_import_slots_have_names(entries, rva, d, j);
    import_laws::law_directory_names_libraries(entries, rva, d);
    lemma_found_import(
        e,
        pe::import_section(entries, rva),
        rva,
        off,
        d,
        import_laws::import_slot(entries, d, j),
        import_laws::import_slot(entries, d, 0),
        entries[d].symbols[j],
        entries[d].dll_name,
    );
}

proof fn lemma_found_import(
    e: Seq<u8>,
    section: Seq<u8>,
    rva: int,
    off: int,
    d: int,
    slot: int,
    first: int,
    name: Seq<char>,
    library: Seq<char>,
)
    requires
        0 <= rva,
        0 <= d,
        second_section_is(e, section, rva, off),
        bytes::u32_at(e, 208) == rva,
        0 <= first <= slot,
        (slot - first) % 8 == 0,
        slot + 8 <= section.len(),
        20 * d + 20 <= section.len(),
        ({
            let record = bytes::u64_at(section, slot) - rva;
            let b = encode_utf8(name);
            &&& 0 <= record && record + 3 + b.len() <= section.len()
            &&& section.subrange(record + 2, record + 2 + b.len()) == b
            &&& section[record + 2 + b.len()] == 0
        }),
        ({
            let place = bytes::u32_at(section, 20 * d + 12) - rva;
            let b = encode_utf8(library);
            &&& 0 <= place && place + b.len() + 1 <= section.len()
            &&& section.subrange(place, place + b.len()) == b
            &&& section[place + b.len()] == 0
        }),
        bytes::u32_at(section, 20 * d + 16) - rva == first,
    ensures
        import_is_found(e, d, rva + slot, name, library),
{
    let record = bytes::u64_at(section, slot) - rva;
    let place = bytes::u32_at(section, 20 * d + 12) - rva;
    lemma_second_section(e, section, rva, off, slot);
    lemma_second_section(e, section, rva, off, 20 * d);
    lemma_second_section(e, section, rva, off, 20 * d + 12);
    lemma_second_section(e, section, rva, off, 20 * d + 16);
    lemma_second_text(e, section, rva, off, record + 2, encode_utf8(name));
    lemma_second_text(e, section, rva, off, place, encode_utf8(library));
    assert(pe_laws::pe_holds(e, 1, rva + slot, 8));
    assert(pe_laws::pe_holds(e, 1, rva + 20 * d, 20));
}

proof fn lemma_imports_are_held(e: Seq<u8>, f: PeFields, code: Seq<u8>, p: PePlan)
    requires
        two_sections(e, f, code, p),
    ensures
        second_section_is(e, p.rdata, p.rdata_rva, p.rdata_off),
        bytes::u32_at(e, 208) == f.import_rva,
        bytes::u32_at(e, 376) == p.rdata.len(),
        bytes::u32_at(e, 380) == p.rdata_rva,
        0x1000 + code.len() <= p.rdata_rva <= p.image_size,
{
    reveal(two_sections);
}

proof fn lemma_slot_of_name(names: Seq<Seq<char>>, name: Seq<char>) -> (j: int)
    requires
        names.contains(name),
    ensures
        ({
            let entries = coff_link::import_entries(names);
            let d = import_laws::library_of(name);
            &&& 0 <= d < entries.len()
            &&& 0 <= j < entries[d].symbols.len()
            &&& entries[d].symbols[j] == name
            &&& entries[d].dll_name == import_laws::library_name(name)
            &&& import_laws::import_slot(entries, d, j) == pe::import_places(entries).address + 8
                * coff_link::slot_of(names, name)
        }),
{
    import_laws::law_thunk_slot_is_import_slot(names, name);
    import_laws::law_names_come_from_their_library(names, name);
    let j = choose|j: int| import_laws::slot_is_for(names, name, j);
    assert(import_laws::slot_is_for(names, name, j));
    j
}

/// The slot of an imported name stands in the second section of the executable.
proof fn lemma_slot_is_found(data: Seq<u8>, e: Seq<u8>, name: Seq<char>)
    requires
        two_sections(e, fields_of(data), code_of(data), plan_of(data)),
        plan_of(data).image_size <= u32::MAX,
        pe::imports_fit(
            coff_link::import_entries(coff_link::coff_input(data).imports),
            plan_of(data).rdata_rva,
        ),
        coff_link::coff_input(data).imports.contains(name),
    ensures
        ({
            let slot = tables_of(data) + 8 * coff_link::slot_of(
                coff_link::coff_input(data).imports,
                name,
            );
            &&& 0 <= slot
            &&& 0x1000 + slot + 8 <= bytes::u32_at(e, 380) + bytes::u32_at(e, 376)
            &&& import_is_found(
                e,
                import_laws::library_of(name),
                0x1000 + slot,
                name,
                import_laws::library_name(name),
            )
        }),
{
    let c = coff_link::coff_input(data);
    let entries = coff_link::import_entries(c.imports);
    let p = plan_of(data);
    let d = import_laws::library_of(name);
    lemma_imports_are_held(e, fields_of(data), code_of(data), p);
    lemma_plan((c.text.len() + 6 * c.imports.len()) as int, entries);
    let j = lemma_slot_of_name(c.imports, name);
    lemma_held_import(e, entries, p.rdata_rva, p.rdata_off, d, j);
    assert(pe_laws::pe_holds(e, 1, p.rdata_rva + import_laws::import_slot(entries, d, j), 8));
}

/// Whether a call in the code of a file reaches an imported name. In memory, the distance at the
/// place of the call leads to a jump, and the distance there to a slot, into which the loader puts
/// the address of the name: the slot tells it the name, and the directory the library of the slot.
pub open spec fn call_reaches(e: Seq<u8>, call: int, name: Seq<char>) -> bool {
    let thunk = call + 4 + bytes::signed32(bytes::u32_at(e, pe_laws::pe_place(e, 0, call)));
    let place = pe_laws::pe_place(e, 0, thunk);
    let slot = thunk + 6 + bytes::signed32(bytes::u32_at(e, place + 2));
    &&& pe_laws::pe_holds(e, 0, call, 4)
    &&& pe_laws::pe_holds(e, 0, thunk, 6)
    &&& e[place] == 0xff && e[place + 1] == 0x25
    &&& import_is_found(
        e,
        import_laws::library_of(name),
        slot,
        name,
        import_laws::library_name(name),
    )
}

proof fn lemma_reaches(
    e: Seq<u8>,
    code: Seq<u8>,
    place: int,
    thunk: int,
    slot: int,
    name: Seq<char>,
)
    requires
        bytes::u16_at(e, 70) == 2,
        bytes::u32_at(e, 336) == code.len(),
        bytes::u32_at(e, 340) == 0x1000,
        bytes::u32_at(e, 348) == 512,
        512 + code.len() <= e.len(),
        e.subrange(512, 512 + code.len() as int) == code,
        0 <= place,
        place + 4 <= code.len(),
        0 <= thunk,
        thunk + 6 <= code.len(),
        place + 4 + bytes::signed32(bytes::u32_at(code, place)) == thunk,
        code[thunk] == 0xff,
        code[thunk + 1] == 0x25,
        thunk + 6 + bytes::signed32(bytes::u32_at(code, thunk + 2)) == slot,
        import_is_found(
            e,
            import_laws::library_of(name),
            0x1000 + slot,
            name,
            import_laws::library_name(name),
        ),
    ensures
        call_reaches(e, 0x1000 + place, name),
{
    lemma_call_in_file(e, code, place, thunk);
}

proof fn lemma_call_reaches(data: Seq<u8>, e: Seq<u8>, s: int, j: nat, n: nat)
    requires
        two_sections(e, fields_of(data), code_of(data), plan_of(data)),
        plan_of(data).image_size <= u32::MAX,
        pe::imports_fit(
            coff_link::import_entries(coff_link::coff_input(data).imports),
            plan_of(data).rdata_rva,
        ),
        data.len() >= 20,
        is_code_section(data, s),
        is_import(data, n),
        is_call(data, s, j, n),
        bytes::u32_at(e, 380) + bytes::u32_at(e, 376) < 0x8000_0000,
    ensures
        call_reaches(e, 0x1000 + coff_place(data, s, j as int), coff_symbol_text(data, n)),
{
    let c = coff_link::coff_input(data);
    let name = coff_symbol_text(data, n);
    let place = coff_place(data, s, j as int) as int;
    let thunk = c.text.len() + 6 * c.imports.index_of(name);
    let slot = tables_of(data) + 8 * coff_link::slot_of(c.imports, name);
    lemma_is_imported(data, n);
    lemma_code_is_held(data, e);
    lemma_imports_are_held(e, fields_of(data), code_of(data), plan_of(data));
    lemma_slot_is_found(data, e, name);
    lemma_call(data, s, j, n);
    lemma_thunk(data, name);
    lemma_reaches(e, code_of(data), place, thunk, slot, name);
}

/// A call of a name that the object does not define reaches that name, in an image smaller than
/// 2 GiB.
pub proof fn law_coff_calls_reach_imports(data: Seq<u8>, s: int, j: nat, n: nat)
    requires
        data.len() >= 20,
        coff_link::coff_executable(data) is Ok,
        is_code_section(data, s),
        is_import(data, n),
        is_call(data, s, j, n),
        bytes::u32_at(coff_link::coff_executable(data)->Ok_0, 380) + bytes::u32_at(
            coff_link::coff_executable(data)->Ok_0,
            376,
        ) < 0x8000_0000,
    ensures
        call_reaches(
            coff_link::coff_executable(data)->Ok_0,
            0x1000 + coff_place(data, s, j as int),
            coff_symbol_text(data, n),
        ),
{
    lemma_executable(data);
    lemma_call_reaches(data, coff_link::coff_executable(data)->Ok_0, s, j, n);
}

proof fn lemma_call_in_file(e: Seq<u8>, code: Seq<u8>, place: int, thunk: int)
    requires
        bytes::u16_at(e, 70) == 2,
        bytes::u32_at(e, 336) == code.len(),
        bytes::u32_at(e, 340) == 0x1000,
        bytes::u32_at(e, 348) == 512,
        512 + code.len() <= e.len(),
        e.subrange(512, 512 + code.len() as int) == code,
        0 <= place,
        place + 4 <= code.len(),
        0 <= thunk,
        thunk + 6 <= code.len(),
    ensures
        pe_laws::pe_holds(e, 0, 0x1000 + place, 4),
        pe_laws::pe_place(e, 0, 0x1000 + place) == 512 + place,
        bytes::u32_at(e, 512 + place) == bytes::u32_at(code, place),
        pe_laws::pe_holds(e, 0, 0x1000 + thunk, 6),
        pe_laws::pe_place(e, 0, 0x1000 + thunk) == 512 + thunk,
        bytes::u32_at(e, 512 + thunk + 2) == bytes::u32_at(code, thunk + 2),
        e[512 + thunk] == code[thunk],
        e[512 + thunk + 1] == code[thunk + 1],
{
    assert forall|k: int| 0 <= k < code.len() implies e[512 + k] == #[trigger] code[k] by {
        assert(e.subrange(512, 512 + code.len() as int)[k] == code[k]);
    }
    bytes::lemma_same_u32(e, 512 + place, code, place);
    bytes::lemma_same_u32(e, 512 + thunk + 2, code, thunk + 2);
    assert(e[512 + (thunk + 1)] == code[thunk + 1]);
}

} // verus!

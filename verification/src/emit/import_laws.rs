//! What a loader finds in the import sections that are written.
use vstd::prelude::*;
use vstd::string::*;
use vstd::utf8::*;
use crate::bytes;
use crate::emit::coff_link;
use crate::emit::coff_link::{CodePlace, IMAGE_REL_AMD64_REL32};
use crate::emit::pe;
use crate::emit::pe::ImportModel;
use crate::link::dynamic;

verus! {

proof fn lemma_all_symbols(entries: Seq<ImportModel>, k: nat, d: nat, j: int)
    requires
        d < k <= entries.len(),
        0 <= j < entries[d as int].symbols.len(),
    ensures
        pe::all_symbols(entries, k).len() == pe::symbols_before(entries, k),
        pe::symbols_before(entries, d)
            + entries[d as int].symbols.len() <= pe::symbols_before(entries, k),
        pe::all_symbols(entries, k)[pe::symbols_before(entries, d) + j]
            == entries[d as int].symbols[j],
    decreases k,
{
    lemma_all_symbols_len(entries, (k - 1) as nat);
    if d < k - 1 {
        lemma_all_symbols(entries, (k - 1) as nat, d, j);
    }
}

proof fn lemma_all_symbols_len(entries: Seq<ImportModel>, k: nat)
    requires
        k <= entries.len(),
    ensures
        pe::all_symbols(entries, k).len() == pe::symbols_before(entries, k),
    decreases k,
{
    if k > 0 {
        lemma_all_symbols_len(entries, (k - 1) as nat);
    }
}

proof fn lemma_symbols_before(entries: Seq<ImportModel>, d: nat, k: nat)
    requires
        d <= k <= entries.len(),
    ensures
        pe::symbols_before(entries, d) <= pe::symbols_before(entries, k),
    decreases k,
{
    if d < k {
        lemma_symbols_before(entries, d, (k - 1) as nat);
    }
}

proof fn lemma_hint_records(names: Seq<Seq<char>>, g: nat, k: nat)
    requires
        g < k <= names.len(),
    ensures
        ({
            let at = pe::hint_records(names, g).len() as int;
            let n = encode_utf8(names[g as int]).len();
            &&& at + 3 + n <= pe::hint_records(names, k).len()
            &&& pe::hint_records(names, k).subrange(at + 2, at + 2 + n)
                == encode_utf8(names[g as int])
            &&& pe::hint_records(names, k)[at + 2 + n] == 0
        }),
    decreases k,
{
    broadcast use bytes::group_le_len;
    let at = pe::hint_records(names, g).len() as int;
    let n = encode_utf8(names[g as int]).len();
    let all = pe::hint_records(names, k);
    if g < k - 1 {
        lemma_hint_records(names, g, (k - 1) as nat);
        let before = pe::hint_records(names, (k - 1) as nat);
        assert(all.subrange(at + 2, at + 2 + n) =~= before.subrange(at + 2, at + 2 + n));
    } else {
        let r = pe::hint_record(names[g as int]);
        assert(r.subrange(2, 2 + n as int) =~= encode_utf8(names[g as int]));
        assert(all.subrange(at + 2, at + 2 + n) =~= r.subrange(2, 2 + n as int));
        assert(all[at + 2 + n] == r[2 + n as int]);
    }
}

proof fn lemma_thunks(names: Seq<Seq<char>>, records_rva: int, first: nat, last: nat, g: nat)
    requires
        first <= last,
    ensures
        pe::thunks(names, records_rva, first, last).len() == 8 * (last - first),
        first <= g < last ==> pe::thunks(names, records_rva, first, last).subrange(
            8 * (g - first),
            8 * (g - first) + 8,
        ) == bytes::le64((records_rva + pe::hint_records(names, g).len()) as u64),
    decreases last,
{
    broadcast use bytes::group_le_len;
    if first < last {
        lemma_thunks(names, records_rva, first, (last - 1) as nat, g);
        let before = pe::thunks(names, records_rva, first, (last - 1) as nat);
        let all = pe::thunks(names, records_rva, first, last);
        let at = 8 * (g - first);
        if first <= g < last - 1 {
            assert(all.subrange(at, at + 8) =~= before.subrange(at, at + 8));
        } else if g == last - 1 {
            assert(all.subrange(at, at + 8) =~= bytes::le64(
                (records_rva + pe::hint_records(names, g).len()) as u64,
            ));
        }
    }
}

proof fn lemma_thunk_tables(
    entries: Seq<ImportModel>,
    names: Seq<Seq<char>>,
    records_rva: int,
    k: nat,
    d: nat,
    j: nat,
)
    requires
        k <= entries.len(),
    ensures
        pe::thunk_tables(entries, names, records_rva, k).len()
            == 8 * (pe::symbols_before(entries, k) + k),
        d < k && j < entries[d as int].symbols.len() ==> ({
            let at = (8 * (pe::symbols_before(entries, d) + d + j)) as int;
            &&& at + 8 <= pe::thunk_tables(entries, names, records_rva, k).len()
            &&& pe::thunk_tables(entries, names, records_rva, k).subrange(at, at + 8)
                == bytes::le64(
                (records_rva + pe::hint_records(names, pe::symbols_before(entries, d)
                    + j).len()) as u64,
            )
        }),
    decreases k,
{
    broadcast use bytes::group_le_len;
    if k > 0 {
        lemma_thunk_tables(entries, names, records_rva, (k - 1) as nat, d, j);
        let first = pe::symbols_before(entries, (k - 1) as nat);
        let last = pe::symbols_before(entries, k);
        let before = pe::thunk_tables(entries, names, records_rva, (k - 1) as nat);
        let all = pe::thunk_tables(entries, names, records_rva, k);
        lemma_thunks(names, records_rva, first, last, first + j);
        let own = pe::thunks(names, records_rva, first, last);
        if d < k && j < entries[d as int].symbols.len() {
            let at = (8 * (pe::symbols_before(entries, d) + d + j)) as int;
            if d < k - 1 {
                assert(all.subrange(at, at + 8) =~= before.subrange(at, at + 8));
            } else {
                let from = (8 * j) as int;
                assert(all.subrange(at, at + 8) =~= own.subrange(from, from + 8));
            }
        }
    }
}

pub proof fn lemma_import_directory_len(entries: Seq<ImportModel>, rva: int, k: nat)
    ensures
        pe::import_directory(entries, rva, k).len() == 20 * k,
    decreases k,
{
    broadcast use bytes::group_le_len;
    if k > 0 {
        lemma_import_directory_len(entries, rva, (k - 1) as nat);
    }
}

/// The parts of an import section follow each other.
pub proof fn lemma_import_parts(
    directory: Seq<u8>,
    tables: Seq<u8>,
    records: Seq<u8>,
    dlls: Seq<u8>,
    gap: Seq<u8>,
)
    ensures
        ({
            let e = directory + bytes::zeros(20) + tables + tables + records + dlls + gap;
            let first = directory.len() + 20;
            let second = first + tables.len();
            let third = second + tables.len();
            &&& e.len() == third + records.len() + dlls.len() + gap.len()
            &&& e.subrange(first as int, second as int) == tables
            &&& e.subrange(second as int, third as int) == tables
            &&& e.subrange(third as int, (third + records.len()) as int) == records
        }),
{
    let e = directory + bytes::zeros(20) + tables + tables + records + dlls + gap;
    let first = directory.len() + 20;
    let second = first + tables.len();
    let third = second + tables.len();
    assert(e.subrange(first as int, second as int) =~= tables);
    assert(e.subrange(second as int, third as int) =~= tables);
    assert(e.subrange(third as int, (third + records.len()) as int) =~= records);
}

/// Where the slot of the symbol `j` of the library `d` stands in the address tables.
pub open spec fn import_slot(entries: Seq<ImportModel>, d: int, j: int) -> int {
    pe::import_places(entries).address + 8 * (pe::symbols_before(entries, d as nat) + d + j)
}

/// The slot of each imported symbol leads to its name: the loader finds there the address of a
/// record that holds the name, ended by a zero.
pub proof fn law_import_slots_have_names(entries: Seq<ImportModel>, rva: int, d: int, j: int)
    requires
        0 <= rva,
        pe::imports_fit(entries, rva),
        0 <= d < entries.len(),
        0 <= j < entries[d].symbols.len(),
    ensures
        ({
            let section = pe::import_section(entries, rva);
            let record = bytes::u64_at(section, import_slot(entries, d, j)) - rva;
            let name = encode_utf8(entries[d].symbols[j]);
            &&& import_slot(entries, d, j) + 8 <= section.len()
            &&& 0 <= record && record + 3 + name.len() <= section.len()
            &&& section.subrange(record + 2, record + 2 + name.len()) == name
            &&& section[record + 2 + name.len()] == 0
        }),
{
    let n = entries.len();
    let names = pe::all_symbols(entries, n);
    let p = pe::import_places(entries);
    let tables = pe::thunk_tables(entries, names, rva + p.records, n);
    let records = pe::hint_records(names, names.len());
    let directory = pe::import_directory(entries, rva, n);
    let g = pe::symbols_before(entries, d as nat) + j as nat;
    let name = encode_utf8(entries[d].symbols[j]);
    let section = pe::import_section(entries, rva);
    lemma_all_symbols(entries, n, d as nat, j);
    lemma_import_directory_len(entries, rva, n);
    lemma_thunk_tables(entries, names, rva + p.records, n, d as nat, j as nat);
    lemma_hint_records(names, g, names.len());
    lemma_import_parts(
        directory,
        tables,
        records,
        pe::dll_names(entries, n),
        bytes::zeros(pe::file_padding(p.end)),
    );
    let off = pe::hint_records(names, g).len() as int;
    let slot = (8 * (pe::symbols_before(entries, d as nat) + d + j)) as int;
    let value = (rva + p.records + off) as u64;
    assert(value == rva + p.records + off);
    bytes::lemma_in_part(section, p.address, tables, slot, slot + 8);
    bytes::lemma_read_u64(section, p.address + slot, value);
    bytes::lemma_in_part(section, p.records, records, off + 2, off + 2 + name.len());
    bytes::lemma_in_part(section, p.records, records, off + 2 + name.len(), off + 3 + name.len());
    let zero = section.subrange(p.records + off + 2 + name.len(), p.records + off + 3 + name.len());
    assert(zero[0] == records[off + 2 + name.len()]);
}

proof fn lemma_library_names(names: Seq<Seq<char>>, kernel: bool, n: nat, name: Seq<char>)
    requires
        n <= names.len(),
        names.subrange(0, n as int).contains(name),
        coff_link::kernel32_name(name) == kernel,
    ensures
        coff_link::library_names(names, kernel, n).contains(name),
    decreases n,
{
    let all = coff_link::library_names(names, kernel, n);
    let i = names.subrange(0, n as int).index_of(name);
    assert(names[i] == name);
    if i == n - 1 {
        assert(all.last() == name);
    } else {
        let before = names.subrange(0, n - 1);
        assert(before[i] == name);
        lemma_library_names(names, kernel, (n - 1) as nat, name);
        let shorter = coff_link::library_names(names, kernel, (n - 1) as nat);
        let k = shorter.index_of(name);
        assert(all[k] == name);
    }
}

/// The number of the library that a name is imported from.
pub open spec fn library_of(name: Seq<char>) -> int {
    if coff_link::kernel32_name(name) {
        0
    } else {
        1
    }
}

/// Whether the symbol `j` of the library of a name is that name, and its slot the one of its thunk.
pub open spec fn slot_is_for(names: Seq<Seq<char>>, name: Seq<char>, j: int) -> bool {
    let entries = coff_link::import_entries(names);
    let d = library_of(name);
    &&& d < entries.len()
    &&& 0 <= j < entries[d].symbols.len()
    &&& entries[d].symbols[j] == name
    &&& import_slot(entries, d, j) == pe::import_places(entries).address + 8 * coff_link::slot_of(
        names,
        name,
    )
}

/// The slot through which the thunk of a name jumps is that of the name in the import tables: the
/// loader puts the address of the symbol with that name there.
pub proof fn law_thunk_slot_is_import_slot(names: Seq<Seq<char>>, name: Seq<char>)
    requires
        names.contains(name),
    ensures
        exists|j: int| slot_is_for(names, name, j),
{
    let entries = coff_link::import_entries(names);
    let n = names.len();
    assert(names.subrange(0, n as int) =~= names);
    if coff_link::kernel32_name(name) {
        lemma_library_names(names, true, n, name);
        let mine = coff_link::library_names(names, true, n);
        let all = coff_link::kernel_names(names);
        let k = mine.index_of(name);
        if all != mine {
            assert(all[k + 1] == name);
        }
        let j = all.index_of(name);
        assert(entries[0].symbols[j] == name);
        assert(pe::symbols_before(entries, 0) == 0);
        assert(import_slot(entries, 0, j) == pe::import_places(entries).address + 8 * j);
        assert(slot_is_for(names, name, j));
    } else {
        lemma_library_names(names, false, n, name);
        let others = coff_link::library_names(names, false, n);
        let j = others.index_of(name);
        assert(entries[1].symbols[j] == name);
        assert(pe::symbols_before(entries, 0) == 0);
        assert(pe::symbols_before(entries, 1) == coff_link::kernel_names(names).len());
        assert(import_slot(entries, 1, j) == pe::import_places(entries).address + 8 * (
        coff_link::kernel_names(names).len() + 1 + j));
        assert(slot_is_for(names, name, j));
    }
}

/// The library that a name is imported from: the kernel library or the C library.
pub open spec fn library_name(name: Seq<char>) -> Seq<char> {
    if coff_link::kernel32_name(name) {
        "KERNEL32.DLL"@
    } else {
        "ucrt.dll"@
    }
}

/// Every name that is called is imported from its library: the functions of the Windows kernel
/// from `KERNEL32.DLL`, all others from `ucrt.dll`.
pub proof fn law_names_come_from_their_library(names: Seq<Seq<char>>, name: Seq<char>)
    requires
        names.contains(name),
    ensures
        ({
            let entries = coff_link::import_entries(names);
            let d = library_of(name);
            &&& d < entries.len()
            &&& entries[d].dll_name == library_name(name)
            &&& entries[d].symbols.contains(name)
        }),
{
    law_thunk_slot_is_import_slot(names, name);
    let entries = coff_link::import_entries(names);
    let j = choose|j: int| slot_is_for(names, name, j);
    assert(entries[library_of(name)].symbols[j] == name);
}

proof fn lemma_library_names_are_names(names: Seq<Seq<char>>, kernel: bool, n: nat, j: int)
    requires
        n <= names.len(),
        0 <= j < coff_link::library_names(names, kernel, n).len(),
    ensures
        ({
            let name = coff_link::library_names(names, kernel, n)[j];
            names.contains(name) && coff_link::kernel32_name(name) == kernel
        }),
    decreases n,
{
    let before = coff_link::library_names(names, kernel, (n - 1) as nat);
    if j < before.len() {
        lemma_library_names_are_names(names, kernel, (n - 1) as nat, j);
    } else {
        assert(names.contains(names[n - 1]));
    }
}

/// Only names that are called are imported, besides `ExitProcess`, and each only from its own
/// library.
pub proof fn law_only_used_names_are_imported(names: Seq<Seq<char>>, d: int, j: int)
    requires
        0 <= d < coff_link::import_entries(names).len(),
        0 <= j < coff_link::import_entries(names)[d].symbols.len(),
    ensures
        ({
            let entry = coff_link::import_entries(names)[d];
            let name = entry.symbols[j];
            &&& names.contains(name) || name == "ExitProcess"@
            &&& entry.dll_name == library_name(name)
        }),
{
    let entry = coff_link::import_entries(names)[d];
    let n = names.len();
    if d == 1 {
        lemma_library_names_are_names(names, false, n, j);
    } else {
        let mine = coff_link::library_names(names, true, n);
        if entry.symbols == mine {
            lemma_library_names_are_names(names, true, n, j);
        } else if j > 0 {
            lemma_library_names_are_names(names, true, n, j - 1);
        }
    }
}

proof fn lemma_thunk_at(names: Seq<Seq<char>>, size: int, tables: int, n: nat, k: nat)
    requires
        k < n,
    ensures
        coff_link::thunk_code(names, size, tables, n).len() == 6 * n,
        coff_link::thunk_code(names, size, tables, n).subrange(6 * k as int, 6 * k as int + 6)
            == seq![0xffu8, 0x25u8] + bytes::le32(
            dynamic::rel32(
                tables + 8 * coff_link::slot_of(names, names[k as int]),
                size + k * 6 + 6,
            ),
        ),
    decreases n,
{
    broadcast use bytes::group_le_len;
    let all = coff_link::thunk_code(names, size, tables, n);
    let at = 6 * k as int;
    let own = seq![0xffu8, 0x25u8] + bytes::le32(
        dynamic::rel32(
            tables + 8 * coff_link::slot_of(names, names[n - 1]),
            size + (n - 1) * 6 + 6,
        ),
    );
    let before = coff_link::thunk_code(names, size, tables, (n - 1) as nat);
    if n > 1 {
        lemma_thunk_at(
            names,
            size,
            tables,
            (n - 1) as nat,
            if k < n - 1 {
                k
            } else {
                0
            },
        );
    }
    assert(before.len() == 6 * (n - 1));
    assert(all =~= before + own);
    if k < n - 1 {
        assert(all.subrange(at, at + 6) =~= before.subrange(at, at + 6));
    } else {
        assert(all.subrange(at, at + 6) =~= own);
    }
}

/// The thunk of a name, six bytes behind the one before it, jumps through the slot of the name,
/// where that is less than 2 GiB away.
pub proof fn law_thunks_jump_through_slots(
    names: Seq<Seq<char>>,
    size: int,
    tables: int,
    n: nat,
    k: nat,
)
    requires
        k < n <= names.len(),
        -0x8000_0000 <= tables + 8 * coff_link::slot_of(names, names[k as int]) - (size + k * 6 + 6)
            < 0x8000_0000,
    ensures
        ({
            let code = coff_link::thunk_code(names, size, tables, n);
            let at = 6 * k as int;
            &&& code.len() == 6 * n
            &&& code[at] == 0xff && code[at + 1] == 0x25
            &&& size + at + 6 + bytes::signed32(bytes::u32_at(code, at + 2)) == tables + 8
                * coff_link::slot_of(names, names[k as int])
        }),
{
    broadcast use bytes::group_le_len;
    let code = coff_link::thunk_code(names, size, tables, n);
    let at = 6 * k as int;
    let target = tables + 8 * coff_link::slot_of(names, names[k as int]);
    let rel = dynamic::rel32(target, size + k * 6 + 6);
    lemma_thunk_at(names, size, tables, n, k);
    let own = code.subrange(at, at + 6);
    assert(own[0] == 0xff && own[1] == 0x25);
    assert(code[at] == own[0] && code[at + 1] == own[1]);
    assert(code.subrange(at + 2, at + 6) =~= own.subrange(2, 6));
    assert(own.subrange(2, 6) =~= bytes::le32(rel));
    bytes::lemma_read_u32(code, at + 2, rel);
    dynamic::law_distance_leads_to_target(target, size + k * 6 + 6);
}

/// Where the call of the relocation `j` stands in the code.
pub open spec fn call_place(data: Seq<u8>, p: CodePlace, j: nat) -> int {
    bytes::u32_at(data, p.relocs + j * 10) as int
}

/// Whether the relocation `j` is for a call of an imported name, in a code of `len` bytes.
pub open spec fn calls_import(
    data: Seq<u8>,
    p: CodePlace,
    names: Seq<Seq<char>>,
    imports: Seq<Seq<char>>,
    j: nat,
    len: nat,
) -> bool {
    let at = p.relocs + j * 10;
    let symbol = bytes::u32_at(data, at + 4);
    &&& j < p.count && at + 10 <= data.len()
    &&& bytes::u16_at(data, at + 8) == IMAGE_REL_AMD64_REL32
    &&& symbol < names.len() && names[symbol as int].len() != 0
    &&& imports.contains(names[symbol as int])
    &&& call_place(data, p, j) + 4 <= len
}

/// The name that the relocation `j` is for.
pub open spec fn called_name(
    data: Seq<u8>,
    p: CodePlace,
    names: Seq<Seq<char>>,
    j: nat,
) -> Seq<char> {
    names[bytes::u32_at(data, p.relocs + j * 10 + 4) as int]
}

pub proof fn lemma_other_calls_keep(
    data: Seq<u8>,
    p: CodePlace,
    names: Seq<Seq<char>>,
    imports: Seq<Seq<char>>,
    i: nat,
    text: Seq<u8>,
    k: int,
)
    requires
        0 <= k < text.len(),
        forall|j: nat|
            i <= j < p.count ==> !(#[trigger] call_place(data, p, j) <= k < call_place(data, p, j)
                + 4),
    ensures
        coff_link::turned_calls(data, p, names, imports, i, text).len() == text.len(),
        coff_link::turned_calls(data, p, names, imports, i, text)[k] == text[k],
    decreases p.count - i,
{
    broadcast use bytes::group_le_len;
    let at = p.relocs + i * 10;
    if i < p.count && at + 10 <= data.len() {
        let place = bytes::u32_at(data, at);
        assert(place == call_place(data, p, i));
        let symbol = bytes::u32_at(data, at + 4);
        let next = if bytes::u16_at(data, at + 8) == IMAGE_REL_AMD64_REL32 && symbol < names.len()
            && names[symbol as int].len() != 0 && imports.contains(names[symbol as int]) && place
            + 4 <= text.len() {
            let thunk = imports.index_of(names[symbol as int]);
            bytes::patch(
                text,
                place as int,
                bytes::le32(dynamic::rel32(p.size + thunk * 6, place + 4)),
            )
        } else {
            text
        };
        lemma_other_calls_keep(data, p, names, imports, i + 1, next, k);
    }
}

/// A call of an imported name goes to the thunk of that name: the distance at its place leads from
/// the end of the call to the thunk, behind the code, if that is less than 2 GiB away and no later
/// relocation changes the place.
pub proof fn law_calls_go_to_thunks(
    data: Seq<u8>,
    p: CodePlace,
    names: Seq<Seq<char>>,
    imports: Seq<Seq<char>>,
    i: nat,
    text: Seq<u8>,
    n: nat,
)
    requires
        i <= n,
        calls_import(data, p, names, imports, n, text.len()),
        forall|j: nat|
            n < j < p.count ==> call_place(data, p, n) + 4 <= #[trigger] call_place(data, p, j)
                || call_place(data, p, j) + 4 <= call_place(data, p, n),
        -0x8000_0000 <= p.size + 6 * imports.index_of(called_name(data, p, names, n)) - (call_place(
            data,
            p,
            n,
        ) + 4) < 0x8000_0000,
    ensures
        ({
            let turned = coff_link::turned_calls(data, p, names, imports, i, text);
            let place = call_place(data, p, n);
            place + 4 + bytes::signed32(bytes::u32_at(turned, place)) == p.size + 6
                * imports.index_of(called_name(data, p, names, n))
        }),
    decreases n - i,
{
    broadcast use bytes::group_le_len;
    let at = p.relocs + i * 10;
    let place = bytes::u32_at(data, at);
    let symbol = bytes::u32_at(data, at + 4);
    let thunk = imports.index_of(names[symbol as int]);
    let rel = dynamic::rel32(p.size + thunk * 6, place + 4);
    let next = if bytes::u16_at(data, at + 8) == IMAGE_REL_AMD64_REL32 && symbol < names.len()
        && names[symbol as int].len() != 0 && imports.contains(names[symbol as int]) && place + 4
        <= text.len() {
        bytes::patch(text, place as int, bytes::le32(rel))
    } else {
        text
    };
    if i < n {
        law_calls_go_to_thunks(data, p, names, imports, i + 1, next, n);
    } else {
        let turned = coff_link::turned_calls(data, p, names, imports, i, text);
        assert forall|k: int| place <= k < place + 4 implies turned[k] == next[k] by {
            lemma_other_calls_keep(data, p, names, imports, i + 1, next, k);
        }
        lemma_other_calls_keep(data, p, names, imports, i + 1, next, place as int);
        assert(turned.subrange(place as int, place + 4) =~= bytes::le32(rel));
        bytes::lemma_read_u32(turned, place as int, rel);
        dynamic::law_distance_leads_to_target(p.size + thunk * 6, place + 4);
    }
}

proof fn lemma_directory_entry(entries: Seq<ImportModel>, rva: int, k: nat, d: nat)
    requires
        d < k,
    ensures
        ({
            let all = pe::import_directory(entries, rva, k);
            let p = pe::import_places(entries);
            let slot = 8 * (pe::symbols_before(entries, d) + d);
            let at = 20 * d as int;
            &&& all.len() == 20 * k
            &&& all.subrange(at, at + 4) == bytes::le32((rva + p.lookup + slot) as u32)
            &&& all.subrange(at + 12, at + 16) == bytes::le32(
                (rva + p.dlls + pe::dll_names(entries, d).len()) as u32,
            )
            &&& all.subrange(at + 16, at + 20) == bytes::le32((rva + p.address + slot) as u32)
        }),
    decreases k,
{
    broadcast use bytes::group_le_len;
    let all = pe::import_directory(entries, rva, k);
    let before = pe::import_directory(entries, rva, (k - 1) as nat);
    let p = pe::import_places(entries);
    let slot = 8 * (pe::symbols_before(entries, d) + d);
    let at = 20 * d as int;
    lemma_import_directory_len(entries, rva, (k - 1) as nat);
    if d < k - 1 {
        lemma_directory_entry(entries, rva, (k - 1) as nat, d);
        assert(all.subrange(at, at + 4) =~= before.subrange(at, at + 4));
        assert(all.subrange(at + 12, at + 16) =~= before.subrange(at + 12, at + 16));
        assert(all.subrange(at + 16, at + 20) =~= before.subrange(at + 16, at + 20));
    } else {
        assert(all.subrange(at, at + 4) =~= bytes::le32((rva + p.lookup + slot) as u32));
        assert(all.subrange(at + 12, at + 16) =~= bytes::le32(
            (rva + p.dlls + pe::dll_names(entries, d).len()) as u32,
        ));
        assert(all.subrange(at + 16, at + 20) =~= bytes::le32((rva + p.address + slot) as u32));
    }
}

proof fn lemma_dll_names(entries: Seq<ImportModel>, k: nat, d: nat)
    requires
        d < k,
    ensures
        ({
            let all = pe::dll_names(entries, k);
            let at = pe::dll_names(entries, d).len() as int;
            let name = encode_utf8(entries[d as int].dll_name);
            &&& at + name.len() + 1 <= all.len()
            &&& all.subrange(at, at + name.len()) == name
            &&& all[at + name.len()] == 0
        }),
    decreases k,
{
    let all = pe::dll_names(entries, k);
    let before = pe::dll_names(entries, (k - 1) as nat);
    let at = pe::dll_names(entries, d).len() as int;
    let name = encode_utf8(entries[d as int].dll_name);
    if d < k - 1 {
        lemma_dll_names(entries, (k - 1) as nat, d);
        assert(all.subrange(at, at + name.len()) =~= before.subrange(at, at + name.len()));
    } else {
        assert(all.subrange(at, at + name.len()) =~= name);
    }
}

/// The entry of a library in the directory leads to its name, ended by a zero, and to its address
/// table, which holds a slot for each of its symbols, one behind the other.
pub proof fn law_directory_names_libraries(entries: Seq<ImportModel>, rva: int, d: int)
    requires
        0 <= rva,
        pe::imports_fit(entries, rva),
        0 <= d < entries.len(),
    ensures
        ({
            let section = pe::import_section(entries, rva);
            let at = 20 * d;
            let name = encode_utf8(entries[d].dll_name);
            let place = bytes::u32_at(section, at + 12) - rva;
            &&& at + 20 <= section.len()
            &&& 0 <= place && place + name.len() + 1 <= section.len()
            &&& section.subrange(place, place + name.len()) == name
            &&& section[place + name.len()] == 0
            &&& bytes::u32_at(section, at + 16) - rva == import_slot(entries, d, 0)
            &&& bytes::u32_at(section, at + 16) - bytes::u32_at(section, at)
                == pe::import_places(entries).address - pe::import_places(entries).lookup
        }),
{
    broadcast use bytes::group_le_len;
    let n = entries.len();
    let names = pe::all_symbols(entries, n);
    let p = pe::import_places(entries);
    let tables = pe::thunk_tables(entries, names, rva + p.records, n);
    let records = pe::hint_records(names, names.len());
    let directory = pe::import_directory(entries, rva, n);
    let dlls = pe::dll_names(entries, n);
    let gap = bytes::zeros(pe::file_padding(p.end));
    let section = pe::import_section(entries, rva);
    let slot = 8 * (pe::symbols_before(entries, d as nat) + d);
    let name = encode_utf8(entries[d].dll_name);
    let start = pe::dll_names(entries, d as nat).len() as int;
    let at = 20 * d;
    lemma_directory_entry(entries, rva, n, d as nat);
    lemma_dll_names(entries, n, d as nat);
    lemma_thunk_tables(entries, names, rva + p.records, n, 0, 0);
    lemma_symbols_before(entries, d as nat, n);
    lemma_all_symbols_len(entries, n);
    assert(section.subrange(0, 20 * n as int) =~= directory);
    assert(section.subrange(p.dlls, p.dlls + dlls.len()) =~= dlls);
    bytes::lemma_in_part(section, 0, directory, at, at + 4);
    bytes::lemma_in_part(section, 0, directory, at + 12, at + 16);
    bytes::lemma_in_part(section, 0, directory, at + 16, at + 20);
    bytes::lemma_read_u32(section, at, (rva + p.lookup + slot) as u32);
    bytes::lemma_read_u32(section, at + 12, (rva + p.dlls + start) as u32);
    bytes::lemma_read_u32(section, at + 16, (rva + p.address + slot) as u32);
    bytes::lemma_in_part(section, p.dlls, dlls, start, start + name.len());
    assert(section[p.dlls + start + name.len()] == dlls[start + name.len()]);
}

} // verus!

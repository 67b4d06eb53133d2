//! Linking a single COFF object into a Windows executable.
//!
//! Calls of names that the object does not define go through thunks behind its
//! code, which jump to the addresses that the loader fills in.
use vstd::prelude::*;
use vstd::string::*;
use crate::bytes;
use crate::bytes::{has_bytes, offset_index, push_u32, read_u16_le, read_u32_le, write_u32};
use crate::coff;
use crate::coff::{IMAGE_SYM_CLASS_EXTERNAL, coff_symbol_name};
use crate::emit::pe;
use crate::emit::pe::{ImportEntry, ImportModel, PeFields, emit_pe_raw, pe_section_list, plan_pe};
use crate::link;
use crate::link::dynamic;
use crate::link::dynamic::low_difference;
use crate::model;
use crate::names;
use crate::names::{NameList, NameMap, clone_names};
use crate::segment;
use crate::text::str_eq;

verus! {

pub const IMAGE_REL_AMD64_REL32: u16 = 4;

/// Whether a name belongs to the Windows kernel library; all others belong to the C library,
/// `ucrt.dll`.
pub open spec fn kernel32_name(name: Seq<char>) -> bool {
    name == "ExitProcess"@ || name == "GetStdHandle"@ || name == "WriteFile"@ || name
        == "WriteConsoleA"@ || name == "WriteConsoleW"@ || name == "ReadFile"@ || name
        == "CloseHandle"@ || name == "CreateFileA"@ || name == "CreateFileW"@ || name
        == "VirtualAlloc"@ || name == "VirtualFree"@ || name == "GetLastError"@ || name
        == "SetLastError"@ || name == "LoadLibraryA"@ || name == "GetProcAddress"@ || name
        == "FreeLibrary"@ || name == "HeapAlloc"@ || name == "HeapFree"@ || name
        == "GetProcessHeap"@
}

/// Whether a name belongs to the Windows kernel library.
pub fn is_kernel32_symbol(name: &str) -> (r: bool)
    ensures
        r == kernel32_name(name@),
{
    str_eq(name, "ExitProcess") || str_eq(name, "GetStdHandle") || str_eq(name, "WriteFile")
        || str_eq(name, "WriteConsoleA") || str_eq(name, "WriteConsoleW") || str_eq(
        name,
        "ReadFile",
    ) || str_eq(name, "CloseHandle") || str_eq(name, "CreateFileA") || str_eq(name, "CreateFileW")
        || str_eq(name, "VirtualAlloc") || str_eq(name, "VirtualFree") || str_eq(
        name,
        "GetLastError",
    ) || str_eq(name, "SetLastError") || str_eq(name, "LoadLibraryA") || str_eq(
        name,
        "GetProcAddress",
    ) || str_eq(name, "FreeLibrary") || str_eq(name, "HeapAlloc") || str_eq(name, "HeapFree")
        || str_eq(name, "GetProcessHeap")
}

/// The integer at `off`, or zero where the file does not reach that far.
pub open spec fn word_or_zero(data: Seq<u8>, off: int) -> u32 {
    match bytes::get_u32(data, off) {
        Some(v) => v,
        None => 0,
    }
}

/// The integer at `off`, or zero where the file does not reach that far.
pub open spec fn half_or_zero(data: Seq<u8>, off: int) -> u16 {
    match bytes::get_u16(data, off) {
        Some(v) => v,
        None => 0,
    }
}

/// The string table behind the symbol table.
pub open spec fn object_strtab(data: Seq<u8>, table: int, count: int) -> Seq<u8> {
    let off = table + count * 18;
    let len = data.len() as int;
    let size = if off + 4 <= len {
        bytes::u32_at(data, off) as int
    } else {
        4
    };
    let start = if off < len {
        off
    } else {
        len
    };
    data.subrange(
        start,
        if off + size < len {
            off + size
        } else {
            len
        },
    )
}

/// `n` empty names.
pub open spec fn blank_names(n: nat) -> Seq<Seq<char>> {
    Seq::new(n, |i: int| Seq::<char>::empty())
}

/// `found`, followed by the names of the symbol records from `i` on. The auxiliary records that
/// follow a symbol, counted by its byte 16, have empty names.
pub open spec fn record_names(
    data: Seq<u8>,
    table: int,
    count: nat,
    strtab: Seq<u8>,
    i: nat,
    found: Seq<Seq<char>>,
) -> Seq<Seq<char>>
    decreases
            (if i < count {
                count - i
            } else {
                0
            }),
{
    let at = table + i * 18;
    if i >= count || at + 18 > data.len() {
        found
    } else {
        let aux = data[at + 16] as nat;
        record_names(
            data,
            table,
            count,
            strtab,
            i + 1 + aux,
            found.push(coff::coff_name(data, at, strtab)) + blank_names(aux),
        )
    }
}

/// Whether the record `i` stands for an external name that is not defined.
pub open spec fn needs_import(data: Seq<u8>, table: int, i: int) -> bool {
    let at = table + i * 18;
    at + 18 <= data.len() && bytes::u16_at(data, at + 12) == 0 && data[at + 17]
        == IMAGE_SYM_CLASS_EXTERNAL
}

/// `found` with the undefined names among the records from `i` on.
pub open spec fn import_names(
    data: Seq<u8>,
    table: int,
    names: Seq<Seq<char>>,
    i: nat,
    found: Seq<Seq<char>>,
) -> Seq<Seq<char>>
    decreases names.len() - i,
{
    if i >= names.len() {
        found
    } else {
        import_names(
            data,
            table,
            names,
            i + 1,
            if names[i as int].len() != 0 && needs_import(data, table, i as int) {
                names::add_name(found, names[i as int])
            } else {
                found
            },
        )
    }
}

/// The value of the first symbol at or after `i` that is named `main` or `_main`; zero where
/// there is none.
pub open spec fn main_value(data: Seq<u8>, table: int, names: Seq<Seq<char>>, i: nat) -> u32
    decreases names.len() - i,
{
    if i >= names.len() {
        0
    } else if names[i as int] == "main"@ || names[i as int] == "_main"@ {
        if table + i * 18 + 18 <= data.len() {
            bytes::u32_at(data, table + i * 18 + 8)
        } else {
            0
        }
    } else {
        main_value(data, table, names, i + 1)
    }
}

/// A section with code: where its bytes and its relocations stand.
pub struct CodePlace {
    pub offset: u32,
    pub size: u32,
    pub relocs: u32,
    pub count: u16,
}

/// The first section at or after `i` whose code the file holds.
pub open spec fn code_section(data: Seq<u8>, n: nat, i: nat) -> Option<CodePlace>
    decreases n - i,
{
    let at = 20 + i * 40;
    if i >= n || at + 40 > data.len() {
        None
    } else {
        let p = CodePlace {
            offset: bytes::u32_at(data, (at + 20) as int),
            size: bytes::u32_at(data, (at + 16) as int),
            relocs: bytes::u32_at(data, (at + 24) as int),
            count: bytes::u16_at(data, (at + 32) as int),
        };
        if bytes::u32_at(data, (at + 36) as int) & 0x20 != 0 && p.size > 0 && p.offset + p.size
            <= data.len() {
            Some(p)
        } else {
            code_section(data, n, i + 1)
        }
    }
}

/// `text` with the calls of the relocations from `i` on turned to the thunks of the names that
/// they are for. The thunks stand behind the code, `size` bytes from its start.
pub open spec fn turned_calls(
    data: Seq<u8>,
    p: CodePlace,
    names: Seq<Seq<char>>,
    imports: Seq<Seq<char>>,
    i: nat,
    text: Seq<u8>,
) -> Seq<u8>
    decreases p.count - i,
{
    let at = p.relocs + i * 10;
    if i >= p.count || at + 10 > data.len() {
        text
    } else {
        let place = bytes::u32_at(data, at);
        let symbol = bytes::u32_at(data, at + 4);
        let next = if bytes::u16_at(data, at + 8) == IMAGE_REL_AMD64_REL32 && symbol < names.len()
            && names[symbol as int].len() != 0 && imports.contains(names[symbol as int]) && place
            + 4 <= text.len() {
            let thunk = imports.index_of(names[symbol as int]);
            bytes::patch(
                text,
                place as int,
                bytes::le32(dynamic::rel32(p.size + thunk * 6, place + 4)),
            )
        } else {
            text
        };
        turned_calls(data, p, names, imports, i + 1, next)
    }
}

/// The names among the first `n` that belong, or do not belong, to the kernel library.
pub open spec fn library_names(names: Seq<Seq<char>>, kernel: bool, n: nat) -> Seq<Seq<char>>
    decreases n,
{
    if n == 0 {
        seq![]
    } else {
        let before = library_names(names, kernel, (n - 1) as nat);
        if kernel32_name(names[n - 1]) == kernel {
            before.push(names[n - 1])
        } else {
            before
        }
    }
}

/// The names to import from the kernel library: `ExitProcess` in any case.
pub open spec fn kernel_names(names: Seq<Seq<char>>) -> Seq<Seq<char>> {
    let mine = library_names(names, true, names.len());
    if mine.contains("ExitProcess"@) {
        mine
    } else {
        seq!["ExitProcess"@] + mine
    }
}

/// The libraries to import from.
pub open spec fn import_entries(names: Seq<Seq<char>>) -> Seq<ImportModel> {
    let kernel = ImportModel { dll_name: "KERNEL32.DLL"@, symbols: kernel_names(names) };
    let others = library_names(names, false, names.len());
    if others.len() == 0 {
        seq![kernel]
    } else {
        seq![kernel, ImportModel { dll_name: "ucrt.dll"@, symbols: others }]
    }
}

/// The position of a name in the address tables.
pub open spec fn slot_of(names: Seq<Seq<char>>, name: Seq<char>) -> int {
    if kernel32_name(name) {
        kernel_names(names).index_of(name)
    } else {
        kernel_names(names).len() + 1 + library_names(names, false, names.len()).index_of(name)
    }
}

/// The thunks of the first `k` names: each jumps to the address in the slot of its name. The
/// distances count from the start of the code.
pub open spec fn thunk_code(names: Seq<Seq<char>>, size: int, tables: int, k: nat) -> Seq<u8>
    decreases k,
{
    if k == 0 {
        seq![]
    } else {
        thunk_code(names, size, tables, (k - 1) as nat) + seq![0xffu8, 0x25u8] + bytes::le32(
            dynamic::rel32(
                tables + 8 * slot_of(names, names[k - 1]),
                (size + (k - 1) * 6 + 6) as int,
            ),
        )
    }
}

/// What is read from the object.
pub struct CoffInput {
    pub names: Seq<Seq<char>>,
    pub imports: Seq<Seq<char>>,
    pub code: CodePlace,
    pub text: Seq<u8>,
    pub main: u32,
}

/// What is read from the object.
pub open spec fn coff_input(data: Seq<u8>) -> CoffInput {
    let table = word_or_zero(data, 8) as int;
    let count = word_or_zero(data, 12) as int;
    let strtab = object_strtab(data, table, count);
    let names = record_names(data, table, count as nat, strtab, 0, seq![]);
    let code = match code_section(data, half_or_zero(data, 2) as nat, 0) {
        Some(p) => p,
        None => CodePlace { offset: 0, size: 0, relocs: 0, count: 0 },
    };
    CoffInput {
        names,
        imports: import_names(data, table, names, 0, seq![]),
        code,
        text: if code.size > 0 {
            data.subrange(code.offset as int, code.offset + code.size)
        } else {
            seq![]
        },
        main: main_value(data, table, names, 0),
    }
}

/// The executable for a COFF object.
pub open spec fn coff_executable(data: Seq<u8>) -> Result<Seq<u8>, Seq<char>> {
    let c = coff_input(data);
    let entries = import_entries(c.imports);
    let size = c.text.len() as int;
    let total = size + 6 * c.imports.len();
    let p = pe::pe_plan(total, 0, entries);
    if !pe::pe_fits(total, 0, entries) {
        Err(link::layout_too_large())
    } else {
        let tables = p.rdata_rva + pe::import_places(entries).address - 0x1000;
        let text = finished_code(data, c, tables);
        Ok(
            pe::pe_file(
                PeFields {
                    linker_version: 0,
                    code_size: 0,
                    data_size: 0,
                    entry_rva: ((0x1000 + c.main) as u64) as u32,
                    image_size: p.image_size as u32,
                    import_rva: p.rdata_rva as u32,
                    import_size: (20 * entries.len()) as u32,
                    iat_rva: (p.rdata_rva + pe::import_places(entries).address) as u32,
                    iat_size: (8 * (pe::symbols_before(entries, entries.len())
                        + entries.len())) as u32,
                },
                pe::pe_sections(text, seq![], p),
            ),
        )
    }
}

/// The position of each name.
fn number_names(names: &Vec<String>) -> (r: NameMap<usize>)
    requires
        model::views(names@).no_duplicates(),
    ensures
        forall|x: Seq<char>| #[trigger] r@.dom().contains(x) <==> model::views(names@).contains(x),
        forall|x: Seq<char>| #[trigger]
            r@.dom().contains(x) ==> r@[x] == model::views(names@).index_of(x)
                && r@[x] < names@.len(),
{
    let ghost s = model::views(names@);
    let mut out: NameMap<usize> = NameMap::new();
    let mut i: usize = 0;
    while i < names.len()
        invariant
            i <= names@.len(),
            s == model::views(names@),
            s.no_duplicates(),
            forall|x: Seq<char>| #[trigger]
                out@.dom().contains(x) <==> exists|j: int| 0 <= j < i && (#[trigger] s[j]) == x,
            forall|j: int| 0 <= j < i ==> out@[#[trigger] s[j]] == j,
        decreases names@.len() - i,
    {
        let ghost prior = out@;
        assert(s[i as int] == names@[i as int]@);
        out.insert(names[i].clone(), i);
        proof {
            assert forall|x: Seq<char>| #[trigger] out@.dom().contains(x) <==> exists|j: int|
                0 <= j < i + 1 && (#[trigger] s[j]) == x by {
                if x == s[i as int] {
                    assert(out@.dom().contains(x));
                } else {
                    assert(out@.dom().contains(x) <==> prior.dom().contains(x));
                }
            }
            assert forall|j: int| 0 <= j < i + 1 implies out@[#[trigger] s[j]] == j by {
                if j < i {
                    assert(s[j] != s[i as int]);
                }
            }
        }
        i = i + 1;
    }
    proof {
        assert forall|x: Seq<char>| #[trigger] out@.dom().contains(x) implies out@[x]
            == s.index_of(x)
            && out@[x] < names@.len() by {
            let j = choose|j: int| 0 <= j < i && (#[trigger] s[j]) == x;
            let k = s.index_of(x);
            assert(s.contains(x));
            assert(s[k] == x && 0 <= k < s.len());
        }
        assert forall|x: Seq<char>| #[trigger] out@.dom().contains(x) <==> s.contains(x) by {
            if s.contains(x) {
                let k = s.index_of(x);
                assert(s[k] == x);
            }
        }
    }
    out
}

fn find_object_strtab<'a>(data: &'a [u8], table: u64, count: u64) -> (r: &'a [u8])
    requires
        table <= u32::MAX,
        count <= u32::MAX,
    ensures
        r@ == object_strtab(data@, table as int, count as int),
{
    let len: u64 = data.len() as u64;
    let off: u64 = table + count * 18;
    let size: u64 = match read_u32_le(data, offset_index(off)) {
        Some(v) => v as u64,
        None => 4,
    };
    let start: u64 = if off < len {
        off
    } else {
        len
    };
    let end: u64 = if off + size < len {
        off + size
    } else {
        len
    };
    vstd::slice::slice_subrange(data, start as usize, end as usize)
}

fn read_record_names(data: &[u8], table: u64, count: u64, strtab: &[u8]) -> (r: Vec<String>)
    requires
        table <= u32::MAX,
        count <= u32::MAX,
    ensures
        model::views(r@) == record_names(data@, table as int, count as nat, strtab@, 0, seq![]),
{
    broadcast use model::group_views;
    let len: u64 = data.len() as u64;
    let mut out: Vec<String> = Vec::new();
    let mut i: u64 = 0;
    let ghost total = record_names(data@, table as int, count as nat, strtab@, 0, seq![]);
    while i < count && table + i * 18 + 18 <= len
        invariant
            table <= u32::MAX,
            count <= u32::MAX,
            i <= count + 256,
            len == data@.len(),
            len <= usize::MAX,
            total == record_names(
                data@,
                table as int,
                count as nat,
                strtab@,
                i as nat,
                model::views(out@),
            ),
        decreases count + 256 - i,
    {
        broadcast use model::group_views;
        let at: usize = (table + i * 18) as usize;
        let aux: u8 = data[at + 16];
        let ghost before = model::views(out@);
        out.push(coff_symbol_name(data, at, strtab));
        let ghost named = model::views(out@);
        let mut k: u8 = 0;
        assert(model::views(out@) =~= named + blank_names(0));
        while k < aux
            invariant
                k <= aux,
                model::views(out@) == named + blank_names(k as nat),
            decreases aux - k,
        {
            broadcast use model::group_views;
            let blank = String::new();
            assert(blank@ =~= Seq::<char>::empty());
            out.push(blank);
            assert(model::views(out@) =~= named + blank_names((k + 1) as nat));
            k = k + 1;
        }
        i = i + 1 + aux as u64;
    }
    out
}

fn collect_import_names(data: &[u8], table: u64, names: &Vec<String>) -> (r: NameList)
    requires
        table <= u32::MAX,
    ensures
        r@ == import_names(data@, table as int, model::views(names@), 0, seq![]),
{
    let ghost models = model::views(names@);
    let len: u64 = data.len() as u64;
    let mut found = NameList::new();
    let mut i: usize = 0;
    let mut at: u64 = table;
    while i < names.len()
        invariant
            i <= names@.len(),
            models == model::views(names@),
            len == data@.len(),
            len <= usize::MAX,
            table + i * 18 <= u64::MAX ==> at == table + i * 18,
            table + i * 18 > u64::MAX ==> at == u64::MAX,
            import_names(data@, table as int, models, 0, seq![]) == import_names(
                data@,
                table as int,
                models,
                i as nat,
                found@,
            ),
        decreases names@.len() - i,
    {
        assert(models[i as int] == names@[i as int]@);
        if names[i].as_str().unicode_len() != 0 && at <= len && len - at >= 18 {
            let rec: usize = at as usize;
            let section: u16 = read_u16_le(data, rec + 12).unwrap();
            if section == 0 && data[rec + 17] == IMAGE_SYM_CLASS_EXTERNAL {
                found.insert(names[i].clone());
            }
        }
        at = if at > u64::MAX - 18 {
            u64::MAX
        } else {
            at + 18
        };
        i = i + 1;
    }
    found
}

fn find_main(data: &[u8], table: u64, names: &Vec<String>) -> (r: u32)
    requires
        table <= u32::MAX,
    ensures
        r == main_value(data@, table as int, model::views(names@), 0),
{
    let ghost models = model::views(names@);
    let len: u64 = data.len() as u64;
    let mut i: usize = 0;
    let mut at: u64 = table;
    while i < names.len()
        invariant
            i <= names@.len(),
            models == model::views(names@),
            len == data@.len(),
            len <= usize::MAX,
            table + i * 18 <= u64::MAX ==> at == table + i * 18,
            table + i * 18 > u64::MAX ==> at == u64::MAX,
            main_value(data@, table as int, models, 0) == main_value(
                data@,
                table as int,
                models,
                i as nat,
            ),
        decreases names@.len() - i,
    {
        assert(models[i as int] == names@[i as int]@);
        if str_eq(names[i].as_str(), "main") || str_eq(names[i].as_str(), "_main") {
            if at <= len && len - at >= 18 {
                return read_u32_le(data, at as usize + 8).unwrap();
            }
            return 0;
        }
        at = if at > u64::MAX - 18 {
            u64::MAX
        } else {
            at + 18
        };
        i = i + 1;
    }
    0
}

fn find_code_section(data: &[u8], n: u16) -> (r: Option<CodePlace>)
    ensures
        r == code_section(data@, n as nat, 0),
        r matches Some(p) ==> p.size > 0 && p.offset + p.size <= data@.len(),
{
    let len: u64 = data.len() as u64;
    let mut i: u16 = 0;
    while i < n && 20 + i as u64 * 40 + 40 <= len
        invariant
            i <= n,
            len == data@.len(),
            len <= usize::MAX,
            code_section(data@, n as nat, 0) == code_section(data@, n as nat, i as nat),
        decreases n - i,
    {
        let at: usize = 20 + i as usize * 40;
        let offset: u32 = read_u32_le(data, at + 20).unwrap();
        let size: u32 = read_u32_le(data, at + 16).unwrap();
        let relocs: u32 = read_u32_le(data, at + 24).unwrap();
        let count: u16 = read_u16_le(data, at + 32).unwrap();
        let flags: u32 = read_u32_le(data, at + 36).unwrap();
        if flags & 0x20 != 0 && size > 0 && offset as u64 + size as u64 <= len {
            return Some(CodePlace { offset, size, relocs, count });
        }
        i = i + 1;
    }
    None
}

fn turn_calls(
    data: &[u8],
    p: &CodePlace,
    names: &Vec<String>,
    imports: &Vec<String>,
    text: &mut Vec<u8>,
)
    requires
        model::views(imports@).no_duplicates(),
        p.size + 6 * imports@.len() <= u32::MAX,
    ensures
        final(text)@ == turned_calls(data@, *p, model::views(names@), model::views(imports@), 0,
            old(text)@),
        final(text)@.len() == old(text)@.len(),
{
    broadcast use bytes::group_le_len;
    let numbers = number_names(imports);
    let ghost models = model::views(names@);
    let ghost wanted = model::views(imports@);
    let len: u64 = data.len() as u64;
    let mut i: u16 = 0;
    while i < p.count && p.relocs as u64 + i as u64 * 10 + 10 <= len
        invariant
            i <= p.count,
            len == data@.len(),
            len <= usize::MAX,
            models == model::views(names@),
            wanted == model::views(imports@),
            p.size + 6 * imports@.len() <= u32::MAX,
            forall|x: Seq<char>| #[trigger] numbers@.dom().contains(x) <==> wanted.contains(x),
            forall|x: Seq<char>| #[trigger]
                numbers@.dom().contains(x) ==> numbers@[x] == wanted.index_of(x) && numbers@[x]
                    < imports@.len(),
            text@.len() == old(text)@.len(),
            turned_calls(data@, *p, models, wanted, 0, old(text)@) == turned_calls(
                data@,
                *p,
                models,
                wanted,
                i as nat,
                text@,
            ),
        decreases p.count - i,
    {
        broadcast use bytes::group_le_len;
        let at: usize = p.relocs as usize + i as usize * 10;
        let place: u32 = read_u32_le(data, at).unwrap();
        let symbol: usize = read_u32_le(data, at + 4).unwrap() as usize;
        let kind: u16 = read_u16_le(data, at + 8).unwrap();
        if kind == IMAGE_REL_AMD64_REL32 && symbol < names.len() {
            assert(models[symbol as int] == names@[symbol as int]@);
            if names[symbol].as_str().unicode_len() != 0 {
                if let Some(thunk) = numbers.get(names[symbol].as_str()) {
                    if has_bytes(text.as_slice(), place as usize, 4) {
                        let target: u64 = p.size as u64 + *thunk as u64 * 6;
                        write_u32(text, place as usize, low_difference(target, place as u64 + 4));
                    }
                }
            }
        }
        i = i + 1;
    }
}

proof fn lemma_library_names(names: Seq<Seq<char>>, kernel: bool, n: nat)
    requires
        names.no_duplicates(),
        n <= names.len(),
    ensures
        library_names(names, kernel, n).no_duplicates(),
        forall|x: Seq<char>| #[trigger]
            library_names(names, kernel, n).contains(x) <==> kernel32_name(x) == kernel && exists|
                j: int,
            |
                0 <= j < n && (#[trigger] names[j]) == x,
        library_names(names, kernel, n).len() <= n,
    decreases n,
{
    if n > 0 {
        lemma_library_names(names, kernel, (n - 1) as nat);
        let before = library_names(names, kernel, (n - 1) as nat);
        let last = names[n - 1];
        let after = library_names(names, kernel, n);
        assert(!before.contains(last)) by {
            if before.contains(last) {
                let j = choose|j: int| 0 <= j < n - 1 && (#[trigger] names[j]) == last;
                assert(names[j] != names[n - 1]);
            }
        }
        if kernel32_name(last) == kernel {
            assert(after == before.push(last));
            assert forall|i: int, j: int| 0 <= i < after.len() && 0 <= j < after.len()
                && i != j implies after[i]
                != after[j] by {
                if i < before.len() && j < before.len() {
                    assert(before[i] != before[j]);
                } else if i < before.len() {
                    assert(before.contains(before[i]));
                } else {
                    assert(before.contains(before[j]));
                }
            }
        }
        assert forall|x: Seq<char>| #[trigger] after.contains(x) <==> kernel32_name(x) == kernel
            && exists|
            j: int,
        | 0 <= j < n && (#[trigger] names[j]) == x by {
            if after.contains(x) {
                let i = after.index_of(x);
                if i < before.len() {
                    assert(before[i] == x);
                    assert(before.contains(x));
                } else {
                    assert(names[n - 1] == x);
                }
            }
            if kernel32_name(x) == kernel && exists|j: int| 0 <= j < n && (#[trigger] names[j])
                == x {
                let j = choose|j: int| 0 <= j < n && (#[trigger] names[j]) == x;
                if j < n - 1 {
                    assert(before.contains(x));
                    let i = before.index_of(x);
                    assert(after[i] == x);
                } else {
                    assert(after[before.len() as int] == x);
                }
            }
        }
    }
}

fn collect_library_names(names: &Vec<String>, kernel: bool) -> (r: Vec<String>)
    ensures
        model::views(r@) == library_names(model::views(names@), kernel, names@.len()),
{
    broadcast use model::group_views;
    let mut out: Vec<String> = Vec::new();
    let mut i: usize = 0;
    while i < names.len()
        invariant
            i <= names@.len(),
            model::views(out@) == library_names(model::views(names@), kernel, i as nat),
        decreases names@.len() - i,
    {
        broadcast use model::group_views;
        assert(model::views(names@)[i as int] == names@[i as int]@);
        if is_kernel32_symbol(names[i].as_str()) == kernel {
            out.push(names[i].clone());
        }
        i = i + 1;
    }
    out
}

fn contains_name(names: &Vec<String>, x: &str) -> (r: bool)
    ensures
        r == model::views(names@).contains(x@),
{
    let ghost s = model::views(names@);
    let mut i: usize = 0;
    while i < names.len()
        invariant
            i <= names@.len(),
            s == model::views(names@),
            forall|k: int| 0 <= k < i ==> (#[trigger] s[k]) != x@,
        decreases names@.len() - i,
    {
        assert(s[i as int] == names@[i as int]@);
        if str_eq(names[i].as_str(), x) {
            return true;
        }
        i = i + 1;
    }
    false
}

fn collect_kernel_names(names: &Vec<String>) -> (r: Vec<String>)
    ensures
        model::views(r@) == kernel_names(model::views(names@)),
{
    broadcast use model::group_views;
    let mut mine = collect_library_names(names, true);
    if contains_name(&mine, "ExitProcess") {
        return mine;
    }
    let mut out: Vec<String> = Vec::new();
    out.push("ExitProcess".to_string());
    let ghost rest = mine@;
    out.append(&mut mine);
    assert(model::views(out@) =~= seq!["ExitProcess"@] + model::views(rest));
    out
}

proof fn lemma_kernel_names(names: Seq<Seq<char>>)
    requires
        names.no_duplicates(),
    ensures
        kernel_names(names).no_duplicates(),
        forall|x: Seq<char>|
            kernel32_name(x) && names.contains(x) ==> #[trigger] kernel_names(names).contains(x),
        kernel_names(names).len() <= names.len() + 1,
{
    lemma_library_names(names, true, names.len());
    let mine = library_names(names, true, names.len());
    let k = kernel_names(names);
    if !mine.contains("ExitProcess"@) {
        assert forall|i: int, j: int| 0 <= i < k.len() && 0 <= j < k.len() && i != j implies k[i]
            != k[j] by {
            if i > 0 {
                assert(mine.contains(mine[i - 1]));
            }
            if j > 0 {
                assert(mine.contains(mine[j - 1]));
            }
        }
    }
    assert forall|x: Seq<char>| kernel32_name(x) && names.contains(x) implies #[trigger] k.contains(
        x,
    ) by {
        let j = names.index_of(x);
        assert(names[j] == x);
        assert(mine.contains(x));
        let i = mine.index_of(x);
        if !mine.contains("ExitProcess"@) {
            assert(k[i + 1] == x);
        }
    }
}

/// Appends the thunks.
fn push_thunks(
    out: &mut Vec<u8>,
    imports: &Vec<String>,
    kernel: &Vec<String>,
    others: &Vec<String>,
    size: u64,
    tables: u64,
)
    requires
        model::views(imports@).no_duplicates(),
        model::views(kernel@) == kernel_names(model::views(imports@)),
        model::views(others@) == library_names(model::views(imports@), false, imports@.len()),
        size + 6 * imports@.len() + 6 <= u32::MAX,
        tables + 8 * (kernel@.len() + others@.len() + 2) <= u64::MAX,
    ensures
        final(out)@ == old(out)@ + thunk_code(
            model::views(imports@),
            size as int,
            tables as int,
            imports@.len(),
        ),
{
    let ghost names = model::views(imports@);
    proof {
        lemma_kernel_names(names);
        lemma_library_names(names, false, names.len());
    }
    let kernel_slots = number_names(kernel);
    let other_slots = number_names(others);
    let n: usize = imports.len();
    let count: usize = kernel.len();
    assert(model::views(kernel@).len() == count);
    let mut i: usize = 0;
    assert(out@ =~= old(out)@ + thunk_code(names, size as int, tables as int, 0));
    while i < n
        invariant
            i <= n,
            n == imports@.len(),
            names == model::views(imports@),
            names.no_duplicates(),
            count == kernel_names(names).len(),
            count == kernel@.len(),
            size + 6 * n + 6 <= u32::MAX,
            tables + 8 * (count + others@.len() + 2) <= u64::MAX,
            model::views(others@) == library_names(names, false, names.len()),
            forall|x: Seq<char>|
                kernel32_name(x) && names.contains(x)
                    ==> #[trigger] kernel_names(names).contains(x),
            forall|x: Seq<char>| #[trigger]
                library_names(names, false, names.len()).contains(x) <==> kernel32_name(x) == false
                    && exists|j: int| 0 <= j < names.len() && (#[trigger] names[j]) == x,
            forall|x: Seq<char>| #[trigger]
                kernel_slots@.dom().contains(x) <==> kernel_names(names).contains(x),
            forall|x: Seq<char>| #[trigger]
                kernel_slots@.dom().contains(x) ==> kernel_slots@[x] == kernel_names(
                    names,
                ).index_of(x) && kernel_slots@[x] < count,
            forall|x: Seq<char>| #[trigger]
                other_slots@.dom().contains(x) <==> library_names(
                    names,
                    false,
                    names.len(),
                ).contains(x),
            forall|x: Seq<char>| #[trigger]
                other_slots@.dom().contains(x) ==> other_slots@[x] == library_names(
                    names,
                    false,
                    names.len(),
                ).index_of(x) && other_slots@[x] < others@.len(),
            out@ == old(out)@ + thunk_code(names, size as int, tables as int, i as nat),
        decreases n - i,
    {
        let ghost name = names[i as int];
        assert(name == imports@[i as int]@);
        assert(names.contains(name));
        let slot: u64 = if is_kernel32_symbol(imports[i].as_str()) {
            assert(kernel_names(names).contains(name));
            assert(kernel_slots@.dom().contains(name));
            *kernel_slots.get(imports[i].as_str()).unwrap() as u64
        } else {
            assert(library_names(names, false, names.len()).contains(name));
            assert(other_slots@.dom().contains(name));
            count as u64 + 1 + *other_slots.get(imports[i].as_str()).unwrap() as u64
        };
        assert(slot == slot_of(names, name));
        let next: u64 = size + i as u64 * 6 + 6;
        let ghost before = out@;
        out.push(0xff);
        out.push(0x25);
        push_u32(out, low_difference(tables + 8 * slot, next));
        assert(out@ =~= before + seq![0xffu8, 0x25u8] + bytes::le32(
            dynamic::rel32(tables + 8 * slot, next as int),
        ));
        assert(out@ =~= old(out)@ + thunk_code(names, size as int, tables as int, (i + 1) as nat));
        i = i + 1;
    }
}

/// What is read from the object.
pub struct CoffObject {
    pub names: Vec<String>,
    pub imports: Vec<String>,
    pub code: CodePlace,
    pub text: Vec<u8>,
    pub main: u32,
}

impl View for CoffObject {
    type V = CoffInput;

    open spec fn view(&self) -> CoffInput {
        CoffInput {
            names: model::views(self.names@),
            imports: model::views(self.imports@),
            code: self.code,
            text: self.text@,
            main: self.main,
        }
    }
}

fn read_coff(coff: &[u8]) -> (r: CoffObject)
    ensures
        r@ == coff_input(coff@),
        model::views(r.imports@).no_duplicates(),
        r.text@.len() == r.code.size,
{
    let n_sections: u16 = match read_u16_le(coff, 2) {
        Some(v) => v,
        None => 0,
    };
    let table: u64 = match read_u32_le(coff, 8) {
        Some(v) => v as u64,
        None => 0,
    };
    let count: u64 = match read_u32_le(coff, 12) {
        Some(v) => v as u64,
        None => 0,
    };
    let strtab = find_object_strtab(coff, table, count);
    let names = read_record_names(coff, table, count, strtab);
    let list = collect_import_names(coff, table, &names);
    let imports = clone_names(list.names());
    let main: u32 = find_main(coff, table, &names);
    let (code, text) = match find_code_section(coff, n_sections) {
        Some(p) => {
            assert(coff.len() == coff@.len());
            let start: usize = p.offset as usize;
            let end: usize = (p.offset as u64 + p.size as u64) as usize;
            let bytes = vstd::slice::slice_to_vec(vstd::slice::slice_subrange(coff, start, end));
            (p, bytes)
        },
        None => {
            let none: Vec<u8> = Vec::new();
            assert(none@ =~= seq![]);
            (CodePlace { offset: 0, size: 0, relocs: 0, count: 0 }, none)
        },
    };
    CoffObject { names, imports, code, text, main }
}

fn build_entries(
    kernel: &Vec<String>,
    others: &Vec<String>,
    Ghost(names): Ghost<Seq<Seq<char>>>,
) -> (r: Vec<ImportEntry>)
    requires
        model::views(kernel@) == kernel_names(names),
        model::views(others@) == library_names(names, false, names.len()),
    ensures
        model::views(r@) == import_entries(names),
        r@.len() <= 2,
{
    broadcast use model::group_views;
    let mut entries: Vec<ImportEntry> = Vec::new();
    let kernel_copy = clone_names(kernel);
    entries.push(ImportEntry { dll_name: "KERNEL32.DLL".to_string(), symbols: kernel_copy });
    assert(model::views(others@).len() == others@.len());
    if others.len() > 0 {
        let others_copy = clone_names(others);
        entries.push(ImportEntry { dll_name: "ucrt.dll".to_string(), symbols: others_copy });
    }
    assert(model::views(entries@) =~= import_entries(names));
    entries
}

/// The finished code: the calls turned to the thunks, and the thunks.
pub open spec fn finished_code(data: Seq<u8>, c: CoffInput, tables: int) -> Seq<u8> {
    turned_calls(data, c.code, c.names, c.imports, 0, c.text) + thunk_code(
        c.imports,
        c.text.len() as int,
        tables,
        c.imports.len(),
    )
}

fn finish_code(
    coff: &[u8],
    object: &CoffObject,
    kernel: &Vec<String>,
    others: &Vec<String>,
    tables: u64,
) -> (r: Vec<u8>)
    requires
        model::views(object.imports@).no_duplicates(),
        object.text@.len() == object.code.size,
        object.text@.len() + 6 * object.imports@.len() + 6 <= u32::MAX,
        model::views(kernel@) == kernel_names(model::views(object.imports@)),
        model::views(others@)
            == library_names(model::views(object.imports@), false, object.imports@.len()),
        tables <= u32::MAX,
    ensures
        r@ == finished_code(coff@, object@, tables as int),
        r@.len() == object.text@.len() + 6 * object.imports@.len(),
{
    let ghost names = model::views(object.imports@);
    proof {
        lemma_kernel_names(names);
        lemma_library_names(names, false, names.len());
        assert(model::views(kernel@).len() == kernel@.len());
        assert(model::views(others@).len() == others@.len());
        assert(names.len() == object.imports@.len());
        lemma_thunk_code_len(names, object.text@.len() as int, tables as int, names.len());
    }
    let mut text = vstd::slice::slice_to_vec(object.text.as_slice());
    turn_calls(coff, &object.code, &object.names, &object.imports, &mut text);
    push_thunks(&mut text, &object.imports, kernel, others, object.text.len() as u64, tables);
    text
}

proof fn lemma_thunk_code_len(names: Seq<Seq<char>>, size: int, tables: int, k: nat)
    ensures
        thunk_code(names, size, tables, k).len() == 6 * k,
    decreases k,
{
    broadcast use bytes::group_le_len;
    if k > 0 {
        lemma_thunk_code_len(names, size, tables, (k - 1) as nat);
    }
}

/// Links a single COFF object and appends the executable. Calls of names that it does not define
/// go through thunks: those of the Windows kernel library are imported from `KERNEL32.DLL`, all
/// others, such as `printf`, from the C library `ucrt.dll`.
pub fn link_and_emit_pe_from_coff(coff: &[u8], out: &mut Vec<u8>) -> (r: Result<(), String>)
    ensures
        match coff_executable(coff@) {
            Ok(b) => r is Ok && final(out)@ == old(out)@ + b,
            Err(e) => r is Err && r->Err_0@ == e && final(out)@ == old(out)@,
        },
{
    let object = read_coff(coff);
    let ghost c = object@;
    let ghost names = c.imports;
    let size: usize = object.text.len();
    let n: usize = object.imports.len();
    assert(names.len() == n);
    let kernel = collect_kernel_names(&object.imports);
    let others = collect_library_names(&object.imports, false);
    let entries = build_entries(&kernel, &others, Ghost(names));
    let ghost models = import_entries(names);
    assert(models.len() == entries@.len());
    if n as u64 > 0xffff_ffff / 6 || size as u64 + 6 * n as u64 > 0xffff_ffff {
        proof {
            let total = size + 6 * n;
            assert(total > u32::MAX);
            assert(segment::padded(total, 4096) >= total);
            assert(pe::pe_plan(total as int, 0, models).rdata_rva > u32::MAX);
        }
        return Err("layout exceeds the address space".to_string());
    }
    let plan = match plan_pe(size + 6 * n, 0, &entries) {
        Some(p) => p,
        None => {
            return Err("layout exceeds the address space".to_string());
        },
    };
    let ghost p = pe::pe_plan(size + 6 * n, 0, models);
    assert(segment::padded(size + 6 * n, 4096) >= size + 6 * n);
    let tables: u64 = plan.rdata_rva as u64 + plan.rdata.address_tables as u64 - 0x1000;
    let text = finish_code(coff, &object, &kernel, &others, tables);
    let fields = PeFields {
        linker_version: 0,
        code_size: 0,
        data_size: 0,
        entry_rva: (0x1000 + object.main as u64) as u32,
        image_size: plan.image_size,
        import_rva: plan.rdata_rva,
        import_size: 20 * entries.len() as u32,
        iat_rva: plan.rdata_rva + plan.rdata.address_tables,
        iat_size: plan.rdata.address_size,
    };
    let none: Vec<u8> = Vec::new();
    assert(none@ =~= seq![]);
    let sections = pe_section_list(text, none, plan, Ghost(p));
    emit_pe_raw(out, &fields, &sections);
    Ok(())
}

} // verus!

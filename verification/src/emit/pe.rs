//! Writing 64-bit Windows executables.
//!
//! An executable has a DOS stub, the headers, the code, possibly data, and a
//! section with the tables from which the loader fills in imported addresses.
use vstd::prelude::*;
use vstd::string::*;
use vstd::utf8::*;
use crate::bytes;
use crate::bytes::{push_bytes, push_u16, push_u32, push_u64, push_zeros};
use crate::link;
use crate::link::{DynamicLinkInfo, DynamicModel, LayoutModel, MergedLayout};
use crate::model;
use crate::names::clone_names;
use crate::segment;
use crate::text::str_eq;

pub use crate::emit::coff_link::link_and_emit_pe_from_coff;

verus! {

pub const IMAGE_FILE_MACHINE_AMD64: u16 = 0x8664;

pub const IMAGE_OPTIONAL_HDR64_MAGIC: u16 = 0x020B;

/// The address at which executables are loaded.
pub const IMAGE_BASE: u64 = 0x0000_0001_4000_0000;

/// What section addresses are multiples of.
pub const SECTION_ALIGN: u64 = 0x1000;

/// The characteristics of a section with code.
pub const CODE_SECTION: u32 = 0x6000_0020;

/// The characteristics of a section with data.
pub const DATA_SECTION: u32 = 0xC000_0040;

/// The characteristics of a section with constants.
pub const CONST_SECTION: u32 = 0x4000_0040;

/// The names that are imported from one library.
pub struct ImportEntry {
    pub dll_name: String,
    pub symbols: Vec<String>,
}

/// The view of the names that are imported from one library.
pub struct ImportModel {
    pub dll_name: Seq<char>,
    pub symbols: Seq<Seq<char>>,
}

impl View for ImportEntry {
    type V = ImportModel;

    open spec fn view(&self) -> ImportModel {
        ImportModel { dll_name: self.dll_name@, symbols: model::views(self.symbols@) }
    }
}

/// How many names the first `k` libraries have.
pub open spec fn symbols_before(entries: Seq<ImportModel>, k: nat) -> nat
    decreases k,
{
    if k == 0 {
        0
    } else {
        symbols_before(entries, (k - 1) as nat) + entries[k - 1].symbols.len()
    }
}

/// The names of the first `k` libraries.
pub open spec fn all_symbols(entries: Seq<ImportModel>, k: nat) -> Seq<Seq<char>>
    decreases k,
{
    if k == 0 {
        seq![]
    } else {
        all_symbols(entries, (k - 1) as nat) + entries[k - 1].symbols
    }
}

/// The record of a name: a hint, the name, a zero, and one more where the length is odd.
pub open spec fn hint_record(name: Seq<char>) -> Seq<u8> {
    let bytes = encode_utf8(name);
    bytes::le16(0) + bytes + bytes::zeros(1 + (bytes.len() as int + 3) % 2)
}

/// The records of the first `k` names.
pub open spec fn hint_records(names: Seq<Seq<char>>, k: nat) -> Seq<u8>
    decreases k,
{
    if k == 0 {
        seq![]
    } else {
        hint_records(names, (k - 1) as nat) + hint_record(names[k - 1])
    }
}

/// The names of the first `k` libraries, each closed by a zero.
pub open spec fn dll_names(entries: Seq<ImportModel>, k: nat) -> Seq<u8>
    decreases k,
{
    if k == 0 {
        seq![]
    } else {
        dll_names(entries, (k - 1) as nat) + encode_utf8(entries[k - 1].dll_name) + seq![0u8]
    }
}

/// The addresses of the records of the names from `first` up to `last`.
pub open spec fn thunks(names: Seq<Seq<char>>, records_rva: int, first: nat, last: nat) -> Seq<u8>
    decreases last,
{
    if last <= first {
        seq![]
    } else {
        thunks(names, records_rva, first, (last - 1) as nat) + bytes::le64(
            (records_rva + hint_records(names, (last - 1) as nat).len()) as u64,
        )
    }
}

/// The tables of the first `k` libraries: the addresses of their records, each closed by a zero.
pub open spec fn thunk_tables(
    entries: Seq<ImportModel>,
    names: Seq<Seq<char>>,
    records_rva: int,
    k: nat,
) -> Seq<u8>
    decreases k,
{
    if k == 0 {
        seq![]
    } else {
        thunk_tables(entries, names, records_rva, (k - 1) as nat) + thunks(
            names,
            records_rva,
            symbols_before(entries, (k - 1) as nat),
            symbols_before(entries, k),
        ) + bytes::le64(0)
    }
}

/// Where the parts of the import section stand, counted from its start.
pub struct ImportPlaces {
    pub lookup: int,
    pub address: int,
    pub records: int,
    pub dlls: int,
    pub end: int,
}

/// Where the parts of the import section stand.
pub open spec fn import_places(entries: Seq<ImportModel>) -> ImportPlaces {
    let n = entries.len();
    let lookup = (n + 1) * 20;
    let table = 8 * (symbols_before(entries, n) + n);
    let records = lookup + 2 * table;
    let names = all_symbols(entries, n);
    let dlls = records + hint_records(names, names.len()).len();
    ImportPlaces {
        lookup: lookup as int,
        address: (lookup + table) as int,
        records: records as int,
        dlls: dlls as int,
        end: (dlls + dll_names(entries, n).len()) as int,
    }
}

/// The directory entries of the first `k` libraries.
pub open spec fn import_directory(entries: Seq<ImportModel>, rva: int, k: nat) -> Seq<u8>
    decreases k,
{
    if k == 0 {
        seq![]
    } else {
        let d = (k - 1) as nat;
        let p = import_places(entries);
        let slot = 8 * (symbols_before(entries, d) + d);
        import_directory(entries, rva, d) + bytes::le32((rva + p.lookup + slot) as u32)
            + bytes::zeros(8) + bytes::le32(
            (rva + p.dlls + dll_names(entries, d).len()) as u32,
        ) + bytes::le32((rva + p.address + slot) as u32)
    }
}

/// What is missing from `n` to a multiple of the file alignment.
pub open spec fn file_padding(n: int) -> int {
    (512 - n % 512) % 512
}

/// The section with the import tables, at the address `rva`.
pub open spec fn import_section(entries: Seq<ImportModel>, rva: int) -> Seq<u8> {
    let n = entries.len();
    let names = all_symbols(entries, n);
    let p = import_places(entries);
    let tables = thunk_tables(entries, names, rva + p.records, n);
    import_directory(entries, rva, n) + bytes::zeros(20) + tables + tables + hint_records(
        names,
        names.len(),
    ) + dll_names(entries, n) + bytes::zeros(file_padding(p.end))
}

/// Whether the import section at `rva` has 32-bit addresses.
pub open spec fn imports_fit(entries: Seq<ImportModel>, rva: int) -> bool {
    rva + import_places(entries).end + 512 <= u32::MAX
}

/// The import section, with the offset of the address tables and their size.
pub struct ImportSection {
    pub data: Vec<u8>,
    pub address_tables: u32,
    pub address_size: u32,
}

fn push_hint_record(out: &mut Vec<u8>, name: &str)
    ensures
        final(out)@ == old(out)@ + hint_record(name@),
{
    let bytes = name.as_bytes();
    push_u16(out, 0);
    push_bytes(out, bytes);
    out.push(0);
    if bytes.len() % 2 == 0 {
        out.push(0);
    }
    assert(out@ =~= old(out)@ + hint_record(name@));
}

fn flatten_symbols(entries: &Vec<ImportEntry>) -> (r: Vec<String>)
    ensures
        model::views(r@) == all_symbols(model::views(entries@), entries@.len()),
        r@.len() == symbols_before(model::views(entries@), entries@.len()),
{
    broadcast use model::group_views;
    let ghost models = model::views(entries@);
    let mut out: Vec<String> = Vec::new();
    let mut k: usize = 0;
    while k < entries.len()
        invariant
            k <= entries@.len(),
            models == model::views(entries@),
            model::views(out@) == all_symbols(models, k as nat),
            out@.len() == symbols_before(models, k as nat),
        decreases entries@.len() - k,
    {
        assert(models[k as int] == entries@[k as int]@);
        let ghost before = model::views(out@);
        let mut more = clone_names(&entries[k].symbols);
        let ghost added = model::views(more@);
        let ghost mine = out@;
        let ghost theirs = more@;
        out.append(&mut more);
        assert(model::views(out@) =~= before + added);
        k = k + 1;
    }
    out
}

/// The records, and where each of them starts.
fn build_records(names: &Vec<String>) -> (r: (Vec<u8>, Vec<u64>))
    ensures
        r.0@ == hint_records(model::views(names@), names@.len()),
        r.1@.len() == names@.len(),
        forall|i: int|
            0 <= i < names@.len() ==> (#[trigger] r.1@[i]) == hint_records(
                model::views(names@),
                i as nat,
            ).len(),
        forall|i: int| 0 <= i < names@.len() ==> (#[trigger] r.1@[i]) <= r.0@.len(),
{
    let ghost models = model::views(names@);
    let mut records: Vec<u8> = Vec::new();
    let mut starts: Vec<u64> = Vec::new();
    let mut i: usize = 0;
    while i < names.len()
        invariant
            i <= names@.len(),
            models == model::views(names@),
            records@ == hint_records(models, i as nat),
            starts@.len() == i,
            forall|k: int|
                0 <= k < i ==> (#[trigger] starts@[k]) == hint_records(models, k as nat).len(),
            forall|k: int| 0 <= k < i ==> (#[trigger] starts@[k]) <= records@.len(),
        decreases names@.len() - i,
    {
        assert(models[i as int] == names@[i as int]@);
        starts.push(records.len() as u64);
        push_hint_record(&mut records, names[i].as_str());
        i = i + 1;
    }
    (records, starts)
}

/// The names of the libraries, and where each of them starts.
fn build_dll_names(entries: &Vec<ImportEntry>) -> (r: (Vec<u8>, Vec<u64>))
    ensures
        r.0@ == dll_names(model::views(entries@), entries@.len()),
        r.1@.len() == entries@.len(),
        forall|i: int|
            0 <= i < entries@.len() ==> (#[trigger] r.1@[i]) == dll_names(
                model::views(entries@),
                i as nat,
            ).len(),
        forall|i: int| 0 <= i < entries@.len() ==> (#[trigger] r.1@[i]) <= r.0@.len(),
{
    let ghost models = model::views(entries@);
    let mut out: Vec<u8> = Vec::new();
    let mut starts: Vec<u64> = Vec::new();
    let mut i: usize = 0;
    while i < entries.len()
        invariant
            i <= entries@.len(),
            models == model::views(entries@),
            out@ == dll_names(models, i as nat),
            starts@.len() == i,
            forall|k: int| 0 <= k < i ==> (#[trigger] starts@[k])
                == dll_names(models, k as nat).len(),
            forall|k: int| 0 <= k < i ==> (#[trigger] starts@[k]) <= out@.len(),
        decreases entries@.len() - i,
    {
        assert(models[i as int] == entries@[i as int]@);
        starts.push(out.len() as u64);
        let ghost before = out@;
        push_bytes(&mut out, entries[i].dll_name.as_str().as_bytes());
        out.push(0);
        assert(out@ =~= dll_names(models, (i + 1) as nat));
        i = i + 1;
    }
    (out, starts)
}

/// Appends the tables of all libraries.
fn push_thunk_tables(
    out: &mut Vec<u8>,
    entries: &Vec<ImportEntry>,
    starts: &Vec<u64>,
    records_rva: u64,
    Ghost(names): Ghost<Seq<Seq<char>>>,
)
    requires
        names == all_symbols(model::views(entries@), entries@.len()),
        names.len() == symbols_before(model::views(entries@), entries@.len()),
        starts@.len() == names.len(),
        forall|i: int|
            0 <= i < names.len() ==> (#[trigger] starts@[i]) == hint_records(names, i as nat).len(),
        forall|i: int| 0 <= i < names.len() ==> records_rva + (#[trigger] starts@[i]) <= u64::MAX,
    ensures
        final(out)@ == old(out)@ + thunk_tables(
            model::views(entries@),
            names,
            records_rva as int,
            entries@.len(),
        ),
{
    let ghost models = model::views(entries@);
    let n: usize = entries.len();
    let mut next: usize = 0;
    let mut k: usize = 0;
    assert(out@ =~= old(out)@ + thunk_tables(models, names, records_rva as int, 0));
    while k < n
        invariant
            k <= n,
            n == entries@.len(),
            models == model::views(entries@),
            names == all_symbols(models, n as nat),
            names.len() == symbols_before(models, n as nat),
            starts@.len() == names.len(),
            forall|i: int|
                0 <= i < names.len() ==> (#[trigger] starts@[i]) == hint_records(
                    names,
                    i as nat,
                ).len(),
            forall|i: int|
                0 <= i < names.len() ==> records_rva + (#[trigger] starts@[i]) <= u64::MAX,
            next == symbols_before(models, k as nat),
            out@ == old(out)@ + thunk_tables(models, names, records_rva as int, k as nat),
        decreases n - k,
    {
        assert(models[k as int] == entries@[k as int]@);
        proof {
            lemma_symbols_before_grow(models, (k + 1) as nat, n as nat);
        }
        let count: usize = entries[k].symbols.len();
        let first: usize = next;
        let ghost before = out@;
        let mut s: usize = 0;
        assert(out@ =~= before + thunks(names, records_rva as int, first as nat, first as nat));
        while s < count
            invariant
                s <= count,
                next == first + s,
                first + count <= names.len(),
                starts@.len() == names.len(),
                forall|i: int|
                    0 <= i < names.len() ==> (#[trigger] starts@[i]) == hint_records(
                        names,
                        i as nat,
                    ).len(),
                forall|i: int|
                    0 <= i < names.len() ==> records_rva + (#[trigger] starts@[i]) <= u64::MAX,
                out@ == before + thunks(
                    names,
                    records_rva as int,
                    first as nat,
                    (first + s) as nat,
                ),
            decreases count - s,
        {
            assert(next < starts.len());
            push_u64(out, records_rva + starts[next]);
            assert(out@ =~= before + thunks(
                names,
                records_rva as int,
                first as nat,
                (first + s + 1) as nat,
            ));
            next = next + 1;
            s = s + 1;
        }
        push_u64(out, 0);
        assert(out@ =~= old(out)@ + thunk_tables(
            models,
            names,
            records_rva as int,
            (k + 1) as nat,
        ));
        k = k + 1;
    }
}

proof fn lemma_symbols_before_grow(entries: Seq<ImportModel>, i: nat, n: nat)
    requires
        i <= n,
    ensures
        symbols_before(entries, i) <= symbols_before(entries, n),
    decreases n - i,
{
    if i < n {
        lemma_symbols_before_grow(entries, i, (n - 1) as nat);
    }
}

/// Builds the section with the import tables, at the address `rva`.
fn build_import_section(rva: u32, entries: &Vec<ImportEntry>) -> (r: Option<ImportSection>)
    requires
        entries@.len() <= 2,
    ensures
        match r {
            Some(s) => imports_fit(model::views(entries@), rva as int) && s.data@ == import_section(
                model::views(entries@),
                rva as int,
            ) && s.address_tables == import_places(model::views(entries@)).address
                && s.address_size == 8
                * (symbols_before(model::views(entries@), entries@.len()) + entries@.len()) && rva
                + s.data@.len() <= u32::MAX,
            None => !imports_fit(model::views(entries@), rva as int),
        },
{
    let ghost models = model::views(entries@);
    let n: usize = entries.len();
    let names = flatten_symbols(entries);
    let (records, starts) = build_records(&names);
    let (dlls, dll_starts) = build_dll_names(entries);
    let ghost all = model::views(names@);
    let ghost p = import_places(models);
    assert(all.len() == names@.len());
    let lookup: u64 = (n as u64 + 1) * 20;
    if names.len() as u64 > 0x1_0000_0000 || records.len() as u64 > 0x1_0000_0000
        || dlls.len() as u64
        > 0x1_0000_0000 {
        return None;
    }
    let table: u64 = 8 * (names.len() as u64 + n as u64);
    let address: u64 = lookup + table;
    let records_at: u64 = address + table;
    let dlls_at: u64 = records_at + records.len() as u64;
    let end: u64 = dlls_at + dlls.len() as u64;
    assert(p.lookup == lookup && p.address == address && p.records == records_at && p.dlls
        == dlls_at && p.end == end);
    if rva as u64 + end + 512 > 0xffff_ffff {
        return None;
    }
    let mut out: Vec<u8> = Vec::new();
    let mut d: usize = 0;
    let mut before: usize = 0;
    while d < n
        invariant
            d <= n,
            n == entries@.len(),
            n <= 2,
            models == model::views(entries@),
            p == import_places(models),
            p.lookup == lookup,
            p.address == address,
            p.dlls == dlls_at,
            p.end == end,
            end == dlls_at + dlls@.len(),
            address + 8 * (symbols_before(models, n as nat) + n) <= dlls_at,
            lookup <= address,
            rva + end + 512 <= u32::MAX,
            dll_starts@.len() == n,
            forall|i: int|
                0 <= i < n ==> (#[trigger] dll_starts@[i]) == dll_names(models, i as nat).len(),
            forall|i: int| 0 <= i < n ==> (#[trigger] dll_starts@[i]) <= dlls@.len(),
            before == symbols_before(models, d as nat),
            out@ == import_directory(models, rva as int, d as nat),
        decreases n - d,
    {
        assert(models[d as int] == entries@[d as int]@);
        proof {
            lemma_symbols_before_grow(models, d as nat, n as nat);
            lemma_symbols_before_grow(models, (d + 1) as nat, n as nat);
        }
        let slot: u64 = 8 * (before as u64 + d as u64);
        let ghost prior = out@;
        push_u32(&mut out, (rva as u64 + lookup + slot) as u32);
        push_zeros(&mut out, 8);
        assert(dll_starts@[d as int] <= dlls@.len());
        push_u32(&mut out, (rva as u64 + dlls_at + dll_starts[d]) as u32);
        push_u32(&mut out, (rva as u64 + address + slot) as u32);
        before = before + entries[d].symbols.len();
        d = d + 1;
    }
    push_zeros(&mut out, 20);
    push_thunk_tables(&mut out, entries, &starts, rva as u64 + records_at, Ghost(all));
    push_thunk_tables(&mut out, entries, &starts, rva as u64 + records_at, Ghost(all));
    push_bytes(&mut out, records.as_slice());
    push_bytes(&mut out, dlls.as_slice());
    push_zeros(&mut out, ((512 - end % 512) % 512) as usize);
    assert(out@ =~= import_section(models, rva as int));
    proof {
        lemma_import_section_len(models, rva as int);
    }
    Some(ImportSection { data: out, address_tables: address as u32, address_size: table as u32 })
}

proof fn lemma_thunks_len(names: Seq<Seq<char>>, rva: int, first: nat, last: nat)
    requires
        first <= last,
    ensures
        thunks(names, rva, first, last).len() == 8 * (last - first),
    decreases last,
{
    broadcast use bytes::group_le_len;
    if first < last {
        lemma_thunks_len(names, rva, first, (last - 1) as nat);
    }
}

proof fn lemma_tables_len(entries: Seq<ImportModel>, names: Seq<Seq<char>>, rva: int, k: nat)
    ensures
        thunk_tables(entries, names, rva, k).len() == 8 * (symbols_before(entries, k) + k),
    decreases k,
{
    broadcast use bytes::group_le_len;
    if k > 0 {
        lemma_tables_len(entries, names, rva, (k - 1) as nat);
        lemma_thunks_len(
            names,
            rva,
            symbols_before(entries, (k - 1) as nat),
            symbols_before(entries, k),
        );
    }
}

proof fn lemma_directory_len(entries: Seq<ImportModel>, rva: int, k: nat)
    ensures
        import_directory(entries, rva, k).len() == 20 * k,
    decreases k,
{
    broadcast use bytes::group_le_len;
    if k > 0 {
        lemma_directory_len(entries, rva, (k - 1) as nat);
    }
}

/// The import section has the length that its places say, filled up to the file alignment.
pub proof fn lemma_import_section_len(entries: Seq<ImportModel>, rva: int)
    ensures
        import_section(entries, rva).len() == import_places(entries).end + file_padding(
            import_places(entries).end,
        ),
        import_section(entries, rva).len() % 512 == 0,
{
    let n = entries.len();
    let names = all_symbols(entries, n);
    let p = import_places(entries);
    lemma_tables_len(entries, names, rva + p.records, n);
    lemma_directory_len(entries, rva, n);
}

fn pad_up(n: u64, a: u64) -> (r: u64)
    requires
        0 < a <= 0x1000,
        n <= 0xffff_ffff_ffff,
    ensures
        r == segment::padded(n as int, a as int),
        n <= r < n + a,
{
    let p: u64 = (a - n % a) % a;
    n + p
}

/// A section of an executable.
pub struct PeSection {
    pub name: String,
    pub data: Vec<u8>,
    pub characteristics: u32,
    pub rva: u32,
    pub file_off: u32,
}

/// The view of a section of an executable.
pub struct PeSectionModel {
    pub name: Seq<char>,
    pub data: Seq<u8>,
    pub characteristics: u32,
    pub rva: u32,
    pub file_off: u32,
}

impl View for PeSection {
    type V = PeSectionModel;

    open spec fn view(&self) -> PeSectionModel {
        PeSectionModel {
            name: self.name@,
            data: self.data@,
            characteristics: self.characteristics,
            rva: self.rva,
            file_off: self.file_off,
        }
    }
}

/// A name in eight bytes: cut off, or filled up with zeros.
pub open spec fn name8(name: Seq<char>) -> Seq<u8> {
    let b = encode_utf8(name);
    if b.len() >= 8 {
        b.subrange(0, 8)
    } else {
        b + bytes::zeros(8 - b.len())
    }
}

/// The header of a section.
pub open spec fn section_header(s: PeSectionModel) -> Seq<u8> {
    name8(s.name) + bytes::le32(s.data.len() as u32) + bytes::le32(s.rva) + bytes::le32(
        segment::padded(s.data.len() as int, 512) as u32,
    ) + bytes::le32(s.file_off) + bytes::zeros(12) + bytes::le32(s.characteristics)
}

/// The headers of the first `k` sections.
pub open spec fn section_headers(s: Seq<PeSectionModel>, k: nat) -> Seq<u8>
    decreases k,
{
    if k == 0 {
        seq![]
    } else {
        section_headers(s, (k - 1) as nat) + section_header(s[k - 1])
    }
}

/// The bytes of the first `k` sections, each filled up to the file alignment.
pub open spec fn section_bodies(s: Seq<PeSectionModel>, k: nat) -> Seq<u8>
    decreases k,
{
    if k == 0 {
        seq![]
    } else {
        section_bodies(s, (k - 1) as nat) + s[k - 1].data + bytes::zeros(
            file_padding(s[k - 1].data.len() as int),
        )
    }
}

/// What the headers of an executable say of it.
pub struct PeFields {
    pub linker_version: u8,
    pub code_size: u32,
    pub data_size: u32,
    pub entry_rva: u32,
    pub image_size: u32,
    pub import_rva: u32,
    pub import_size: u32,
    pub iat_rva: u32,
    pub iat_size: u32,
}

/// The DOS stub: it points to the headers right behind it.
pub open spec fn dos_stub() -> Seq<u8> {
    seq![0x4du8, 0x5au8] + bytes::zeros(58) + bytes::le32(64)
}

/// The signature and the file header, for `n` sections.
pub open spec fn file_header(n: u16) -> Seq<u8> {
    seq![0x50u8, 0x45u8, 0u8, 0u8] + bytes::le16(IMAGE_FILE_MACHINE_AMD64) + bytes::le16(n)
        + bytes::zeros(12) + bytes::le16(
        240,
    ) + bytes::le16(0x0022)
}

/// The optional header, 240 bytes long.
pub open spec fn optional_header(f: PeFields, text_rva: u32, headers_size: u32) -> Seq<u8> {
    bytes::le16(IMAGE_OPTIONAL_HDR64_MAGIC) + seq![f.linker_version, 0u8]
        + bytes::le32(f.code_size) + bytes::le32(
        f.data_size,
    ) + bytes::le32(0) + bytes::le32(f.entry_rva) + bytes::le32(text_rva) + bytes::le64(IMAGE_BASE)
        + bytes::le32(0x1000) + bytes::le32(0x200)
        + bytes::le16(6) + bytes::le16(0) + bytes::le16(0) + bytes::le16(0) + bytes::le16(6)
            + bytes::le16(0) + bytes::le32(0) + bytes::le32(f.image_size)
        + bytes::le32(headers_size) + bytes::le32(0) + bytes::le16(3) + bytes::le16(0x8140)
            + bytes::le64(0x10_0000) + bytes::le64(0x1000)
        + bytes::le64(0x10_0000) + bytes::le64(0x1000) + bytes::le32(0) + bytes::le32(16)
            + bytes::zeros(8) + bytes::le32(f.import_rva)
        + bytes::le32(f.import_size) + bytes::zeros(80) + bytes::le32(f.iat_rva)
            + bytes::le32(f.iat_size) + bytes::zeros(24)
}

/// An executable.
pub open spec fn pe_file(f: PeFields, sections: Seq<PeSectionModel>) -> Seq<u8> {
    let n = sections.len();
    let raw = (328 + 40 * n) as int;
    dos_stub() + file_header(n as u16) + optional_header(
        f,
        sections[0].rva,
        segment::padded(raw, 512) as u32,
    ) + section_headers(sections, n) + bytes::zeros(file_padding(raw)) + section_bodies(sections, n)
}

fn push_name8(out: &mut Vec<u8>, name: &str)
    ensures
        final(out)@ == old(out)@ + name8(name@),
{
    let b = name.as_bytes();
    if b.len() >= 8 {
        push_bytes(out, vstd::slice::slice_subrange(b, 0, 8));
    } else {
        push_bytes(out, b);
        push_zeros(out, 8 - b.len());
    }
    assert(out@ =~= old(out)@ + name8(name@));
}

fn push_section_header(out: &mut Vec<u8>, s: &PeSection)
    requires
        s.data@.len() <= 0xffff_ffff,
    ensures
        final(out)@ == old(out)@ + section_header(s@),
{
    push_name8(out, s.name.as_str());
    push_u32(out, s.data.len() as u32);
    push_u32(out, s.rva);
    push_u32(out, pad_up(s.data.len() as u64, 512) as u32);
    push_u32(out, s.file_off);
    push_zeros(out, 12);
    push_u32(out, s.characteristics);
    assert(out@ =~= old(out)@ + section_header(s@));
}

fn push_optional_header(out: &mut Vec<u8>, f: &PeFields, text_rva: u32, headers_size: u32)
    ensures
        final(out)@ == old(out)@ + optional_header(*f, text_rva, headers_size),
{
    let mut h: Vec<u8> = Vec::new();
    push_u16(&mut h, IMAGE_OPTIONAL_HDR64_MAGIC);
    h.push(f.linker_version);
    h.push(0);
    assert(h@ =~= bytes::le16(IMAGE_OPTIONAL_HDR64_MAGIC) + seq![f.linker_version, 0u8]);
    push_u32(&mut h, f.code_size);
    push_u32(&mut h, f.data_size);
    push_u32(&mut h, 0);
    push_u32(&mut h, f.entry_rva);
    push_u32(&mut h, text_rva);
    push_u64(&mut h, IMAGE_BASE);
    push_u32(&mut h, 0x1000);
    push_u32(&mut h, 0x200);
    push_u16(&mut h, 6);
    push_u16(&mut h, 0);
    push_u16(&mut h, 0);
    push_u16(&mut h, 0);
    push_u16(&mut h, 6);
    push_u16(&mut h, 0);
    push_u32(&mut h, 0);
    push_u32(&mut h, f.image_size);
    push_u32(&mut h, headers_size);
    push_u32(&mut h, 0);
    push_u16(&mut h, 3);
    push_u16(&mut h, 0x8140);
    push_u64(&mut h, 0x10_0000);
    push_u64(&mut h, 0x1000);
    push_u64(&mut h, 0x10_0000);
    push_u64(&mut h, 0x1000);
    push_u32(&mut h, 0);
    push_u32(&mut h, 16);
    push_zeros(&mut h, 8);
    push_u32(&mut h, f.import_rva);
    push_u32(&mut h, f.import_size);
    push_zeros(&mut h, 80);
    push_u32(&mut h, f.iat_rva);
    push_u32(&mut h, f.iat_size);
    push_zeros(&mut h, 24);
    assert(h@ == optional_header(*f, text_rva, headers_size));
    push_bytes(out, h.as_slice());
}

/// Appends an executable.
pub fn emit_pe_raw(out: &mut Vec<u8>, f: &PeFields, sections: &Vec<PeSection>)
    requires
        0 < sections@.len() <= 3,
        forall|i: int|
            0 <= i < sections@.len() ==> (#[trigger] sections@[i]).data@.len() <= 0xffff_ffff,
    ensures
        final(out)@ == old(out)@ + pe_file(*f, model::views(sections@)),
{
    let ghost models = model::views(sections@);
    let n: usize = sections.len();
    out.push(0x4d);
    out.push(0x5a);
    push_zeros(out, 58);
    push_u32(out, 64);
    assert(out@ =~= old(out)@ + dos_stub());
    let ghost stub = out@;
    out.push(0x50);
    out.push(0x45);
    out.push(0);
    out.push(0);
    push_u16(out, IMAGE_FILE_MACHINE_AMD64);
    push_u16(out, n as u16);
    push_zeros(out, 12);
    push_u16(out, 240);
    push_u16(out, 0x0022);
    assert(out@ =~= stub + file_header(n as u16));
    assert(models[0] == sections@[0]@);
    let raw: u64 = 328 + 40 * n as u64;
    push_optional_header(out, f, sections[0].rva, pad_up(raw, 512) as u32);
    let ghost top = out@;
    let mut i: usize = 0;
    assert(out@ =~= top + section_headers(models, 0));
    while i < n
        invariant
            i <= n,
            n == sections@.len(),
            models == model::views(sections@),
            forall|k: int|
                0 <= k < sections@.len() ==> (#[trigger] sections@[k]).data@.len() <= 0xffff_ffff,
            out@ == top + section_headers(models, i as nat),
        decreases n - i,
    {
        assert(models[i as int] == sections@[i as int]@);
        push_section_header(out, &sections[i]);
        assert(out@ =~= top + section_headers(models, (i + 1) as nat));
        i = i + 1;
    }
    push_zeros(out, ((512 - raw % 512) % 512) as usize);
    let ghost headers = out@;
    let mut k: usize = 0;
    assert(out@ =~= headers + section_bodies(models, 0));
    while k < n
        invariant
            k <= n,
            n == sections@.len(),
            models == model::views(sections@),
            out@ == headers + section_bodies(models, k as nat),
        decreases n - k,
    {
        assert(models[k as int] == sections@[k as int]@);
        let len: usize = sections[k].data.len();
        push_bytes(out, sections[k].data.as_slice());
        push_zeros(out, (512 - len % 512) % 512);
        assert(out@ =~= headers + section_bodies(models, (k + 1) as nat));
        k = k + 1;
    }
    proof {
        lemma_behind(
            old(out)@,
            dos_stub(),
            file_header(n as u16),
            optional_header(*f, models[0].rva, segment::padded(raw as int, 512) as u32),
            section_headers(models, n as nat),
            bytes::zeros(file_padding(raw as int)),
            section_bodies(models, n as nat),
        );
    }
}

/// Parts that are appended one by one stand behind what was there as one.
proof fn lemma_behind(
    x: Seq<u8>,
    a: Seq<u8>,
    b: Seq<u8>,
    c: Seq<u8>,
    d: Seq<u8>,
    e: Seq<u8>,
    f: Seq<u8>,
)
    ensures
        x + a + b + c + d + e + f == x + (a + b + c + d + e + f),
{
    assert(x + a + b + c + d + e + f =~= x + (a + b + c + d + e + f));
}

/// The bytes of the first section with a given name, at or after `i`.
pub open spec fn first_named(l: LayoutModel, name: Seq<char>, i: nat) -> Seq<u8>
    decreases l.sections.len() - i,
{
    if i >= l.sections.len() {
        seq![]
    } else if l.sections[i as int].name == name {
        l.sections[i as int].data
    } else {
        first_named(l, name, i + 1)
    }
}

fn copy_first_named(layout: &MergedLayout, name: &str) -> (r: Vec<u8>)
    ensures
        r@ == first_named(layout@, name@, 0),
{
    let mut i: usize = 0;
    while i < layout.sections.len()
        invariant
            i <= layout.sections@.len(),
            first_named(layout@, name@, 0) == first_named(layout@, name@, i as nat),
        decreases layout.sections@.len() - i,
    {
        assert(layout@.sections[i as int] == layout.sections@[i as int]@);
        if str_eq(layout.sections[i].name.as_str(), name) {
            return vstd::slice::slice_to_vec(layout.sections[i].data.as_slice());
        }
        i = i + 1;
    }
    let r: Vec<u8> = Vec::new();
    assert(r@ =~= seq![]);
    r
}

/// `ExitProcess`, and the first `n` of the other names.
pub open spec fn kernel_imports(names: Seq<Seq<char>>, n: nat) -> Seq<Seq<char>>
    decreases n,
{
    if n == 0 {
        seq!["ExitProcess"@]
    } else if names[n - 1] == "ExitProcess"@ {
        kernel_imports(names, (n - 1) as nat)
    } else {
        kernel_imports(names, (n - 1) as nat).push(names[n - 1])
    }
}

/// The names that an image imports.
pub open spec fn imported_names(dynamic: Option<DynamicModel>) -> Seq<Seq<char>> {
    match dynamic {
        Some(d) => d.plt_symbols,
        None => seq![],
    }
}

/// Where the sections of an executable stand.
pub struct PePlan {
    pub data_rva: int,
    pub rdata_rva: int,
    pub rdata: Seq<u8>,
    pub image_size: int,
    pub data_off: int,
    pub rdata_off: int,
}

/// Where the sections of an executable with some code, data and imports stand.
pub open spec fn pe_plan(text: int, data: int, entries: Seq<ImportModel>) -> PePlan {
    let data_rva = 0x1000 + segment::padded(text, 4096);
    let rdata_rva = data_rva + segment::padded(data, 4096);
    let rdata = import_section(entries, rdata_rva);
    let data_off = 512 + segment::padded(text, 512);
    PePlan {
        data_rva,
        rdata_rva,
        rdata,
        image_size: rdata_rva + segment::padded(rdata.len() as int, 4096),
        data_off,
        rdata_off: data_off + segment::padded(data, 512),
    }
}

/// Whether an executable has 32-bit addresses.
pub open spec fn pe_fits(text: int, data: int, entries: Seq<ImportModel>) -> bool {
    let p = pe_plan(text, data, entries);
    imports_fit(entries, p.rdata_rva) && p.image_size <= u32::MAX
}

/// The code, the data where there are any, and the imports.
pub open spec fn pe_sections(text: Seq<u8>, data: Seq<u8>, p: PePlan) -> Seq<PeSectionModel> {
    let code = PeSectionModel {
        name: ".text"@,
        data: text,
        characteristics: CODE_SECTION,
        rva: 0x1000,
        file_off: 512,
    };
    let variables = PeSectionModel {
        name: ".data"@,
        data,
        characteristics: DATA_SECTION,
        rva: p.data_rva as u32,
        file_off: p.data_off as u32,
    };
    let imports = PeSectionModel {
        name: ".rdata"@,
        data: p.rdata,
        characteristics: CONST_SECTION,
        rva: p.rdata_rva as u32,
        file_off: p.rdata_off as u32,
    };
    if data.len() > 0 {
        seq![code, variables, imports]
    } else {
        seq![code, imports]
    }
}

/// The entry point, counted from where the image is loaded.
pub open spec fn entry_rva(entry: u64) -> u32 {
    if entry >= IMAGE_BASE {
        ((entry - IMAGE_BASE) as u64) as u32
    } else {
        0
    }
}

/// An executable with the code and the data of a layout.
pub open spec fn pe_executable(l: LayoutModel, entry: u64, dynamic: Option<DynamicModel>) -> Result<
    Seq<u8>,
    Seq<char>,
> {
    let text = first_named(l, ".text"@, 0);
    let data = first_named(l, ".data"@, 0);
    let names = imported_names(dynamic);
    let symbols = kernel_imports(names, names.len());
    let entries = seq![ImportModel { dll_name: "KERNEL32.DLL"@, symbols }];
    let p = pe_plan(text.len() as int, data.len() as int, entries);
    if !pe_fits(text.len() as int, data.len() as int, entries) {
        Err(link::layout_too_large())
    } else {
        Ok(
            pe_file(
                PeFields {
                    linker_version: 14,
                    code_size: segment::padded(text.len() as int, 512) as u32,
                    data_size: (segment::padded(p.rdata.len() as int, 512) + segment::padded(
                        data.len() as int,
                        512,
                    )) as u32,
                    entry_rva: entry_rva(entry),
                    image_size: p.image_size as u32,
                    import_rva: p.rdata_rva as u32,
                    import_size: 40,
                    iat_rva: (p.rdata_rva + import_places(entries).address) as u32,
                    iat_size: (8 * (symbols.len() + 1)) as u32,
                },
                pe_sections(text, data, p),
            ),
        )
    }
}

fn collect_kernel_imports(names: &[String]) -> (r: Vec<String>)
    ensures
        model::views(r@) == kernel_imports(model::views(names@), names@.len()),
{
    broadcast use model::group_views;
    let mut out: Vec<String> = Vec::new();
    out.push("ExitProcess".to_string());
    assert(model::views(out@) =~= seq!["ExitProcess"@]);
    let mut i: usize = 0;
    while i < names.len()
        invariant
            i <= names@.len(),
            model::views(out@) == kernel_imports(model::views(names@), i as nat),
        decreases names@.len() - i,
    {
        broadcast use model::group_views;
        assert(model::views(names@)[i as int] == names@[i as int]@);
        if !str_eq(names[i].as_str(), "ExitProcess") {
            out.push(names[i].clone());
        }
        i = i + 1;
    }
    out
}

/// Where the sections of an executable stand, as plain numbers.
pub struct Plan {
    pub data_rva: u32,
    pub rdata_rva: u32,
    pub rdata: ImportSection,
    pub image_size: u32,
    pub data_off: u32,
    pub rdata_off: u32,
}

/// Plans an executable; none where it has no 32-bit addresses.
pub fn plan_pe(text: usize, data: usize, entries: &Vec<ImportEntry>) -> (r: Option<Plan>)
    requires
        entries@.len() <= 2,
    ensures
        match r {
            Some(p) => pe_fits(text as int, data as int, model::views(entries@)) && pe_plan(
                text as int,
                data as int,
                model::views(entries@),
            ) == (PePlan {
                data_rva: p.data_rva as int,
                rdata_rva: p.rdata_rva as int,
                rdata: p.rdata.data@,
                image_size: p.image_size as int,
                data_off: p.data_off as int,
                rdata_off: p.rdata_off as int,
            }) && p.rdata.address_tables == import_places(model::views(entries@)).address
                && p.rdata.address_size
                    == 8 * (symbols_before(model::views(entries@), entries@.len())
                + entries@.len()) && p.rdata_rva + p.rdata.address_tables <= u32::MAX && text
                <= 0xffff_ffff && data <= 0xffff_ffff && p.rdata.data@.len() <= 0xffff_ffff
                && segment::padded(p.rdata.data@.len() as int, 512)
                    + segment::padded(data as int, 512) <= u32::MAX,
            None => !pe_fits(text as int, data as int, model::views(entries@)),
        },
{
    let ghost models = model::views(entries@);
    proof {
        lemma_import_section_len(models, pe_plan(text as int, data as int, models).rdata_rva);
    }
    if text as u64 > 0xffff_ffff || data as u64 > 0xffff_ffff {
        return None;
    }
    let data_rva: u64 = 0x1000 + pad_up(text as u64, 4096);
    let rdata_rva: u64 = data_rva + pad_up(data as u64, 4096);
    if rdata_rva > 0xffff_ffff {
        return None;
    }
    let rdata = match build_import_section(rdata_rva as u32, entries) {
        Some(s) => s,
        None => {
            return None;
        },
    };
    let size: u64 = rdata_rva + pad_up(rdata.data.len() as u64, 4096);
    if size > 0xffff_ffff {
        return None;
    }
    let data_off: u64 = 512 + pad_up(text as u64, 512);
    let rdata_off: u64 = data_off + pad_up(data as u64, 512);
    proof {
        lemma_padded_512_le(text as int);
        lemma_padded_512_le(data as int);
        lemma_padded_512_le(rdata.data@.len() as int);
    }
    Some(
        Plan {
            data_rva: data_rva as u32,
            rdata_rva: rdata_rva as u32,
            rdata,
            image_size: size as u32,
            data_off: data_off as u32,
            rdata_off: rdata_off as u32,
        },
    )
}

proof fn lemma_padded_512_le(n: int)
    requires
        0 <= n,
    ensures
        n <= segment::padded(n, 512) <= segment::padded(n, 4096),
{
    let a = segment::padded(n, 512);
    let b = segment::padded(n, 4096);
    assert(n / 512 * 512 + n % 512 == n);
    assert(n / 4096 * 4096 + n % 4096 == n);
}

/// The sections of an executable.
pub(crate) fn pe_section_list(
    text: Vec<u8>,
    data: Vec<u8>,
    p: Plan,
    Ghost(plan): Ghost<PePlan>,
) -> (r: Vec<PeSection>)
    requires
        plan == (PePlan {
            data_rva: p.data_rva as int,
            rdata_rva: p.rdata_rva as int,
            rdata: p.rdata.data@,
            image_size: p.image_size as int,
            data_off: p.data_off as int,
            rdata_off: p.rdata_off as int,
        }),
        text@.len() <= 0xffff_ffff,
        data@.len() <= 0xffff_ffff,
        plan.rdata.len() <= 0xffff_ffff,
    ensures
        model::views(r@) == pe_sections(text@, data@, plan),
        2 <= r@.len() <= 3,
        forall|i: int| 0 <= i < r@.len() ==> (#[trigger] r@[i]).data@.len() <= 0xffff_ffff,
{
    broadcast use model::group_views;
    let has_data: bool = data.len() > 0;
    let mut v: Vec<PeSection> = Vec::new();
    v.push(
        PeSection {
            name: ".text".to_string(),
            data: text,
            characteristics: CODE_SECTION,
            rva: 0x1000,
            file_off: 512,
        },
    );
    if has_data {
        v.push(
            PeSection {
                name: ".data".to_string(),
                data,
                characteristics: DATA_SECTION,
                rva: p.data_rva,
                file_off: p.data_off,
            },
        );
    }
    v.push(
        PeSection {
            name: ".rdata".to_string(),
            data: p.rdata.data,
            characteristics: CONST_SECTION,
            rva: p.rdata_rva,
            file_off: p.rdata_off,
        },
    );
    assert(model::views(v@) =~= pe_sections(text@, data@, plan));
    v
}

/// Appends an executable with the code and the data of a layout. It imports `ExitProcess` and the
/// names that `dyn_info` lists from `KERNEL32.DLL`.
pub fn emit_pe_executable(
    layout: &MergedLayout,
    entry: u64,
    dyn_info: Option<&DynamicLinkInfo>,
    out: &mut Vec<u8>,
) -> (r: Result<(), String>)
    ensures
        match pe_executable(
            layout@,
            entry,
            (match dyn_info {
                Some(d) => Some(d@),
                None => None,
            }),
        ) {
            Ok(b) => r is Ok && final(out)@ == old(out)@ + b,
            Err(e) => r is Err && r->Err_0@ == e && final(out)@ == old(out)@,
        },
{
    broadcast use model::group_views;
    let text = copy_first_named(layout, ".text");
    let data = copy_first_named(layout, ".data");
    let symbols = match dyn_info {
        Some(d) => collect_kernel_imports(d.plt_symbols.as_slice()),
        None => {
            let none: Vec<String> = Vec::new();
            assert(model::views(none@) =~= seq![]);
            collect_kernel_imports(none.as_slice())
        },
    };
    let count: usize = symbols.len();
    let mut entries: Vec<ImportEntry> = Vec::new();
    entries.push(ImportEntry { dll_name: "KERNEL32.DLL".to_string(), symbols });
    let ghost models = model::views(entries@);
    assert(models =~= seq![models[0]]);
    assert(symbols_before(models, 1) == symbols_before(models, 0) + models[0].symbols.len());
    let plan = match plan_pe(text.len(), data.len(), &entries) {
        Some(p) => p,
        None => {
            return Err("layout exceeds the address space".to_string());
        },
    };
    let ghost p = pe_plan(text@.len() as int, data@.len() as int, models);
    let fields = PeFields {
        linker_version: 14,
        code_size: pad_up(text.len() as u64, 512) as u32,
        data_size: (pad_up(plan.rdata.data.len() as u64, 512) + pad_up(
            data.len() as u64,
            512,
        )) as u32,
        entry_rva: if entry >= IMAGE_BASE {
            (entry - IMAGE_BASE) as u32
        } else {
            0
        },
        image_size: plan.image_size,
        import_rva: plan.rdata_rva,
        import_size: 40,
        iat_rva: plan.rdata_rva + plan.rdata.address_tables,
        iat_size: plan.rdata.address_size,
    };
    let sections = pe_section_list(text, data, plan, Ghost(p));
    emit_pe_raw(out, &fields, &sections);
    Ok(())
}

} // verus!

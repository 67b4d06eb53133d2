//! Reading COFF objects.
use vstd::prelude::*;
use vstd::string::*;
use crate::bytes;
use crate::bytes::{read_u16_le, read_u32_le, trim_cstr};
use crate::model;
use crate::names::NameSet;
use crate::text;
use crate::text::decode_text_lossy;

verus! {

pub const COFF_MACHINE_I386: u16 = 0x014C;

pub const COFF_MACHINE_AMD64: u16 = 0x8664;

pub const COFF_MACHINE_ARM64: u16 = 0xAA64;

pub const COFF_MACHINE_ARM: u16 = 0x01C0;

pub const COFF_MACHINE_RISCV32: u16 = 0x5032;

pub const COFF_MACHINE_RISCV64: u16 = 0x5064;

/// The storage class of a symbol that other objects can see.
pub const IMAGE_SYM_CLASS_EXTERNAL: u8 = 2;

/// Whether a number is a machine type of bare objects.
pub open spec fn coff_machine(m: u16) -> bool {
    m == COFF_MACHINE_I386 || m == COFF_MACHINE_AMD64 || m == COFF_MACHINE_ARM64 || m
        == COFF_MACHINE_ARM || m == COFF_MACHINE_RISCV32 || m == COFF_MACHINE_RISCV64
}

/// Whether a file is a bare COFF object. Executables start with `MZ` instead.
pub open spec fn coff_object(data: Seq<u8>) -> bool {
    data.len() >= 20 && coff_machine(bytes::u16_at(data, 0))
        && !(data[0] == 0x4d && data[1] == 0x5a)
}

/// Whether a file is a bare COFF object.
pub fn is_coff(data: &[u8]) -> (r: bool)
    ensures
        r == coff_object(data@),
{
    if data.len() < 20 {
        return false;
    }
    if data[0] == 0x4d && data[1] == 0x5a {
        return false;
    }
    let m: u16 = read_u16_le(data, 0).unwrap();
    m == COFF_MACHINE_I386 || m == COFF_MACHINE_AMD64 || m == COFF_MACHINE_ARM64 || m
        == COFF_MACHINE_ARM || m == COFF_MACHINE_RISCV32 || m == COFF_MACHINE_RISCV64
}

/// The name in the eight bytes at `at`: either they hold it, or four zeros and its offset in the
/// string table.
pub open spec fn coff_name(data: Seq<u8>, at: int, strtab: Seq<u8>) -> Seq<char> {
    if bytes::u32_at(data, at) == 0 {
        let off = bytes::u32_at(data, at + 4);
        if 4 <= off < strtab.len() {
            text::lossy_text(bytes::cstr(strtab.subrange(off as int, strtab.len() as int)))
        } else {
            seq![]
        }
    } else {
        text::lossy_text(bytes::cstr(data.subrange(at, at + 8)))
    }
}

/// Reads the name in the eight bytes at `at`.
pub fn coff_symbol_name(data: &[u8], at: usize, strtab: &[u8]) -> (r: String)
    requires
        at + 8 <= data@.len(),
    ensures
        r@ == coff_name(data@, at as int, strtab@),
{
    assert(data.len() == data@.len());
    if read_u32_le(data, at).unwrap() == 0 {
        let off: usize = read_u32_le(data, at + 4).unwrap() as usize;
        if off >= 4 && off < strtab.len() {
            let rest = vstd::slice::slice_subrange(strtab, off, strtab.len());
            return decode_text_lossy(trim_cstr(rest));
        }
        let r = String::new();
        assert(r@ =~= seq![]);
        return r;
    }
    decode_text_lossy(trim_cstr(vstd::slice::slice_subrange(data, at, at + 8)))
}

/// The names that an object defines for others, and those that it needs from them.
#[derive(Debug, Clone)]
pub struct ObjectSymbolSummary {
    pub defined: NameSet,
    pub undefined: NameSet,
}

/// The view of a summary.
pub struct SummaryModel {
    pub defined: Set<Seq<char>>,
    pub undefined: Set<Seq<char>>,
}

impl View for ObjectSymbolSummary {
    type V = SummaryModel;

    open spec fn view(&self) -> SummaryModel {
        SummaryModel { defined: self.defined@, undefined: self.undefined@ }
    }
}

/// A summary without names.
pub open spec fn no_symbols() -> SummaryModel {
    SummaryModel { defined: Set::empty(), undefined: Set::empty() }
}

/// A summary without names.
pub fn empty_summary() -> (r: ObjectSymbolSummary)
    ensures
        r@ == no_symbols(),
{
    ObjectSymbolSummary { defined: NameSet::new(), undefined: NameSet::new() }
}

/// `s` without the needs that it meets itself.
pub open spec fn settled(s: SummaryModel) -> SummaryModel {
    SummaryModel { undefined: s.undefined.difference(s.defined), ..s }
}

/// Drops the needs that the object meets itself.
pub fn settle(s: ObjectSymbolSummary) -> (r: ObjectSymbolSummary)
    ensures
        r@ == settled(s@),
{
    let mut undefined = s.undefined;
    undefined.remove_all(&s.defined);
    ObjectSymbolSummary { defined: s.defined, undefined }
}

/// The string table behind a symbol table that ends at `end`.
pub open spec fn coff_strtab(data: Seq<u8>, end: int) -> Seq<u8> {
    let size = if end + 4 <= data.len() {
        bytes::u32_at(data, end) as int
    } else {
        0
    };
    if end + size <= data.len() {
        data.subrange(end, end + size)
    } else {
        data.subrange(end, data.len() as int)
    }
}

/// `s` with the external symbols of the records from `i` on. The byte 16 of a record counts the
/// auxiliary records that follow it, the byte 17 holds its storage class.
pub open spec fn coff_summary_from(
    data: Seq<u8>,
    table: int,
    count: nat,
    strtab: Seq<u8>,
    i: nat,
    s: SummaryModel,
) -> SummaryModel
    decreases
            (if i < count {
                count - i
            } else {
                0
            }),
{
    if i >= count {
        s
    } else {
        let at = table + i * 18;
        let name = coff_name(data, at, strtab);
        let next = if data[at + 17] == IMAGE_SYM_CLASS_EXTERNAL && name.len() != 0 {
            if bytes::u16_at(data, at + 12) == 0 {
                SummaryModel { undefined: s.undefined.insert(name), ..s }
            } else {
                SummaryModel { defined: s.defined.insert(name), ..s }
            }
        } else {
            s
        };
        coff_summary_from(data, table, count, strtab, i + 1 + data[at + 16] as nat, next)
    }
}

/// The external names of a COFF object; none where its symbol table is not in the file.
pub open spec fn coff_summary(data: Seq<u8>) -> Option<SummaryModel> {
    if data.len() < 20 {
        None
    } else {
        let table = bytes::u32_at(data, 8) as int;
        let count = bytes::u32_at(data, 12) as nat;
        let end = table + count * 18;
        if table == 0 || count == 0 {
            Some(no_symbols())
        } else if end > data.len() {
            None
        } else {
            Some(
                settled(
                    coff_summary_from(data, table, count, coff_strtab(data, end), 0, no_symbols()),
                ),
            )
        }
    }
}

fn find_strtab<'a>(data: &'a [u8], end: usize) -> (r: &'a [u8])
    requires
        end <= data@.len(),
    ensures
        r@ == coff_strtab(data@, end as int),
{
    let n: usize = data.len();
    let size: usize = match read_u32_le(data, end) {
        Some(v) => v as usize,
        None => 0,
    };
    if size <= n - end {
        vstd::slice::slice_subrange(data, end, end + size)
    } else {
        vstd::slice::slice_subrange(data, end, n)
    }
}

/// Collects the external names of a COFF object.
pub fn collect_coff_symbol_summary(data: &[u8]) -> (r: Option<ObjectSymbolSummary>)
    ensures
        model::view_opt(r) == coff_summary(data@),
{
    if data.len() < 20 {
        return None;
    }
    let table: u64 = read_u32_le(data, 8).unwrap() as u64;
    let count: u64 = read_u32_le(data, 12).unwrap() as u64;
    let mut summary = empty_summary();
    if table == 0 || count == 0 {
        return Some(summary);
    }
    if table + count * 18 > data.len() as u64 {
        return None;
    }
    let strtab = find_strtab(data, (table + count * 18) as usize);
    let ghost total = coff_summary_from(
        data@,
        table as int,
        count as nat,
        strtab@,
        0,
        no_symbols(),
    );
    let mut i: u64 = 0;
    while i < count
        invariant
            table <= u32::MAX,
            count <= u32::MAX,
            i <= count + 256,
            table + count * 18 <= data@.len(),
            data@.len() <= usize::MAX,
            total == coff_summary_from(
                data@,
                table as int,
                count as nat,
                strtab@,
                i as nat,
                summary@,
            ),
        decreases count + 256 - i,
    {
        let at: usize = (table + i * 18) as usize;
        let section: u16 = read_u16_le(data, at + 12).unwrap();
        if data[at + 17] == IMAGE_SYM_CLASS_EXTERNAL {
            let name = coff_symbol_name(data, at, strtab);
            if name.as_str().unicode_len() != 0 {
                if section == 0 {
                    summary.undefined.insert(name);
                } else {
                    summary.defined.insert(name);
                }
            }
        }
        i = i + 1 + data[at + 16] as u64;
    }
    Some(settle(summary))
}

} // verus!

//! Chained fixups: the pointers that the loader fills form a chain in each page, and a payload
//! tells where the chains start and what the pointers are filled with.
use vstd::prelude::*;
use vstd::string::*;
use vstd::utf8::*;
use crate::bytes;
use crate::bytes::{
    has_bytes, offset_index, push_bytes, push_u16, push_u32, push_u64, push_zeros, write_u32,
    write_u64,
};
use crate::model;
use crate::segment;
use crate::segment::padding;

verus! {

/// A page on which no chain starts.
pub const NO_CHAIN: u16 = 0xFFFF;

/// The number of slots that are chained: one for each name, as far as there are slots.
pub open spec fn chain_length(slots: u64, names: nat) -> nat {
    if slots < names {
        slots as nat
    } else {
        names
    }
}

/// Where the slot `i` of a table at `got` stands.
pub open spec fn chain_place(got: u64, i: nat) -> int {
    got + 8 * i
}

/// The page of the slot `i`.
pub open spec fn chain_page(got: u64, i: nat) -> u32 {
    ((chain_place(got, i) / 0x4000) as u64) as u32
}

/// The pointer in the slot `i` of `n`: the number of the import, and how many words behind it the
/// next slot on the same page is.
pub open spec fn chain_pointer(got: u64, i: nat, n: nat) -> u64 {
    let next: u64 = if i + 1 < n && chain_place(got, i + 1) / 0x4000
        == chain_place(got, i) / 0x4000 {
        2
    } else {
        0
    };
    ((i as u64) & 0x00FF_FFFF) | ((next & 0x0FFF) << 51) | (1u64 << 63)
}

/// `data` with the pointers of the slots from `i` on, as far as it holds them.
pub open spec fn chained_slots(data: Seq<u8>, got: u64, n: nat, i: nat) -> Seq<u8>
    decreases
            (if i < n {
                n - i
            } else {
                0
            }),
{
    if i >= n || chain_place(got, i) + 8 > data.len() {
        data
    } else {
        chained_slots(
            bytes::patch(data, chain_place(got, i), bytes::le64(chain_pointer(got, i, n))),
            got,
            n,
            i + 1,
        )
    }
}

/// How many of the slots from `i` on the data holds, together with those in front of `i`.
pub open spec fn slots_inside(len: nat, got: u64, n: nat, i: nat) -> nat
    decreases
            (if i < n {
                n - i
            } else {
                0
            }),
{
    if i >= n || chain_place(got, i) + 8 > len {
        i
    } else {
        slots_inside(len, got, n, i + 1)
    }
}

/// The highest page of the first `v` slots, or zero.
pub open spec fn last_page(got: u64, v: nat) -> u32
    decreases v,
{
    if v == 0 {
        0
    } else if chain_page(got, (v - 1) as nat) > last_page(got, (v - 1) as nat) {
        chain_page(got, (v - 1) as nat)
    } else {
        last_page(got, (v - 1) as nat)
    }
}

/// Where the chain of a page starts: at the first of the slots from `i` up to `v` on it.
pub open spec fn chain_start(got: u64, v: nat, page: int, i: nat) -> u16
    decreases
            (if i < v {
                v - i
            } else {
                0
            }),
{
    if i >= v {
        NO_CHAIN
    } else if chain_page(got, i) == page {
        (chain_place(got, i) % 0x4000) as u16
    } else {
        chain_start(got, v, page, i + 1)
    }
}

/// How many pages the data segment has.
pub open spec fn page_count(size: u64, got: u64, v: nat) -> nat {
    let whole = (size as nat + 0x3fff) / 0x4000;
    if whole > last_page(got, v) + 1 {
        whole
    } else {
        (last_page(got, v) + 1) as nat
    }
}

/// The starts of the chains of the first `k` pages.
pub open spec fn start_bytes(got: u64, v: nat, k: nat) -> Seq<u8>
    decreases k,
{
    if k == 0 {
        seq![]
    } else {
        start_bytes(got, v, (k - 1) as nat) + bytes::le16(chain_start(got, v, k - 1, 0))
    }
}

/// The length of the description of a segment with `pages` pages.
pub open spec fn info_size(pages: nat) -> int {
    segment::padded(22 + 2 * pages as int, 8)
}

/// The description of the data segment.
pub open spec fn segment_info(vmoff: u64, pages: nat, got: u64, v: nat) -> Seq<u8> {
    bytes::le32(info_size(pages) as u32) + bytes::le16(0x4000) + bytes::le16(2) + bytes::le64(vmoff)
        + bytes::le32(0) + bytes::le16(pages as u16) + start_bytes(got, v, pages) + bytes::zeros(
        info_size(pages) - (22 + 2 * pages),
    )
}

/// The length of the list of segments.
pub open spec fn list_size(segments: u32) -> int {
    segment::padded(4 + 4 * segments, 8)
}

/// The list of segments: each has the distance of its description, or zero where it has none.
pub open spec fn segment_list(segments: u32, described: Option<u32>) -> Seq<u8> {
    let blank = bytes::le32(segments) + bytes::zeros(list_size(segments) - 4);
    match described {
        Some(i) if 4 + 4 * i + 4 <= list_size(segments) => bytes::patch(
            blank,
            4 + 4 * i,
            bytes::le32(list_size(segments) as u32),
        ),
        _ => blank,
    }
}

/// The offset that the import `k` has for its name: that of the import before it, plus the length
/// of the name at the position of that number, and its zero.
pub open spec fn name_offset(names: Seq<Seq<char>>, k: nat) -> int
    decreases k,
{
    if k == 0 {
        0
    } else {
        let before = name_offset(names, (k - 1) as nat);
        before + encode_utf8(names[before]).len() + 1
    }
}

/// Whether the first `n` imports have offsets for their names, in 32 bits.
pub open spec fn offsets_fit(names: Seq<Seq<char>>, n: nat) -> bool {
    forall|k: nat|
        k < n ==> 0 <= #[trigger] name_offset(names, k) < names.len() && name_offset(names, k)
            + encode_utf8(names[name_offset(names, k)]).len() + 1 <= u32::MAX
}

/// The first `k` imports: each is looked up in all libraries.
pub open spec fn import_list(names: Seq<Seq<char>>, k: nat) -> Seq<u8>
    decreases k,
{
    if k == 0 {
        seq![]
    } else {
        import_list(names, (k - 1) as nat) + bytes::le32(
            0xFEu32 | ((name_offset(names, (k - 1) as nat) as u32) << 9),
        )
    }
}

/// The first `k` names, each closed by a zero.
pub open spec fn name_list(names: Seq<Seq<char>>, k: nat) -> Seq<u8>
    decreases k,
{
    if k == 0 {
        seq![]
    } else {
        name_list(names, (k - 1) as nat) + encode_utf8(names[k - 1]) + seq![0u8]
    }
}

/// The header of the payload.
pub open spec fn fixups_header(imports: u32, symbols: u32, n: u32) -> Seq<u8> {
    bytes::le32(0) + bytes::le32(32) + bytes::le32(imports) + bytes::le32(symbols) + bytes::le32(n)
        + bytes::le32(1) + bytes::le32(0) + bytes::zeros(4)
}

/// What chained fixups are made for.
pub struct FixupPlan {
    pub segments: u32,
    pub data_segment: Option<u32>,
    pub data_vmoff: u64,
    pub data_size: u64,
    pub got: u64,
    pub slots: u64,
}

/// The list of segments and the description of the data segment, for data of `len` bytes.
pub open spec fn chain_starts(p: FixupPlan, n: nat, len: nat) -> Seq<u8> {
    let v = slots_inside(len, p.got, n, 0);
    if n > 0 && p.data_segment is Some {
        segment_list(p.segments, p.data_segment) + segment_info(
            p.data_vmoff,
            page_count(p.data_size, p.got, v),
            p.got,
            v,
        )
    } else {
        segment_list(p.segments, None)
    }
}

/// The payload for data of `len` bytes.
pub open spec fn fixups_payload(p: FixupPlan, names: Seq<Seq<char>>, len: nat) -> Seq<u8> {
    let n = chain_length(p.slots, names.len());
    let starts = chain_starts(p, n, len);
    let imports = 32 + starts.len();
    let symbols = imports + 4 * n;
    let end = symbols + name_list(names, n).len();
    fixups_header(imports as u32, symbols as u32, n as u32) + starts + import_list(names, n)
        + name_list(names, n) + bytes::zeros(segment::padded(end as int, 8) - end)
}

/// Whether the slots have addresses and the payload a length.
pub open spec fn fixups_fit(p: FixupPlan, names: Seq<Seq<char>>, len: nat) -> bool {
    let n = chain_length(p.slots, names.len());
    let v = slots_inside(len, p.got, n, 0);
    &&& p.got + 8 * n + 8 <= u64::MAX
    &&& 32 + list_size(p.segments) + info_size(page_count(p.data_size, p.got, v)) + 4 * n
        + name_list(names, n).len() + 8 <= usize::MAX
    &&& offsets_fit(names, n)
}

fn chain_slots(data: &mut Vec<u8>, got: u64, n: usize) -> (r: usize)
    requires
        got + 8 * n + 8 <= u64::MAX,
    ensures
        final(data)@ == chained_slots(old(data)@, got, n as nat, 0),
        r == slots_inside(old(data)@.len(), got, n as nat, 0),
        r <= n,
{
    broadcast use bytes::group_le_len;
    let mut i: usize = 0;
    while i < n
        invariant
            i <= n,
            got + 8 * n + 8 <= u64::MAX,
            data@.len() == old(data)@.len(),
            chained_slots(data@, got, n as nat, i as nat) == chained_slots(
                old(data)@,
                got,
                n as nat,
                0,
            ),
            slots_inside(data@.len(), got, n as nat, i as nat) == slots_inside(
                data@.len(),
                got,
                n as nat,
                0,
            ),
        decreases n - i,
    {
        broadcast use bytes::group_le_len;
        let off: u64 = got + i as u64 * 8;
        let at: usize = offset_index(off);
        if !has_bytes(data.as_slice(), at, 8) {
            return i;
        }
        let next: u64 = if i + 1 < n && (off + 8) / 0x4000 == off / 0x4000 {
            2
        } else {
            0
        };
        let pointer: u64 = ((i as u64) & 0x00FF_FFFF) | ((next & 0x0FFF) << 51) | (1u64 << 63);
        write_u64(data, at, pointer);
        i = i + 1;
    }
    i
}

fn find_last_page(got: u64, v: usize) -> (r: u32)
    requires
        got + 8 * v <= u64::MAX,
    ensures
        r == last_page(got, v as nat),
{
    let mut last: u32 = 0;
    let mut i: usize = 0;
    while i < v
        invariant
            i <= v,
            got + 8 * v <= u64::MAX,
            last == last_page(got, i as nat),
        decreases v - i,
    {
        let page: u32 = ((got + i as u64 * 8) / 0x4000) as u32;
        if page > last {
            last = page;
        }
        i = i + 1;
    }
    last
}

fn count_pages(size: u64, got: u64, v: usize) -> (r: u64)
    requires
        got + 8 * v <= u64::MAX,
    ensures
        r == page_count(size, got, v as nat),
{
    let last: u64 = find_last_page(got, v) as u64 + 1;
    let whole: u64 = size / 0x4000 + if size % 0x4000 != 0 {
        1
    } else {
        0
    };
    if whole > last {
        whole
    } else {
        last
    }
}

fn find_starts(got: u64, v: usize, pages: usize) -> (r: Vec<u16>)
    requires
        got + 8 * v <= u64::MAX,
    ensures
        r@.len() == pages,
        forall|k: int| 0 <= k < pages ==> #[trigger] r@[k] == chain_start(got, v as nat, k, 0),
{
    let mut starts: Vec<u16> = vec![NO_CHAIN; pages];
    let mut i: usize = v;
    while i > 0
        invariant
            i <= v,
            got + 8 * v <= u64::MAX,
            starts@.len() == pages,
            forall|k: int|
                0 <= k < pages ==> #[trigger] starts@[k] == chain_start(got, v as nat, k, i as nat),
        decreases i,
    {
        i = i - 1;
        let off: u64 = got + i as u64 * 8;
        let page: u32 = (off / 0x4000) as u32;
        if (page as u64) < pages as u64 {
            starts[page as usize] = (off % 0x4000) as u16;
        }
    }
    starts
}

fn push_segment_info(out: &mut Vec<u8>, vmoff: u64, pages: usize, got: u64, v: usize)
    requires
        got + 8 * v <= u64::MAX,
        22 + 2 * pages + 8 <= usize::MAX,
    ensures
        final(out)@ == old(out)@ + segment_info(vmoff, pages as nat, got, v as nat),
{
    let used: usize = 22 + 2 * pages;
    let pad: usize = padding(used, 8);
    let mut info: Vec<u8> = Vec::new();
    push_u32(&mut info, (used + pad) as u32);
    assert(info@ =~= bytes::le32(info_size(pages as nat) as u32));
    push_u16(&mut info, 0x4000);
    push_u16(&mut info, 2);
    push_u64(&mut info, vmoff);
    push_u32(&mut info, 0);
    push_u16(&mut info, pages as u16);
    let starts = find_starts(got, v, pages);
    let mut body: Vec<u8> = Vec::new();
    let mut k: usize = 0;
    while k < pages
        invariant
            k <= pages,
            starts@.len() == pages,
            forall|k: int|
                0 <= k < pages ==> #[trigger] starts@[k] == chain_start(got, v as nat, k, 0),
            body@ == start_bytes(got, v as nat, k as nat),
        decreases pages - k,
    {
        push_u16(&mut body, starts[k]);
        k = k + 1;
    }
    push_bytes(&mut info, body.as_slice());
    push_zeros(&mut info, pad);
    push_bytes(out, info.as_slice());
}

fn push_segment_list(out: &mut Vec<u8>, segments: u32, described: Option<u32>)
    requires
        list_size(segments) <= usize::MAX,
    ensures
        final(out)@ == old(out)@ + segment_list(segments, described),
{
    broadcast use bytes::group_le_len;
    let used: u64 = 4 + 4 * segments as u64;
    let size: usize = (used + (8 - used % 8) % 8) as usize;
    assert(size == list_size(segments));
    let mut list: Vec<u8> = Vec::new();
    push_u32(&mut list, segments);
    push_zeros(&mut list, size - 4);
    assert(list@ =~= bytes::le32(segments) + bytes::zeros(size - 4));
    if let Some(i) = described {
        if 4 + 4 * (i as u64) + 4 <= size as u64 {
            write_u32(&mut list, 4 + 4 * i as usize, size as u32);
        }
    }
    push_bytes(out, list.as_slice());
}

fn push_import_list(out: &mut Vec<u8>, names: &[String], n: usize)
    requires
        n <= names@.len(),
        offsets_fit(model::views(names@), n as nat),
    ensures
        final(out)@ == old(out)@ + import_list(model::views(names@), n as nat),
{
    let ghost models = model::views(names@);
    let mut list: Vec<u8> = Vec::new();
    let mut offset: u32 = 0;
    let mut k: usize = 0;
    while k < n
        invariant
            k <= n,
            n <= names@.len(),
            models == model::views(names@),
            offsets_fit(models, n as nat),
            offset == name_offset(models, k as nat),
            list@ == import_list(models, k as nat),
        decreases n - k,
    {
        assert(0 <= name_offset(models, k as nat) < models.len());
        push_u32(&mut list, 0xFEu32 | (offset << 9));
        assert(models[offset as int] == names@[offset as int]@);
        let name = names[offset as usize].as_str().as_bytes();
        offset = offset + (name.len() + 1) as u32;
        k = k + 1;
    }
    push_bytes(out, list.as_slice());
}

fn push_name_list(out: &mut Vec<u8>, names: &[String], n: usize)
    requires
        n <= names@.len(),
    ensures
        final(out)@ == old(out)@ + name_list(model::views(names@), n as nat),
{
    let ghost models = model::views(names@);
    let mut list: Vec<u8> = Vec::new();
    let mut k: usize = 0;
    while k < n
        invariant
            k <= n,
            n <= names@.len(),
            models == model::views(names@),
            list@ == name_list(models, k as nat),
        decreases n - k,
    {
        assert(models[k as int] == names@[k as int]@);
        let ghost before = list@;
        push_bytes(&mut list, names[k].as_str().as_bytes());
        list.push(0);
        assert(list@ =~= before + encode_utf8(models[k as int]) + seq![0u8]);
        k = k + 1;
    }
    push_bytes(out, list.as_slice());
}

fn build_chain_starts(p: &FixupPlan, n: usize, v: usize, Ghost(len): Ghost<nat>) -> (r: Vec<u8>)
    requires
        v == slots_inside(len, p.got, n as nat, 0),
        v <= n,
        p.got + 8 * n + 8 <= u64::MAX,
        list_size(p.segments) + info_size(page_count(p.data_size, p.got, v as nat)) <= usize::MAX,
    ensures
        r@ == chain_starts(*p, n as nat, len),
{
    let mut out: Vec<u8> = Vec::new();
    if n > 0 && p.data_segment.is_some() {
        let pages: u64 = count_pages(p.data_size, p.got, v);
        assert(22 + 2 * pages <= info_size(pages as nat));
        push_segment_list(&mut out, p.segments, p.data_segment);
        assert(out@ =~= segment_list(p.segments, p.data_segment));
        push_segment_info(&mut out, p.data_vmoff, pages as usize, p.got, v);
    } else {
        push_segment_list(&mut out, p.segments, None);
        assert(out@ =~= segment_list(p.segments, None));
    }
    out
}

/// Chains the slots of the imports in the data, and builds the payload for them. Names are looked
/// up at the positions of their offsets.
pub fn build_chained_fixups_payload(p: &FixupPlan, names: &[String], data: &mut Vec<u8>) -> (r: Vec<
    u8,
>)
    requires
        fixups_fit(*p, model::views(names@), old(data)@.len()),
    ensures
        r@ == fixups_payload(*p, model::views(names@), old(data)@.len()),
        final(data)@ == chained_slots(
            old(data)@,
            p.got,
            chain_length(p.slots, names@.len()),
            0,
        ),
{
    broadcast use bytes::group_le_len;
    let ghost len = data@.len();
    let ghost models = model::views(names@);
    let n: usize = if p.slots < names.len() as u64 {
        p.slots as usize
    } else {
        names.len()
    };
    assert(n == chain_length(p.slots, models.len()));
    let v: usize = chain_slots(data, p.got, n);
    let starts = build_chain_starts(p, n, v, Ghost(len));
    proof {
        lemma_chain_starts_len(*p, n as nat, len);
    }
    let imports: usize = 32 + starts.len();
    let symbols: usize = imports + 4 * n;
    let mut out: Vec<u8> = Vec::new();
    push_u32(&mut out, 0);
    assert(out@ =~= bytes::le32(0));
    push_u32(&mut out, 32);
    push_u32(&mut out, imports as u32);
    push_u32(&mut out, symbols as u32);
    push_u32(&mut out, n as u32);
    push_u32(&mut out, 1);
    push_u32(&mut out, 0);
    push_zeros(&mut out, 4);
    assert(out@ == fixups_header(imports as u32, symbols as u32, n as u32));
    push_bytes(&mut out, starts.as_slice());
    push_import_list(&mut out, names, n);
    push_name_list(&mut out, names, n);
    proof {
        lemma_import_list_len(models, n as nat);
    }
    let pad: usize = padding(out.len(), 8);
    push_zeros(&mut out, pad);
    out
}

pub proof fn lemma_start_bytes_len(got: u64, v: nat, k: nat)
    ensures
        start_bytes(got, v, k).len() == 2 * k,
    decreases k,
{
    broadcast use bytes::group_le_len;
    if k > 0 {
        lemma_start_bytes_len(got, v, (k - 1) as nat);
    }
}

proof fn lemma_chain_starts_len(p: FixupPlan, n: nat, len: nat)
    ensures
        chain_starts(p, n, len).len() <= list_size(p.segments) + info_size(
            page_count(p.data_size, p.got, slots_inside(len, p.got, n, 0)),
        ),
{
    broadcast use bytes::group_le_len;
    let v = slots_inside(len, p.got, n, 0);
    lemma_start_bytes_len(p.got, v, page_count(p.data_size, p.got, v));
}

pub proof fn lemma_import_list_len(names: Seq<Seq<char>>, k: nat)
    ensures
        import_list(names, k).len() == 4 * k,
    decreases k,
{
    broadcast use bytes::group_le_len;
    if k > 0 {
        lemma_import_list_len(names, (k - 1) as nat);
    }
}

proof fn lemma_later_slots_keep(data: Seq<u8>, got: u64, n: nat, i: nat, at: int)
    requires
        0 <= at < data.len(),
        at < chain_place(got, i) || at >= chain_place(got, n),
    ensures
        chained_slots(data, got, n, i).len() == data.len(),
        chained_slots(data, got, n, i)[at] == data[at],
    decreases
            (if i < n {
                n - i
            } else {
                0
            }),
{
    broadcast use bytes::group_le_len;
    if i < n && chain_place(got, i) + 8 <= data.len() {
        let next = bytes::patch(data, chain_place(got, i), bytes::le64(chain_pointer(got, i, n)));
        lemma_later_slots_keep(next, got, n, i + 1, at);
    }
}

proof fn lemma_slot_holds(data: Seq<u8>, got: u64, n: nat, i: nat, k: nat)
    requires
        i <= k < slots_inside(data.len(), got, n, i),
    ensures
        chained_slots(data, got, n, i).len() == data.len(),
        chain_place(got, k) + 8 <= data.len(),
        bytes::u64_at(chained_slots(data, got, n, i), chain_place(got, k)) == chain_pointer(
            got,
            k,
            n,
        ),
    decreases k - i,
{
    broadcast use bytes::group_le_len;
    let b = bytes::le64(chain_pointer(got, i, n));
    let next = bytes::patch(data, chain_place(got, i), b);
    if i < k {
        lemma_slot_holds(next, got, n, i + 1, k);
    } else {
        lemma_slots_inside(data.len(), got, n, i);
        let all = chained_slots(data, got, n, i);
        let at = chain_place(got, i);
        assert forall|j: int| at <= j < at + 8 implies all[j] == b[j - at] by {
            lemma_later_slots_keep(next, got, n, i + 1, j);
        }
        lemma_later_slots_keep(next, got, n, i + 1, at);
        assert(all.subrange(at, at + 8) =~= b);
        bytes::lemma_read_u64(all, at, chain_pointer(got, i, n));
    }
}

proof fn lemma_slots_inside(len: nat, got: u64, n: nat, i: nat)
    requires
        i < slots_inside(len, got, n, i),
    ensures
        i < n,
        chain_place(got, i) + 8 <= len,
{
}

/// Each slot that the data holds has the pointer of its import, and no byte outside of the slots
/// changes.
pub proof fn law_slots_are_chained(data: Seq<u8>, got: u64, n: nat, k: nat, at: int)
    ensures
        k < slots_inside(data.len(), got, n, 0) ==> bytes::u64_at(
            chained_slots(data, got, n, 0),
            chain_place(got, k),
        ) == chain_pointer(got, k, n),
        0 <= at < data.len() && (at < got || at >= got + 8 * n) ==> chained_slots(
            data,
            got,
            n,
            0,
        )[at] == data[at],
{
    if k < slots_inside(data.len(), got, n, 0) {
        lemma_slot_holds(data, got, n, 0, k);
    }
    if 0 <= at < data.len() && (at < got || at >= got + 8 * n) {
        lemma_later_slots_keep(data, got, n, 0, at);
    }
}

/// A pointer is marked as an import, holds its number, and leads to the next slot on its page, two
/// words further.
pub proof fn law_pointers_lead_on(got: u64, i: nat, n: nat)
    requires
        i < 0x0100_0000,
    ensures
        chain_pointer(got, i, n) >> 63 == 1,
        chain_pointer(got, i, n) & 0x00FF_FFFF == i,
        (chain_pointer(got, i, n) >> 51) & 0x0FFF == if i + 1 < n
            && chain_place(got, i + 1) / 0x4000
            == chain_place(got, i) / 0x4000 {
            2u64
        } else {
            0
        },
{
    let x = i as u64;
    let next: u64 = if i + 1 < n && chain_place(got, i + 1) / 0x4000
        == chain_place(got, i) / 0x4000 {
        2
    } else {
        0
    };
    let p = (x & 0x00FF_FFFF) | ((next & 0x0FFF) << 51) | (1u64 << 63);
    assert(p >> 63 == 1 && p & 0x00FF_FFFF == x && (p >> 51) & 0x0FFF == next) by (bit_vector)
        requires
            p == (x & 0x00FF_FFFF) | ((next & 0x0FFF) << 51) | (1u64 << 63),
            x < 0x0100_0000u64,
            next <= 2u64,
    ;
}

} // verus!

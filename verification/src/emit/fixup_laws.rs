//! What the payload of chained fixups tells the loader.
use vstd::prelude::*;
use vstd::utf8::*;
use crate::bytes;
use crate::emit::fixups;
use crate::emit::fixups::FixupPlan;
use crate::reading_laws;

verus! {

/// How many bytes the first `k` names take, each with its zero.
pub open spec fn names_len(names: Seq<Seq<char>>, k: nat) -> int
    decreases k,
{
    if k == 0 {
        0
    } else {
        names_len(names, (k - 1) as nat) + encode_utf8(names[k - 1]).len() + 1
    }
}

proof fn lemma_import_stands(names: Seq<Seq<char>>, n: nat, k: nat)
    requires
        k < n,
    ensures
        fixups::import_list(names, n).len() == 4 * n,
        fixups::import_list(names, n).subrange(4 * k as int, 4 * k as int + 4) == bytes::le32(
            0xFEu32 | ((fixups::name_offset(names, k) as u32) << 9),
        ),
    decreases n,
{
    broadcast use bytes::group_le_len;
    fixups::lemma_import_list_len(names, n);
    fixups::lemma_import_list_len(names, (n - 1) as nat);
    let all = fixups::import_list(names, n);
    let head = fixups::import_list(names, (n - 1) as nat);
    if k + 1 < n {
        lemma_import_stands(names, (n - 1) as nat, k);
        assert(all.subrange(4 * k as int, 4 * k as int + 4) =~= head.subrange(4 * k as int, 4 * k as int + 4));
    } else {
        assert(all.subrange(4 * k as int, 4 * k as int + 4) =~= bytes::le32(
            0xFEu32 | ((fixups::name_offset(names, k) as u32) << 9),
        ));
    }
}

proof fn lemma_name_list_len(names: Seq<Seq<char>>, n: nat)
    ensures
        fixups::name_list(names, n).len() == names_len(names, n),
    decreases n,
{
    if n > 0 {
        lemma_name_list_len(names, (n - 1) as nat);
    }
}

proof fn lemma_name_stands(names: Seq<Seq<char>>, n: nat, k: nat)
    requires
        k < n,
    ensures
        ({
            let all = fixups::name_list(names, n);
            let at = names_len(names, k);
            let b = encode_utf8(names[k as int]);
            0 <= at && at + b.len() + 1 <= all.len() && all.subrange(at, at + b.len() + 1) == b.push(
                0u8,
            )
        }),
    decreases n,
{
    lemma_name_list_len(names, n);
    lemma_name_list_len(names, (n - 1) as nat);
    let all = fixups::name_list(names, n);
    let head = fixups::name_list(names, (n - 1) as nat);
    let at = names_len(names, k);
    let b = encode_utf8(names[k as int]);
    if k + 1 < n {
        lemma_name_stands(names, (n - 1) as nat, k);
        assert(all.subrange(at, at + b.len() + 1) =~= head.subrange(at, at + b.len() + 1));
    } else {
        assert(all.subrange(at, at + b.len() + 1) =~= b.push(0u8));
    }
}

/// The parts of the payload, one behind the other.
proof fn lemma_payload_parts(p: FixupPlan, names: Seq<Seq<char>>, len: nat)
    ensures
        ({
            let e = fixups::fixups_payload(p, names, len);
            let n = fixups::chain_length(p.slots, names.len());
            let starts = fixups::chain_starts(p, n, len);
            let imports = 32 + starts.len() as int;
            let symbols = imports + 4 * n;
            let strings = fixups::name_list(names, n);
            let h = fixups::fixups_header(imports as u32, symbols as u32, n as u32);
            &&& h.len() == 32
            &&& symbols + strings.len() <= e.len() <= symbols + strings.len() + 7
            &&& e.len() % 8 == 0
            &&& e.subrange(0, 32) == h
            &&& e.subrange(32, imports) == starts
            &&& e.subrange(imports, symbols) == fixups::import_list(names, n)
            &&& e.subrange(symbols, symbols + strings.len()) == strings
        }),
{
    broadcast use bytes::group_le_len;
    let e = fixups::fixups_payload(p, names, len);
    let n = fixups::chain_length(p.slots, names.len());
    let starts = fixups::chain_starts(p, n, len);
    let imports = 32 + starts.len() as int;
    let symbols = imports + 4 * n;
    let strings = fixups::name_list(names, n);
    let h = fixups::fixups_header(imports as u32, symbols as u32, n as u32);
    fixups::lemma_import_list_len(names, n);
    assert(h.len() == 32);
    assert(e.subrange(0, 32) =~= h);
    assert(e.subrange(32, imports) =~= starts);
    assert(e.subrange(imports, symbols) =~= fixups::import_list(names, n));
    assert(e.subrange(symbols, symbols + strings.len()) =~= strings);
}

/// The payload begins with where its parts stand: the chains, the imports and their names. It has as
/// many imports as there are slots for names.
pub proof fn law_fixups_tell_parts(p: FixupPlan, names: Seq<Seq<char>>, len: nat)
    requires
        fixups::fixups_payload(p, names, len).len() <= u32::MAX,
    ensures
        ({
            let e = fixups::fixups_payload(p, names, len);
            let n = bytes::u32_at(e, 16);
            let imports = bytes::u32_at(e, 8);
            let symbols = bytes::u32_at(e, 12);
            &&& e.len() % 8 == 0
            &&& bytes::u32_at(e, 0) == 0 && bytes::u32_at(e, 4) == 32
            &&& bytes::u32_at(e, 20) == 1 && bytes::u32_at(e, 24) == 0
            &&& n <= p.slots && n <= names.len() && (n == p.slots || n == names.len())
            &&& 32 < imports && symbols == imports + 4 * n && symbols <= e.len()
        }),
{
    broadcast use bytes::group_le_len;
    lemma_payload_parts(p, names, len);
    lemma_header(p, names, len);
    let e = fixups::fixups_payload(p, names, len);
    let n = fixups::chain_length(p.slots, names.len());
    let starts = fixups::chain_starts(p, n, len);
    let imports = 32 + starts.len() as int;
    let symbols = imports + 4 * n;
    let h = fixups::fixups_header(imports as u32, symbols as u32, n as u32);
    lemma_list(p.segments, p.data_segment);
    lemma_list(p.segments, None);
    assert(h.subrange(0, 4) =~= bytes::le32(0));
    assert(h.subrange(4, 8) =~= bytes::le32(32));
    assert(h.subrange(20, 24) =~= bytes::le32(1));
    assert(h.subrange(24, 28) =~= bytes::le32(0));
    lemma_word_in(e, 0, h, 0, 0);
    lemma_word_in(e, 0, h, 4, 32);
    lemma_word_in(e, 0, h, 20, 1);
    lemma_word_in(e, 0, h, 24, 0);
}

/// A word of a part is a word of the whole.
proof fn lemma_word_in(e: Seq<u8>, at: int, part: Seq<u8>, from: int, v: u32)
    requires
        0 <= at,
        at + part.len() <= e.len(),
        e.subrange(at, at + part.len()) == part,
        0 <= from,
        from + 4 <= part.len(),
        part.subrange(from, from + 4) == bytes::le32(v),
    ensures
        bytes::u32_at(e, at + from) == v,
{
    bytes::lemma_in_part(e, at, part, from, from + 4);
    bytes::lemma_read_u32(e, at + from, v);
}

/// Each import is looked up in all libraries. The first has the name at the start of the names, and
/// each further one the offset behind the name at the position that the one before it has for an
/// offset.
pub proof fn law_fixups_have_imports(p: FixupPlan, names: Seq<Seq<char>>, len: nat, k: nat)
    requires
        fixups::fixups_payload(p, names, len).len() <= u32::MAX,
        fixups::offsets_fit(names, fixups::chain_length(p.slots, names.len())),
        names.len() <= 0x80_0000,
        k < bytes::u32_at(fixups::fixups_payload(p, names, len), 16),
    ensures
        ({
            let e = fixups::fixups_payload(p, names, len);
            let word = bytes::u32_at(e, bytes::u32_at(e, 8) + 4 * k);
            let before = bytes::u32_at(e, bytes::u32_at(e, 8) + 4 * (k - 1));
            &&& word % 512 == 0xFE
            &&& k == 0 ==> word / 512 == 0
            &&& k > 0 ==> word / 512 == before / 512 + encode_utf8(
                names[(before / 512) as int],
            ).len() + 1
        }),
{
    lemma_header(p, names, len);
    lemma_import_word(p, names, len, k);
    if k > 0 {
        lemma_import_word(p, names, len, (k - 1) as nat);
        assert(fixups::name_offset(names, k) == fixups::name_offset(names, (k - 1) as nat)
            + encode_utf8(names[fixups::name_offset(names, (k - 1) as nat)]).len() + 1);
    }
}

/// The words of the header that count and place.
proof fn lemma_header(p: FixupPlan, names: Seq<Seq<char>>, len: nat)
    requires
        fixups::fixups_payload(p, names, len).len() <= u32::MAX,
    ensures
        ({
            let e = fixups::fixups_payload(p, names, len);
            let n = fixups::chain_length(p.slots, names.len());
            let imports = 32 + fixups::chain_starts(p, n, len).len();
            &&& bytes::u32_at(e, 8) == imports
            &&& bytes::u32_at(e, 12) == imports + 4 * n
            &&& bytes::u32_at(e, 16) == n
        }),
{
    broadcast use bytes::group_le_len;
    lemma_payload_parts(p, names, len);
    let e = fixups::fixups_payload(p, names, len);
    let n = fixups::chain_length(p.slots, names.len());
    let imports = 32 + fixups::chain_starts(p, n, len).len() as int;
    let symbols = imports + 4 * n;
    let h = fixups::fixups_header(imports as u32, symbols as u32, n as u32);
    assert(h.subrange(8, 12) =~= bytes::le32(imports as u32));
    assert(h.subrange(12, 16) =~= bytes::le32(symbols as u32));
    assert(h.subrange(16, 20) =~= bytes::le32(n as u32));
    lemma_word_in(e, 0, h, 8, imports as u32);
    lemma_word_in(e, 0, h, 12, symbols as u32);
    lemma_word_in(e, 0, h, 16, n as u32);
}

proof fn lemma_import_word(p: FixupPlan, names: Seq<Seq<char>>, len: nat, k: nat)
    requires
        fixups::fixups_payload(p, names, len).len() <= u32::MAX,
        fixups::offsets_fit(names, fixups::chain_length(p.slots, names.len())),
        names.len() <= 0x80_0000,
        k < fixups::chain_length(p.slots, names.len()),
    ensures
        ({
            let e = fixups::fixups_payload(p, names, len);
            bytes::u32_at(e, bytes::u32_at(e, 8) + 4 * k) == 0xFE + 512 * fixups::name_offset(
                names,
                k,
            )
        }),
{
    lemma_payload_parts(p, names, len);
    lemma_header(p, names, len);
    let e = fixups::fixups_payload(p, names, len);
    let n = fixups::chain_length(p.slots, names.len());
    lemma_import_stands(names, n, k);
    let o = fixups::name_offset(names, k) as u32;
    lemma_word_in(
        e,
        bytes::u32_at(e, 8) as int,
        fixups::import_list(names, n),
        4 * k as int,
        0xFEu32 | (o << 9),
    );
    assert(o < 0x80_0000);
    assert((0xFEu32 | (o << 9)) == 0xFE + 512 * o) by (bit_vector)
        requires
            o < 0x80_0000,
    ;
}

/// The names of the imports stand one behind the other where the payload says, each closed by a
/// zero.
pub proof fn law_fixups_have_names(p: FixupPlan, names: Seq<Seq<char>>, len: nat, k: nat)
    requires
        fixups::fixups_payload(p, names, len).len() <= u32::MAX,
        k < bytes::u32_at(fixups::fixups_payload(p, names, len), 16),
    ensures
        ({
            let e = fixups::fixups_payload(p, names, len);
            let at = bytes::u32_at(e, 12) + names_len(names, k);
            let b = encode_utf8(names[k as int]);
            at + b.len() + 1 <= e.len() && e.subrange(at, at + b.len() + 1) == b.push(0u8)
        }),
{
    lemma_payload_parts(p, names, len);
    lemma_header(p, names, len);
    let e = fixups::fixups_payload(p, names, len);
    let n = fixups::chain_length(p.slots, names.len());
    lemma_name_stands(names, n, k);
    let at = names_len(names, k);
    let b = encode_utf8(names[k as int]);
    bytes::lemma_in_part(
        e,
        bytes::u32_at(e, 12) as int,
        fixups::name_list(names, n),
        at,
        at + b.len() + 1,
    );
}

/// What the list of segments holds.
proof fn lemma_list(segments: u32, described: Option<u32>)
    ensures
        ({
            let list = fixups::segment_list(segments, described);
            &&& list.len() == fixups::list_size(segments) >= 4 + 4 * segments
            &&& fixups::list_size(segments) <= 4 + 4 * segments + 7
            &&& list.subrange(0, 4) == bytes::le32(segments)
            &&& forall|j: int, b: int|
                0 <= j < segments && described != Some(j as u32) && 0 <= b < 4
                    ==> #[trigger] list[4 + 4 * j + b] == 0
            &&& described is Some && described->0 < segments ==> list.subrange(
                4 + 4 * described->0,
                4 + 4 * described->0 + 4,
            ) == bytes::le32(fixups::list_size(segments) as u32)
        }),
{
    broadcast use bytes::group_le_len;
    let list = fixups::segment_list(segments, described);
    assert(list.subrange(0, 4) =~= bytes::le32(segments));
    if described is Some && described->0 < segments {
        assert(list.subrange(4 + 4 * described->0, 4 + 4 * described->0 + 4) =~= bytes::le32(
            fixups::list_size(segments) as u32,
        ));
    }
}

proof fn lemma_start_stands(got: u64, v: nat, n: nat, k: nat)
    requires
        k < n,
    ensures
        fixups::start_bytes(got, v, n).len() == 2 * n,
        fixups::start_bytes(got, v, n).subrange(2 * k as int, 2 * k as int + 2) == bytes::le16(
            fixups::chain_start(got, v, k as int, 0),
        ),
    decreases n,
{
    broadcast use bytes::group_le_len;
    fixups::lemma_start_bytes_len(got, v, n);
    fixups::lemma_start_bytes_len(got, v, (n - 1) as nat);
    let all = fixups::start_bytes(got, v, n);
    let head = fixups::start_bytes(got, v, (n - 1) as nat);
    if k + 1 < n {
        lemma_start_stands(got, v, (n - 1) as nat, k);
        assert(all.subrange(2 * k as int, 2 * k as int + 2) =~= head.subrange(
            2 * k as int,
            2 * k as int + 2,
        ));
    } else {
        assert(all.subrange(2 * k as int, 2 * k as int + 2) =~= bytes::le16(
            fixups::chain_start(got, v, k as int, 0),
        ));
    }
}

/// Every slot that the data holds is one of those inside.
proof fn lemma_held_is_inside(len: nat, got: u64, n: nat, i: nat, k: nat)
    requires
        i <= k < n,
        got + 8 * k + 8 <= len,
    ensures
        k < fixups::slots_inside(len, got, n, i) <= n,
    decreases n - i,
{
    if i < k {
        lemma_held_is_inside(len, got, n, i + 1, k);
    } else {
        lemma_inside_grows(len, got, n, i + 1);
    }
}

proof fn lemma_inside_grows(len: nat, got: u64, n: nat, i: nat)
    requires
        i <= n,
    ensures
        i <= fixups::slots_inside(len, got, n, i) <= n,
    decreases n - i,
{
    if i < n && got + 8 * i + 8 <= len {
        lemma_inside_grows(len, got, n, i + 1);
    }
}

/// The slot `j` is the first from `i` on that lies on its page, so its page's chain starts there.
proof fn lemma_chain_starts_at(got: u64, v: nat, i: nat, j: nat)
    requires
        i <= j < v,
        got + 8 * v <= 0x3fff_c000,
        j == 0 || (got + 8 * (j - 1)) / 0x4000 != (got + 8 * j) / 0x4000,
    ensures
        fixups::chain_start(got, v, (got + 8 * j) / 0x4000, i) == (got + 8 * j) % 0x4000,
    decreases j - i,
{
    if i < j {
        assert((got + 8 * i) / 0x4000 < (got + 8 * j) / 0x4000);
        lemma_chain_starts_at(got, v, i + 1, j);
    }
}

/// A page with no slot has no chain.
proof fn lemma_no_chain(got: u64, v: nat, page: int, i: nat)
    requires
        got + 8 * v <= 0x3fff_c000,
        forall|j: nat| i <= j < v ==> #[trigger] fixups::chain_place(got, j) / 0x4000 != page,
    ensures
        fixups::chain_start(got, v, page, i) == 0xFFFF,
    decreases
            (if i < v {
                v - i
            } else {
                0
            }),
{
    if i < v {
        assert(fixups::chain_place(got, i) / 0x4000 != page);
        lemma_no_chain(got, v, page, i + 1);
    }
}

proof fn lemma_last_page(got: u64, v: nat, k: nat)
    requires
        got + 8 * v <= 0x3fff_c000,
        k < v,
    ensures
        (got + 8 * k) / 0x4000 <= fixups::last_page(got, v) < 0xFFFF,
    decreases v,
{
    if k + 1 < v {
        lemma_last_page(got, (v - 1) as nat, k);
    } else if v > 1 {
        lemma_last_page(got, (v - 1) as nat, 0);
    } else {
        assert(fixups::last_page(got, 0) == 0);
    }
}

/// What the description of the data segment holds, where it stands in a file.
proof fn lemma_info(e: Seq<u8>, at: int, vmoff: u64, pages: nat, got: u64, v: nat)
    requires
        0 <= at,
        pages <= 0xFFFF,
        ({
            let info = fixups::segment_info(vmoff, pages, got, v);
            at + info.len() <= e.len() && e.subrange(at, at + info.len()) == info
        }),
    ensures
        bytes::u32_at(e, at) == fixups::segment_info(vmoff, pages, got, v).len(),
        bytes::u16_at(e, at + 4) == 0x4000,
        bytes::u16_at(e, at + 6) == 2,
        bytes::u64_at(e, at + 8) == vmoff,
        bytes::u16_at(e, at + 20) == pages,
        forall|k: nat|
            k < pages ==> bytes::u16_at(e, at + 22 + 2 * k) == #[trigger] fixups::chain_start(
                got,
                v,
                k as int,
                0,
            ),
{
    broadcast use bytes::group_le_len;
    let info = fixups::segment_info(vmoff, pages, got, v);
    let starts = fixups::start_bytes(got, v, pages);
    fixups::lemma_start_bytes_len(got, v, pages);
    assert(info.subrange(0, 4) =~= bytes::le32(info.len() as u32));
    assert(info.subrange(4, 6) =~= bytes::le16(0x4000));
    assert(info.subrange(6, 8) =~= bytes::le16(2));
    assert(info.subrange(8, 16) =~= bytes::le64(vmoff));
    assert(info.subrange(20, 22) =~= bytes::le16(pages as u16));
    assert(info.subrange(22, 22 + 2 * pages as int) =~= starts);
    bytes::lemma_in_part(e, at, info, 0, 4);
    bytes::lemma_in_part(e, at, info, 4, 6);
    bytes::lemma_in_part(e, at, info, 6, 8);
    bytes::lemma_in_part(e, at, info, 8, 16);
    bytes::lemma_in_part(e, at, info, 20, 22);
    bytes::lemma_in_part(e, at, info, 22, 22 + 2 * pages as int);
    bytes::lemma_read_u32(e, at, info.len() as u32);
    bytes::lemma_read_u16(e, at + 4, 0x4000);
    bytes::lemma_read_u16(e, at + 6, 2);
    bytes::lemma_read_u64(e, at + 8, vmoff);
    bytes::lemma_read_u16(e, at + 20, pages as u16);
    assert forall|k: nat| k < pages implies bytes::u16_at(e, at + 22 + 2 * k)
        == #[trigger] fixups::chain_start(got, v, k as int, 0) by {
        lemma_start_stands(got, v, pages, k);
        bytes::lemma_in_part(e, at + 22, starts, 2 * k as int, 2 * k as int + 2);
        bytes::lemma_read_u16(e, at + 22 + 2 * k, fixups::chain_start(got, v, k as int, 0));
    }
}

/// Whether the description at `at` tells where the data segment is loaded, and for each of its pages
/// where the first of the `n` slots from `got` on stands there, as far as data of `len` bytes holds
/// them. It ends where the imports begin.
pub open spec fn tells_chains(e: Seq<u8>, at: int, n: int, p: FixupPlan, len: nat) -> bool {
    let pages = bytes::u16_at(e, at + 20);
    &&& at + bytes::u32_at(e, at) == bytes::u32_at(e, 8)
    &&& bytes::u16_at(e, at + 4) == 0x4000 && bytes::u16_at(e, at + 6) == 2
    &&& bytes::u64_at(e, at + 8) == p.data_vmoff
    &&& p.data_size <= 0x4000 * pages
    &&& forall|i: nat|
        i < n && #[trigger] fixups::chain_place(p.got, i) + 8 <= len ==> {
            let place = p.got + 8 * i;
            &&& place / 0x4000 < pages
            &&& i == 0 || (place - 8) / 0x4000 != place / 0x4000 ==> bytes::u16_at(
                e,
                at + 22 + 2 * (place / 0x4000),
            ) == place % 0x4000
        }
    &&& forall|k: nat|
        k < pages && (forall|i: nat|
            i < n && fixups::chain_place(p.got, i) + 8 <= len ==> #[trigger] fixups::chain_place(
                p.got,
                i,
            ) / 0x4000 != k) ==> #[trigger] bytes::u16_at(e, at + 22 + 2 * k) == 0xFFFF
}

/// Four zeros are a zero.
proof fn lemma_zero_word(e: Seq<u8>, at: int, part: Seq<u8>, from: int)
    requires
        0 <= at,
        at + part.len() <= e.len(),
        e.subrange(at, at + part.len()) == part,
        0 <= from,
        from + 4 <= part.len(),
        forall|b: int| 0 <= b < 4 ==> #[trigger] part[from + b] == 0,
    ensures
        bytes::u32_at(e, at + from) == 0,
{
    reading_laws::law_integers_are_sums(e, at + from);
    assert forall|b: int| 0 <= b < 4 implies #[trigger] e[at + from + b] == 0 by {
        assert(e.subrange(at, at + part.len())[from + b] == part[from + b]);
    }
    assert(e[at + from + 0] == 0 && e[at + from + 1] == 0 && e[at + from + 2] == 0 && e[at + from
        + 3] == 0);
}

/// What is told of the data segment.
proof fn lemma_data_chains(p: FixupPlan, names: Seq<Seq<char>>, len: nat)
    requires
        fixups::fixups_payload(p, names, len).len() <= u32::MAX,
        p.data_segment is Some,
        p.data_segment->0 < p.segments,
        p.data_size <= 0x3fff_c000,
        p.got + 8 * names.len() <= 0x3fff_c000,
        fixups::chain_length(p.slots, names.len()) > 0,
    ensures
        tells_chains(
            fixups::fixups_payload(p, names, len),
            32 + fixups::list_size(p.segments),
            fixups::chain_length(p.slots, names.len()) as int,
            p,
            len,
        ),
{
    lemma_payload_parts(p, names, len);
    lemma_header(p, names, len);
    let e = fixups::fixups_payload(p, names, len);
    let n = fixups::chain_length(p.slots, names.len());
    let v = fixups::slots_inside(len, p.got, n, 0);
    let pages = fixups::page_count(p.data_size, p.got, v);
    let starts = fixups::chain_starts(p, n, len);
    let list = fixups::segment_list(p.segments, p.data_segment);
    let info = fixups::segment_info(p.data_vmoff, pages, p.got, v);
    let at = 32 + fixups::list_size(p.segments);
    lemma_list(p.segments, p.data_segment);
    lemma_inside_grows(len, p.got, n, 0);
    assert(fixups::last_page(p.got, v) < 0xFFFF) by {
        if v > 0 {
            lemma_last_page(p.got, v, 0);
        }
    }
    assert(starts.subrange(list.len() as int, starts.len() as int) =~= info);
    bytes::lemma_in_part(e, 32, starts, list.len() as int, starts.len() as int);
    lemma_info(e, at, p.data_vmoff, pages, p.got, v);
    assert forall|i: nat|
        i < n && #[trigger] fixups::chain_place(p.got, i) + 8 <= len implies ({
        let place = p.got + 8 * i;
        &&& place / 0x4000 < pages
        &&& i == 0 || (place - 8) / 0x4000 != place / 0x4000 ==> bytes::u16_at(
            e,
            at + 22 + 2 * (place / 0x4000),
        ) == place % 0x4000
    }) by {
        let place = p.got + 8 * i;
        lemma_held_is_inside(len, p.got, n, 0, i);
        lemma_last_page(p.got, v, i);
        if i == 0 || (place - 8) / 0x4000 != place / 0x4000 {
            lemma_chain_starts_at(p.got, v, 0, i);
            let k = (place / 0x4000) as nat;
            assert(bytes::u16_at(e, at + 22 + 2 * k) == fixups::chain_start(
                p.got,
                v,
                k as int,
                0,
            ));
        }
    }
    assert forall|k: nat|
        k < pages && (forall|i: nat|
            i < n && fixups::chain_place(p.got, i) + 8 <= len ==> #[trigger] fixups::chain_place(
                p.got,
                i,
            ) / 0x4000 != k) implies #[trigger] bytes::u16_at(e, at + 22 + 2 * k) == 0xFFFF by {
        assert forall|j: nat| j < v implies #[trigger] fixups::chain_place(p.got, j) / 0x4000
            != k by {
            lemma_inside_is_held(len, p.got, n, 0, j);
        }
        lemma_no_chain(p.got, v, k as int, 0);
        assert(bytes::u16_at(e, at + 22 + 2 * k) == fixups::chain_start(p.got, v, k as int, 0));
    }
}

/// The data holds every slot inside.
proof fn lemma_inside_is_held(len: nat, got: u64, n: nat, i: nat, k: nat)
    requires
        i <= k < fixups::slots_inside(len, got, n, i),
    ensures
        k < n,
        got + 8 * k + 8 <= len,
    decreases k - i,
{
    if i < k {
        lemma_inside_is_held(len, got, n, i + 1, k);
    }
}

/// The payload lists the segments, each with the distance of its description. The data segment has
/// one, which tells where its chains start. The other segments have none.
pub proof fn law_fixups_tell_chains(p: FixupPlan, names: Seq<Seq<char>>, len: nat)
    requires
        fixups::fixups_payload(p, names, len).len() <= u32::MAX,
        p.data_segment is Some ==> p.data_segment->0 < p.segments,
        p.data_size <= 0x3fff_c000,
        p.got + 8 * names.len() <= 0x3fff_c000,
    ensures
        ({
            let e = fixups::fixups_payload(p, names, len);
            let n = bytes::u32_at(e, 16);
            let list = bytes::u32_at(e, 4);
            &&& bytes::u32_at(e, list as int) == p.segments
            &&& forall|j: int|
                0 <= j < p.segments && (n == 0 || p.data_segment != Some(j as u32))
                    ==> #[trigger] bytes::u32_at(e, list + 4 + 4 * j) == 0
            &&& n > 0 && p.data_segment is Some ==> tells_chains(
                e,
                list + bytes::u32_at(e, list + 4 + 4 * p.data_segment->0),
                n as int,
                p,
                len,
            )
        }),
{
    broadcast use bytes::group_le_len;
    law_fixups_tell_parts(p, names, len);
    lemma_payload_parts(p, names, len);
    lemma_header(p, names, len);
    let e = fixups::fixups_payload(p, names, len);
    let n = fixups::chain_length(p.slots, names.len());
    let starts = fixups::chain_starts(p, n, len);
    let told = if n > 0 {
        p.data_segment
    } else {
        None
    };
    let list = fixups::segment_list(p.segments, told);
    lemma_list(p.segments, told);
    assert(starts.subrange(0, list.len() as int) =~= list);
    bytes::lemma_in_part(e, 32, starts, 0, list.len() as int);
    lemma_word_in(e, 32, list, 0, p.segments);
    assert forall|j: int|
        0 <= j < p.segments && (n == 0 || p.data_segment != Some(j as u32)) implies #[trigger] bytes::u32_at(
        e,
        bytes::u32_at(e, 4) + 4 + 4 * j,
    ) == 0 by {
        lemma_zero_word(e, 32, list, 4 + 4 * j);
    }
    if n > 0 && p.data_segment is Some {
        let i = p.data_segment->0;
        lemma_word_in(e, 32, list, 4 + 4 * i, list.len() as u32);
        assert(bytes::u32_at(e, 32 + 4 + 4 * i) == list.len());
        lemma_data_chains(p, names, len);
    }
}

} // verus!

//! What holds of linked Mach-O objects as a whole.
use vstd::prelude::*;
use vstd::arithmetic::power2::*;
use crate::arch::TargetArch;
use crate::bytes;
use crate::link;
use crate::link::{LayoutModel, MergedModel};
use crate::link::arm64;
use crate::link::macho::{N_WEAK_DEF, Placing, SEG_BASE};
use crate::link::macho_merge;
use crate::link::macho_merge::Gathering;
use crate::link::macho_reloc;
use crate::link::macho_reloc::{LinkState, RelocEnv, RelocState, Site};
use crate::link::macho_symbols;
use crate::link::macho_symbols::{GlobalsModel, ImportsModel};
use crate::macho::{MachoReloc, N_EXT, ObjectModel, SymbolModel};
use crate::names;
use crate::order;
use crate::segment;

verus! {

/// Whether `x` is a multiple of the power of two with the exponent `exp`.
pub open spec fn multiple_of(x: int, exp: u64) -> bool {
    x % pow2(exp as nat) as int == 0
}

pub proof fn lemma_aligned_is_multiple(value: u64, exp: u64)
    requires
        link::macho::aligned_to_exponent(value, exp) is Some,
    ensures
        exp < 64,
        multiple_of(link::macho::aligned_to_exponent(value, exp)->0 as int, exp),
        value <= link::macho::aligned_to_exponent(value, exp)->0,
{
    link::macho::lemma_aligned_to_exponent(value, exp);
    vstd::arithmetic::power2::lemma_pow2_pos(exp as nat);
    if exp == 0 {
        vstd::arithmetic::power2::lemma2_to64();
    } else {
        vstd::bits::lemma_u64_pow2_no_overflow(exp as nat);
        vstd::bits::lemma_u64_shl_is_mul(1, exp);
        assert(segment::is_power(1u64 << exp, exp as nat));
        segment::law_align_up_multiple(value, 1u64 << exp, exp as nat);
    }
}

proof fn lemma_multiple_add(x: int, y: int, a: u64, b: u64)
    requires
        multiple_of(x, b),
        multiple_of(y, a),
        a <= b,
    ensures
        multiple_of(x + y, a),
{
    let p = pow2(a as nat) as int;
    let q = pow2((b - a) as nat) as int;
    vstd::arithmetic::power2::lemma_pow2_pos(a as nat);
    vstd::arithmetic::power2::lemma_pow2_pos((b - a) as nat);
    vstd::arithmetic::power2::lemma_pow2_adds(a as nat, (b - a) as nat);
    let m = p * q;
    assert(m > 0) by (nonlinear_arith)
        requires
            m == p * q,
            p > 0,
            q > 0,
    ;
    vstd::arithmetic::div_mod::lemma_fundamental_div_mod(x, m);
    vstd::arithmetic::div_mod::lemma_fundamental_div_mod(y, p);
    let k = q * (x / m) + y / p;
    assert(x + y == k * p) by (nonlinear_arith)
        requires
            x == m * (x / m),
            m == p * q,
            y == p * (y / p),
            k == q * (x / m) + y / p,
    ;
    vstd::arithmetic::div_mod::lemma_mod_multiples_basic(k, p);
}

/// Whether the gathered sections have their names, and their lengths fit in 64 bits.
spec fn well_gathered(acc: LayoutModel) -> bool {
    &&& forall|n: Seq<char>| #[trigger]
        acc.by_name.dom().contains(n) ==> acc.by_name[n] < acc.sections.len()
            && acc.sections[acc.by_name[n] as int].name == n
    &&& forall|i: int|
        0 <= i < acc.sections.len() ==> (#[trigger] acc.sections[i]).data.len() <= u64::MAX
            && acc.by_name.dom().contains(acc.sections[i].name)
    &&& acc.sections.len() <= usize::MAX
}

/// Whether the section `name` holds `data` at `offset`, with an alignment of at least `exp`.
spec fn holds(acc: LayoutModel, name: Seq<char>, offset: u64, data: Seq<u8>, exp: u64) -> bool {
    let s = acc.sections[acc.by_name[name] as int];
    &&& acc.by_name.dom().contains(name)
    &&& offset + data.len() <= s.data.len()
    &&& s.data.subrange(offset as int, offset + data.len()) == data
    &&& s.align >= exp
}

proof fn lemma_contribute(
    acc: LayoutModel,
    name: Seq<char>,
    offset: u64,
    data: Seq<u8>,
    exp: u64,
    flags: u64,
)
    requires
        well_gathered(acc),
        link::gathered(acc, name) <= offset,
        offset + data.len() <= u64::MAX,
        acc.sections.len() < usize::MAX,
    ensures
        ({
            let next = link::contribute(acc, name, offset, data, exp, flags);
            &&& well_gathered(next)
            &&& holds(next, name, offset, data, exp)
            &&& next.sections.len() <= acc.sections.len() + 1
            &&& forall|n: Seq<char>, o: u64, d: Seq<u8>, e: u64| #[trigger]
                holds(acc, n, o, d, e) ==> holds(next, n, o, d, e)
        }),
{
    let next = link::contribute(acc, name, offset, data, exp, flags);
    if acc.by_name.dom().contains(name) {
        let idx = acc.by_name[name] as int;
        let s = acc.sections[idx];
        let t = next.sections[idx];
        assert(t.data.subrange(offset as int, offset + data.len()) =~= data);
        assert forall|n: Seq<char>, o: u64, d: Seq<u8>, e: u64| #[trigger]
            holds(acc, n, o, d, e) implies holds(next, n, o, d, e) by {
            if acc.by_name[n] == idx {
                assert(t.data.subrange(o as int, o + d.len()) =~= s.data.subrange(
                    o as int,
                    o + d.len(),
                ));
            }
        }
    } else {
        let t = next.sections.last();
        assert(t.data.subrange(offset as int, offset + data.len()) =~= data);
    }
}

/// Whether the section number `k` of the object `o` stands where the offsets say.
spec fn part_kept(objects: Seq<ObjectModel>, o: int, k: int, g: Gathering) -> bool {
    let obj = objects[o];
    let sec = obj.sections[k];
    let index = ((k + 1) % 256) as u8;
    let exp = link::macho::align_exponent(sec);
    &&& exp < 64
    &&& g.offs[o].dom().contains(index)
    &&& multiple_of(g.offs[o][index] as int, exp)
    &&& holds(
        g.acc,
        link::macho::merged_name_of(sec),
        g.offs[o][index],
        link::macho::section_bytes(obj.data, sec),
        exp,
    )
}

/// Whether the mergeable sections in front of the number `k` of the object `o`, and those of the
/// objects in front of it, stand where the offsets say.
spec fn parts_kept(objects: Seq<ObjectModel>, o: nat, k: nat, g: Gathering) -> bool {
    forall|q: int, j: int|
        0 <= q < objects.len() && 0 <= j < objects[q].sections.len() && (q < o || q == o && j < k)
            && link::macho::mergeable(objects[q].sections[j]) ==> #[trigger] part_kept(
            objects,
            q,
            j,
            g,
        )
}

/// The number of sections in the first `n` objects.
pub open spec fn macho_section_count(objects: Seq<ObjectModel>, n: nat) -> nat
    decreases n,
{
    if n == 0 {
        0
    } else {
        macho_section_count(objects, (n - 1) as nat) + objects[n - 1].sections.len()
    }
}

proof fn lemma_count(objects: Seq<ObjectModel>, m: nat, n: nat)
    requires
        m <= n,
    ensures
        macho_section_count(objects, m) <= macho_section_count(objects, n),
    decreases n,
{
    if m < n {
        lemma_count(objects, m, (n - 1) as nat);
    }
}

/// Whether the sections of each object can be told apart by a byte.
pub open spec fn few_sections(objects: Seq<ObjectModel>) -> bool {
    forall|o: int| 0 <= o < objects.len() ==> (#[trigger] objects[o]).sections.len() < 256
}

proof fn lemma_gather_section(objects: Seq<ObjectModel>, o: nat, k: nat, g: Gathering)
    requires
        o < objects.len(),
        k < objects[o as int].sections.len(),
        few_sections(objects),
        g.offs.len() == objects.len(),
        well_gathered(g.acc),
        g.acc.sections.len() < usize::MAX,
        parts_kept(objects, o, k, g),
        macho_merge::gather_section(objects, o, k, g) is Some,
    ensures
        ({
            let next = macho_merge::gather_section(objects, o, k, g)->0;
            &&& next.offs.len() == objects.len()
            &&& well_gathered(next.acc)
            &&& next.acc.sections.len() <= g.acc.sections.len() + 1
            &&& parts_kept(objects, o, k + 1, next)
        }),
{
    let obj = objects[o as int];
    let sec = obj.sections[k as int];
    assert(objects[o as int].sections.len() < 256);
    if link::macho::mergeable(sec) {
        let name = link::macho::merged_name_of(sec);
        let exp = link::macho::align_exponent(sec);
        let current = link::gathered(g.acc, name);
        let data = link::macho::section_bytes(obj.data, sec);
        let offset = link::macho::aligned_to_exponent(current as u64, exp)->0;
        let index = ((k + 1) % 256) as u8;
        lemma_aligned_is_multiple(current as u64, exp);
        link::macho::lemma_section_bytes_len(obj.data, sec);
        lemma_contribute(
            g.acc,
            name,
            offset,
            data,
            exp,
            link::macho::section_flags(sec.sectname),
        );
        let next = macho_merge::gather_section(objects, o, k, g)->0;
        assert(next.offs[o as int][index] == offset);
        assert forall|q: int, j: int|
            0 <= q < objects.len() && 0 <= j < objects[q].sections.len()
                && (q < o || q == o && j < k
                + 1) && link::macho::mergeable(objects[q].sections[j]) implies #[trigger] part_kept(
            objects,
            q,
            j,
            next,
        ) by {
            assert(objects[q].sections.len() < 256);
            if q == o && j == k {
            } else {
                assert(part_kept(objects, q, j, g));
                let i = ((j + 1) % 256) as u8;
                assert(next.offs[q][i] == g.offs[q][i]);
            }
        }
    } else {
        assert forall|q: int, j: int|
            0 <= q < objects.len() && 0 <= j < objects[q].sections.len()
                && (q < o || q == o && j < k
                + 1) && link::macho::mergeable(objects[q].sections[j]) implies #[trigger] part_kept(
            objects,
            q,
            j,
            g,
        ) by {
            assert(!(q == o && j == k));
        }
    }
}

proof fn lemma_gather_object(objects: Seq<ObjectModel>, o: nat, k: nat, g: Gathering)
    requires
        o < objects.len(),
        k <= objects[o as int].sections.len(),
        few_sections(objects),
        g.offs.len() == objects.len(),
        well_gathered(g.acc),
        g.acc.sections.len() + objects[o as int].sections.len() - k <= usize::MAX,
        parts_kept(objects, o, k, g),
        macho_merge::gather_object(objects, o, k, g) is Some,
    ensures
        ({
            let next = macho_merge::gather_object(objects, o, k, g)->0;
            &&& next.offs.len() == objects.len()
            &&& well_gathered(next.acc)
            &&& next.acc.sections.len() <= g.acc.sections.len() + objects[o as int].sections.len()
                - k
            &&& parts_kept(objects, o, objects[o as int].sections.len(), next)
        }),
    decreases objects[o as int].sections.len() - k,
{
    if k < objects[o as int].sections.len() {
        lemma_gather_section(objects, o, k, g);
        lemma_gather_object(objects, o, k + 1, macho_merge::gather_section(objects, o, k, g)->0);
    }
}

proof fn lemma_gather_from(objects: Seq<ObjectModel>, o: nat, g: Gathering)
    requires
        o <= objects.len(),
        few_sections(objects),
        g.offs.len() == objects.len(),
        well_gathered(g.acc),
        g.acc.sections.len() <= macho_section_count(objects, o),
        macho_section_count(objects, objects.len()) <= usize::MAX,
        parts_kept(objects, o, 0, g),
        macho_merge::gather_from(objects, o, g) is Some,
    ensures
        ({
            let done = macho_merge::gather_from(objects, o, g)->0;
            &&& done.offs.len() == objects.len()
            &&& well_gathered(done.acc)
            &&& done.acc.sections.len() <= macho_section_count(objects, objects.len())
            &&& parts_kept(objects, objects.len(), 0, done)
        }),
    decreases objects.len() - o,
{
    if o < objects.len() {
        lemma_count(objects, o + 1, objects.len());
        lemma_gather_object(objects, o, 0, g);
        let next = macho_merge::gather_object(objects, o, 0, g)->0;
        assert(parts_kept(objects, o + 1, 0, next));
        lemma_gather_from(objects, o + 1, next);
    }
}

/// Whether the layout has the gathered section `name`, at an aligned address.
spec fn placed(l: LayoutModel, acc: LayoutModel, name: Seq<char>) -> bool {
    let s = acc.sections[acc.by_name[name] as int];
    let m = l.sections[l.by_name[name] as int];
    &&& l.by_name.dom().contains(name)
    &&& l.by_name[name] < l.sections.len()
    &&& m.name == name
    &&& m.data == s.data
    &&& m.align == s.align
    &&& multiple_of(m.vaddr as int, s.align)
}

proof fn lemma_place_named(acc: LayoutModel, names: Seq<Seq<char>>, i: nat, st: Placing)
    requires
        i <= names.len(),
        well_gathered(acc),
        st.layout.sections.len() + names.len() - i <= usize::MAX,
        macho_merge::place_named(acc, names, i, st) is Some,
    ensures
        ({
            let r = macho_merge::place_named(acc, names, i, st)->0;
            &&& r.layout.sections.len() <= st.layout.sections.len() + names.len() - i
            &&& forall|n: Seq<char>|
                placed(st.layout, acc, n) ==> #[trigger] placed(r.layout, acc, n)
            &&& forall|n: Seq<char>| #[trigger]
                r.layout.by_name.dom().contains(n) ==> st.layout.by_name.dom().contains(n)
                    || placed(
                    r.layout,
                    acc,
                    n,
                )
            &&& forall|j: int|
                i <= j < names.len() && link::gathered(acc, #[trigger] names[j]) != 0 ==> placed(
                    r.layout,
                    acc,
                    names[j],
                )
        }),
    decreases names.len() - i,
{
    if i < names.len() {
        let name = names[i as int];
        if link::gathered(acc, name) == 0 {
            lemma_place_named(acc, names, i + 1, st);
        } else {
            let s = acc.sections[acc.by_name[name] as int];
            let vaddr = link::macho::aligned_to_exponent(st.vaddr, s.align)->0;
            let next = Placing {
                layout: link::with_section(st.layout, MergedModel { name, vaddr, ..s }),
                vaddr: (vaddr + s.data.len()) as u64,
            };
            lemma_aligned_is_multiple(st.vaddr, s.align);
            assert(placed(next.layout, acc, name));
            assert forall|n: Seq<char>| placed(st.layout, acc, n) implies placed(
                next.layout,
                acc,
                n,
            ) by {}
            lemma_place_named(acc, names, i + 1, next);
        }
    }
}

proof fn lemma_unplaced(acc: LayoutModel, l: LayoutModel, n: nat, i: int)
    requires
        0 <= i < n <= acc.sections.len(),
        !l.by_name.dom().contains(acc.sections[i].name),
    ensures
        macho_merge::unplaced(acc, l, n).contains(acc.sections[i].name),
    decreases n,
{
    let before = macho_merge::unplaced(acc, l, (n - 1) as nat);
    if i == n - 1 {
        assert(macho_merge::unplaced(acc, l, n).last() == acc.sections[i].name);
    } else {
        lemma_unplaced(acc, l, (n - 1) as nat, i);
        let k = before.index_of(acc.sections[i].name);
        assert(macho_merge::unplaced(acc, l, n)[k] == acc.sections[i].name);
    }
}

proof fn lemma_unplaced_len(acc: LayoutModel, l: LayoutModel, n: nat)
    requires
        n <= acc.sections.len(),
    ensures
        macho_merge::unplaced(acc, l, n).len() <= n,
    decreases n,
{
    if n > 0 {
        lemma_unplaced_len(acc, l, (n - 1) as nat);
    }
}

proof fn lemma_place_all(acc: LayoutModel, name: Seq<char>)
    requires
        well_gathered(acc),
        acc.sections.len() + 21 <= usize::MAX,
        macho_merge::place_all(acc) is Some,
        link::gathered(acc, name) != 0,
    ensures
        placed(macho_merge::place_all(acc)->0, acc, name),
{
    broadcast use vstd::seq_lib::group_to_multiset_ensures;
    let first = Placing { layout: link::no_sections(), vaddr: SEG_BASE };
    let known = macho_merge::known_names();
    lemma_place_named(acc, known, 0, first);
    let st = macho_merge::place_named(acc, known, 0, first)->0;
    let names = macho_merge::unplaced(acc, st.layout, acc.sections.len());
    lemma_unplaced_len(acc, st.layout, acc.sections.len());
    order::law_sort_names(names);
    let sorted = order::sort_names(names);
    lemma_place_named(acc, sorted, 0, st);
    if st.layout.by_name.dom().contains(name) {
        assert(placed(st.layout, acc, name));
    } else {
        let i = acc.by_name[name] as int;
        assert(acc.sections[i].name == name);
        lemma_unplaced(acc, st.layout, acc.sections.len(), i);
        assert(names.to_multiset().contains(name));
        assert(sorted.to_multiset().contains(name));
        let j = sorted.index_of(name);
        assert(sorted[j] == name);
    }
}

/// Merging keeps the bytes of every section: they stand in the merged section, at the offset that
/// is told for the number of the section, and at an address that is a multiple of the section's
/// own alignment. Numbers are bytes, so this is stated for objects of fewer than 256 sections.
#[verifier::spinoff_prover]
pub proof fn law_merging_keeps_macho_sections(objects: Seq<ObjectModel>, o: int, k: int)
    requires
        macho_merge::multi_layout(objects) is Ok,
        few_sections(objects),
        macho_section_count(objects, objects.len()) + 21 <= usize::MAX,
        0 <= o < objects.len(),
        0 <= k < objects[o].sections.len(),
        link::macho::mergeable(objects[o].sections[k]),
    ensures
        ({
            let (l, offs) = macho_merge::multi_layout(objects)->Ok_0;
            let sec = objects[o].sections[k];
            let name = link::macho::merged_name_of(sec);
            let s = l.sections[l.by_name[name] as int];
            let number = (k + 1) as u8;
            let offset = offs[o][number];
            &&& offs.len() == objects.len() && offs[o].dom().contains(number)
            &&& l.by_name.dom().contains(name) && s.name == name
            &&& offset + sec.size <= s.data.len()
            &&& s.data.subrange(offset as int, offset + sec.size) == link::macho::section_bytes(
                objects[o].data,
                sec,
            )
            &&& multiple_of(s.vaddr + offset, link::macho::align_exponent(sec))
        }),
{
    let n = objects.len();
    let start = macho_merge::nothing_gathered(n);
    lemma_gather_from(objects, 0, start);
    let g = macho_merge::gather_from(objects, 0, start)->0;
    let sec = objects[o].sections[k];
    let name = link::macho::merged_name_of(sec);
    assert(objects[o].sections.len() < 256);
    assert(part_kept(objects, o, k, g));
    link::macho::lemma_section_bytes_len(objects[o].data, sec);
    lemma_place_all(g.acc, name);
    let l = macho_merge::place_all(g.acc)->0;
    let s = l.sections[l.by_name[name] as int];
    let offset = g.offs[o][(k + 1) as u8];
    lemma_multiple_add(
        s.vaddr as int,
        offset as int,
        link::macho::align_exponent(sec),
        s.align,
    );
    assert(macho_merge::multi_layout(objects)->Ok_0 == (l, g.offs));
}

/// Where a stub at `stub` takes the address from which it goes on: the page that its first
/// instruction reaches, plus the offset that its second one holds.
pub open spec fn stub_source(stub: u64, code: Seq<u8>) -> int {
    stub / 4096 * 4096 + arm64::adrp_displacement(bytes::u32_at(code, 0)) + arm64::page_offset(
        bytes::u32_at(code, 4),
    )
}

/// A stub jumps through its slot: it loads from there, and branches to what it has loaded.
pub proof fn law_stub_jumps_through_slot(stub: u64, slot: u64)
    requires
        slot % 8 == 0,
        -0x10_0000 <= slot / 4096 - stub / 4096 < 0x10_0000,
    ensures
        link::macho::stub_code(stub, slot).len() == 12,
        stub_source(stub, link::macho::stub_code(stub, slot)) == slot,
        bytes::u32_at(link::macho::stub_code(stub, slot), 8) == 0xD61F0200,
{
    broadcast use bytes::group_le_len;
    let code = link::macho::stub_code(stub, slot);
    let pages = slot / 4096 - stub / 4096;
    let adrp = arm64::with_page_distance(0x90000010, pages);
    let low = (slot & 0xFFF) as u32;
    let ldr = 0xF9400210u32 | (((low >> 3) & 0x0fff) << 10);
    assert(code.subrange(0, 4) =~= bytes::le32(adrp));
    assert(code.subrange(4, 8) =~= bytes::le32(ldr));
    assert(code.subrange(8, 12) =~= bytes::le32(0xD61F0200));
    bytes::lemma_read_u32(code, 0, adrp);
    bytes::lemma_read_u32(code, 4, ldr);
    bytes::lemma_read_u32(code, 8, 0xD61F0200);
    arm64::law_page_reaches_target(0x90000010, slot, stub);
    assert(slot & 0xFFF == slot % 4096) by (bit_vector);
    assert(low % 8 == 0);
    assert(ldr & 0x1f00_0000 != 0x1100_0000 && ldr & 0x1f00_0000 != 0x9100_0000 && ldr & 0x3b00_0000
        == 0x3900_0000 && (ldr >> 30) & 3 == 3 && ((((ldr >> 10) & 0x0fff) as u64) << 3u32)
        == low as u64) by (bit_vector)
        requires
            ldr == 0xF9400210u32 | (((low >> 3) & 0x0fff) << 10),
            low % 8 == 0,
            low < 0x1000u32,
    ;
    assert(arm64::immediate_scale(ldr) == 3);
}

proof fn lemma_stub_at(start: u64, n: nat, text_shift: u64, data_shift: u64, k: nat, i: nat)
    requires
        i < k,
    ensures
        link::macho::stub_bytes(start, n, text_shift, data_shift, k).subrange(
            12 * i as int,
            12 * i as int + 12,
        ) == link::macho::stub_code(
            ((start + i * 12) as u64).wrapping_add(text_shift),
            link::macho::stub_slots_addr(start, n).wrapping_add((i * 8) as u64).wrapping_add(
                data_shift,
            ),
        ),
    decreases k,
{
    broadcast use bytes::group_le_len;
    link::macho::lemma_stub_bytes_len(start, n, text_shift, data_shift, k);
    link::macho::lemma_stub_bytes_len(start, n, text_shift, data_shift, (k - 1) as nat);
    let all = link::macho::stub_bytes(start, n, text_shift, data_shift, k);
    let before = link::macho::stub_bytes(start, n, text_shift, data_shift, (k - 1) as nat);
    let at = (12 * i) as int;
    if i < k - 1 {
        lemma_stub_at(start, n, text_shift, data_shift, (k - 1) as nat, i);
        assert(all.subrange(at, at + 12) =~= before.subrange(at, at + 12));
    } else {
        let own = link::macho::stub_code(
            ((start + i * 12) as u64).wrapping_add(text_shift),
            link::macho::stub_slots_addr(start, n).wrapping_add((i * 8) as u64).wrapping_add(
                data_shift,
            ),
        );
        assert(all.subrange(at, at + 12) =~= own);
    }
}

/// Each of the stubs jumps through its own slot: the stub `i`, twelve bytes behind the one before
/// it, through the slot `i`, as both are loaded.
pub proof fn law_stubs_jump_through_slots(
    start: u64,
    n: nat,
    text_shift: u64,
    data_shift: u64,
    i: nat,
)
    requires
        i < n,
        link::macho::stubs_fit(start, n),
        start + n * 12 + text_shift <= u64::MAX,
        link::macho::stub_slots_addr(start, n) + n * 8 + data_shift <= u64::MAX,
        data_shift % 8 == 0,
        link::macho::stub_slots_addr(start, n) + n * 8 + data_shift < start + text_shift
            + 0x8000_0000,
        start + n * 12 + text_shift < link::macho::stub_slots_addr(start, n) + data_shift
            + 0x8000_0000,
    ensures
        ({
            let stubs = link::macho::stub_bytes(start, n, text_shift, data_shift, n);
            let code = stubs.subrange(12 * i as int, 12 * i as int + 12);
            let stub = (start + 12 * i + text_shift) as u64;
            let slot = link::macho::stub_slots_addr(start, n) + 8 * i + data_shift;
            stub_source(stub, code) == slot && bytes::u32_at(code, 8) == 0xD61F0200
        }),
{
    let slots = link::macho::stub_slots_addr(start, n);
    lemma_stub_at(start, n, text_shift, data_shift, n, i);
    let stub = ((start + i * 12) as u64).wrapping_add(text_shift);
    let slot = slots.wrapping_add((i * 8) as u64).wrapping_add(data_shift);
    assert(stub == start + i * 12 + text_shift);
    assert(slot == slots + i * 8 + data_shift);
    vstd::arithmetic::power2::lemma2_to64();
    assert(segment::is_power(0x8000, 15));
    segment::law_align_up_multiple((start + n * 12 + 36) as u64, 0x8000, 15);
    assert(slots % 8 == 0);
    assert(slot % 8 == 0);
    law_stub_jumps_through_slot(stub, slot);
}

/// Whether the undefined names are listed once each, and none of them is defined.
spec fn only_undefined(m: ImportsModel, names: Map<Seq<char>, u64>) -> bool {
    &&& m.undefined.no_duplicates()
    &&& forall|i: int|
        0 <= i < m.undefined.len() ==> !names.dom().contains(#[trigger] m.undefined[i])
}

proof fn lemma_import_symbol(names: Map<Seq<char>, u64>, sym: SymbolModel, m: ImportsModel)
    requires
        only_undefined(m, names),
    ensures
        only_undefined(macho_symbols::import_symbol(names, sym, m), names),
{
    names::law_add_name(m.undefined, sym.name, sym.name);
}

proof fn lemma_import_symbols(
    names: Map<Seq<char>, u64>,
    obj: ObjectModel,
    i: nat,
    m: ImportsModel,
)
    requires
        only_undefined(m, names),
    ensures
        only_undefined(macho_symbols::import_symbols_from(names, obj, i, m), names),
    decreases obj.symbols.len() - i,
{
    if i < obj.symbols.len() {
        let sym = obj.symbols[i as int];
        lemma_import_symbol(names, sym, m);
        let next = if !sym.is_defined && sym.name.len() != 0 && sym.n_type & N_EXT != 0 {
            macho_symbols::import_symbol(names, sym, m)
        } else {
            m
        };
        lemma_import_symbols(names, obj, i + 1, next);
    }
}

proof fn lemma_import_relocs(
    names: Map<Seq<char>, u64>,
    symbols: Seq<SymbolModel>,
    relocs: Seq<MachoReloc>,
    i: nat,
    m: ImportsModel,
)
    requires
        only_undefined(m, names),
    ensures
        only_undefined(
            macho_symbols::import_relocs_from(names, symbols, relocs, i, m),
            names,
        ),
    decreases relocs.len() - i,
{
    if i < relocs.len() {
        let r = relocs[i as int];
        let next = macho_symbols::import_reloc(names, symbols, r, m);
        if r.r_extern && r.r_symbolnum < symbols.len() {
            let sym = symbols[r.r_symbolnum as int];
            let n = ImportsModel { got: next.got, ..m };
            lemma_import_symbol(names, sym, n);
        }
        assert(only_undefined(next, names));
        lemma_import_relocs(names, symbols, relocs, i + 1, next);
    }
}

proof fn lemma_import_sections(
    names: Map<Seq<char>, u64>,
    obj: ObjectModel,
    i: nat,
    m: ImportsModel,
)
    requires
        only_undefined(m, names),
    ensures
        only_undefined(macho_symbols::import_sections_from(names, obj, i, m), names),
    decreases obj.sections.len() - i,
{
    if i < obj.sections.len() {
        let sec = obj.sections[i as int];
        let relocs = crate::macho::relocs_of(obj.data, sec.reloff, sec.nreloc);
        lemma_import_relocs(names, obj.symbols, relocs, 0, m);
        let next = macho_symbols::import_relocs_from(names, obj.symbols, relocs, 0, m);
        lemma_import_sections(names, obj, i + 1, next);
    }
}

proof fn lemma_import_objects(
    objects: Seq<ObjectModel>,
    names: Map<Seq<char>, u64>,
    o: nat,
    m: ImportsModel,
)
    requires
        only_undefined(m, names),
    ensures
        only_undefined(link::macho::import_all_symbols(objects, names, o, m), names),
        only_undefined(link::macho::import_all_relocs(objects, names, o, m), names),
    decreases objects.len() - o,
{
    if o < objects.len() {
        lemma_import_symbols(names, objects[o as int], 0, m);
        lemma_import_sections(names, objects[o as int], 0, m);
        let a = macho_symbols::import_symbols_from(names, objects[o as int], 0, m);
        let b = macho_symbols::import_sections_from(names, objects[o as int], 0, m);
        lemma_import_objects(objects, names, o + 1, a);
        lemma_import_objects(objects, names, o + 1, b);
    }
}

proof fn lemma_stub_names(
    names: Map<Seq<char>, u64>,
    undefined: Seq<Seq<char>>,
    start: u64,
    i: nat,
)
    requires
        undefined.no_duplicates(),
    ensures
        ({
            let r = link::macho::stub_names(names, undefined, start, i);
            &&& forall|n: Seq<char>|
                !undefined.contains(n) ==> (#[trigger] r.dom().contains(n)) == names.dom().contains(
                    n,
                ) && r[n] == names[n]
            &&& forall|k: int|
                0 <= k < i && k < undefined.len() ==> r.dom().contains(#[trigger] undefined[k])
                    == names.dom().contains(undefined[k]) && r[undefined[k]] == names[undefined[k]]
            &&& forall|k: int|
                i <= k < undefined.len() ==> r.dom().contains(#[trigger] undefined[k])
                    && r[undefined[k]] == (start + k * 12) as u64
        }),
    decreases undefined.len() - i,
{
    if i < undefined.len() {
        let next = names.insert(undefined[i as int], (start + i * 12) as u64);
        lemma_stub_names(next, undefined, start, i + 1);
        assert(undefined.contains(undefined[i as int]));
    }
}

/// An import is made, once, for names that no object defines only: its address is that of its
/// stub. Every defined name keeps its address.
pub proof fn law_macho_imports_have_stubs(
    objects: Seq<ObjectModel>,
    l: LayoutModel,
    names: Map<Seq<char>, u64>,
    arch: TargetArch,
)
    requires
        link::macho::with_stubs(l, link::macho::imports_of(objects, names, arch)) is Ok,
    ensures
        ({
            let m = link::macho::imports_of(objects, names, arch);
            let all = link::macho::names_with_stubs(l, m, names);
            let stubbed = link::macho::with_stubs(l, m)->Ok_0;
            let stubs = stubbed.sections[l.sections.len() as int];
            &&& m.undefined.no_duplicates()
            &&& m.undefined.len() > 0 ==> stubs.name == "__stubs"@
            &&& forall|i: int|
                0 <= i < m.undefined.len() ==> !names.dom().contains(#[trigger] m.undefined[i])
                    && all.dom().contains(m.undefined[i]) && all[m.undefined[i]] == stubs.vaddr + 12
                    * i
            &&& forall|n: Seq<char>| #[trigger]
                names.dom().contains(n) ==> all.dom().contains(n) && all[n] == names[n]
        }),
{
    let none = ImportsModel { undefined: seq![], weak: seq![], got: seq![] };
    lemma_import_objects(objects, names, 0, none);
    let some = link::macho::import_all_symbols(objects, names, 0, none);
    lemma_import_objects(objects, names, 0, some);
    let m = link::macho::imports_of(objects, names, arch);
    assert(only_undefined(m, names));
    lemma_slots_for_all(objects, names, arch);
    let start = link::macho::stubs_start(l);
    lemma_stub_names(names, m.undefined, start, 0);
    let all = link::macho::names_with_stubs(l, m, names);
    assert forall|n: Seq<char>| #[trigger] names.dom().contains(n) implies all.dom().contains(n)
        && all[n] == names[n] by {
        if m.undefined.contains(n) {
            let i = m.undefined.index_of(n);
            assert(m.undefined[i] == n);
        }
        let r = link::macho::stub_names(names, m.undefined, start, 0);
        assert(r.dom().contains(n) == names.dom().contains(n));
    }
}

proof fn lemma_slots_for_all(
    objects: Seq<ObjectModel>,
    names: Map<Seq<char>, u64>,
    arch: TargetArch,
)
    ensures
        ({
            let m = link::macho::imports_of(objects, names, arch);
            m.undefined.len() <= m.got.len()
        }),
{
    let none = ImportsModel { undefined: seq![], weak: seq![], got: seq![] };
    let m = link::macho::import_all_relocs(
        objects,
        names,
        0,
        link::macho::import_all_symbols(objects, names, 0, none),
    );
    lemma_add_names_longer(m.undefined, m.got, 0);
}

proof fn lemma_add_names_longer(s: Seq<Seq<char>>, more: Seq<Seq<char>>, i: nat)
    ensures
        s.len() <= link::macho::add_names(s, more, i).len(),
    decreases more.len() - i,
{
    if i < more.len() {
        lemma_add_names_longer(names::add_name(s, more[i as int]), more, i + 1);
    }
}

/// The slots that the stubs of a layout jump through are those of its global offset table, unless
/// a multiple of 32 KiB lies between the end of the code that the stubs share and twelve bytes
/// further on.
pub proof fn law_stubs_use_the_table(l: LayoutModel, m: ImportsModel)
    requires
        link::macho::with_stubs(l, m) is Ok,
        m.got.len() > 0,
        (link::macho::stubs_start(l) + m.undefined.len() * 12 + 23) / 0x8000 == (
        link::macho::stubs_start(l) + m.undefined.len() * 12 + 35) / 0x8000,
    ensures
        ({
            let stubbed = link::macho::with_stubs(l, m)->Ok_0;
            let table = stubbed.sections[l.sections.len() as int + 2];
            &&& table.name == "__got"@
            &&& table.data.len() == 8 * m.got.len()
            &&& table.vaddr == link::macho::stub_slots_addr(
                link::macho::stubs_start(l),
                m.undefined.len(),
            )
        }),
{
    let end = link::macho::stubs_start(l) + m.undefined.len() * 12;
    lemma_next_block((end + 24) as u64);
    lemma_next_block((end + 36) as u64);
}

proof fn lemma_next_block(x: u64)
    requires
        0 < x,
        segment::align_fits(x, 0x8000),
    ensures
        segment::aligned(x, 0x8000) == ((x - 1) / 0x8000 + 1) * 0x8000,
{
    vstd::arithmetic::power2::lemma2_to64();
    assert(segment::is_power(0x8000, 15));
    segment::law_align_up_bounds(x, 0x8000);
    segment::law_align_up_multiple(x, 0x8000, 15);
}

/// Whether the symbol `i` of the object `o` is an external definition of a name at an address.
pub open spec fn defines_name(
    objects: Seq<ObjectModel>,
    l: LayoutModel,
    offs: Seq<Map<u8, u64>>,
    o: int,
    i: int,
    name: Seq<char>,
    addr: u64,
) -> bool {
    let sym = objects[o].symbols[i];
    &&& 0 <= o < objects.len()
    &&& 0 <= i < objects[o].symbols.len()
    &&& sym.name == name && sym.name.len() != 0
    &&& sym.n_type & N_EXT != 0
    &&& macho_symbols::defined_addr(
        objects[o],
        link::macho::object_sect_addrs(objects, l, offs, o as nat),
        sym,
    ) == Some(addr)
}

/// Whether every name of a table is defined by some external symbol of the objects.
spec fn all_external(
    objects: Seq<ObjectModel>,
    l: LayoutModel,
    offs: Seq<Map<u8, u64>>,
    g: GlobalsModel,
) -> bool {
    forall|n: Seq<char>| #[trigger]
        g.addrs.dom().contains(n) ==> exists|o: int, i: int|
            defines_name(objects, l, offs, o, i, n, g.addrs[n])
}

proof fn lemma_define_external(
    objects: Seq<ObjectModel>,
    l: LayoutModel,
    offs: Seq<Map<u8, u64>>,
    o: nat,
    i: nat,
    g: GlobalsModel,
)
    requires
        o < objects.len(),
        all_external(objects, l, offs, g),
    ensures
        all_external(
            objects,
            l,
            offs,
            macho_symbols::define_from(
                objects[o as int],
                link::macho::object_sect_addrs(objects, l, offs, o),
                i,
                g,
            ),
        ),
    decreases objects[o as int].symbols.len() - i,
{
    let obj = objects[o as int];
    let addrs = link::macho::object_sect_addrs(objects, l, offs, o);
    if i < obj.symbols.len() {
        let sym = obj.symbols[i as int];
        let next = match macho_symbols::defined_addr(obj, addrs, sym) {
            Some(a) if sym.name.len() != 0 && sym.n_type & N_EXT != 0 => macho_symbols::define(
                g,
                sym.name,
                a,
                sym.n_desc & N_WEAK_DEF != 0,
            ),
            _ => g,
        };
        assert(all_external(objects, l, offs, next)) by {
            assert forall|n: Seq<char>| #[trigger] next.addrs.dom().contains(n) implies exists|
                q: int,
                j: int,
            | defines_name(objects, l, offs, q, j, n, next.addrs[n]) by {
                if g.addrs.dom().contains(n) && next.addrs[n] == g.addrs[n] {
                    assert(g.addrs.dom().contains(n));
                } else {
                    assert(defines_name(objects, l, offs, o as int, i as int, n, next.addrs[n]));
                }
            }
        }
        lemma_define_external(objects, l, offs, o, i + 1, next);
    }
}

proof fn lemma_globals_external(
    objects: Seq<ObjectModel>,
    l: LayoutModel,
    offs: Seq<Map<u8, u64>>,
    o: nat,
    g: GlobalsModel,
)
    requires
        all_external(objects, l, offs, g),
    ensures
        all_external(objects, l, offs, link::macho::globals_from(objects, l, offs, o, g)),
    decreases objects.len() - o,
{
    if o < objects.len() {
        lemma_define_external(objects, l, offs, o, 0, g);
        let next = macho_symbols::define_from(
            objects[o as int],
            link::macho::object_sect_addrs(objects, l, offs, o),
            0,
            g,
        );
        lemma_globals_external(objects, l, offs, o + 1, next);
    }
}

/// A local symbol is private to its object: a name that others can see is defined by an external
/// symbol of some object, and stands for the address of that symbol.
pub proof fn law_macho_local_names_are_private(
    objects: Seq<ObjectModel>,
    l: LayoutModel,
    offs: Seq<Map<u8, u64>>,
    name: Seq<char>,
)
    ensures
        ({
            let g = link::macho::globals_from(
                objects,
                l,
                offs,
                0,
                GlobalsModel { addrs: Map::empty(), weak: Map::empty() },
            );
            g.addrs.dom().contains(name) ==> exists|o: int, i: int|
                defines_name(objects, l, offs, o, i, name, g.addrs[name])
        }),
{
    lemma_globals_external(
        objects,
        l,
        offs,
        0,
        GlobalsModel { addrs: Map::empty(), weak: Map::empty() },
    );
}

pub proof fn lemma_descriptors_len(data: Seq<u8>, i: int)
    ensures
        macho_reloc::descriptors_from(data, i).len() == data.len(),
    decreases data.len() - i,
{
    broadcast use bytes::group_le_len;
    if 0 <= i && i + 24 <= data.len() {
        let init = bytes::u64_at(data, i + 16) & 0xffff_ffff;
        let rest = (data.len() - 16 - i) as u64;
        let once = bytes::patch(data, i + 8, bytes::le64((init << 32) | 0x102));
        lemma_descriptors_len(
            bytes::patch(once, i + 16, bytes::le64((0x58u64 << 32) | rest)),
            i + 24,
        );
    }
}

/// Whether the section `i` of an object has relocations for the section `s` of a layout.
pub open spec fn macho_relocates(l: LayoutModel, obj: ObjectModel, i: int, s: int) -> bool {
    let name = link::macho::merged_name_of(obj.sections[i]);
    obj.sections[i].nreloc != 0 && l.by_name.dom().contains(name) && l.by_name[name] == s
}

proof fn lemma_apply_keeps(
    env: RelocEnv,
    obj: ObjectModel,
    offs: Map<u8, u64>,
    i: nat,
    st: LinkState,
    s: int,
)
    requires
        link::names_in_range(st.layout),
        0 <= s < st.layout.sections.len(),
    ensures
        ({
            let left = macho_reloc::apply_from(env, obj, offs, i, st).0.layout;
            &&& link::same_shape(st.layout, left)
            &&& (forall|j: int|
                i <= j < obj.sections.len() ==> !(#[trigger] macho_relocates(
                    st.layout,
                    obj,
                    j,
                    s,
                ))) ==> left.sections[s] == st.layout.sections[s]
        }),
    decreases obj.sections.len() - i,
{
    if i < obj.sections.len() {
        let sec = obj.sections[i as int];
        let name = link::macho::merged_name_of(sec);
        let (next, error) = macho_reloc::apply_section(env, obj, offs, i, st);
        if sec.nreloc != 0 && st.layout.by_name.dom().contains(name) {
            let idx = st.layout.by_name[name] as int;
            let merged = st.layout.sections[idx];
            let relocs = crate::macho::relocs_of(obj.data, sec.reloff, sec.nreloc);
            let site = Site {
                name: merged.name,
                vaddr: merged.vaddr,
                shift: env.ranges[idx].2,
                offset: macho_reloc::offset_or_zero(offs, ((i + 1) % 256) as u8),
            };
            let start = RelocState {
                data: merged.data,
                addends: Map::empty(),
                rebases: st.rebases,
                binds: st.binds,
            };
            macho_reloc::lemma_relocate_from_len(env, site, relocs, 0, start);
            let done = macho_reloc::relocate_from(env, site, relocs, 0, start).0;
            lemma_descriptors_len(done.data, 0);
            assert(link::same_shape(st.layout, next.layout));
            assert(!macho_relocates(st.layout, obj, i as int, s) ==> idx != s);
        }
        if error is None {
            assert forall|j: int|
                i + 1 <= j < obj.sections.len() implies #[trigger] macho_relocates(
                next.layout,
                obj,
                j,
                s,
            ) == macho_relocates(st.layout, obj, j, s) by {}
            lemma_apply_keeps(env, obj, offs, i + 1, next, s);
        }
    }
}

/// The relocations of an object change the bytes of sections and nothing else, whether or not they
/// are stopped: no section is added, moved, renamed, resized or lost. A section that no relocation
/// is for keeps its bytes.
pub proof fn law_macho_relocations_keep_shape(
    env: RelocEnv,
    obj: ObjectModel,
    offs: Map<u8, u64>,
    st: LinkState,
    s: int,
)
    requires
        link::names_in_range(st.layout),
        0 <= s < st.layout.sections.len(),
    ensures
        ({
            let left = macho_reloc::apply_from(env, obj, offs, 0, st).0.layout;
            &&& link::same_shape(st.layout, left)
            &&& (forall|j: int|
                0 <= j < obj.sections.len() ==> !(#[trigger] macho_relocates(
                    st.layout,
                    obj,
                    j,
                    s,
                ))) ==> left.sections[s] == st.layout.sections[s]
        }),
{
    lemma_apply_keeps(env, obj, offs, 0, st, s);
}

} // verus!

//! What holds of linked ELF objects as a whole.
use vstd::prelude::*;
use crate::arch;
use crate::arch::TargetArch;
use crate::bytes;
use crate::elf::{RelaEntry, SHT_RELA, SectionHeader, Symbol};
use crate::elf::reloc_type::{
    R_AARCH64_ABS32, R_AARCH64_ABS64, R_AARCH64_CALL26, R_AARCH64_JUMP26, R_X86_64_32,
    R_X86_64_64, R_X86_64_GOTPCREL, R_X86_64_PC32,
};
use crate::link;
use crate::link::{LayoutModel, MergedModel, ObjectSectionContrib};
use crate::link::aarch64;
use crate::link::dynamic;
use crate::link::dynamic::DynamicPlaces;
use crate::link::elf_link;
use crate::link::elf_link::{GlobalTable, GotModel, Linking, ParsedModel, RequestModel};
use crate::link::elf_merge;
use crate::link::elf_merge::{ELF_BASE, ElfGathering, PoolModel};
use crate::link::elf_symbols;
use crate::link::elf_symbols::{ResolvedModel, SHN_ABS, SHN_UNDEF, STB_LOCAL};
use crate::link::macho::Placing;
use crate::link::relocate;
use crate::link::relocate::RelaState;
use crate::link::resolver;
use crate::link::riscv;
use crate::names;
use crate::order;
use crate::platform::TargetPlatform;
use crate::segment;

verus! {

/// Whether the file holds all the bytes that the sections of an object say they have.
pub open spec fn has_all_bytes(file: Seq<u8>, order: Seq<(Seq<char>, SectionHeader)>) -> bool {
    forall|i: int|
        0 <= i < order.len() ==> elf_merge::elf_section_bytes(file, (#[trigger] order[i]).1).len()
            == order[i].1.sh_size
}

/// The mergeable sections of an object.
pub open spec fn sections_of(file: Seq<u8>) -> Seq<(Seq<char>, SectionHeader)> {
    match crate::elf::elf_of(file) {
        Ok(obj) => elf_merge::elf_merge_order(obj.sections, obj.names, 5),
        Err(_) => seq![],
    }
}

spec fn pool_named(p: PoolModel) -> bool {
    &&& elf_merge::pool_ok(p)
    &&& forall|n: Seq<char>| #[trigger]
        p.by_name.dom().contains(n) ==> p.sections[p.by_name[n] as int].name == n
    &&& forall|i: int|
        0 <= i < p.sections.len() ==> (#[trigger] p.sections[i]).data.len() == p.sections[i].size
            && p.by_name.dom().contains(p.sections[i].name)
    &&& p.sections.len() <= usize::MAX
}

/// Whether the section `name` holds `data` at `offset`, and is aligned at least to `align`.
spec fn pool_holds(p: PoolModel, name: Seq<char>, offset: u64, data: Seq<u8>, align: u64) -> bool {
    let s = p.sections[p.by_name[name] as int];
    &&& p.by_name.dom().contains(name)
    &&& offset + data.len() <= s.data.len()
    &&& s.data.subrange(offset as int, offset + data.len()) == data
    &&& s.align >= align
}

proof fn lemma_with_part(
    p: PoolModel,
    name: Seq<char>,
    offset: u64,
    data: Seq<u8>,
    sh: SectionHeader,
)
    requires
        pool_named(p),
        elf_merge::pool_size(p, name) <= offset,
        offset + sh.sh_size <= u64::MAX,
        data.len() == sh.sh_size,
        p.sections.len() < usize::MAX,
    ensures
        pool_named(elf_merge::with_part(p, name, offset, data, sh)),
        pool_holds(elf_merge::with_part(p, name, offset, data, sh), name, offset, data,
            elf_merge::elf_align(sh)),
        forall|n: Seq<char>, o: u64, d: Seq<u8>, a: u64| #[trigger]
            pool_holds(p, n, o, d, a) ==> pool_holds(
                elf_merge::with_part(p, name, offset, data, sh),
                n,
                o,
                d,
                a,
            ),
{
    let q = elf_merge::with_part(p, name, offset, data, sh);
    if p.by_name.dom().contains(name) {
        let idx = p.by_name[name] as int;
        let s = p.sections[idx];
        let t = q.sections[idx];
        assert(t.data.subrange(offset as int, offset + data.len()) =~= data);
        assert forall|n: Seq<char>, o: u64, d: Seq<u8>, a: u64| #[trigger]
            pool_holds(p, n, o, d, a) implies pool_holds(q, n, o, d, a) by {
            if p.by_name[n] == idx {
                assert(t.data.subrange(o as int, o + d.len()) =~= s.data.subrange(
                    o as int,
                    o + d.len(),
                ));
            }
        }
    } else {
        let t = q.sections.last();
        assert(t.data.subrange(offset as int, offset + data.len()) =~= data);
    }
}

/// Whether no section from `k` on has the name `n`.
pub open spec fn absent_from(order: Seq<(Seq<char>, SectionHeader)>, k: int, n: Seq<char>) -> bool {
    forall|j: int| k <= j < order.len() ==> (#[trigger] order[j]).0 != n
}

/// Whether no section behind `k` has the same name.
pub open spec fn last_of_name(order: Seq<(Seq<char>, SectionHeader)>, k: int) -> bool {
    absent_from(order, k + 1, order[k].0)
}

/// Whether `a` is a power of two.
pub open spec fn power_of_two(a: u64) -> bool {
    exists|n: nat| segment::is_power(a, n)
}

/// Whether the section `k` of an object stands in the pool at `offset`.
spec fn part_at(
    file: Seq<u8>,
    order: Seq<(Seq<char>, SectionHeader)>,
    k: int,
    p: PoolModel,
    offset: u64,
) -> bool {
    let (name, sh) = order[k];
    &&& pool_holds(p, name, offset, elf_merge::elf_section_bytes(file, sh),
        elf_merge::elf_align(sh))
    &&& power_of_two(elf_merge::elf_align(sh)) ==> offset as int % elf_merge::elf_align(sh) as int
        == 0
}

/// Whether the section `k` of an object stands in the pool where the parts of the object say.
spec fn part_kept(
    file: Seq<u8>,
    order: Seq<(Seq<char>, SectionHeader)>,
    k: int,
    p: PoolModel,
    parts: Map<Seq<char>, ObjectSectionContrib>,
) -> bool {
    let (name, sh) = order[k];
    &&& exists|offset: u64| part_at(file, order, k, p, offset)
    &&& last_of_name(order, k) ==> parts.dom().contains(name) && parts[name].size == sh.sh_size
        && part_at(file, order, k, p, parts[name].offset_in_merged)
}

/// Whether all that one pool holds, another holds too.
spec fn pool_grows(p: PoolModel, q: PoolModel) -> bool {
    &&& forall|n: Seq<char>, o: u64, d: Seq<u8>, a: u64| #[trigger]
        pool_holds(p, n, o, d, a) ==> pool_holds(q, n, o, d, a)
    &&& forall|n: Seq<char>| elf_merge::pool_size(p, n) <= #[trigger] elf_merge::pool_size(q, n)
}

proof fn lemma_part_kept_grows(
    file: Seq<u8>,
    order: Seq<(Seq<char>, SectionHeader)>,
    k: int,
    p: PoolModel,
    q: PoolModel,
    parts: Map<Seq<char>, ObjectSectionContrib>,
)
    requires
        part_kept(file, order, k, p, parts),
        pool_grows(p, q),
    ensures
        part_kept(file, order, k, q, parts),
{
    let offset = choose|offset: u64| part_at(file, order, k, p, offset);
    assert(part_at(file, order, k, q, offset));
}

proof fn lemma_gather_object(
    file: Seq<u8>,
    order: Seq<(Seq<char>, SectionHeader)>,
    i: nat,
    g: ElfGathering,
)
    requires
        i <= order.len(),
        pool_named(g.pool),
        has_all_bytes(file, order),
        g.pool.sections.len() + order.len() - i <= usize::MAX,
        elf_merge::gather_elf_object(file, order, i, g) is Some,
    ensures
        ({
            let r = elf_merge::gather_elf_object(file, order, i, g)->0;
            &&& pool_named(r.pool)
            &&& r.pool.sections.len() <= g.pool.sections.len() + order.len() - i
            &&& pool_grows(g.pool, r.pool)
            &&& forall|k: int|
                i <= k < order.len() ==> part_kept(file, order, k, r.pool, r.parts)
            &&& forall|n: Seq<char>|
                #[trigger] absent_from(order, i as int, n) ==> r.parts.dom().contains(n)
                    == g.parts.dom().contains(n) && r.parts[n] == g.parts[n]
        }),
    decreases order.len() - i,
{
    if i < order.len() {
        let (name, sh) = order[i as int];
        let raw = elf_merge::pool_size(g.pool, name);
        let offset = segment::aligned(raw, elf_merge::elf_align(sh));
        let data = elf_merge::elf_section_bytes(file, sh);
        segment::law_align_up_bounds(raw, elf_merge::elf_align(sh));
        lemma_with_part(g.pool, name, offset, data, sh);
        let next = ElfGathering {
            pool: elf_merge::with_part(g.pool, name, offset, data, sh),
            parts: g.parts.insert(
                name,
                ObjectSectionContrib { offset_in_merged: offset, size: sh.sh_size },
            ),
        };
        assert(pool_grows(g.pool, next.pool));
        lemma_gather_object(file, order, i + 1, next);
        let r = elf_merge::gather_elf_object(file, order, i, g)->0;
        if power_of_two(elf_merge::elf_align(sh)) {
            let n = choose|n: nat| segment::is_power(elf_merge::elf_align(sh), n);
            segment::law_align_up_multiple(raw, elf_merge::elf_align(sh), n);
        }
        assert(part_at(file, order, i as int, next.pool, offset));
        assert(part_at(file, order, i as int, r.pool, offset));
        assert(part_kept(file, order, i as int, r.pool, r.parts)) by {
            if last_of_name(order, i as int) {
                assert(r.parts[name] == next.parts[name]);
            }
        }
        assert forall|n: Seq<char>| #[trigger] absent_from(order, i as int,
            n) implies r.parts.dom().contains(
            n,
        ) == g.parts.dom().contains(n) && r.parts[n] == g.parts[n] by {
            assert(order[i as int].0 != n);
            assert(absent_from(order, (i + 1) as int, n));
        }
    }
}

/// The number of mergeable sections in the first `n` objects.
pub open spec fn section_count(datas: Seq<Seq<u8>>, n: nat) -> nat
    decreases n,
{
    if n == 0 {
        0
    } else {
        section_count(datas, (n - 1) as nat) + sections_of(datas[n - 1]).len()
    }
}

proof fn lemma_section_count(datas: Seq<Seq<u8>>, m: nat, n: nat)
    requires
        m <= n,
    ensures
        section_count(datas, m) <= section_count(datas, n),
    decreases n,
{
    if m < n {
        lemma_section_count(datas, m, (n - 1) as nat);
    }
}

/// Whether all the sections that the first `n` objects have gathered stand where they should.
spec fn parts_kept(
    datas: Seq<Seq<u8>>,
    n: nat,
    p: PoolModel,
    parts: Seq<Map<Seq<char>, ObjectSectionContrib>>,
) -> bool {
    forall|o: int, k: int|
        0 <= o < n && 0 <= k < sections_of(datas[o]).len() ==> #[trigger] part_kept(
            datas[o],
            sections_of(datas[o]),
            k,
            p,
            parts[o],
        )
}

proof fn lemma_gather_all(
    datas: Seq<Seq<u8>>,
    machine: u16,
    i: nat,
    pool: PoolModel,
    parts: Seq<Map<Seq<char>, ObjectSectionContrib>>,
)
    requires
        i <= datas.len(),
        parts.len() == i,
        pool_named(pool),
        pool.sections.len() <= section_count(datas, i),
        section_count(datas, datas.len()) <= usize::MAX,
        forall|o: int|
            0 <= o < datas.len() ==> has_all_bytes(#[trigger] datas[o], sections_of(datas[o])),
        parts_kept(datas, i, pool, parts),
        elf_merge::gather_elf_from(datas, machine, i, pool, parts) is Ok,
    ensures
        ({
            let (p, all) = elf_merge::gather_elf_from(datas, machine, i, pool, parts)->Ok_0;
            &&& all.len() == datas.len()
            &&& pool_named(p)
            &&& p.sections.len() <= section_count(datas, datas.len())
            &&& parts_kept(datas, datas.len(), p, all)
        }),
    decreases datas.len() - i,
{
    if i < datas.len() {
        let file = datas[i as int];
        let order = sections_of(file);
        lemma_section_count(datas, i + 1, datas.len());
        let first = ElfGathering { pool, parts: Map::empty() };
        lemma_gather_object(file, order, 0, first);
        let g = elf_merge::gather_elf_object(file, order, 0, first)->0;
        let next = parts.push(g.parts);
        assert forall|o: int, k: int|
            0 <= o < i + 1 && 0 <= k < sections_of(datas[o]).len() implies #[trigger] part_kept(
            datas[o],
            sections_of(datas[o]),
            k,
            g.pool,
            next[o],
        ) by {
            if o < i {
                assert(next[o] == parts[o]);
                assert(part_kept(datas[o], sections_of(datas[o]), k, pool, parts[o]));
                lemma_part_kept_grows(datas[o], sections_of(datas[o]), k, pool, g.pool, parts[o]);
            }
        }
        lemma_gather_all(datas, machine, i + 1, g.pool, next);
    }
}

/// Whether the layout has the section `name` of the pool, at an aligned address.
spec fn placed(l: LayoutModel, p: PoolModel, name: Seq<char>) -> bool {
    let s = p.sections[p.by_name[name] as int];
    let m = l.sections[l.by_name[name] as int];
    &&& l.by_name.dom().contains(name)
    &&& l.by_name[name] < l.sections.len()
    &&& m.name == name
    &&& m.data == s.data
    &&& m.align == s.align
    &&& power_of_two(s.align) ==> m.vaddr as int % s.align as int == 0
}

proof fn lemma_place_pool(p: PoolModel, names: Seq<Seq<char>>, i: nat, st: Placing)
    requires
        i <= names.len(),
        pool_named(p),
        st.layout.sections.len() + names.len() - i <= usize::MAX,
        elf_merge::place_pool(p, names, i, st) is Some,
    ensures
        ({
            let r = elf_merge::place_pool(p, names, i, st)->0;
            &&& r.layout.sections.len() <= st.layout.sections.len() + names.len() - i
            &&& forall|n: Seq<char>|
                placed(st.layout, p, n) ==> #[trigger] placed(r.layout, p, n)
            &&& forall|j: int|
                i <= j < names.len() && elf_merge::pool_size(p, #[trigger] names[j]) != 0
                    ==> placed(
                    r.layout,
                    p,
                    names[j],
                )
        }),
    decreases names.len() - i,
{
    if i < names.len() {
        let name = names[i as int];
        if elf_merge::pool_size(p, name) == 0 {
            lemma_place_pool(p, names, i + 1, st);
        } else {
            let s = p.sections[p.by_name[name] as int];
            let vaddr = segment::aligned(st.vaddr, s.align);
            let next = Placing {
                layout: link::with_section(
                    st.layout,
                    MergedModel { name, data: s.data, vaddr, flags: s.flags, align: s.align },
                ),
                vaddr: (vaddr + s.size) as u64,
            };
            if power_of_two(s.align) {
                let n = choose|n: nat| segment::is_power(s.align, n);
                segment::law_align_up_multiple(st.vaddr, s.align, n);
            }
            assert(placed(next.layout, p, name));
            assert forall|n: Seq<char>| placed(st.layout, p, n) implies placed(
                next.layout,
                p,
                n,
            ) by {}
            lemma_place_pool(p, names, i + 1, next);
        }
    }
}

proof fn lemma_other_names(p: PoolModel, n: nat, i: int)
    requires
        0 <= i < n <= p.sections.len(),
        elf_merge::elf_rank(p.sections[i].name) >= 4,
    ensures
        elf_merge::elf_other_names(p, n).contains(p.sections[i].name),
    decreases n,
{
    let before = elf_merge::elf_other_names(p, (n - 1) as nat);
    if i == n - 1 {
        assert(elf_merge::elf_other_names(p, n).last() == p.sections[i].name);
    } else {
        lemma_other_names(p, (n - 1) as nat, i);
        let k = before.index_of(p.sections[i].name);
        assert(elf_merge::elf_other_names(p, n)[k] == p.sections[i].name);
    }
}

proof fn lemma_other_names_len(p: PoolModel, n: nat)
    requires
        n <= p.sections.len(),
    ensures
        elf_merge::elf_other_names(p, n).len() <= n,
    decreases n,
{
    if n > 0 {
        lemma_other_names_len(p, (n - 1) as nat);
    }
}

proof fn lemma_power_divides(a: u64, b: u64)
    requires
        power_of_two(a),
        power_of_two(b),
        a <= b,
    ensures
        b as int % a as int == 0,
        a > 0,
{
    let m = choose|m: nat| segment::is_power(a, m);
    let n = choose|n: nat| segment::is_power(b, n);
    vstd::arithmetic::power2::lemma_pow2_pos(m);
    if n < m {
        vstd::arithmetic::power2::lemma_pow2_strictly_increases(n, m);
    }
    vstd::arithmetic::power2::lemma_pow2_adds(m, (n - m) as nat);
    let d = vstd::arithmetic::power2::pow2((n - m) as nat);
    assert(b as int % a as int == 0) by (nonlinear_arith)
        requires
            b == a * d,
            a > 0,
    ;
}

proof fn lemma_multiples_add(x: int, y: int, b: int, a: int)
    requires
        a > 0,
        b > 0,
        b % a == 0,
        x % b == 0,
        y % a == 0,
    ensures
        (x + y) % a == 0,
{
    vstd::arithmetic::div_mod::lemma_fundamental_div_mod(x, b);
    vstd::arithmetic::div_mod::lemma_fundamental_div_mod(b, a);
    vstd::arithmetic::div_mod::lemma_fundamental_div_mod(y, a);
    let q = (b / a) * (x / b) + y / a;
    assert(x + y == a * q) by (nonlinear_arith)
        requires
            x == b * (x / b),
            b == a * (b / a),
            y == a * (y / a),
            q == (b / a) * (x / b) + y / a,
    ;
    vstd::arithmetic::div_mod::lemma_mod_multiples_basic(q, a);
    assert(a * q == q * a) by (nonlinear_arith);
}

proof fn lemma_part_stands(
    file: Seq<u8>,
    order: Seq<(Seq<char>, SectionHeader)>,
    k: int,
    p: PoolModel,
    l: LayoutModel,
    offset: u64,
)
    requires
        0 <= k < order.len(),
        has_all_bytes(file, order),
        part_at(file, order, k, p, offset),
        placed(l, p, order[k].0),
    ensures
        section_stands_at(
            file,
            order[k].1,
            l.sections[l.by_name[order[k].0] as int],
            offset,
        ),
{
    let (name, sh) = order[k];
    let s = l.sections[l.by_name[name] as int];
    let align = elf_merge::elf_align(sh);
    if power_of_two(align) && power_of_two(s.align) {
        lemma_power_divides(align, s.align);
        lemma_multiples_add(s.vaddr as int, offset as int, s.align as int, align as int);
    }
}

proof fn lemma_place_whole_pool(p: PoolModel, name: Seq<char>)
    requires
        pool_named(p),
        p.sections.len() + 4 <= usize::MAX,
        elf_merge::place_whole_pool(p) is Some,
        elf_merge::pool_size(p, name) != 0,
    ensures
        placed(elf_merge::place_whole_pool(p)->0, p, name),
{
    broadcast use vstd::seq_lib::group_to_multiset_ensures;
    let first = Placing { layout: link::no_sections(), vaddr: ELF_BASE };
    let known = elf_merge::elf_known_names();
    lemma_place_pool(p, known, 0, first);
    let st = elf_merge::place_pool(p, known, 0, first)->0;
    let names = elf_merge::elf_other_names(p, p.sections.len());
    lemma_other_names_len(p, p.sections.len());
    order::law_sort_names(names);
    let sorted = order::sort_names(names);
    lemma_place_pool(p, sorted, 0, st);
    if elf_merge::elf_rank(name) < 4 {
        assert(known[elf_merge::elf_rank(name) as int] == name);
        assert(placed(st.layout, p, name));
    } else {
        let i = p.by_name[name] as int;
        assert(p.sections[i].name == name);
        lemma_other_names(p, p.sections.len(), i);
        assert(names.to_multiset().contains(name));
        assert(sorted.to_multiset().contains(name));
        let j = sorted.index_of(name);
        assert(sorted[j] == name);
    }
}

/// Merging keeps the bytes of every section: they stand in the merged section of the same name, at
/// an address that is a multiple of the section's own alignment. Where several sections of an
/// object have the same name, the offset of the last is the one that is told.
#[verifier::spinoff_prover]
pub proof fn law_merging_keeps_sections(datas: Seq<Seq<u8>>, o: int, k: int)
    requires
        elf_merge::elf_multi_layout(datas) is Ok,
        section_count(datas, datas.len()) + 4 <= usize::MAX,
        forall|i: int|
            0 <= i < datas.len() ==> has_all_bytes(#[trigger] datas[i], sections_of(datas[i])),
        0 <= o < datas.len(),
        0 <= k < sections_of(datas[o]).len(),
        sections_of(datas[o])[k].1.sh_size != 0,
    ensures
        ({
            let (l, parts) = elf_merge::elf_multi_layout(datas)->Ok_0;
            let (name, sh) = sections_of(datas[o])[k];
            let s = l.sections[l.by_name[name] as int];
            let align = elf_merge::elf_align(sh);
            &&& parts.len() == datas.len()
            &&& l.by_name.dom().contains(name) && s.name == name && s.align >= align
            &&& exists|offset: u64| #[trigger] section_stands_at(datas[o], sh, s, offset)
            &&& last_of_name(sections_of(datas[o]), k) ==> parts[o].dom().contains(name)
                && parts[o][name].size == sh.sh_size && section_stands_at(
                datas[o],
                sh,
                s,
                parts[o][name].offset_in_merged,
            )
        }),
{
    let first = crate::elf::elf_of(datas[0])->Ok_0;
    let none: Seq<Map<Seq<char>, ObjectSectionContrib>> = seq![];
    lemma_gather_all(datas, first.header.e_machine, 0, elf_merge::empty_pool(), none);
    let (p, parts) = elf_merge::gather_elf_from(
        datas,
        first.header.e_machine,
        0,
        elf_merge::empty_pool(),
        none,
    )->Ok_0;
    let order = sections_of(datas[o]);
    let (name, sh) = order[k];
    assert(part_kept(datas[o], order, k, p, parts[o]));
    let offset = choose|offset: u64| part_at(datas[o], order, k, p, offset);
    let l = elf_merge::place_whole_pool(p)->0;
    lemma_place_whole_pool(p, name);
    lemma_part_stands(datas[o], order, k, p, l, offset);
    assert(elf_merge::elf_multi_layout(datas)->Ok_0 == (l, parts));
    let s = l.sections[l.by_name[name] as int];
    assert(s.name == name && s.align >= elf_merge::elf_align(sh));
    assert(section_stands_at(datas[o], sh, s, offset));
    if last_of_name(order, k) {
        lemma_part_stands(datas[o], order, k, p, l, parts[o][name].offset_in_merged);
        assert(parts[o][name].size == sh.sh_size);
    }
}

/// Whether a merged section holds the bytes of an input section at `offset`, at an address that is
/// a multiple of the alignment of the input section. An alignment that is no power of two promises
/// nothing.
pub open spec fn section_stands_at(
    file: Seq<u8>,
    sh: SectionHeader,
    s: MergedModel,
    offset: u64,
) -> bool {
    &&& offset + sh.sh_size <= s.data.len()
    &&& s.data.subrange(offset as int, offset + sh.sh_size)
        == elf_merge::elf_section_bytes(file, sh)
    &&& power_of_two(elf_merge::elf_align(sh)) && power_of_two(s.align) ==> (s.vaddr + offset)
        % elf_merge::elf_align(sh) as int == 0
}

proof fn lemma_gather_order(
    file: Seq<u8>,
    order: Seq<(Seq<char>, SectionHeader)>,
    i: nat,
    g: ElfGathering,
    name: Seq<char>,
    low: u64,
)
    requires
        i <= order.len(),
        pool_named(g.pool),
        has_all_bytes(file, order),
        g.pool.sections.len() + order.len() - i <= usize::MAX,
        elf_merge::gather_elf_object(file, order, i, g) is Some,
        low <= elf_merge::pool_size(g.pool, name),
        g.parts.dom().contains(name) ==> low <= g.parts[name].offset_in_merged
            && g.parts[name].offset_in_merged
                + g.parts[name].size <= elf_merge::pool_size(g.pool, name),
    ensures
        ({
            let r = elf_merge::gather_elf_object(file, order, i, g)->0;
            r.parts.dom().contains(name) ==> low <= r.parts[name].offset_in_merged
                && r.parts[name].offset_in_merged
                    + r.parts[name].size <= elf_merge::pool_size(r.pool, name)
        }),
    decreases order.len() - i,
{
    if i < order.len() {
        let (n, sh) = order[i as int];
        let raw = elf_merge::pool_size(g.pool, n);
        let offset = segment::aligned(raw, elf_merge::elf_align(sh));
        let data = elf_merge::elf_section_bytes(file, sh);
        segment::law_align_up_bounds(raw, elf_merge::elf_align(sh));
        lemma_with_part(g.pool, n, offset, data, sh);
        let next = ElfGathering {
            pool: elf_merge::with_part(g.pool, n, offset, data, sh),
            parts: g.parts.insert(
                n,
                ObjectSectionContrib { offset_in_merged: offset, size: sh.sh_size },
            ),
        };
        assert(elf_merge::pool_size(next.pool, name) >= elf_merge::pool_size(g.pool, name));
        lemma_gather_order(file, order, i + 1, next, name, low);
    }
}

proof fn lemma_gather_all_order(
    datas: Seq<Seq<u8>>,
    machine: u16,
    i: nat,
    pool: PoolModel,
    parts: Seq<Map<Seq<char>, ObjectSectionContrib>>,
    name: Seq<char>,
)
    requires
        i <= datas.len(),
        parts.len() == i,
        pool_named(pool),
        pool.sections.len() <= section_count(datas, i),
        section_count(datas, datas.len()) <= usize::MAX,
        forall|o: int|
            0 <= o < datas.len() ==> has_all_bytes(#[trigger] datas[o], sections_of(datas[o])),
        parts_ascend(parts, name),
        forall|o: int|
            0 <= o < i && (#[trigger] parts[o]).dom().contains(name) ==> part_end(parts[o], name)
                <= elf_merge::pool_size(pool, name),
        elf_merge::gather_elf_from(datas, machine, i, pool, parts) is Ok,
    ensures
        parts_ascend(elf_merge::gather_elf_from(datas, machine, i, pool, parts)->Ok_0.1, name),
        elf_merge::gather_elf_from(datas, machine, i, pool, parts)->Ok_0.1.len() == datas.len(),
    decreases datas.len() - i,
{
    if i < datas.len() {
        let file = datas[i as int];
        let order = sections_of(file);
        lemma_section_count(datas, i + 1, datas.len());
        let first = ElfGathering { pool, parts: Map::empty() };
        lemma_gather_object(file, order, 0, first);
        lemma_gather_order(file, order, 0, first, name, elf_merge::pool_size(pool, name));
        let g = elf_merge::gather_elf_object(file, order, 0, first)->0;
        assert(elf_merge::pool_size(pool, name) <= elf_merge::pool_size(g.pool, name));
        lemma_gather_all_order(datas, machine, i + 1, g.pool, parts.push(g.parts), name);
    }
}

/// Where the part of an object in the section `name` ends.
pub open spec fn part_end(parts: Map<Seq<char>, ObjectSectionContrib>, name: Seq<char>) -> int {
    parts[name].offset_in_merged + parts[name].size
}

/// Whether the parts in the section `name` follow each other in the order of the objects.
pub open spec fn parts_ascend(
    parts: Seq<Map<Seq<char>, ObjectSectionContrib>>,
    name: Seq<char>,
) -> bool {
    forall|o: int, q: int|
        0 <= o < q < parts.len() && (#[trigger] parts[o]).dom().contains(name) && (
        #[trigger] parts[q]).dom().contains(name) ==> part_end(parts[o], name)
            <= parts[q][name].offset_in_merged
}

/// The parts of different objects in a merged section do not overlap: they follow each other in
/// the order of the objects.
pub proof fn law_parts_do_not_overlap(datas: Seq<Seq<u8>>, name: Seq<char>)
    requires
        elf_merge::elf_multi_layout(datas) is Ok,
        section_count(datas, datas.len()) <= usize::MAX,
        forall|i: int|
            0 <= i < datas.len() ==> has_all_bytes(#[trigger] datas[i], sections_of(datas[i])),
    ensures
        parts_ascend(elf_merge::elf_multi_layout(datas)->Ok_0.1, name),
{
    let first = crate::elf::elf_of(datas[0])->Ok_0;
    let none: Seq<Map<Seq<char>, ObjectSectionContrib>> = seq![];
    lemma_gather_all_order(datas, first.header.e_machine, 0, elf_merge::empty_pool(), none, name);
}

/// A local symbol is private to its object: a name that others can see is that of a symbol which
/// is not local, and what the name stands for is what the last such symbol resolves to.
pub proof fn law_local_names_are_private(
    symbols: Seq<Symbol>,
    strtab: Seq<u8>,
    l: LayoutModel,
    names: Seq<Seq<char>>,
    offs: Map<Seq<char>, u64>,
    n: nat,
    name: Seq<char>,
)
    requires
        n <= symbols.len(),
        elf_symbols::visible_symbols(symbols, strtab, l, names, offs, n).dom().contains(name),
    ensures
        exists|i: int|
            0 <= i < n && (#[trigger] symbols[i]).bind != STB_LOCAL && elf_symbols::elf_symbol_name(
                strtab,
                symbols[i],
            ) == name && elf_symbols::visible_symbols(symbols, strtab, l, names, offs, n)[name]
                == elf_symbols::resolved_symbol(symbols[i], l, names, offs),
    decreases n,
{
    if n > 0 {
        let sym = symbols[n - 1];
        if name.len() != 0 && sym.bind != STB_LOCAL && elf_symbols::elf_symbol_name(strtab, sym)
            == name {
            assert(symbols[n - 1].bind != STB_LOCAL);
        } else {
            law_local_names_are_private(symbols, strtab, l, names, offs, (n - 1) as nat, name);
            let i = choose|i: int|
                0 <= i < n - 1 && (#[trigger] symbols[i]).bind != STB_LOCAL
                    && elf_symbols::elf_symbol_name(
                    strtab,
                    symbols[i],
                ) == name && elf_symbols::visible_symbols(symbols, strtab, l, names, offs,
                    (n - 1) as nat)[name]
                    == elf_symbols::resolved_symbol(symbols[i], l, names, offs);
            assert(symbols[i].bind != STB_LOCAL);
        }
    }
}

/// The addresses under which an object defines names for others.
pub open spec fn definitions_of(
    obj: ParsedModel,
    l: LayoutModel,
    parts: Map<Seq<char>, ObjectSectionContrib>,
) -> Map<Seq<char>, u64> {
    match elf_symbols::resolved_symbols(obj.data, l, obj.elf.sections, obj.elf.names,
        elf_link::part_offsets(parts)) {
        Ok(s) => elf_symbols::known_addresses(s.visible),
        Err(_) => Map::empty(),
    }
}

proof fn lemma_names_stay(
    objects: Seq<ParsedModel>,
    l: LayoutModel,
    parts: Seq<Map<Seq<char>, ObjectSectionContrib>>,
    i: nat,
    g: GlobalTable,
    name: Seq<char>,
)
    requires
        elf_link::resolve_objects(objects, l, parts, i, g) is Ok,
        g.names.dom().contains(name),
    ensures
        elf_link::resolve_objects(objects, l, parts, i, g)->Ok_0.names.dom().contains(name),
        elf_link::resolve_objects(objects, l, parts, i, g)->Ok_0.names[name] == g.names[name],
    decreases objects.len() - i,
{
    if i < objects.len() {
        let obj = objects[i as int];
        let s = elf_symbols::resolved_symbols(
            obj.data,
            l,
            obj.elf.sections,
            obj.elf.names,
            elf_link::part_offsets(parts[i as int]),
        )->Ok_0;
        let next = GlobalTable {
            names: elf_symbols::known_addresses(s.visible).union_prefer_right(g.names),
            addresses: g.addresses.push(s.addresses),
        };
        lemma_names_stay(objects, l, parts, i + 1, next, name);
    }
}

/// The first definition of a name counts: a name stands for the address that the first object
/// which defines it gives it.
pub proof fn law_first_definition_counts(
    objects: Seq<ParsedModel>,
    l: LayoutModel,
    parts: Seq<Map<Seq<char>, ObjectSectionContrib>>,
    i: nat,
    g: GlobalTable,
    o: int,
    name: Seq<char>,
)
    requires
        elf_link::resolve_objects(objects, l, parts, i, g) is Ok,
        !g.names.dom().contains(name),
        i <= o < objects.len(),
        definitions_of(objects[o], l, parts[o]).dom().contains(name),
        forall|q: int|
            i <= q < o ==> !definitions_of(#[trigger] objects[q], l, parts[q]).dom().contains(name),
    ensures
        elf_link::resolve_objects(objects, l, parts, i, g)->Ok_0.names.dom().contains(name),
        elf_link::resolve_objects(objects, l, parts, i, g)->Ok_0.names[name] == definitions_of(
            objects[o],
            l,
            parts[o],
        )[name],
    decreases o - i,
{
    let obj = objects[i as int];
    let s = elf_symbols::resolved_symbols(
        obj.data,
        l,
        obj.elf.sections,
        obj.elf.names,
        elf_link::part_offsets(parts[i as int]),
    )->Ok_0;
    let next = GlobalTable {
        names: elf_symbols::known_addresses(s.visible).union_prefer_right(g.names),
        addresses: g.addresses.push(s.addresses),
    };
    if i == o {
        lemma_names_stay(objects, l, parts, i + 1, next, name);
    } else {
        assert(!definitions_of(objects[i as int], l, parts[i as int]).dom().contains(name));
        law_first_definition_counts(objects, l, parts, i + 1, next, o, name);
    }
}

/// A relocation changes no more than eight bytes, those at its place, and no lengths. The place
/// counts from the part of the object, except for the branches of AArch64, which are patched at
/// their offset in the object's section.
pub proof fn law_relocation_is_local(
    arch: TargetArch,
    vaddr: u64,
    offset: u64,
    syms: Seq<Option<u64>>,
    slots: Seq<Option<u64>>,
    rel: RelaEntry,
    st: RelaState,
    i: int,
)
    requires
        relocate::relocated_entry(arch, vaddr, offset, syms, slots, rel, st) is Ok,
    ensures
        ({
            let r = relocate::relocated_entry(arch, vaddr, offset, syms, slots, rel, st)->Ok_0;
            let branch = arch == TargetArch::AArch64 && (rel.r_type == R_AARCH64_CALL26
                || rel.r_type == R_AARCH64_JUMP26);
            let place = if branch {
                rel.r_offset
            } else {
                offset.wrapping_add(rel.r_offset)
            };
            &&& r.data.len() == st.data.len()
            &&& 0 <= i < st.data.len() && !(place <= i < place + 8) ==> r.data[i] == st.data[i]
        }),
{
    broadcast use bytes::group_le_len;
}

pub proof fn lemma_entries_len(
    arch: TargetArch,
    vaddr: u64,
    offset: u64,
    syms: Seq<Option<u64>>,
    slots: Seq<Option<u64>>,
    relas: Seq<RelaEntry>,
    i: nat,
    st: RelaState,
)
    ensures
        relocate::relocated_entries(arch, vaddr, offset, syms, slots, relas, i, st).0.data.len()
            == st.data.len(),
    decreases relas.len() - i,
{
    if i < relas.len() {
        let rel = relas[i as int];
        if let Ok(next) = relocate::relocated_entry(arch, vaddr, offset, syms, slots, rel, st) {
            law_relocation_is_local(arch, vaddr, offset, syms, slots, rel, st, 0);
            lemma_entries_len(arch, vaddr, offset, syms, slots, relas, i + 1, next);
        }
    }
}

pub proof fn lemma_sections_shape(
    arch: TargetArch,
    l: LayoutModel,
    upper: Map<u64, u64>,
    file: Seq<u8>,
    sections: Seq<SectionHeader>,
    names: Seq<Seq<char>>,
    syms: Seq<Option<u64>>,
    slots: Seq<Option<u64>>,
    offs: Map<Seq<char>, u64>,
    i: nat,
)
    requires
        link::names_in_range(l),
    ensures
        link::same_shape(
            l,
            relocate::relocated_sections(arch, l, upper, file, sections, names, syms, slots, offs,
                i).0,
        ),
    decreases sections.len() - i,
{
    if i < sections.len() {
        let sh = sections[i as int];
        let name = relocate::name_or_empty(names, sh.sh_info as int);
        if sh.sh_type != SHT_RELA || !l.by_name.dom().contains(name) {
            lemma_sections_shape(
                arch,
                l,
                upper,
                file,
                sections,
                names,
                syms,
                slots,
                offs,
                i + 1,
            );
        } else if let Ok(relas) = crate::elf::relas_of(file, sh) {
            let idx = l.by_name[name] as int;
            let st = RelaState { data: l.sections[idx].data, upper };
            let offset = relocate::offset_of(offs, name);
            lemma_entries_len(arch, l.sections[idx].vaddr, offset, syms, slots, relas, 0, st);
            let (done, error) = relocate::relocated_entries(
                arch,
                l.sections[idx].vaddr,
                offset,
                syms,
                slots,
                relas,
                0,
                st,
            );
            let next = link::with_data(l, idx, done.data);
            assert(link::same_shape(l, next));
            if error is None {
                lemma_sections_shape(
                    arch,
                    next,
                    done.upper,
                    file,
                    sections,
                    names,
                    syms,
                    slots,
                    offs,
                    i + 1,
                );
            }
        }
    }
}

/// Relocations change the bytes of sections and nothing else: no section is added, moved, renamed,
/// resized or lost.
pub proof fn law_relocations_keep_shape(
    arch: TargetArch,
    l: LayoutModel,
    file: Seq<u8>,
    sections: Seq<SectionHeader>,
    names: Seq<Seq<char>>,
    syms: Seq<Option<u64>>,
    slots: Seq<Option<u64>>,
    offs: Map<Seq<char>, u64>,
)
    requires
        link::names_in_range(l),
    ensures
        link::same_shape(
            l,
            relocate::relocated_layout(arch, l, file, sections, names, syms, slots, offs).0,
        ),
{
    lemma_sections_shape(
        arch,
        l,
        Map::empty(),
        file,
        sections,
        names,
        syms,
        slots,
        offs,
        0,
    );
}

/// Whether a section holds relocations for the section `s` of a layout, by its name.
pub open spec fn relocates(
    l: LayoutModel,
    names: Seq<Seq<char>>,
    sh: SectionHeader,
    s: int,
) -> bool {
    let name = relocate::name_or_empty(names, sh.sh_info as int);
    sh.sh_type == SHT_RELA && l.by_name.dom().contains(name) && l.by_name[name] == s
}

proof fn lemma_section_keeps_bytes(
    arch: TargetArch,
    l: LayoutModel,
    upper: Map<u64, u64>,
    file: Seq<u8>,
    sections: Seq<SectionHeader>,
    names: Seq<Seq<char>>,
    syms: Seq<Option<u64>>,
    slots: Seq<Option<u64>>,
    offs: Map<Seq<char>, u64>,
    i: nat,
    s: int,
)
    requires
        link::names_in_range(l),
        0 <= s < l.sections.len(),
        forall|j: int|
            i <= j < sections.len() ==> !relocates(l, names, #[trigger] sections[j], s),
    ensures
        relocate::relocated_sections(arch, l, upper, file, sections, names, syms, slots, offs,
            i).0.sections[s] == l.sections[s],
    decreases sections.len() - i,
{
    if i < sections.len() {
        let sh = sections[i as int];
        let name = relocate::name_or_empty(names, sh.sh_info as int);
        assert(!relocates(l, names, sections[i as int], s));
        if sh.sh_type != SHT_RELA || !l.by_name.dom().contains(name) {
            lemma_section_keeps_bytes(
                arch,
                l,
                upper,
                file,
                sections,
                names,
                syms,
                slots,
                offs,
                i + 1,
                s,
            );
        } else if let Ok(relas) = crate::elf::relas_of(file, sh) {
            let idx = l.by_name[name] as int;
            let (done, error) = relocate::relocated_entries(
                arch,
                l.sections[idx].vaddr,
                relocate::offset_of(offs, name),
                syms,
                slots,
                relas,
                0,
                RelaState { data: l.sections[idx].data, upper },
            );
            let next = link::with_data(l, idx, done.data);
            if error is None {
                assert forall|j: int| i + 1 <= j < sections.len() implies !relocates(
                    next,
                    names,
                    #[trigger] sections[j],
                    s,
                ) by {
                    assert(!relocates(l, names, sections[j], s));
                }
                lemma_section_keeps_bytes(
                    arch,
                    next,
                    done.upper,
                    file,
                    sections,
                    names,
                    syms,
                    slots,
                    offs,
                    i + 1,
                    s,
                );
            }
        }
    }
}

/// A section that no relocation section of the object refers to keeps its bytes, whether or not
/// the relocations are stopped.
pub proof fn law_unreferenced_section_keeps_bytes(
    arch: TargetArch,
    l: LayoutModel,
    file: Seq<u8>,
    sections: Seq<SectionHeader>,
    names: Seq<Seq<char>>,
    syms: Seq<Option<u64>>,
    slots: Seq<Option<u64>>,
    offs: Map<Seq<char>, u64>,
    s: int,
)
    requires
        link::names_in_range(l),
        0 <= s < l.sections.len(),
        forall|j: int|
            0 <= j < sections.len() ==> !relocates(l, names, #[trigger] sections[j], s),
    ensures
        relocate::relocated_layout(arch, l, file, sections, names, syms, slots, offs).0.sections[s]
            == l.sections[s],
{
    lemma_section_keeps_bytes(
        arch,
        l,
        Map::empty(),
        file,
        sections,
        names,
        syms,
        slots,
        offs,
        0,
        s,
    );
}

/// Whether a relocation needs an address that is not there: that of its symbol, or for a reference
/// through the global offset table that of the symbol's slot.
pub open spec fn lacks_address(
    arch: TargetArch,
    syms: Seq<Option<u64>>,
    slots: Seq<Option<u64>>,
    rel: RelaEntry,
) -> bool {
    let t = rel.r_type;
    let no_symbol = relocate::addr_at(syms, rel.r_sym) is None;
    match arch {
        TargetArch::X86_64 => {
            ||| (t == R_X86_64_64 || t == R_X86_64_32 || t == R_X86_64_PC32) && no_symbol
            ||| t == R_X86_64_GOTPCREL && relocate::addr_at(slots, rel.r_sym) is None
        },
        TargetArch::AArch64 => (t == R_AARCH64_ABS64 || t == R_AARCH64_ABS32
            || aarch64::patches_instruction(t)) && no_symbol,
        TargetArch::RiscV => riscv::refers_to_symbol(t) && no_symbol,
    }
}

proof fn lemma_entries_stop(
    arch: TargetArch,
    vaddr: u64,
    offset: u64,
    syms: Seq<Option<u64>>,
    slots: Seq<Option<u64>>,
    relas: Seq<RelaEntry>,
    i: nat,
    st: RelaState,
    k: int,
)
    requires
        i <= k < relas.len(),
        lacks_address(arch, syms, slots, relas[k]),
    ensures
        relocate::relocated_entries(arch, vaddr, offset, syms, slots, relas, i, st).1 is Some,
    decreases relas.len() - i,
{
    let rel = relas[i as int];
    if let Ok(next) = relocate::relocated_entry(arch, vaddr, offset, syms, slots, rel, st) {
        lemma_entries_stop(arch, vaddr, offset, syms, slots, relas, i + 1, next, k);
    }
}

/// Whether a relocation section that is applied to a layout cannot be applied in full: it cannot
/// be read, or one of its relocations needs an address that is not there.
pub open spec fn cannot_be_applied(
    arch: TargetArch,
    l: LayoutModel,
    file: Seq<u8>,
    sh: SectionHeader,
    names: Seq<Seq<char>>,
    syms: Seq<Option<u64>>,
    slots: Seq<Option<u64>>,
) -> bool {
    &&& sh.sh_type == SHT_RELA
    &&& l.by_name.dom().contains(relocate::name_or_empty(names, sh.sh_info as int))
    &&& match crate::elf::relas_of(file, sh) {
        Err(_) => true,
        Ok(relas) => exists|k: int|
            0 <= k < relas.len() && lacks_address(arch, syms, slots, #[trigger] relas[k]),
    }
}

proof fn lemma_sections_stop(
    arch: TargetArch,
    l: LayoutModel,
    upper: Map<u64, u64>,
    file: Seq<u8>,
    sections: Seq<SectionHeader>,
    names: Seq<Seq<char>>,
    syms: Seq<Option<u64>>,
    slots: Seq<Option<u64>>,
    offs: Map<Seq<char>, u64>,
    i: nat,
    j: int,
)
    requires
        i <= j < sections.len(),
        cannot_be_applied(arch, l, file, sections[j], names, syms, slots),
    ensures
        relocate::relocated_sections(arch, l, upper, file, sections, names, syms, slots, offs,
            i).1 is Some,
    decreases sections.len() - i,
{
    let sh = sections[i as int];
    let name = relocate::name_or_empty(names, sh.sh_info as int);
    if sh.sh_type != SHT_RELA || !l.by_name.dom().contains(name) {
        lemma_sections_stop(
            arch,
            l,
            upper,
            file,
            sections,
            names,
            syms,
            slots,
            offs,
            i + 1,
            j,
        );
    } else if let Ok(relas) = crate::elf::relas_of(file, sh) {
        let idx = l.by_name[name] as int;
        let vaddr = l.sections[idx].vaddr;
        let offset = relocate::offset_of(offs, name);
        let st = RelaState { data: l.sections[idx].data, upper };
        let (done, error) = relocate::relocated_entries(
            arch,
            vaddr,
            offset,
            syms,
            slots,
            relas,
            0,
            st,
        );
        if i == j {
            let k = choose|k: int|
                0 <= k < relas.len() && lacks_address(arch, syms, slots, #[trigger] relas[k]);
            lemma_entries_stop(arch, vaddr, offset, syms, slots, relas, 0, st, k);
        } else if error is None {
            lemma_sections_stop(
                arch,
                link::with_data(l, idx, done.data),
                done.upper,
                file,
                sections,
                names,
                syms,
                slots,
                offs,
                i + 1,
                j,
            );
        }
    }
}

/// Relocations are refused where one of those that are applied needs a symbol without an address,
/// and where a relocation section that is applied cannot be read.
pub proof fn law_missing_address_is_refused(
    arch: TargetArch,
    l: LayoutModel,
    file: Seq<u8>,
    sections: Seq<SectionHeader>,
    names: Seq<Seq<char>>,
    syms: Seq<Option<u64>>,
    slots: Seq<Option<u64>>,
    offs: Map<Seq<char>, u64>,
    j: int,
)
    requires
        0 <= j < sections.len(),
        cannot_be_applied(arch, l, file, sections[j], names, syms, slots),
    ensures
        relocate::relocated_layout(arch, l, file, sections, names, syms, slots, offs).1 is Some,
{
    lemma_sections_stop(
        arch,
        l,
        Map::empty(),
        file,
        sections,
        names,
        syms,
        slots,
        offs,
        0,
        j,
    );
}

/// Whether the symbol `k`, of the name `n`, has no address and its name no definition.
spec fn no_address(
    addresses: Seq<Option<u64>>,
    n: Seq<char>,
    k: int,
    names: Map<Seq<char>, u64>,
) -> bool {
    addresses[k] is None && n.len() != 0 && !names.dom().contains(n)
}

/// The name of the symbol `k` of an object.
pub open spec fn name_at(obj: ParsedModel, k: int) -> Seq<char> {
    elf_symbols::symbol_names(obj.data, obj.elf.sections)->Ok_0[k]
}

/// Whether the symbol `k` of an object has a name, but no address, and no object defines its name.
pub open spec fn needs_import(
    obj: ParsedModel,
    addresses: Seq<Option<u64>>,
    names: Map<Seq<char>, u64>,
    k: int,
) -> bool {
    &&& 0 <= k < addresses.len()
    &&& k < elf_symbols::symbol_names(obj.data, obj.elf.sections)->Ok_0.len()
    &&& addresses[k] is None
    &&& name_at(obj, k).len() != 0
    &&& !names.dom().contains(name_at(obj, k))
}

proof fn lemma_undefined_from(
    addresses: Seq<Option<u64>>,
    symbols: Seq<Seq<char>>,
    names: Map<Seq<char>, u64>,
    i: nat,
    found: Seq<Seq<char>>,
)
    requires
        found.no_duplicates(),
        forall|k: int| 0 <= k < found.len() ==> !names.dom().contains(#[trigger] found[k]),
    ensures
        ({
            let r = elf_link::undefined_from(addresses, symbols, names, i, found);
            &&& r.no_duplicates()
            &&& forall|n: Seq<char>| found.contains(n) ==> #[trigger] r.contains(n)
            &&& forall|k: int|
                i <= k < addresses.len() && k < symbols.len() ==> no_address(
                    addresses,
                    #[trigger] symbols[k],
                    k,
                    names,
                ) ==> r.contains(symbols[k])
            &&& forall|k: int| 0 <= k < r.len() ==> !names.dom().contains(#[trigger] r[k])
        }),
    decreases addresses.len() - i,
{
    if i < addresses.len() {
        let next = if addresses[i as int] is None && i < symbols.len() && symbols[i as int].len()
            != 0 && !names.dom().contains(symbols[i as int]) {
            names::law_add_name(found, symbols[i as int], symbols[i as int]);
            names::add_name(found, symbols[i as int])
        } else {
            found
        };
        lemma_undefined_from(addresses, symbols, names, i + 1, next);
    }
}

proof fn lemma_undefined_in_objects(
    objects: Seq<ParsedModel>,
    addresses: Seq<Seq<Option<u64>>>,
    names: Map<Seq<char>, u64>,
    o: nat,
    found: Seq<Seq<char>>,
)
    requires
        found.no_duplicates(),
        forall|k: int| 0 <= k < found.len() ==> !names.dom().contains(#[trigger] found[k]),
        elf_link::undefined_in_objects(objects, addresses, names, o, found) is Ok,
    ensures
        ({
            let r = elf_link::undefined_in_objects(objects, addresses, names, o, found)->Ok_0;
            &&& r.no_duplicates()
            &&& forall|n: Seq<char>| found.contains(n) ==> #[trigger] r.contains(n)
            &&& forall|q: int, k: int|
                o <= q < objects.len() ==> needs_import(
                    objects[q],
                    #[trigger] addresses[q],
                    names,
                    k,
                ) ==> r.contains(#[trigger] name_at(objects[q], k))
            &&& forall|k: int| 0 <= k < r.len() ==> !names.dom().contains(#[trigger] r[k])
        }),
    decreases objects.len() - o,
{
    if o < objects.len() {
        let obj = objects[o as int];
        let symbols = elf_symbols::symbol_names(obj.data, obj.elf.sections)->Ok_0;
        lemma_undefined_from(addresses[o as int], symbols, names, 0, found);
        lemma_undefined_in_objects(
            objects,
            addresses,
            names,
            o + 1,
            elf_link::undefined_from(addresses[o as int], symbols, names, 0, found),
        );
    }
}

proof fn lemma_plt_names(
    names: Map<Seq<char>, u64>,
    undefined: Seq<Seq<char>>,
    plt: u64,
    i: nat,
)
    requires
        undefined.no_duplicates(),
    ensures
        ({
            let r = elf_link::plt_names(names, undefined, plt, i);
            &&& forall|n: Seq<char>|
                !undefined.contains(n) ==> (#[trigger] r.dom().contains(n))
                    == names.dom().contains(n)
                    && r[n] == names[n]
            &&& forall|k: int|
                0 <= k < i && k < undefined.len() ==> r.dom().contains(#[trigger] undefined[k])
                    == names.dom().contains(undefined[k]) && r[undefined[k]] == names[undefined[k]]
            &&& forall|k: int|
                i <= k < undefined.len() ==> r.dom().contains(#[trigger] undefined[k])
                    && r[undefined[k]] == (plt + 16 + k * 16) as u64
        }),
    decreases undefined.len() - i,
{
    if i < undefined.len() {
        let next = names.insert(undefined[i as int], (plt + 16 + i * 16) as u64);
        lemma_plt_names(next, undefined, plt, i + 1);
        assert(undefined.contains(undefined[i as int]));
    }
}

/// The sections that the dynamic linker reads stand behind all others, in a fixed order, and hold
/// the entries, slots, symbols, strings, relocations and hash table of the imported names. The
/// relocations and the entries count on the address at which the slots do stand, and the dynamic
/// table on those of the sections that it points to.
pub proof fn law_dynamic_sections_are_appended(l: LayoutModel, names: Seq<Seq<char>>)
    requires
        elf_link::with_dynamic_sections(l, names) is Ok,
    ensures
        ({
            let r = elf_link::with_dynamic_sections(l, names)->Ok_0;
            let n = names.len();
            let first = l.sections.len() as int;
            let plt = r.sections[first];
            let got = r.sections[first + 1];
            let symbols = r.sections[first + 2];
            let strings = r.sections[first + 3];
            let relocations = r.sections[first + 4];
            let hash = r.sections[first + 5];
            let table = r.sections[first + 6];
            &&& r.sections.len() == first + 7
            &&& forall|i: int| 0 <= i < first ==> #[trigger] r.sections[i] == l.sections[i]
            &&& plt.name == ".plt"@ && plt.data == dynamic::plt_bytes(plt.vaddr, got.vaddr, n)
            &&& got.name == ".got.plt"@ && got.data == bytes::zeros((24 + n * 8) as int)
            &&& symbols.name == ".dynsym"@ && symbols.data == dynamic::dynsym_bytes(names, n)
            &&& strings.name == ".dynstr"@ && strings.data == dynamic::dynstr_bytes(names, n)
            &&& relocations.name == ".rela.plt"@ && relocations.data == dynamic::rela_plt_bytes(
                got.vaddr,
                n,
            )
            &&& hash.name == ".hash"@ && hash.data == dynamic::hash_bytes(names)
            &&& table.name == ".dynamic"@ && table.data == dynamic::dynamic_table(
                DynamicPlaces {
                    got: got.vaddr,
                    dynsym: symbols.vaddr,
                    dynstr: strings.vaddr,
                    dynstr_size: strings.data.len() as u64,
                    rela_plt: relocations.vaddr,
                    rela_plt_size: relocations.data.len() as u64,
                    hash: hash.vaddr,
                },
            )
        }),
{
    dynamic::lemma_plt_len(elf_link::plt_addr(l),
        elf_link::got_plt_addr(elf_link::plt_addr(l), names.len()), names.len());
}

/// An import is made for each name that is used and that no object defines, and for no other,
/// once: its address is that of its entry in the procedure linkage table. Every defined name keeps
/// its address.
pub proof fn law_imports_have_entries(
    objects: Seq<ParsedModel>,
    l: LayoutModel,
    g: GlobalTable,
    arch: TargetArch,
    libs: Option<Seq<RequestModel>>,
    platform: TargetPlatform,
)
    requires
        elf_link::with_imports(objects, l, g, arch, libs, platform) is Ok,
        elf_link::with_imports(objects, l, g, arch, libs, platform)->Ok_0.dynamic is Some,
    ensures
        ({
            let k = elf_link::with_imports(objects, l, g, arch, libs, platform)->Ok_0;
            let imports = k.dynamic->0.plt_symbols;
            let plt = k.layout.sections[l.sections.len() as int];
            &&& imports.no_duplicates()
            &&& plt.name == ".plt"@
            &&& forall|o: int, i: int|
                0 <= o < objects.len() ==> needs_import(
                    objects[o],
                    #[trigger] g.addresses[o],
                    g.names,
                    i,
                ) ==> imports.contains(#[trigger] name_at(objects[o], i))
            &&& forall|i: int|
                0 <= i < imports.len() ==> !g.names.dom().contains(#[trigger] imports[i])
                    && k.names.dom().contains(imports[i]) && k.names[imports[i]] == plt.vaddr + 16
                    + 16 * i
            &&& forall|n: Seq<char>| #[trigger]
                g.names.dom().contains(n) ==> k.names.dom().contains(n) && k.names[n] == g.names[n]
        }),
{
    let none: Seq<Seq<char>> = seq![];
    lemma_undefined_in_objects(objects, g.addresses, g.names, 0, none);
    let undefined = elf_link::undefined_in_objects(objects, g.addresses, g.names, 0, none)->Ok_0;
    lemma_plt_names(g.names, undefined, elf_link::plt_addr(l), 0);
    let k = elf_link::with_imports(objects, l, g, arch, libs, platform)->Ok_0;
    let r = elf_link::plt_names(g.names, undefined, elf_link::plt_addr(l), 0);
    assert(k.names == r);
    assert forall|n: Seq<char>| #[trigger] g.names.dom().contains(n) implies k.names.dom().contains(
        n,
    ) && k.names[n] == g.names[n] by {
        if undefined.contains(n) {
            let i = undefined.index_of(n);
            assert(undefined[i] == n);
        }
        assert(r.dom().contains(n) == g.names.dom().contains(n));
    }
}

proof fn lemma_linked_resolves(
    objects: Seq<ParsedModel>,
    libs: Option<Seq<RequestModel>>,
    platform: TargetPlatform,
)
    requires
        elf_link::elf_link_parsed(objects, libs, platform) is Ok,
        objects.len() > 1 || libs is Some,
    ensures
        ({
            let m = elf_link::elf_link_parsed(objects, libs, platform)->Ok_0;
            let (l, parts) = elf_merge::elf_multi_layout(elf_link::object_contents(objects))->Ok_0;
            let arch = arch::arch_of_machine(objects[0].elf.header.e_machine)->0;
            let first = GlobalTable { names: Map::empty(), addresses: seq![] };
            let g = elf_link::resolve_objects(objects, l, parts, 0, first);
            let k = elf_link::with_imports(objects, l, g->Ok_0, arch, libs, platform);
            &&& g is Ok
            &&& k is Ok
            &&& m.symbol_addrs == k->Ok_0.names
        }),
{
}

proof fn lemma_linked_name(
    objects: Seq<ParsedModel>,
    libs: Option<Seq<RequestModel>>,
    platform: TargetPlatform,
    o: int,
    name: Seq<char>,
)
    requires
        elf_link::elf_link_parsed(objects, libs, platform) is Ok,
        objects.len() > 1 || libs is Some,
        0 <= o < objects.len(),
        ({
            let (l, parts) = elf_merge::elf_multi_layout(elf_link::object_contents(objects))->Ok_0;
            &&& definitions_of(objects[o], l, parts[o]).dom().contains(name)
            &&& forall|q: int|
                0 <= q < o ==> !definitions_of(#[trigger] objects[q], l, parts[q]).dom().contains(
                    name,
                )
        }),
    ensures
        ({
            let m = elf_link::elf_link_parsed(objects, libs, platform)->Ok_0;
            let (l, parts) = elf_merge::elf_multi_layout(elf_link::object_contents(objects))->Ok_0;
            &&& m.symbol_addrs.dom().contains(name)
            &&& m.symbol_addrs[name] == definitions_of(objects[o], l, parts[o])[name]
        }),
{
    let (l, parts) = elf_merge::elf_multi_layout(elf_link::object_contents(objects))->Ok_0;
    lemma_linked_resolves(objects, libs, platform);
    let arch = arch::arch_of_machine(objects[0].elf.header.e_machine)->0;
    let first = GlobalTable { names: Map::empty(), addresses: seq![] };
    law_first_definition_counts(objects, l, parts, 0, first, o, name);
    let g = elf_link::resolve_objects(objects, l, parts, 0, first)->Ok_0;
    let k = elf_link::with_imports(objects, l, g, arch, libs, platform)->Ok_0;
    if k.dynamic is Some {
        law_imports_have_entries(objects, l, g, arch, libs, platform);
        assert(g.names.dom().contains(name));
    }
}

/// The symbols of an object and their string table; none where it has no symbol table.
pub open spec fn symbol_table(obj: ParsedModel) -> (Seq<Symbol>, Seq<u8>) {
    match elf_symbols::symtab_of(obj.data, obj.elf.sections) {
        Ok(Some(t)) => t,
        _ => (seq![], seq![]),
    }
}

/// Whether the symbol `i` of an object has the name.
pub open spec fn is_named(obj: ParsedModel, i: int, name: Seq<char>) -> bool {
    let (symbols, strtab) = symbol_table(obj);
    0 <= i < symbols.len() && elf_symbols::elf_symbol_name(strtab, symbols[i]) == name
}

/// Whether the symbol `i` of an object has the name, and other objects can see it.
pub open spec fn is_visible(obj: ParsedModel, i: int, name: Seq<char>) -> bool {
    is_named(obj, i, name) && symbol_table(obj).0[i].bind != STB_LOCAL
}

/// The name of the section that a symbol of an object stands in.
pub open spec fn section_of(obj: ParsedModel, sym: Symbol) -> Seq<char> {
    relocate::name_or_empty(obj.elf.names, sym.st_shndx as int)
}

/// Whether a symbol of an object is defined in a section that has been merged.
pub open spec fn in_merged_section(obj: ParsedModel, l: LayoutModel, sym: Symbol) -> bool {
    &&& sym.st_shndx != SHN_UNDEF
    &&& sym.st_shndx != SHN_ABS
    &&& l.by_name.dom().contains(section_of(obj, sym))
}

/// Where a symbol of an object stands: at its value in the object's part of the merged section.
pub open spec fn symbol_place(
    obj: ParsedModel,
    l: LayoutModel,
    parts: Map<Seq<char>, ObjectSectionContrib>,
    sym: Symbol,
) -> int {
    let n = section_of(obj, sym);
    l.sections[l.by_name[n] as int].vaddr + parts[n].offset_in_merged + sym.st_value
}

/// What the symbols of an object with the given parts resolve to.
spec fn own_symbols(
    obj: ParsedModel,
    l: LayoutModel,
    parts: Map<Seq<char>, ObjectSectionContrib>,
) -> Result<ResolvedModel, Seq<char>> {
    elf_symbols::resolved_symbols(
        obj.data,
        l,
        obj.elf.sections,
        obj.elf.names,
        elf_link::part_offsets(parts),
    )
}

proof fn lemma_last_visible(
    symbols: Seq<Symbol>,
    strtab: Seq<u8>,
    l: LayoutModel,
    names: Seq<Seq<char>>,
    offs: Map<Seq<char>, u64>,
    n: nat,
    i: int,
    name: Seq<char>,
)
    requires
        0 <= i < n <= symbols.len(),
        name.len() != 0,
        symbols[i].bind != STB_LOCAL,
        elf_symbols::elf_symbol_name(strtab, symbols[i]) == name,
        forall|j: int|
            i < j < n && elf_symbols::elf_symbol_name(strtab, symbols[j]) == name ==> (
            #[trigger] symbols[j]).bind == STB_LOCAL,
    ensures
        ({
            let v = elf_symbols::visible_symbols(symbols, strtab, l, names, offs, n);
            v.dom().contains(name) && v[name] == elf_symbols::resolved_symbol(
                symbols[i],
                l,
                names,
                offs,
            )
        }),
    decreases n,
{
    if i < n - 1 {
        lemma_last_visible(symbols, strtab, l, names, offs, (n - 1) as nat, i, name);
        assert(symbols[n - 1].bind == STB_LOCAL || elf_symbols::elf_symbol_name(
            strtab,
            symbols[n - 1],
        ) != name);
    }
}

proof fn lemma_definition(
    obj: ParsedModel,
    l: LayoutModel,
    parts: Map<Seq<char>, ObjectSectionContrib>,
    i: int,
    name: Seq<char>,
)
    requires
        own_symbols(obj, l, parts) is Ok,
        name.len() != 0,
        is_visible(obj, i, name),
        forall|j: int| i < j ==> !is_visible(obj, j, name),
        ({
            let sym = symbol_table(obj).0[i];
            sym.st_shndx == SHN_ABS || in_merged_section(obj, l, sym) && parts.dom().contains(
                section_of(obj, sym),
            )
        }),
    ensures
        ({
            let sym = symbol_table(obj).0[i];
            let d = definitions_of(obj, l, parts);
            &&& d.dom().contains(name)
            &&& d[name] == if sym.st_shndx == SHN_ABS {
                sym.st_value as int
            } else {
                symbol_place(obj, l, parts, sym) % 0x1_0000_0000_0000_0000
            }
        }),
{
    let offs = elf_link::part_offsets(parts);
    let (symbols, strtab) = symbol_table(obj);
    assert forall|j: int|
        i < j < symbols.len() && elf_symbols::elf_symbol_name(strtab, symbols[j]) == name implies (
    #[trigger] symbols[j]).bind == STB_LOCAL by {
        assert(!is_visible(obj, j, name));
    }
    lemma_last_visible(symbols, strtab, l, obj.elf.names, offs, symbols.len(), i, name);
}

/// In what was linked, libraries or not, a name stands for the symbol `i` of the object `o`, the
/// first object that defines it, and there the last symbol of that name which others can see. Its
/// address is that of the merged section, the offset of the object's part in it and the symbol's
/// value, added modulo 2^64; an absolute symbol has its value for an address.
pub proof fn law_linked_name_is_first_definition(
    objects: Seq<ParsedModel>,
    libs: Option<Seq<RequestModel>>,
    platform: TargetPlatform,
    o: int,
    i: int,
    name: Seq<char>,
)
    requires
        elf_link::elf_link_parsed(objects, libs, platform) is Ok,
        objects.len() > 1 || libs is Some,
        0 <= o < objects.len(),
        name.len() != 0,
        is_visible(objects[o], i, name),
        forall|j: int| i < j ==> !is_visible(objects[o], j, name),
        ({
            let (l, parts) = elf_merge::elf_multi_layout(elf_link::object_contents(objects))->Ok_0;
            let sym = symbol_table(objects[o]).0[i];
            &&& sym.st_shndx == SHN_ABS || in_merged_section(objects[o], l, sym)
                && parts[o].dom().contains(section_of(objects[o], sym))
            &&& forall|q: int|
                0 <= q < o ==> !definitions_of(#[trigger] objects[q], l, parts[q]).dom().contains(
                    name,
                )
        }),
    ensures
        ({
            let m = elf_link::elf_link_parsed(objects, libs, platform)->Ok_0;
            let (l, parts) = elf_merge::elf_multi_layout(elf_link::object_contents(objects))->Ok_0;
            let sym = symbol_table(objects[o]).0[i];
            &&& m.symbol_addrs.dom().contains(name)
            &&& m.symbol_addrs[name] == if sym.st_shndx == SHN_ABS {
                sym.st_value as int
            } else {
                symbol_place(objects[o], l, parts[o], sym) % 0x1_0000_0000_0000_0000
            }
        }),
{
    let (l, parts) = elf_merge::elf_multi_layout(elf_link::object_contents(objects))->Ok_0;
    let first = GlobalTable { names: Map::empty(), addresses: seq![] };
    lemma_linked_resolves(objects, libs, platform);
    lemma_object_addresses(objects, l, parts, 0, first, o);
    lemma_definition(objects[o], l, parts[o], i, name);
    lemma_linked_name(objects, libs, platform, o, name);
}

proof fn lemma_object_addresses(
    objects: Seq<ParsedModel>,
    l: LayoutModel,
    parts: Seq<Map<Seq<char>, ObjectSectionContrib>>,
    i: nat,
    g: GlobalTable,
    q: int,
)
    requires
        elf_link::resolve_objects(objects, l, parts, i, g) is Ok,
        g.addresses.len() == i,
        0 <= q < objects.len(),
    ensures
        q < i ==> elf_link::resolve_objects(objects, l, parts, i, g)->Ok_0.addresses[q]
            == g.addresses[q],
        q >= i ==> own_symbols(objects[q], l, parts[q]) is Ok,
        q >= i ==> elf_link::resolve_objects(objects, l, parts, i, g)->Ok_0.addresses[q]
            == own_symbols(objects[q], l, parts[q])->Ok_0.addresses,
    decreases objects.len() - i,
{
    if i < objects.len() {
        let s = own_symbols(objects[i as int], l, parts[i as int])->Ok_0;
        let next = GlobalTable {
            names: elf_symbols::known_addresses(s.visible).union_prefer_right(g.names),
            addresses: g.addresses.push(s.addresses),
        };
        lemma_object_addresses(objects, l, parts, i + 1, next, q);
    }
}

proof fn lemma_no_definition(
    objects: Seq<ParsedModel>,
    l: LayoutModel,
    parts: Seq<Map<Seq<char>, ObjectSectionContrib>>,
    i: nat,
    g: GlobalTable,
    name: Seq<char>,
)
    requires
        elf_link::resolve_objects(objects, l, parts, i, g) is Ok,
        !g.names.dom().contains(name),
        forall|q: int|
            i <= q < objects.len() ==> !definitions_of(
                #[trigger] objects[q],
                l,
                parts[q],
            ).dom().contains(name),
    ensures
        !elf_link::resolve_objects(objects, l, parts, i, g)->Ok_0.names.dom().contains(name),
    decreases objects.len() - i,
{
    if i < objects.len() {
        let s = own_symbols(objects[i as int], l, parts[i as int])->Ok_0;
        let next = GlobalTable {
            names: elf_symbols::known_addresses(s.visible).union_prefer_right(g.names),
            addresses: g.addresses.push(s.addresses),
        };
        assert(!definitions_of(objects[i as int], l, parts[i as int]).dom().contains(name));
        lemma_no_definition(objects, l, parts, i + 1, next, name);
    }
}

proof fn lemma_not_undefined_from(
    addresses: Seq<Option<u64>>,
    symbols: Seq<Seq<char>>,
    names: Map<Seq<char>, u64>,
    i: nat,
    found: Seq<Seq<char>>,
    name: Seq<char>,
)
    requires
        !found.contains(name),
        forall|k: int|
            0 <= k < addresses.len() && k < symbols.len() && (#[trigger] symbols[k]) == name
                ==> addresses[k] is Some,
    ensures
        !elf_link::undefined_from(addresses, symbols, names, i, found).contains(name),
    decreases addresses.len() - i,
{
    if i < addresses.len() {
        let next = if addresses[i as int] is None && i < symbols.len() && symbols[i as int].len()
            != 0 && !names.dom().contains(symbols[i as int]) {
            names::law_add_name(found, symbols[i as int], name);
            names::add_name(found, symbols[i as int])
        } else {
            found
        };
        lemma_not_undefined_from(addresses, symbols, names, i + 1, next, name);
    }
}

proof fn lemma_not_undefined_in_objects(
    objects: Seq<ParsedModel>,
    addresses: Seq<Seq<Option<u64>>>,
    names: Map<Seq<char>, u64>,
    o: nat,
    found: Seq<Seq<char>>,
    name: Seq<char>,
)
    requires
        !found.contains(name),
        elf_link::undefined_in_objects(objects, addresses, names, o, found) is Ok,
        forall|q: int, k: int|
            o <= q < objects.len() && 0 <= k < addresses[q].len() && #[trigger] is_named(
                objects[q],
                k,
                name,
            ) ==> addresses[q][k] is Some,
    ensures
        !elf_link::undefined_in_objects(objects, addresses, names, o, found)->Ok_0.contains(name),
    decreases objects.len() - o,
{
    if o < objects.len() {
        let obj = objects[o as int];
        let symbols = elf_symbols::symbol_names(obj.data, obj.elf.sections)->Ok_0;
        assert forall|k: int|
            0 <= k < addresses[o as int].len() && k < symbols.len() && (#[trigger] symbols[k])
                == name implies addresses[o as int][k] is Some by {
            assert(is_named(objects[o as int], k, name));
        }
        lemma_not_undefined_from(addresses[o as int], symbols, names, 0, found, name);
        lemma_not_undefined_in_objects(
            objects,
            addresses,
            names,
            o + 1,
            elf_link::undefined_from(addresses[o as int], symbols, names, 0, found),
            name,
        );
    }
}

/// A name that is only ever that of local symbols which are defined is not among the names of
/// what was linked: it is neither offered to other objects nor imported.
pub proof fn law_local_names_are_not_linked(
    objects: Seq<ParsedModel>,
    libs: Option<Seq<RequestModel>>,
    platform: TargetPlatform,
    name: Seq<char>,
)
    requires
        elf_link::elf_link_parsed(objects, libs, platform) is Ok,
        objects.len() > 1 || libs is Some,
        ({
            let (l, parts) = elf_merge::elf_multi_layout(elf_link::object_contents(objects))->Ok_0;
            forall|o: int, i: int|
                0 <= o < objects.len() && #[trigger] is_named(objects[o], i, name) ==> {
                    let sym = symbol_table(objects[o]).0[i];
                    &&& sym.bind == STB_LOCAL
                    &&& sym.st_shndx == SHN_ABS || in_merged_section(objects[o], l, sym)
                }
        }),
    ensures
        !elf_link::elf_link_parsed(objects, libs, platform)->Ok_0.symbol_addrs.dom().contains(name),
{
    let (l, parts) = elf_merge::elf_multi_layout(elf_link::object_contents(objects))->Ok_0;
    lemma_linked_resolves(objects, libs, platform);
    let arch = arch::arch_of_machine(objects[0].elf.header.e_machine)->0;
    let first = GlobalTable { names: Map::empty(), addresses: seq![] };
    let g = elf_link::resolve_objects(objects, l, parts, 0, first)->Ok_0;
    let k = elf_link::with_imports(objects, l, g, arch, libs, platform)->Ok_0;
    assert forall|q: int| 0 <= q < objects.len() implies !definitions_of(
        #[trigger] objects[q],
        l,
        parts[q],
    ).dom().contains(name) by {
        let obj = objects[q];
        let (symbols, strtab) = symbol_table(obj);
        let offs = elf_link::part_offsets(parts[q]);
        if definitions_of(obj, l, parts[q]).dom().contains(name) {
            law_local_names_are_private(
                symbols,
                strtab,
                l,
                obj.elf.names,
                offs,
                symbols.len(),
                name,
            );
            let i = choose|i: int|
                0 <= i < symbols.len() && (#[trigger] symbols[i]).bind != STB_LOCAL
                    && elf_symbols::elf_symbol_name(strtab, symbols[i]) == name
                    && elf_symbols::visible_symbols(symbols, strtab, l, obj.elf.names, offs,
                    symbols.len())[name]
                    == elf_symbols::resolved_symbol(symbols[i], l, obj.elf.names, offs);
            assert(is_named(objects[q], i, name));
        }
    }
    lemma_no_definition(objects, l, parts, 0, first, name);
    if k.dynamic is Some {
        let none: Seq<Seq<char>> = seq![];
        let undefined = elf_link::undefined_in_objects(
            objects,
            g.addresses,
            g.names,
            0,
            none,
        )->Ok_0;
        assert forall|q: int, i: int|
            0 <= q < objects.len() && 0 <= i < g.addresses[q].len() && #[trigger] is_named(
                objects[q],
                i,
                name,
            ) implies g.addresses[q][i] is Some by {
            lemma_object_addresses(objects, l, parts, 0, first, q);
        }
        lemma_undefined_in_objects(objects, g.addresses, g.names, 0, none);
        lemma_not_undefined_in_objects(objects, g.addresses, g.names, 0, none, name);
        lemma_plt_names(g.names, undefined, elf_link::plt_addr(l), 0);
        assert(k.names.dom().contains(name) == g.names.dom().contains(name));
    }
}

/// In a single object that was linked without libraries, a name stands for the last symbol of that
/// name which others can see, `i`. Its address is that of its section and its value, added modulo
/// 2^64; an absolute symbol has its value for an address.
pub proof fn law_single_object_names_stand_in_sections(data: Seq<u8>, i: int, name: Seq<char>)
    requires
        elf_link::elf_single_link(data) is Ok,
        name.len() != 0,
        ({
            let obj = ParsedModel { data, elf: crate::elf::elf_of(data)->Ok_0 };
            let l = elf_merge::elf_single_layout(data)->Ok_0;
            let sym = symbol_table(obj).0[i];
            &&& is_visible(obj, i, name)
            &&& forall|j: int| i < j ==> !is_visible(obj, j, name)
            &&& sym.st_shndx == SHN_ABS || in_merged_section(obj, l, sym)
        }),
    ensures
        ({
            let m = elf_link::elf_single_link(data)->Ok_0;
            let obj = ParsedModel { data, elf: crate::elf::elf_of(data)->Ok_0 };
            let l = elf_merge::elf_single_layout(data)->Ok_0;
            let sym = symbol_table(obj).0[i];
            let n = section_of(obj, sym);
            &&& m.symbol_addrs.dom().contains(name)
            &&& m.symbol_addrs[name] == if sym.st_shndx == SHN_ABS {
                sym.st_value as int
            } else {
                (l.sections[l.by_name[n] as int].vaddr + sym.st_value) % 0x1_0000_0000_0000_0000
            }
        }),
{
    let obj = ParsedModel { data, elf: crate::elf::elf_of(data)->Ok_0 };
    let l = elf_merge::elf_single_layout(data)->Ok_0;
    let (symbols, strtab) = symbol_table(obj);
    assert forall|j: int|
        i < j < symbols.len() && elf_symbols::elf_symbol_name(strtab, symbols[j]) == name implies (
    #[trigger] symbols[j]).bind == STB_LOCAL by {
        assert(!is_visible(obj, j, name));
    }
    lemma_last_visible(symbols, strtab, l, obj.elf.names, Map::empty(), symbols.len(), i, name);
}

/// In a single object that was linked without libraries, a name that is only that of local symbols
/// stands for nothing.
pub proof fn law_single_object_keeps_local_names(data: Seq<u8>, name: Seq<char>)
    requires
        elf_link::elf_single_link(data) is Ok,
        ({
            let obj = ParsedModel { data, elf: crate::elf::elf_of(data)->Ok_0 };
            forall|i: int| !is_visible(obj, i, name)
        }),
    ensures
        !elf_link::elf_single_link(data)->Ok_0.symbol_addrs.dom().contains(name),
{
    let obj = ParsedModel { data, elf: crate::elf::elf_of(data)->Ok_0 };
    let l = elf_merge::elf_single_layout(data)->Ok_0;
    let (symbols, strtab) = symbol_table(obj);
    let n = symbols.len();
    let none: Map<Seq<char>, u64> = Map::empty();
    let visible = elf_symbols::visible_symbols(symbols, strtab, l, obj.elf.names, none, n);
    if visible.dom().contains(name) {
        law_local_names_are_private(symbols, strtab, l, obj.elf.names, none, n, name);
        let i = choose|i: int|
            0 <= i < n && (#[trigger] symbols[i]).bind != STB_LOCAL
                && elf_symbols::elf_symbol_name(strtab, symbols[i]) == name && visible[name]
                == elf_symbols::resolved_symbol(symbols[i], l, obj.elf.names, none);
        assert(is_visible(obj, i, name));
    }
}

proof fn lemma_placed_in_range(p: PoolModel, names: Seq<Seq<char>>, i: nat, st: Placing)
    requires
        elf_merge::place_pool(p, names, i, st) is Some,
        elf_merge::place_pool(p, names, i, st)->0.layout.sections.len() <= usize::MAX,
    ensures
        st.layout.sections.len() <= elf_merge::place_pool(p, names, i, st)->0.layout.sections.len(),
        link::names_in_range(st.layout) ==> link::names_in_range(
            elf_merge::place_pool(p, names, i, st)->0.layout,
        ),
    decreases names.len() - i,
{
    if i < names.len() {
        let name = names[i as int];
        if elf_merge::pool_size(p, name) == 0 {
            lemma_placed_in_range(p, names, i + 1, st);
        } else {
            let s = p.sections[p.by_name[name] as int];
            let vaddr = segment::aligned(st.vaddr, s.align);
            let next = Placing {
                layout: link::with_section(
                    st.layout,
                    MergedModel { name, data: s.data, vaddr, flags: s.flags, align: s.align },
                ),
                vaddr: (vaddr + s.size) as u64,
            };
            lemma_placed_in_range(p, names, i + 1, next);
        }
    }
}

proof fn lemma_merged_in_range(datas: Seq<Seq<u8>>)
    requires
        elf_merge::elf_multi_layout(datas) is Ok,
        elf_merge::elf_multi_layout(datas)->Ok_0.0.sections.len() <= usize::MAX,
    ensures
        link::names_in_range(elf_merge::elf_multi_layout(datas)->Ok_0.0),
{
    let first = crate::elf::elf_of(datas[0])->Ok_0;
    let (pool, parts) = elf_merge::gather_elf_from(
        datas,
        first.header.e_machine,
        0,
        elf_merge::empty_pool(),
        seq![],
    )->Ok_0;
    let none = Placing { layout: link::no_sections(), vaddr: ELF_BASE };
    let known = elf_merge::place_pool(pool, elf_merge::elf_known_names(), 0, none)->0;
    let others = order::sort_names(elf_merge::elf_other_names(pool, pool.sections.len()));
    lemma_placed_in_range(pool, others, 0, known);
    lemma_placed_in_range(pool, elf_merge::elf_known_names(), 0, none);
}

/// Whether a name is that of a section which the linker makes itself.
pub open spec fn is_own_name(n: Seq<char>) -> bool {
    ||| n == ".plt"@
    ||| n == ".got.plt"@
    ||| n == ".dynsym"@
    ||| n == ".dynstr"@
    ||| n == ".rela.plt"@
    ||| n == ".hash"@
    ||| n == ".dynamic"@
    ||| n == ".got"@
}

/// The section of a layout that a name stands for.
pub open spec fn section_named(l: LayoutModel, n: Seq<char>) -> MergedModel {
    l.sections[l.by_name[n] as int]
}

proof fn lemma_own_names()
    ensures
        ".plt"@ != ".got.plt"@ && ".plt"@ != ".dynsym"@ && ".plt"@ != ".dynstr"@ && ".plt"@
            != ".rela.plt"@ && ".plt"@ != ".hash"@ && ".plt"@ != ".dynamic"@ && ".plt"@ != ".got"@,
        ".got.plt"@ != ".dynsym"@ && ".got.plt"@ != ".dynstr"@ && ".got.plt"@ != ".rela.plt"@
            && ".got.plt"@ != ".hash"@ && ".got.plt"@ != ".dynamic"@ && ".got.plt"@ != ".got"@,
        ".dynsym"@ != ".dynstr"@ && ".dynsym"@ != ".rela.plt"@ && ".dynsym"@ != ".hash"@
            && ".dynsym"@ != ".dynamic"@ && ".dynsym"@ != ".got"@,
        ".dynstr"@ != ".rela.plt"@ && ".dynstr"@ != ".hash"@ && ".dynstr"@ != ".dynamic"@
            && ".dynstr"@ != ".got"@,
        ".rela.plt"@ != ".hash"@ && ".rela.plt"@ != ".dynamic"@ && ".rela.plt"@ != ".got"@,
        ".hash"@ != ".dynamic"@ && ".hash"@ != ".got"@ && ".dynamic"@ != ".got"@,
{
    reveal_strlit(".plt");
    reveal_strlit(".got.plt");
    reveal_strlit(".dynsym");
    reveal_strlit(".dynstr");
    reveal_strlit(".rela.plt");
    reveal_strlit(".hash");
    reveal_strlit(".dynamic");
    reveal_strlit(".got");
    assert(".plt"@[1] == 'p' && ".hash"@[1] == 'h' && ".dynamic"@[1] == 'd' && ".got"@[1] == 'g');
    assert(".got.plt"@[1] == 'g' && ".dynsym"@[4] == 's' && ".dynstr"@[4] == 's');
    assert(".got.plt"@.len() == 8 && ".got"@.len() == 4 && ".dynamic"@.len() == 8);
    assert(".dynsym"@[5] == 'y' && ".dynstr"@[5] == 't' && ".rela.plt"@[1] == 'r');
}

proof fn lemma_own_sections(l: LayoutModel, names: Seq<Seq<char>>)
    requires
        elf_link::with_dynamic_sections(l, names) is Ok,
        elf_link::with_dynamic_sections(l, names)->Ok_0.sections.len() <= usize::MAX,
        link::names_in_range(l),
    ensures
        ({
            let r = elf_link::with_dynamic_sections(l, names)->Ok_0;
            let first = l.sections.len();
            &&& r.sections.len() == first + 7
            &&& link::names_in_range(r)
            &&& r.by_name.dom().contains(".plt"@) && r.by_name[".plt"@] == first
            &&& r.by_name.dom().contains(".got.plt"@) && r.by_name[".got.plt"@] == first + 1
            &&& r.by_name.dom().contains(".dynsym"@) && r.by_name[".dynsym"@] == first + 2
            &&& r.by_name.dom().contains(".dynstr"@) && r.by_name[".dynstr"@] == first + 3
            &&& r.by_name.dom().contains(".rela.plt"@) && r.by_name[".rela.plt"@] == first + 4
            &&& r.by_name.dom().contains(".hash"@) && r.by_name[".hash"@] == first + 5
            &&& r.by_name.dom().contains(".dynamic"@) && r.by_name[".dynamic"@] == first + 6
            &&& forall|n: Seq<char>|
                !is_own_name(n) && (#[trigger] r.by_name.dom().contains(n)) ==> r.by_name[n] < first
        }),
{
    lemma_own_names();
    law_dynamic_sections_are_appended(l, names);
}

proof fn lemma_objects_keep_section(
    objects: Seq<ParsedModel>,
    l: LayoutModel,
    parts: Seq<Map<Seq<char>, ObjectSectionContrib>>,
    addresses: Seq<Seq<Option<u64>>>,
    names: Map<Seq<char>, u64>,
    slots: Map<Seq<char>, u64>,
    arch: TargetArch,
    o: nat,
    s: int,
)
    requires
        elf_link::relocate_objects(objects, l, parts, addresses, names, slots, arch, o) is Ok,
        link::names_in_range(l),
        0 <= s < l.sections.len(),
        forall|q: int, j: int|
            o <= q < objects.len() && 0 <= j < objects[q].elf.sections.len() ==> !relocates(
                l,
                objects[q].elf.names,
                #[trigger] objects[q].elf.sections[j],
                s,
            ),
    ensures
        ({
            let r = elf_link::relocate_objects(objects, l, parts, addresses, names, slots, arch,
                o)->Ok_0;
            link::same_shape(l, r) && r.sections[s] == l.sections[s]
        }),
    decreases objects.len() - o,
{
    if o < objects.len() {
        let obj = objects[o as int];
        let symbols = elf_symbols::symbol_names(obj.data, obj.elf.sections)->Ok_0;
        let syms = elf_link::final_addresses(addresses[o as int], symbols, names);
        let usable = elf_link::usable_slots(arch, elf_link::slots_by_index(symbols, slots));
        let offs = elf_link::part_offsets(parts[o as int]);
        let (next, error) = relocate::relocated_layout(
            arch,
            l,
            obj.data,
            obj.elf.sections,
            obj.elf.names,
            syms,
            usable,
            offs,
        );
        law_relocations_keep_shape(
            arch,
            l,
            obj.data,
            obj.elf.sections,
            obj.elf.names,
            syms,
            usable,
            offs,
        );
        law_unreferenced_section_keeps_bytes(
            arch,
            l,
            obj.data,
            obj.elf.sections,
            obj.elf.names,
            syms,
            usable,
            offs,
            s,
        );
        assert forall|q: int, j: int|
            o + 1 <= q < objects.len() && 0 <= j < objects[q].elf.sections.len() implies !relocates(
            next,
            objects[q].elf.names,
            #[trigger] objects[q].elf.sections[j],
            s,
        ) by {
            assert(!relocates(l, objects[q].elf.names, objects[q].elf.sections[j], s));
        }
        lemma_objects_keep_section(
            objects,
            next,
            parts,
            addresses,
            names,
            slots,
            arch,
            o + 1,
            s,
        );
    }
}

/// Whether the merged sections of objects, and those that the linker adds, have indices.
pub open spec fn sections_can_be_counted(objects: Seq<ParsedModel>) -> bool {
    elf_merge::elf_multi_layout(elf_link::object_contents(objects))->Ok_0.0.sections.len() + 8
        <= usize::MAX
}

/// Whether no object has relocations for a section that the linker makes itself.
pub open spec fn own_sections_are_left(objects: Seq<ParsedModel>) -> bool {
    forall|q: int, j: int|
        0 <= q < objects.len() && 0 <= j < objects[q].elf.sections.len() && (
        #[trigger] objects[q].elf.sections[j]).sh_type == SHT_RELA ==> !is_own_name(
            relocate::name_or_empty(
                objects[q].elf.names,
                objects[q].elf.sections[j].sh_info as int,
            ),
        )
}

proof fn lemma_linked_stages(
    objects: Seq<ParsedModel>,
    libs: Option<Seq<RequestModel>>,
    platform: TargetPlatform,
) -> (r: (LayoutModel, Linking, GotModel))
    requires
        elf_link::elf_link_parsed(objects, libs, platform) is Ok,
        objects.len() > 1 || libs is Some,
    ensures
        ({
            let m = elf_link::elf_link_parsed(objects, libs, platform)->Ok_0;
            let (merged, parts) = elf_merge::elf_multi_layout(
                elf_link::object_contents(objects),
            )->Ok_0;
            let arch = arch::arch_of_machine(objects[0].elf.header.e_machine)->0;
            let start = GlobalTable { names: Map::empty(), addresses: seq![] };
            let g = elf_link::resolve_objects(objects, merged, parts, 0, start);
            let (l, k, t) = r;
            &&& elf_merge::elf_multi_layout(elf_link::object_contents(objects)) is Ok
            &&& l == merged
            &&& g is Ok
            &&& elf_link::with_imports(objects, merged, g->Ok_0, arch, libs, platform) == Ok::<
                Linking,
                Seq<char>,
            >(k)
            &&& elf_link::with_got(objects, k.layout, k.names, arch) == Ok::<
                GotModel,
                Seq<char>,
            >(t)
            &&& elf_link::relocate_objects(
                objects,
                t.layout,
                parts,
                g->Ok_0.addresses,
                k.names,
                t.slots,
                arch,
                0,
            ) == Ok::<LayoutModel, Seq<char>>(m.layout)
            &&& m.dynamic == k.dynamic
            &&& m.symbol_addrs == k.names
        }),
{
    let (merged, parts) = elf_merge::elf_multi_layout(elf_link::object_contents(objects))->Ok_0;
    let arch = arch::arch_of_machine(objects[0].elf.header.e_machine)->0;
    let start = GlobalTable { names: Map::empty(), addresses: seq![] };
    let g = elf_link::resolve_objects(objects, merged, parts, 0, start)->Ok_0;
    let k = elf_link::with_imports(objects, merged, g, arch, libs, platform)->Ok_0;
    (merged, k, elf_link::with_got(objects, k.layout, k.names, arch)->Ok_0)
}

proof fn lemma_got_is_appended(
    objects: Seq<ParsedModel>,
    l: LayoutModel,
    names: Map<Seq<char>, u64>,
    arch: TargetArch,
)
    requires
        elf_link::with_got(objects, l, names, arch) is Ok,
        link::names_in_range(l),
        l.sections.len() < usize::MAX,
    ensures
        ({
            let t = elf_link::with_got(objects, l, names, arch)->Ok_0.layout;
            &&& link::names_in_range(t)
            &&& l.sections.len() <= t.sections.len()
            &&& forall|n: Seq<char>|
                n != ".got"@ ==> #[trigger] t.by_name.dom().contains(n)
                    == l.by_name.dom().contains(n) && t.by_name[n] == l.by_name[n]
            &&& forall|i: int|
                0 <= i < l.sections.len() ==> #[trigger] t.sections[i] == l.sections[i]
        }),
{
}

proof fn lemma_linked_steps(
    objects: Seq<ParsedModel>,
    libs: Option<Seq<RequestModel>>,
    platform: TargetPlatform,
) -> (r: (LayoutModel, LayoutModel))
    requires
        elf_link::elf_link_parsed(objects, libs, platform) is Ok,
        elf_link::elf_link_parsed(objects, libs, platform)->Ok_0.dynamic is Some,
        sections_can_be_counted(objects),
        own_sections_are_left(objects),
    ensures
        ({
            let m = elf_link::elf_link_parsed(objects, libs, platform)->Ok_0;
            let names = m.dynamic->0.plt_symbols;
            let (merged, done) = r;
            let first = merged.sections.len();
            &&& objects.len() > 1 || libs is Some
            &&& merged == elf_merge::elf_multi_layout(elf_link::object_contents(objects))->Ok_0.0
            &&& elf_link::with_dynamic_sections(merged, names) == Ok::<LayoutModel, Seq<char>>(done)
            &&& link::names_in_range(merged)
            &&& first + 8 <= usize::MAX
            &&& first + 7 <= m.layout.sections.len()
            &&& forall|n: Seq<char>|
                n != ".got"@ ==> #[trigger] m.layout.by_name.dom().contains(n)
                    == done.by_name.dom().contains(n) && m.layout.by_name[n] == done.by_name[n]
            &&& forall|k: int|
                first <= k < first + 7 ==> #[trigger] m.layout.sections[k] == done.sections[k]
        }),
{
    let m = elf_link::elf_link_parsed(objects, libs, platform)->Ok_0;
    let (merged, k, t) = lemma_linked_stages(objects, libs, platform);
    let parts = elf_merge::elf_multi_layout(elf_link::object_contents(objects))->Ok_0.1;
    let arch = arch::arch_of_machine(objects[0].elf.header.e_machine)->0;
    let start = GlobalTable { names: Map::empty(), addresses: seq![] };
    let g = elf_link::resolve_objects(objects, merged, parts, 0, start)->Ok_0;
    let names = k.dynamic->0.plt_symbols;
    lemma_import_stage(objects, merged, g, arch, libs, platform);
    lemma_merged_in_range(elf_link::object_contents(objects));
    law_dynamic_sections_are_appended(merged, names);
    lemma_own_sections(merged, names);
    lemma_got_is_appended(objects, k.layout, k.names, arch);
    let first = merged.sections.len() as int;
    lemma_own_sections_stay(
        objects,
        k.layout,
        t.layout,
        parts,
        g.addresses,
        k.names,
        t.slots,
        arch,
        first,
    );
    (merged, k.layout)
}

proof fn lemma_import_stage(
    objects: Seq<ParsedModel>,
    l: LayoutModel,
    g: GlobalTable,
    arch: TargetArch,
    libs: Option<Seq<RequestModel>>,
    platform: TargetPlatform,
)
    requires
        elf_link::with_imports(objects, l, g, arch, libs, platform) is Ok,
        elf_link::with_imports(objects, l, g, arch, libs, platform)->Ok_0.dynamic is Some,
    ensures
        ({
            let k = elf_link::with_imports(objects, l, g, arch, libs, platform)->Ok_0;
            elf_link::with_dynamic_sections(l, k.dynamic->0.plt_symbols) == Ok::<
                LayoutModel,
                Seq<char>,
            >(k.layout)
        }),
{
}

proof fn lemma_own_sections_stay(
    objects: Seq<ParsedModel>,
    done: LayoutModel,
    t: LayoutModel,
    parts: Seq<Map<Seq<char>, ObjectSectionContrib>>,
    addresses: Seq<Seq<Option<u64>>>,
    names: Map<Seq<char>, u64>,
    slots: Map<Seq<char>, u64>,
    arch: TargetArch,
    first: int,
)
    requires
        elf_link::relocate_objects(objects, t, parts, addresses, names, slots, arch, 0) is Ok,
        own_sections_are_left(objects),
        0 <= first,
        first + 7 == done.sections.len(),
        done.sections.len() <= t.sections.len(),
        link::names_in_range(t),
        forall|n: Seq<char>|
            n != ".got"@ ==> #[trigger] t.by_name.dom().contains(n) == done.by_name.dom().contains(
                n,
            ) && t.by_name[n] == done.by_name[n],
        forall|i: int|
            0 <= i < done.sections.len() ==> #[trigger] t.sections[i] == done.sections[i],
        forall|n: Seq<char>|
            !is_own_name(n) && (#[trigger] done.by_name.dom().contains(n)) ==> done.by_name[n]
                < first,
    ensures
        ({
            let r = elf_link::relocate_objects(objects, t, parts, addresses, names, slots, arch,
                0)->Ok_0;
            &&& r.sections.len() == t.sections.len()
            &&& r.by_name == t.by_name
            &&& forall|c: int|
                first <= c < first + 7 ==> #[trigger] r.sections[c] == done.sections[c]
        }),
{
    let r = elf_link::relocate_objects(objects, t, parts, addresses, names, slots, arch, 0)->Ok_0;
    assert forall|c: int| first <= c < first + 7 implies #[trigger] r.sections[c]
        == done.sections[c] && r.sections.len() == t.sections.len() && r.by_name == t.by_name by {
        assert forall|q: int, j: int|
            0 <= q < objects.len() && 0 <= j < objects[q].elf.sections.len() implies !relocates(
            t,
            objects[q].elf.names,
            #[trigger] objects[q].elf.sections[j],
            c,
        ) by {
            let name = relocate::name_or_empty(
                objects[q].elf.names,
                objects[q].elf.sections[j].sh_info as int,
            );
            if objects[q].elf.sections[j].sh_type == SHT_RELA {
                assert(!is_own_name(name));
                assert(t.by_name.dom().contains(name) == done.by_name.dom().contains(name));
            }
        }
        lemma_objects_keep_section(
            objects,
            t,
            parts,
            addresses,
            names,
            slots,
            arch,
            0,
            c,
        );
    }
    assert(r.sections[first] == done.sections[first]);
}

/// Whether the sections for the dynamic linker stand in a layout as they were appended.
#[verifier::opaque]
spec fn has_dynamic_sections(l: LayoutModel, names: Seq<Seq<char>>) -> bool {
    let n = names.len();
    let plt = section_named(l, ".plt"@);
    let got = section_named(l, ".got.plt"@);
    let symbols = section_named(l, ".dynsym"@);
    let strings = section_named(l, ".dynstr"@);
    let relocations = section_named(l, ".rela.plt"@);
    let hash = section_named(l, ".hash"@);
    &&& l.by_name.dom().contains(".plt"@)
    &&& l.by_name.dom().contains(".got.plt"@)
    &&& l.by_name.dom().contains(".dynsym"@)
    &&& l.by_name.dom().contains(".dynstr"@)
    &&& l.by_name.dom().contains(".rela.plt"@)
    &&& l.by_name.dom().contains(".hash"@)
    &&& l.by_name.dom().contains(".dynamic"@)
    &&& plt.data == dynamic::plt_bytes(plt.vaddr, got.vaddr, n)
    &&& symbols.data == dynamic::dynsym_bytes(names, n)
    &&& strings.data == dynamic::dynstr_bytes(names, n)
    &&& relocations.data == dynamic::rela_plt_bytes(got.vaddr, n)
    &&& hash.data == dynamic::hash_bytes(names)
    &&& section_named(l, ".dynamic"@).data == dynamic::dynamic_table(
        DynamicPlaces {
            got: got.vaddr,
            dynsym: symbols.vaddr,
            dynstr: strings.vaddr,
            dynstr_size: strings.data.len() as u64,
            rela_plt: relocations.vaddr,
            rela_plt_size: relocations.data.len() as u64,
            hash: hash.vaddr,
        },
    )
    &&& n < u32::MAX
    &&& plt.vaddr <= got.vaddr
    &&& plt.vaddr + 16 + n * 16 <= u64::MAX
    &&& got.vaddr + 24 + n * 8 <= u64::MAX
}

proof fn lemma_import_addresses(
    objects: Seq<ParsedModel>,
    libs: Option<Seq<RequestModel>>,
    platform: TargetPlatform,
    merged: LayoutModel,
    done: LayoutModel,
)
    requires
        elf_link::elf_link_parsed(objects, libs, platform) is Ok,
        elf_link::elf_link_parsed(objects, libs, platform)->Ok_0.dynamic is Some,
        objects.len() > 1 || libs is Some,
        merged == elf_merge::elf_multi_layout(elf_link::object_contents(objects))->Ok_0.0,
        elf_link::with_dynamic_sections(
            merged,
            elf_link::elf_link_parsed(objects, libs, platform)->Ok_0.dynamic->0.plt_symbols,
        ) == Ok::<LayoutModel, Seq<char>>(done),
    ensures
        ({
            let m = elf_link::elf_link_parsed(objects, libs, platform)->Ok_0;
            let names = m.dynamic->0.plt_symbols;
            forall|i: int|
                0 <= i < names.len() ==> m.symbol_addrs.dom().contains(#[trigger] names[i])
                    && m.symbol_addrs[names[i]] == done.sections[merged.sections.len() as int].vaddr
                    + 16 + 16 * i
        }),
{
    let (_merged, k, t) = lemma_linked_stages(objects, libs, platform);
    let parts = elf_merge::elf_multi_layout(elf_link::object_contents(objects))->Ok_0.1;
    let arch = arch::arch_of_machine(objects[0].elf.header.e_machine)->0;
    let start = GlobalTable { names: Map::empty(), addresses: seq![] };
    let g = elf_link::resolve_objects(objects, merged, parts, 0, start)->Ok_0;
    lemma_import_stage(objects, merged, g, arch, libs, platform);
    law_imports_have_entries(objects, merged, g, arch, libs, platform);
}

proof fn lemma_has_dynamic_sections(
    objects: Seq<ParsedModel>,
    libs: Option<Seq<RequestModel>>,
    platform: TargetPlatform,
)
    requires
        elf_link::elf_link_parsed(objects, libs, platform) is Ok,
        elf_link::elf_link_parsed(objects, libs, platform)->Ok_0.dynamic is Some,
        sections_can_be_counted(objects),
        own_sections_are_left(objects),
    ensures
        ({
            let m = elf_link::elf_link_parsed(objects, libs, platform)->Ok_0;
            let names = m.dynamic->0.plt_symbols;
            &&& has_dynamic_sections(m.layout, names)
            &&& forall|i: int|
                0 <= i < names.len() ==> m.symbol_addrs.dom().contains(#[trigger] names[i])
                    && m.symbol_addrs[names[i]] == section_named(m.layout, ".plt"@).vaddr + 16 + 16
                    * i
        }),
{
    let m = elf_link::elf_link_parsed(objects, libs, platform)->Ok_0;
    let names = m.dynamic->0.plt_symbols;
    let (merged, done) = lemma_linked_steps(objects, libs, platform);
    lemma_import_addresses(objects, libs, platform, merged, done);
    lemma_dynamic_sections_follow(merged, done, m.layout, names);
}

proof fn lemma_dynamic_sections_follow(
    merged: LayoutModel,
    done: LayoutModel,
    l: LayoutModel,
    names: Seq<Seq<char>>,
)
    requires
        elf_link::with_dynamic_sections(merged, names) == Ok::<LayoutModel, Seq<char>>(done),
        link::names_in_range(merged),
        merged.sections.len() + 8 <= usize::MAX,
        forall|n: Seq<char>|
            n != ".got"@ ==> #[trigger] l.by_name.dom().contains(n) == done.by_name.dom().contains(
                n,
            ) && l.by_name[n] == done.by_name[n],
        forall|k: int|
            merged.sections.len() <= k < merged.sections.len() + 7 ==> #[trigger] l.sections[k]
                == done.sections[k],
    ensures
        has_dynamic_sections(l, names),
        section_named(l, ".plt"@) == done.sections[merged.sections.len() as int],
{
    reveal(has_dynamic_sections);
    let first = merged.sections.len() as int;
    law_dynamic_sections_are_appended(merged, names);
    lemma_own_sections(merged, names);
    lemma_plt_below_got(merged, names);
    lemma_own_names();
    assert(l.by_name.dom().contains(".dynamic"@));
    assert(l.by_name.dom().contains(".dynstr"@));
    assert(l.by_name.dom().contains(".dynsym"@));
    assert(l.by_name.dom().contains(".hash"@));
    assert(l.by_name.dom().contains(".rela.plt"@));
    assert(l.by_name.dom().contains(".got.plt"@));
    assert(l.by_name.dom().contains(".plt"@));
    assert(section_named(l, ".plt"@) == done.sections[first]);
    assert(section_named(l, ".got.plt"@) == done.sections[first + 1]);
    assert(section_named(l, ".dynsym"@) == done.sections[first + 2]);
    assert(section_named(l, ".dynstr"@) == done.sections[first + 3]);
    assert(section_named(l, ".rela.plt"@) == done.sections[first + 4]);
    assert(section_named(l, ".hash"@) == done.sections[first + 5]);
    assert(section_named(l, ".dynamic"@) == done.sections[first + 6]);
}

/// What a loader finds in a linked image: the dynamic table, read entry by entry, leads to the
/// strings, the symbols, the hash table, the relocations and the slots at the addresses of the
/// sections that hold them, with their sizes, and the needed library is the C library. This holds
/// unless an object has relocations for one of these sections.
pub proof fn law_linked_image_has_dynamic_table(
    objects: Seq<ParsedModel>,
    libs: Option<Seq<RequestModel>>,
    platform: TargetPlatform,
)
    requires
        elf_link::elf_link_parsed(objects, libs, platform) is Ok,
        elf_link::elf_link_parsed(objects, libs, platform)->Ok_0.dynamic is Some,
        sections_can_be_counted(objects),
        own_sections_are_left(objects),
    ensures
        ({
            let m = elf_link::elf_link_parsed(objects, libs, platform)->Ok_0;
            let t = section_named(m.layout, ".dynamic"@).data;
            let strings = section_named(m.layout, ".dynstr"@);
            let relocations = section_named(m.layout, ".rela.plt"@);
            &&& m.layout.by_name.dom().contains(".dynamic"@)
            &&& m.layout.by_name.dom().contains(".dynstr"@)
            &&& m.layout.by_name.dom().contains(".dynsym"@)
            &&& m.layout.by_name.dom().contains(".hash"@)
            &&& m.layout.by_name.dom().contains(".rela.plt"@)
            &&& m.layout.by_name.dom().contains(".got.plt"@)
            &&& m.layout.by_name.dom().contains(".plt"@)
            &&& dynamic::table_value(t, 5, 0) == Some(strings.vaddr)
            &&& dynamic::table_value(t, 6, 0) == Some(section_named(m.layout, ".dynsym"@).vaddr)
            &&& dynamic::table_value(t, 4, 0) == Some(section_named(m.layout, ".hash"@).vaddr)
            &&& dynamic::table_value(t, 23, 0) == Some(relocations.vaddr)
            &&& dynamic::table_value(t, 3, 0) == Some(section_named(m.layout, ".got.plt"@).vaddr)
            &&& dynamic::table_value(t, 10, 0) == Some(strings.data.len() as u64)
            &&& dynamic::table_value(t, 2, 0) == Some(relocations.data.len() as u64)
            &&& dynamic::table_value(t, 11, 0) == Some(24u64)
            &&& dynamic::table_value(t, 20, 0) == Some(7u64)
            &&& dynamic::table_value(t, 24, 0) is Some
            &&& dynamic::table_value(t, 1, 0) is Some
            &&& crate::elf::strtab_string(
                strings.data,
                dynamic::table_value(t, 1, 0)->0 as u32,
            ) == Some("libc.so.6"@)
        }),
{
    let m = elf_link::elf_link_parsed(objects, libs, platform)->Ok_0;
    let names = m.dynamic->0.plt_symbols;
    let l = m.layout;
    lemma_has_dynamic_sections(objects, libs, platform);
    reveal(has_dynamic_sections);
    dynamic::law_dynamic_table_tells_places(
        DynamicPlaces {
            got: section_named(l, ".got.plt"@).vaddr,
            dynsym: section_named(l, ".dynsym"@).vaddr,
            dynstr: section_named(l, ".dynstr"@).vaddr,
            dynstr_size: section_named(l, ".dynstr"@).data.len() as u64,
            rela_plt: section_named(l, ".rela.plt"@).vaddr,
            rela_plt_size: section_named(l, ".rela.plt"@).data.len() as u64,
            hash: section_named(l, ".hash"@).vaddr,
        },
    );
    dynamic::law_strings_name_the_library(names);
}

/// How the import `i` of a linked image is called and filled in: code that uses its name comes to
/// its entry in the procedure linkage table, which jumps through its slot; the relocation of that
/// slot names the dynamic symbol `i + 1`, and that symbol has the name.
pub proof fn law_linked_imports_are_bound(
    objects: Seq<ParsedModel>,
    libs: Option<Seq<RequestModel>>,
    platform: TargetPlatform,
    i: int,
)
    requires
        elf_link::elf_link_parsed(objects, libs, platform) is Ok,
        elf_link::elf_link_parsed(objects, libs, platform)->Ok_0.dynamic is Some,
        sections_can_be_counted(objects),
        own_sections_are_left(objects),
        ({
            let m = elf_link::elf_link_parsed(objects, libs, platform)->Ok_0;
            let names = m.dynamic->0.plt_symbols;
            &&& 0 <= i < names.len()
            &&& !names[i].contains('\0')
            &&& section_named(m.layout, ".dynstr"@).data.len() <= u32::MAX
            &&& section_named(m.layout, ".got.plt"@).vaddr + 24 + names.len() * 8
                <= section_named(m.layout, ".plt"@).vaddr + 0x8000_0000
        }),
    ensures
        ({
            let m = elf_link::elf_link_parsed(objects, libs, platform)->Ok_0;
            let name = m.dynamic->0.plt_symbols[i];
            let plt = section_named(m.layout, ".plt"@);
            let slot = section_named(m.layout, ".got.plt"@).vaddr + 24 + 8 * i;
            let relocation = crate::elf::rela_at(
                section_named(m.layout, ".rela.plt"@).data,
                24 * i,
            );
            let symbol = crate::elf::elf_symbol_at(
                section_named(m.layout, ".dynsym"@).data,
                24 * relocation->Ok_0.r_sym as int,
            );
            let at = m.symbol_addrs[name] - plt.vaddr;
            &&& m.symbol_addrs.dom().contains(name)
            &&& 16 <= at && at + 16 <= plt.data.len()
            &&& plt.data[at] == 0xff && plt.data[at + 1] == 0x25
            &&& m.symbol_addrs[name] + 6 + bytes::signed32(bytes::u32_at(plt.data, at + 2)) == slot
            &&& relocation is Ok && relocation->Ok_0.r_offset == slot && relocation->Ok_0.r_type
                == 7 && relocation->Ok_0.r_addend == 0
            &&& symbol is Ok && symbol->Ok_0.st_shndx == 0 && symbol->Ok_0.bind == 1
            &&& crate::elf::strtab_string(
                section_named(m.layout, ".dynstr"@).data,
                symbol->Ok_0.name_offset,
            ) == Some(name)
        }),
{
    let m = elf_link::elf_link_parsed(objects, libs, platform)->Ok_0;
    let names = m.dynamic->0.plt_symbols;
    let n = names.len();
    lemma_has_dynamic_sections(objects, libs, platform);
    reveal(has_dynamic_sections);
    let plt = section_named(m.layout, ".plt"@).vaddr;
    let got = section_named(m.layout, ".got.plt"@).vaddr;
    dynamic::lemma_plt_len(plt, got, n);
    dynamic::law_entries_jump_through_slots(plt, got, n, i);
    dynamic::law_slot_relocations_are_read_back(got, n, i);
    dynamic::law_dynamic_symbols_are_read_back(names, i);
    assert(m.symbol_addrs.dom().contains(names[i]));
}

proof fn lemma_plt_below_got(l: LayoutModel, names: Seq<Seq<char>>)
    requires
        elf_link::with_dynamic_sections(l, names) is Ok,
    ensures
        ({
            let r = elf_link::with_dynamic_sections(l, names)->Ok_0;
            let first = l.sections.len() as int;
            let n = names.len();
            &&& n < u32::MAX
            &&& r.sections[first].vaddr <= r.sections[first + 1].vaddr
            &&& r.sections[first].vaddr + 16 + n * 16 <= u64::MAX
            &&& r.sections[first + 1].vaddr + 24 + n * 8 <= u64::MAX
        }),
{
    let n = names.len();
    let plt = elf_link::plt_addr(l);
    dynamic::lemma_plt_len(plt, elf_link::got_plt_addr(plt, n), n);
    segment::law_align_up_bounds((plt + 16 + n * 16) as u64, 8);
}

/// How many of the first `n` requested libraries an image asks for by name.
pub open spec fn asked_before(libs: Seq<RequestModel>, n: nat) -> nat
    decreases n,
{
    if n == 0 {
        0
    } else {
        asked_before(libs, (n - 1) as nat) + if libs[n - 1].name == "System"@ {
            0nat
        } else {
            1
        }
    }
}

/// An image asks for each requested library, but for `System`, which has no file of its own, in
/// the order of the requests: by the name that its file tells, or else by the usual one.
pub proof fn law_requested_libraries_are_needed(
    libs: Seq<RequestModel>,
    platform: TargetPlatform,
    n: nat,
    i: nat,
)
    requires
        i < n <= libs.len(),
    ensures
        elf_link::needed_names(libs, platform, n).len() == asked_before(libs, n),
        libs[i as int].name != "System"@ ==> asked_before(libs, i) < asked_before(libs, n)
            && elf_link::needed_names(libs, platform, n)[asked_before(libs, i) as int] == (
        match libs[i as int].found {
            Some(f) => f.soname,
            None => resolver::soname_of(platform, libs[i as int].name),
        }),
    decreases n,
{
    lemma_needed_len(libs, platform, n);
    lemma_needed_len(libs, platform, (n - 1) as nat);
    if i < n - 1 {
        law_requested_libraries_are_needed(libs, platform, (n - 1) as nat, i);
    }
}

proof fn lemma_needed_len(libs: Seq<RequestModel>, platform: TargetPlatform, n: nat)
    requires
        n <= libs.len(),
    ensures
        elf_link::needed_names(libs, platform, n).len() == asked_before(libs, n),
    decreases n,
{
    if n > 0 {
        lemma_needed_len(libs, platform, (n - 1) as nat);
    }
}

} // verus!

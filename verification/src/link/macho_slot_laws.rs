//! The global offset table of a Mach-O image, and the names that the image imports.
use vstd::prelude::*;
use crate::arch::TargetArch;
use crate::bytes;
use crate::link;
use crate::link::LayoutModel;
use crate::link::macho_reloc;
use crate::link::macho_symbols;
use crate::link::macho_symbols::ImportsModel;
use crate::macho::{MachoReloc, ObjectModel, SymbolModel};
use crate::names;
use crate::order;
use crate::segment;

verus! {

proof fn lemma_filled_slots_len(
    data: Seq<u8>,
    m: ImportsModel,
    names: Map<Seq<char>, u64>,
    ranges: Seq<(u64, u64, u64)>,
    text_shift: u64,
    i: nat,
)
    ensures
        link::macho::filled_slots(data, m, names, ranges, text_shift, i).len() == data.len(),
    decreases m.got.len() - i,
{
    broadcast use bytes::group_le_len;
    if i < m.got.len() {
        let name = m.got[i as int];
        let next = if !m.undefined.contains(name) && names.dom().contains(name) && i * 8 + 8
            <= data.len() {
            bytes::patch(
                data,
                (i * 8) as int,
                bytes::le64(macho_reloc::runtime_addr(ranges, text_shift, names[name], 0)),
            )
        } else {
            data
        };
        lemma_filled_slots_len(next, m, names, ranges, text_shift, i + 1);
    }
}

proof fn lemma_filled_slots_keep(
    data: Seq<u8>,
    m: ImportsModel,
    names: Map<Seq<char>, u64>,
    ranges: Seq<(u64, u64, u64)>,
    text_shift: u64,
    i: nat,
    b: int,
)
    requires
        0 <= b < i * 8,
        b < data.len(),
    ensures
        link::macho::filled_slots(data, m, names, ranges, text_shift, i)[b] == data[b],
    decreases m.got.len() - i,
{
    broadcast use bytes::group_le_len;
    if i < m.got.len() {
        let name = m.got[i as int];
        let next = if !m.undefined.contains(name) && names.dom().contains(name) && i * 8 + 8
            <= data.len() {
            bytes::patch(
                data,
                (i * 8) as int,
                bytes::le64(macho_reloc::runtime_addr(ranges, text_shift, names[name], 0)),
            )
        } else {
            data
        };
        lemma_filled_slots_keep(next, m, names, ranges, text_shift, i + 1, b);
    }
}

/// The slot of a name that the image defines holds its address as the image is loaded.
proof fn lemma_slot_is_filled(
    data: Seq<u8>,
    m: ImportsModel,
    names: Map<Seq<char>, u64>,
    ranges: Seq<(u64, u64, u64)>,
    text_shift: u64,
    i: nat,
    k: nat,
)
    requires
        i <= k < m.got.len(),
        8 * m.got.len() <= data.len(),
        !m.undefined.contains(m.got[k as int]),
        names.dom().contains(m.got[k as int]),
    ensures
        bytes::u64_at(
            link::macho::filled_slots(data, m, names, ranges, text_shift, i),
            8 * k as int,
        ) == macho_reloc::runtime_addr(ranges, text_shift, names[m.got[k as int]], 0),
    decreases k - i,
{
    broadcast use bytes::group_le_len;
    let name = m.got[i as int];
    let next = if !m.undefined.contains(name) && names.dom().contains(name) && i * 8 + 8
        <= data.len() {
        bytes::patch(
            data,
            (i * 8) as int,
            bytes::le64(macho_reloc::runtime_addr(ranges, text_shift, names[name], 0)),
        )
    } else {
        data
    };
    if i < k {
        lemma_slot_is_filled(next, m, names, ranges, text_shift, i + 1, k);
    } else {
        let done = link::macho::filled_slots(next, m, names, ranges, text_shift, i + 1);
        let at = 8 * k as int;
        assert forall|b: int| 0 <= b < 8 implies done[at + b] == #[trigger] next[at + b] by {
            lemma_filled_slots_keep(next, m, names, ranges, text_shift, i + 1, at + b);
        }
        bytes::lemma_same_u64(done, at, next, at);
        bytes::lemma_patched_u64(
            data,
            at,
            macho_reloc::runtime_addr(ranges, text_shift, names[name], 0),
        );
    }
}

/// Whether an address is that of the slot `k` of a table at `base`, which is for a name.
spec fn is_slot(got: Seq<Seq<char>>, base: u64, name: Seq<char>, slot: u64, k: int) -> bool {
    0 <= k < got.len() && got[k] == name && slot == base + 8 * k
}

proof fn lemma_slot_addrs(
    slots: Map<Seq<char>, u64>,
    got: Seq<Seq<char>>,
    base: u64,
    i: nat,
    name: Seq<char>,
)
    requires
        i <= got.len(),
        base + 8 * got.len() <= u64::MAX,
    ensures
        ({
            let r = link::macho::slot_addrs(slots, got, base, i);
            &&& r.dom().contains(name) <==> slots.dom().contains(name) || exists|k: int|
                i <= k < got.len() && #[trigger] got[k] == name
            &&& r.dom().contains(name) ==> slots.dom().contains(name) && r[name] == slots[name]
                || exists|k: int| #[trigger] is_slot(got, base, name, r[name], k)
        }),
    decreases got.len() - i,
{
    if i < got.len() {
        let at = base.wrapping_add((i as u64).wrapping_mul(8));
        assert(at == base + 8 * i);
        lemma_slot_addrs(slots.insert(got[i as int], at), got, base, i + 1, name);
        if name == got[i as int] {
            assert(is_slot(got, base, name, at, i as int));
        }
    }
}

proof fn lemma_slot_rebases(rebases: Seq<u64>, base: u64, n: nat, i: nat, x: u64)
    requires
        base + 8 * n <= u64::MAX,
        order::addrs_ascend(rebases),
        rebases.contains(x) || exists|k: int| i <= k < n && x == #[trigger] slot_place(base, k),
    ensures
        link::macho::slot_rebases(rebases, base, n, i).contains(x),
    decreases n - i,
{
    if i < n {
        let at = base.wrapping_add((i as u64).wrapping_mul(8));
        assert(at == slot_place(base, i as int));
        order::law_insert_addr(rebases, at, x);
        lemma_slot_rebases(order::insert_addr(rebases, at), base, n, i + 1, x);
    }
}

/// Where the slot `k` of a table at `base` stands.
pub open spec fn slot_place(base: u64, k: int) -> int {
    base + 8 * k
}

/// Every name in the global offset table has a slot there. The slot of a name that the image
/// defines holds the address of the name as the image is loaded, and all slots are among the
/// addresses that move with the image.
pub proof fn law_macho_slots_hold_addresses(
    l: LayoutModel,
    m: ImportsModel,
    names: Map<Seq<char>, u64>,
    text_shift: u64,
    data_shift: u64,
    name: Seq<char>,
)
    requires
        link::names_in_range(l),
        l.by_name.dom().contains("__got"@),
        l.sections[l.by_name["__got"@] as int].data.len() == 8 * m.got.len(),
        l.sections[l.by_name["__got"@] as int].vaddr + 8 * m.got.len() <= u64::MAX,
        m.got.contains(name),
    ensures
        ({
            let w = link::macho::with_slots(l, m, names, text_shift, data_shift);
            let table = w.layout.sections[l.by_name["__got"@] as int];
            let slot = w.slots[name];
            let ranges = macho_reloc::shift_ranges(l, text_shift, data_shift);
            &&& w.slots.dom().contains(name)
            &&& table.vaddr == l.sections[l.by_name["__got"@] as int].vaddr
            &&& table.vaddr <= slot && slot + 8 <= table.vaddr + table.data.len()
            &&& w.rebases.contains(slot)
            &&& !m.undefined.contains(name) && names.dom().contains(name) ==> bytes::u64_at(
                table.data,
                slot - table.vaddr,
            ) == macho_reloc::runtime_addr(ranges, text_shift, names[name], 0)
        }),
{
    let w = link::macho::with_slots(l, m, names, text_shift, data_shift);
    let idx = l.by_name["__got"@] as int;
    let base = l.sections[idx].vaddr;
    let data = l.sections[idx].data;
    let ranges = macho_reloc::shift_ranges(l, text_shift, data_shift);
    let none: Map<Seq<char>, u64> = Map::empty();
    let empty: Seq<u64> = seq![];
    lemma_slot_addrs(none, m.got, base, 0, name);
    let j = m.got.index_of(name);
    assert(m.got[j] == name);
    let slot = w.slots[name];
    let k = choose|k: int| #[trigger] is_slot(m.got, base, name, slot, k);
    assert(is_slot(m.got, base, name, slot, k));
    assert(slot == slot_place(base, k));
    lemma_slot_rebases(empty, base, m.got.len(), 0, slot);
    lemma_filled_slots_len(data, m, names, ranges, text_shift, 0);
    if !m.undefined.contains(name) && names.dom().contains(name) {
        lemma_slot_is_filled(data, m, names, ranges, text_shift, 0, k as nat);
    }
}

/// The runtime address of an address in a section: it moves with the data or with the code. The
/// sections must not overlap.
pub proof fn law_addresses_move_with_their_section(
    l: LayoutModel,
    text_shift: u64,
    data_shift: u64,
    addr: u64,
    s: int,
)
    requires
        segment::sections_apart(l),
        segment::has_image(l),
        0 <= s < l.sections.len(),
        l.sections[s].vaddr <= addr < l.sections[s].vaddr + l.sections[s].data.len(),
    ensures
        macho_reloc::runtime_addr(
            macho_reloc::shift_ranges(l, text_shift, data_shift),
            text_shift,
            addr,
            0,
        ) == addr.wrapping_add(
            if link::macho::is_data_name(l.sections[s].name) {
                data_shift
            } else {
                text_shift
            },
        ),
{
    lemma_runtime_addr(l, text_shift, data_shift, addr, s, 0);
}

proof fn lemma_runtime_addr(
    l: LayoutModel,
    text_shift: u64,
    data_shift: u64,
    addr: u64,
    s: int,
    i: nat,
)
    requires
        segment::sections_apart(l),
        segment::has_image(l),
        i <= s < l.sections.len(),
        l.sections[s].vaddr <= addr < l.sections[s].vaddr + l.sections[s].data.len(),
    ensures
        macho_reloc::runtime_addr(
            macho_reloc::shift_ranges(l, text_shift, data_shift),
            text_shift,
            addr,
            i,
        ) == addr.wrapping_add(
            if link::macho::is_data_name(l.sections[s].name) {
                data_shift
            } else {
                text_shift
            },
        ),
    decreases s - i,
{
    let ranges = macho_reloc::shift_ranges(l, text_shift, data_shift);
    assert(link::section_end(l.sections[i as int]) <= u64::MAX);
    if i < s {
        assert(segment::apart(l.sections[i as int], l.sections[s]));
        assert(!(ranges[i as int].0 <= addr < ranges[i as int].1));
        lemma_runtime_addr(l, text_shift, data_shift, addr, s, i + 1);
    }
}

/// Whether the lists of imports hold a name wherever others did.
spec fn keeps_name(m: ImportsModel, n: ImportsModel, x: Seq<char>) -> bool {
    &&& m.undefined.contains(x) ==> n.undefined.contains(x)
    &&& m.weak.contains(x) ==> n.weak.contains(x)
    &&& m.got.contains(x) ==> n.got.contains(x)
}

/// Whether a symbol is an external one of a name that the object does not define.
pub open spec fn is_undefined(sym: SymbolModel) -> bool {
    !sym.is_defined && sym.name.len() > 0 && sym.n_type & 1 != 0
}

proof fn lemma_import_symbol(
    names: Map<Seq<char>, u64>,
    sym: SymbolModel,
    m: ImportsModel,
    x: Seq<char>,
)
    ensures
        ({
            let n = macho_symbols::import_symbol(names, sym, m);
            &&& keeps_name(m, n, x)
            &&& sym.name == x && !names.dom().contains(x) ==> n.undefined.contains(x)
            &&& sym.name == x && sym.is_weak_ref ==> n.weak.contains(x)
        }),
{
    names::law_add_name(m.undefined, sym.name, x);
    names::law_add_name(m.weak, sym.name, x);
}

proof fn lemma_import_symbols(
    names: Map<Seq<char>, u64>,
    obj: ObjectModel,
    i: nat,
    m: ImportsModel,
    x: Seq<char>,
)
    ensures
        ({
            let n = macho_symbols::import_symbols_from(names, obj, i, m);
            &&& keeps_name(m, n, x)
            &&& forall|k: int|
                i <= k < obj.symbols.len() && is_undefined(#[trigger] obj.symbols[k])
                    && obj.symbols[k].name == x ==> (!names.dom().contains(x)
                    ==> n.undefined.contains(x)) && (obj.symbols[k].is_weak_ref
                    ==> n.weak.contains(x))
        }),
    decreases obj.symbols.len() - i,
{
    if i < obj.symbols.len() {
        let sym = obj.symbols[i as int];
        let next = if is_undefined(sym) {
            macho_symbols::import_symbol(names, sym, m)
        } else {
            m
        };
        lemma_import_symbol(names, sym, m, x);
        lemma_import_symbols(names, obj, i + 1, next, x);
    }
}

proof fn lemma_import_all_symbols(
    objects: Seq<ObjectModel>,
    names: Map<Seq<char>, u64>,
    o: nat,
    m: ImportsModel,
    x: Seq<char>,
)
    ensures
        ({
            let n = link::macho::import_all_symbols(objects, names, o, m);
            &&& keeps_name(m, n, x)
            &&& forall|q: int, k: int|
                o <= q < objects.len() && 0 <= k < objects[q].symbols.len() && is_undefined(
                    #[trigger] objects[q].symbols[k],
                ) && objects[q].symbols[k].name == x ==> (!names.dom().contains(x)
                    ==> n.undefined.contains(x)) && (objects[q].symbols[k].is_weak_ref
                    ==> n.weak.contains(x))
        }),
    decreases objects.len() - o,
{
    if o < objects.len() {
        let obj = objects[o as int];
        let next = macho_symbols::import_symbols_from(names, obj, 0, m);
        lemma_import_symbols(names, obj, 0, m, x);
        lemma_import_all_symbols(objects, names, o + 1, next, x);
        let n = link::macho::import_all_symbols(objects, names, o, m);
        assert forall|q: int, k: int|
            o <= q < objects.len() && 0 <= k < objects[q].symbols.len() && is_undefined(
                #[trigger] objects[q].symbols[k],
            ) && objects[q].symbols[k].name == x implies (!names.dom().contains(x)
            ==> n.undefined.contains(x)) && (objects[q].symbols[k].is_weak_ref ==> n.weak.contains(
            x,
        )) by {
            if q == o {
                assert(is_undefined(obj.symbols[k]));
            }
        }
    }
}

/// Whether a relocation loads the address of an undefined name from the global offset table.
pub open spec fn loads_slot(symbols: Seq<SymbolModel>, r: MachoReloc, x: Seq<char>) -> bool {
    &&& r.r_extern && r.r_symbolnum < symbols.len()
    &&& r.r_type == 5 || r.r_type == 6
    &&& is_undefined(symbols[r.r_symbolnum as int])
    &&& symbols[r.r_symbolnum as int].name == x
}

proof fn lemma_import_reloc(
    names: Map<Seq<char>, u64>,
    symbols: Seq<SymbolModel>,
    r: MachoReloc,
    m: ImportsModel,
    x: Seq<char>,
)
    ensures
        keeps_name(m, macho_symbols::import_reloc(names, symbols, r, m), x),
        loads_slot(symbols, r, x) ==> macho_symbols::import_reloc(
            names,
            symbols,
            r,
            m,
        ).got.contains(x),
{
    if r.r_extern && r.r_symbolnum < symbols.len() {
        let sym = symbols[r.r_symbolnum as int];
        names::law_add_name(m.got, sym.name, x);
        let n = ImportsModel { got: names::add_name(m.got, sym.name), ..m };
        lemma_import_symbol(names, sym, n, x);
        lemma_import_symbol(names, sym, m, x);
    }
}

proof fn lemma_import_relocs(
    names: Map<Seq<char>, u64>,
    symbols: Seq<SymbolModel>,
    relocs: Seq<MachoReloc>,
    i: nat,
    m: ImportsModel,
    x: Seq<char>,
)
    ensures
        ({
            let n = macho_symbols::import_relocs_from(names, symbols, relocs, i, m);
            &&& keeps_name(m, n, x)
            &&& forall|k: int|
                i <= k < relocs.len() && loads_slot(symbols, #[trigger] relocs[k], x)
                    ==> n.got.contains(x)
        }),
    decreases relocs.len() - i,
{
    if i < relocs.len() {
        lemma_import_reloc(names, symbols, relocs[i as int], m, x);
        lemma_import_relocs(
            names,
            symbols,
            relocs,
            i + 1,
            macho_symbols::import_reloc(names, symbols, relocs[i as int], m),
            x,
        );
    }
}

/// The relocations of the section `t` of an object.
pub open spec fn relocs_in(obj: ObjectModel, t: int) -> Seq<MachoReloc> {
    crate::macho::relocs_of(obj.data, obj.sections[t].reloff, obj.sections[t].nreloc)
}

proof fn lemma_import_sections(
    names: Map<Seq<char>, u64>,
    obj: ObjectModel,
    i: nat,
    m: ImportsModel,
    x: Seq<char>,
)
    ensures
        ({
            let n = macho_symbols::import_sections_from(names, obj, i, m);
            &&& keeps_name(m, n, x)
            &&& forall|t: int, k: int|
                i <= t < obj.sections.len() && 0 <= k < relocs_in(obj, t).len() && loads_slot(
                    obj.symbols,
                    #[trigger] relocs_in(obj, t)[k],
                    x,
                ) ==> n.got.contains(x)
        }),
    decreases obj.sections.len() - i,
{
    if i < obj.sections.len() {
        let relocs = relocs_in(obj, i as int);
        let next = macho_symbols::import_relocs_from(names, obj.symbols, relocs, 0, m);
        lemma_import_relocs(names, obj.symbols, relocs, 0, m, x);
        lemma_import_sections(names, obj, i + 1, next, x);
        let n = macho_symbols::import_sections_from(names, obj, i, m);
        assert forall|t: int, k: int|
            i <= t < obj.sections.len() && 0 <= k < relocs_in(obj, t).len() && loads_slot(
                obj.symbols,
                #[trigger] relocs_in(obj, t)[k],
                x,
            ) implies n.got.contains(x) by {
            if t == i {
                assert(loads_slot(obj.symbols, relocs[k], x));
            }
        }
    }
}

proof fn lemma_import_all_relocs(
    objects: Seq<ObjectModel>,
    names: Map<Seq<char>, u64>,
    o: nat,
    m: ImportsModel,
    x: Seq<char>,
)
    ensures
        ({
            let n = link::macho::import_all_relocs(objects, names, o, m);
            &&& keeps_name(m, n, x)
            &&& forall|q: int, t: int, k: int|
                o <= q < objects.len() && 0 <= t < objects[q].sections.len() && 0 <= k < relocs_in(
                    objects[q],
                    t,
                ).len() && loads_slot(
                    objects[q].symbols,
                    #[trigger] relocs_in(objects[q], t)[k],
                    x,
                ) ==> n.got.contains(x)
        }),
    decreases objects.len() - o,
{
    if o < objects.len() {
        let obj = objects[o as int];
        let next = macho_symbols::import_sections_from(names, obj, 0, m);
        lemma_import_sections(names, obj, 0, m, x);
        lemma_import_all_relocs(objects, names, o + 1, next, x);
    }
}

proof fn lemma_add_names(s: Seq<Seq<char>>, more: Seq<Seq<char>>, i: nat, x: Seq<char>)
    requires
        s.contains(x) || exists|k: int| i <= k < more.len() && #[trigger] more[k] == x,
    ensures
        link::macho::add_names(s, more, i).contains(x),
    decreases more.len() - i,
{
    if i < more.len() {
        names::law_add_name(s, more[i as int], x);
        lemma_add_names(names::add_name(s, more[i as int]), more, i + 1, x);
    }
}

/// Every external name that some object of an AArch64 image leaves undefined, and none defines, is
/// imported: it has a stub and a slot in the global offset table, and may be missing where it is a
/// weak reference.
pub proof fn law_macho_undefined_names_are_imported(
    objects: Seq<ObjectModel>,
    names: Map<Seq<char>, u64>,
    o: int,
    k: int,
)
    requires
        0 <= o < objects.len(),
        0 <= k < objects[o].symbols.len(),
        is_undefined(objects[o].symbols[k]),
        !names.dom().contains(objects[o].symbols[k].name),
    ensures
        ({
            let m = link::macho::imports_of(objects, names, TargetArch::AArch64);
            let x = objects[o].symbols[k].name;
            &&& m.undefined.contains(x) && m.got.contains(x)
            &&& objects[o].symbols[k].is_weak_ref ==> m.weak.contains(x)
        }),
{
    let x = objects[o].symbols[k].name;
    let none = ImportsModel { undefined: seq![], weak: seq![], got: seq![] };
    let first = link::macho::import_all_symbols(objects, names, 0, none);
    let second = link::macho::import_all_relocs(objects, names, 0, first);
    lemma_import_all_symbols(objects, names, 0, none, x);
    assert(is_undefined(objects[o].symbols[k]));
    lemma_import_all_relocs(objects, names, 0, first, x);
    lemma_add_names(second.undefined, second.got, 0, x);
}

/// Every name whose address a relocation of an AArch64 image loads from the global offset table has
/// a slot there, if the object does not define it.
pub proof fn law_macho_loaded_names_have_slots(
    objects: Seq<ObjectModel>,
    names: Map<Seq<char>, u64>,
    o: int,
    t: int,
    k: int,
    x: Seq<char>,
)
    requires
        0 <= o < objects.len(),
        0 <= t < objects[o].sections.len(),
        0 <= k < relocs_in(objects[o], t).len(),
        loads_slot(objects[o].symbols, relocs_in(objects[o], t)[k], x),
    ensures
        link::macho::imports_of(objects, names, TargetArch::AArch64).got.contains(x),
{
    let none = ImportsModel { undefined: seq![], weak: seq![], got: seq![] };
    let first = link::macho::import_all_symbols(objects, names, 0, none);
    let second = link::macho::import_all_relocs(objects, names, 0, first);
    lemma_import_all_relocs(objects, names, 0, first, x);
    assert(second.got.contains(x));
    let j = second.got.index_of(x);
    assert(second.got[j] == x);
    lemma_add_names(second.undefined, second.got, 0, x);
}

} // verus!

//! The global offset table of an ELF image.
use vstd::prelude::*;
use crate::arch::TargetArch;
use crate::bytes;
use crate::elf::{RelaEntry, SHT_RELA};
use crate::elf::reloc_type::R_X86_64_GOTPCREL;
use crate::link::LayoutModel;
use crate::link::elf_link;
use crate::link::elf_link::ParsedModel;
use crate::link::elf_symbols;
use crate::names;
use crate::reading_laws;

verus! {

proof fn lemma_filled_len(
    data: Seq<u8>,
    names: Seq<Seq<char>>,
    addrs: Map<Seq<char>, u64>,
    i: nat,
)
    ensures
        elf_link::filled_got(data, names, addrs, i).len() == data.len(),
    decreases names.len() - i,
{
    if i < names.len() {
        let next = if addrs.dom().contains(names[i as int]) {
            bytes::patch(data, (i * 8) as int, bytes::le64(addrs[names[i as int]]))
        } else {
            data
        };
        lemma_filled_len(next, names, addrs, i + 1);
    }
}

/// The slots in front of `i` are not changed.
proof fn lemma_filled_keeps(
    data: Seq<u8>,
    names: Seq<Seq<char>>,
    addrs: Map<Seq<char>, u64>,
    i: nat,
    b: int,
)
    requires
        0 <= b < i * 8,
        b < data.len(),
    ensures
        elf_link::filled_got(data, names, addrs, i)[b] == data[b],
    decreases names.len() - i,
{
    broadcast use bytes::group_le_len;
    if i < names.len() {
        let next = if addrs.dom().contains(names[i as int]) {
            bytes::patch(data, (i * 8) as int, bytes::le64(addrs[names[i as int]]))
        } else {
            data
        };
        lemma_filled_keeps(next, names, addrs, i + 1, b);
    }
}

/// Each slot holds the address of its name, or zero.
proof fn lemma_slot_is_filled(
    data: Seq<u8>,
    names: Seq<Seq<char>>,
    addrs: Map<Seq<char>, u64>,
    i: nat,
    k: nat,
)
    requires
        i <= k < names.len(),
        data.len() == 8 * names.len(),
        forall|b: int| i * 8 <= b < data.len() ==> data[b] == 0,
    ensures
        bytes::u64_at(elf_link::filled_got(data, names, addrs, i), (8 * k) as int)
            == if addrs.dom().contains(names[k as int]) {
            addrs[names[k as int]]
        } else {
            0
        },
    decreases k - i,
{
    broadcast use bytes::group_le_len;
    let next = if addrs.dom().contains(names[i as int]) {
        bytes::patch(data, (i * 8) as int, bytes::le64(addrs[names[i as int]]))
    } else {
        data
    };
    if i < k {
        lemma_slot_is_filled(next, names, addrs, i + 1, k);
    } else {
        let done = elf_link::filled_got(next, names, addrs, i + 1);
        let at = (8 * k) as int;
        assert forall|b: int| at <= b < at + 8 implies done[b] == #[trigger] next[b] by {
            lemma_filled_keeps(next, names, addrs, i + 1, b);
        }
        assert forall|b: int| 0 <= b < 8 implies done[at + b] == #[trigger] next[at + b] by {}
        bytes::lemma_same_u64(done, at, next, at);
        if addrs.dom().contains(names[i as int]) {
            bytes::lemma_patched_u64(data, at, addrs[names[i as int]]);
        } else {
            reading_laws::law_integers_are_sums(next, at);
            reading_laws::law_integers_are_sums(next, at + 4);
            assert(next[at] == 0 && next[at + 1] == 0 && next[at + 2] == 0 && next[at + 3] == 0);
            assert(next[at + 4] == 0 && next[at + 5] == 0 && next[at + 6] == 0 && next[at + 7]
                == 0);
        }
    }
}

/// Whether a slot is that of a name, in a table at `base`.
spec fn is_slot(names: Seq<Seq<char>>, base: u64, name: Seq<char>, slot: u64, k: int) -> bool {
    0 <= k < names.len() && names[k] == name && slot == (base + 8 * k) as u64
}

proof fn lemma_slots_from(
    names: Seq<Seq<char>>,
    base: u64,
    i: nat,
    m: Map<Seq<char>, u64>,
    name: Seq<char>,
)
    requires
        i <= names.len(),
    ensures
        ({
            let r = elf_link::slots_from(names, base, i, m);
            &&& r.dom().contains(name) <==> m.dom().contains(name) || exists|k: int|
                i <= k < names.len() && #[trigger] names[k] == name
            &&& r.dom().contains(name) ==> m.dom().contains(name) && r[name] == m[name]
                || exists|k: int| #[trigger] is_slot(names, base, name, r[name], k)
        }),
    decreases names.len() - i,
{
    if i < names.len() {
        let next = m.insert(names[i as int], (base + 8 * i) as u64);
        lemma_slots_from(names, base, i + 1, next, name);
        let r = elf_link::slots_from(names, base, i, m);
        if name == names[i as int] {
            assert(is_slot(names, base, name, (base + 8 * i) as u64, i as int));
        }
    }
}

/// The global offset table stands behind the layout. The slot of each name in it holds the address
/// of the name, or zero where the name has none.
pub proof fn law_got_slots_hold_addresses(
    objects: Seq<ParsedModel>,
    l: LayoutModel,
    addrs: Map<Seq<char>, u64>,
    name: Seq<char>,
)
    requires
        elf_link::with_got(objects, l, addrs, TargetArch::X86_64) is Ok,
        elf_link::with_got(objects, l, addrs, TargetArch::X86_64)->Ok_0.slots.dom().contains(name),
    ensures
        ({
            let t = elf_link::with_got(objects, l, addrs, TargetArch::X86_64)->Ok_0;
            let got = t.layout.sections.last();
            let slot = t.slots[name];
            &&& t.layout.sections.len() == l.sections.len() + 1
            &&& t.layout.sections.drop_last() == l.sections
            &&& got.name == ".got"@
            &&& got.vaddr <= slot && slot + 8 <= got.vaddr + got.data.len()
            &&& (slot - got.vaddr) % 8 == 0
            &&& bytes::u64_at(got.data, slot - got.vaddr) == if addrs.dom().contains(name) {
                addrs[name]
            } else {
                0
            }
        }),
{
    let t = elf_link::with_got(objects, l, addrs, TargetArch::X86_64)->Ok_0;
    let names = elf_link::got_names_in_objects(objects, 0, seq![]);
    let base = t.layout.sections.last().vaddr;
    let zeros = bytes::zeros((names.len() * 8) as int);
    let none: Map<Seq<char>, u64> = Map::empty();
    lemma_slots_from(names, base, 0, none, name);
    let k = choose|k: int| #[trigger] is_slot(names, base, name, t.slots[name], k);
    assert(is_slot(names, base, name, t.slots[name], k));
    lemma_filled_len(zeros, names, addrs, 0);
    lemma_slot_is_filled(zeros, names, addrs, 0, k as nat);
    assert(t.layout.sections.drop_last() =~= l.sections);
}

proof fn lemma_got_names_from(
    names: Seq<Seq<char>>,
    relas: Seq<RelaEntry>,
    i: nat,
    found: Seq<Seq<char>>,
    name: Seq<char>,
)
    requires
        found.contains(name) || exists|k: int|
            i <= k < relas.len() && (#[trigger] relas[k]).r_type == 9 && relas[k].r_sym
                < names.len() && names[relas[k].r_sym as int] == name,
        name.len() != 0,
    ensures
        elf_symbols::got_names_from(names, relas, i, found).contains(name),
    decreases relas.len() - i,
{
    if i < relas.len() {
        let rel = relas[i as int];
        let next = if rel.r_type == R_X86_64_GOTPCREL && rel.r_sym < names.len()
            && names[rel.r_sym as int].len() != 0 {
            names::add_name(found, names[rel.r_sym as int])
        } else {
            found
        };
        names::law_add_name(found, names[rel.r_sym as int], name);
        lemma_got_names_from(names, relas, i + 1, next, name);
    }
}

/// Whether the relocation `k` of the section `r` of an object looks a name up in the global offset
/// table.
pub open spec fn looks_up(obj: ParsedModel, r: int, k: int, name: Seq<char>) -> bool {
    let symbols = elf_symbols::symbol_names(obj.data, obj.elf.sections);
    let relas = crate::elf::relas_of(obj.data, obj.elf.sections[r]);
    &&& 0 <= r < obj.elf.sections.len()
    &&& obj.elf.sections[r].sh_type == 4
    &&& relas is Ok && 0 <= k < relas->Ok_0.len()
    &&& relas->Ok_0[k].r_type == 9
    &&& symbols is Ok && relas->Ok_0[k].r_sym < symbols->Ok_0.len()
    &&& symbols->Ok_0[relas->Ok_0[k].r_sym as int] == name
    &&& name.len() > 0
}

proof fn lemma_got_names_in_sections(
    obj: ParsedModel,
    names: Seq<Seq<char>>,
    i: nat,
    found: Seq<Seq<char>>,
    r: int,
    k: int,
    name: Seq<char>,
)
    requires
        name.len() != 0,
        found.contains(name) || i <= r && looks_up(obj, r, k, name),
        names == elf_symbols::symbol_names(obj.data, obj.elf.sections)->Ok_0,
    ensures
        elf_symbols::got_names_in_sections(obj.data, obj.elf.sections, names, i, found).contains(
            name,
        ),
    decreases obj.elf.sections.len() - i,
{
    if i < obj.elf.sections.len() {
        let sh = obj.elf.sections[i as int];
        let next = if sh.sh_type == SHT_RELA {
            match crate::elf::relas_of(obj.data, sh) {
                Ok(relas) => elf_symbols::got_names_from(names, relas, 0, found),
                Err(_) => found,
            }
        } else {
            found
        };
        if sh.sh_type == SHT_RELA {
            if let Ok(relas) = crate::elf::relas_of(obj.data, sh) {
                if found.contains(name) || i == r {
                    if i == r && !found.contains(name) {
                        assert(relas[k].r_type == 9);
                    }
                    lemma_got_names_from(names, relas, 0, found, name);
                }
            }
        }
        lemma_got_names_in_sections(obj, names, i + 1, next, r, k, name);
    }
}

proof fn lemma_got_names_in_objects(
    objects: Seq<ParsedModel>,
    i: nat,
    found: Seq<Seq<char>>,
    o: int,
    r: int,
    k: int,
    name: Seq<char>,
)
    requires
        name.len() != 0,
        found.contains(name) || i <= o < objects.len() && looks_up(objects[o], r, k, name),
    ensures
        elf_link::got_names_in_objects(objects, i, found).contains(name),
    decreases objects.len() - i,
{
    if i < objects.len() {
        let obj = objects[i as int];
        let next = elf_symbols::got_names_of(obj.data, obj.elf.sections, found);
        if found.contains(name) || i == o {
            if let Ok(names) = elf_symbols::symbol_names(obj.data, obj.elf.sections) {
                lemma_got_names_in_sections(obj, names, 0, found, r, k, name);
            }
        }
        lemma_got_names_in_objects(objects, i + 1, next, o, r, k, name);
    }
}

/// Every name that a relocation of an object looks up in the global offset table has a slot there.
pub proof fn law_got_has_needed_names(
    objects: Seq<ParsedModel>,
    l: LayoutModel,
    addrs: Map<Seq<char>, u64>,
    o: int,
    r: int,
    k: int,
    name: Seq<char>,
)
    requires
        elf_link::with_got(objects, l, addrs, TargetArch::X86_64) is Ok,
        0 <= o < objects.len(),
        looks_up(objects[o], r, k, name),
    ensures
        elf_link::with_got(objects, l, addrs, TargetArch::X86_64)->Ok_0.slots.dom().contains(name),
{
    let t = elf_link::with_got(objects, l, addrs, TargetArch::X86_64)->Ok_0;
    let empty: Seq<Seq<char>> = seq![];
    let names = elf_link::got_names_in_objects(objects, 0, empty);
    lemma_got_names_in_objects(objects, 0, empty, o, r, k, name);
    let none: Map<Seq<char>, u64> = Map::empty();
    lemma_slots_from(names, t.layout.sections.last().vaddr, 0, none, name);
    let j = names.index_of(name);
    assert(names[j] == name);
}

} // verus!

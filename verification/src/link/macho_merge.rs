//! Merging the sections of several Mach-O objects.
use vstd::prelude::*;
use vstd::string::*;
use std::collections::HashMap;
use crate::bytes::push_bytes;
use crate::link;
use crate::link::{
    LayoutModel, MergedLayout, MergedModel, MergedSection, add_contribution, empty_layout,
    gathered_len, push_section,
};
use crate::link::macho::{
    Placing, SEG_BASE, align_exp_up, is_mergeable_section, merged_section_name_for_lookup,
    section_align,
};
use crate::macho::{Macho64Object, ObjectModel};
use crate::model;
use crate::order;
use crate::order::sorted_names;
use crate::text::str_eq;

verus! {

broadcast use vstd::std_specs::hash::group_hash_axioms;

/// The merged sections so far, without addresses, and where the sections of each object stand in
/// them, under the low eight bits of their numbers.
pub struct Gathering {
    pub acc: LayoutModel,
    pub offs: Seq<Map<u8, u64>>,
}

/// `g` with the section number `k` of the object `o`.
pub open spec fn gather_section(objects: Seq<ObjectModel>, o: nat, k: nat, g: Gathering) -> Option<
    Gathering,
> {
    let obj = objects[o as int];
    let sec = obj.sections[k as int];
    if !link::macho::mergeable(sec) {
        Some(g)
    } else {
        let name = link::macho::merged_name_of(sec);
        let exp = link::macho::align_exponent(sec);
        match link::macho::aligned_to_exponent(link::gathered(g.acc, name) as u64, exp) {
            None => None,
            Some(offset) => if offset + sec.size > u64::MAX {
                None
            } else {
                Some(
                    Gathering {
                        acc: link::contribute(
                            g.acc,
                            name,
                            offset,
                            link::macho::section_bytes(obj.data, sec),
                            exp,
                            link::macho::section_flags(sec.sectname),
                        ),
                        offs: g.offs.update(
                            o as int,
                            g.offs[o as int].insert(((k + 1) % 256) as u8, offset),
                        ),
                    },
                )
            },
        }
    }
}

/// `g` with the sections of the object `o` from number `k` on.
pub open spec fn gather_object(objects: Seq<ObjectModel>, o: nat, k: nat, g: Gathering) -> Option<
    Gathering,
>
    decreases objects[o as int].sections.len() - k,
{
    if k >= objects[o as int].sections.len() {
        Some(g)
    } else {
        match gather_section(objects, o, k, g) {
            Some(next) => gather_object(objects, o, k + 1, next),
            None => None,
        }
    }
}

/// `g` with the sections of the objects from `o` on.
pub open spec fn gather_from(objects: Seq<ObjectModel>, o: nat, g: Gathering) -> Option<Gathering>
    decreases objects.len() - o,
{
    if o >= objects.len() {
        Some(g)
    } else {
        match gather_object(objects, o, 0, g) {
            Some(next) => gather_from(objects, o + 1, next),
            None => None,
        }
    }
}

/// Before the first section.
pub open spec fn nothing_gathered(n: nat) -> Gathering {
    Gathering { acc: link::no_sections(), offs: Seq::new(n, |i: int| Map::empty()) }
}

/// The maps of a vector of hash maps.
pub open spec fn offset_maps(v: Seq<HashMap<u8, u64>>) -> Seq<Map<u8, u64>> {
    Seq::new(v.len(), |i: int| v[i]@)
}

fn gather_one(
    obj: &Macho64Object,
    k: usize,
    acc: &mut MergedLayout,
    offs: &mut HashMap<u8, u64>,
    Ghost(objects): Ghost<Seq<ObjectModel>>,
    Ghost(o): Ghost<nat>,
    Ghost(all): Ghost<Seq<Map<u8, u64>>>,
) -> (r: bool)
    requires
        o < objects.len(),
        objects[o as int] == obj@,
        k < obj.sections@.len(),
        all.len() == objects.len(),
        all[o as int] == old(offs)@,
        link::names_in_range(old(acc)@),
    ensures
        match gather_section(objects, o, k as nat, (Gathering { acc: old(acc)@, offs: all })) {
            Some(g) => r && final(acc)@ == g.acc && g.offs == all.update(o as int, final(offs)@)
                && link::names_in_range(final(acc)@),
            None => !r,
        },
{
    let sec = &obj.sections[k];
    assert(obj@.sections[k as int] == sec@);
    assert(k < obj.sections.len());
    if !is_mergeable_section(sec) {
        assert(all.update(o as int, offs@) =~= all);
        return true;
    }
    let name = merged_section_name_for_lookup(sec.segname.as_str(), sec.sectname.as_str());
    let exp: u64 = section_align(sec, name.as_str());
    let current: u64 = gathered_len(acc, name.as_str());
    proof {
        link::macho::lemma_aligned_to_exponent(current, exp);
    }
    let offset: u64 = match align_exp_up(current, exp) {
        Some(v) => v,
        None => {
            return false;
        },
    };
    if sec.size > u64::MAX - offset {
        return false;
    }
    let data = link::macho::read_section_data(obj, sec);
    let flags: u64 = if str_eq(sec.sectname.as_str(), "__text") {
        6
    } else {
        2
    };
    add_contribution(acc, name.as_str(), offset, &data, exp, flags);
    let number: u8 = ((k + 1) % 256) as u8;
    offs.insert(number, offset);
    true
}

fn gather_sections(objects: &Vec<Macho64Object>) -> (r: Option<(MergedLayout, Vec<HashMap<u8,
    u64>>)>)
    ensures
        match gather_from(model::views(objects@), 0, nothing_gathered(objects@.len())) {
            Some(g) => r is Some && (r->0).0@ == g.acc && offset_maps((r->0).1@) == g.offs
                && link::names_in_range((r->0).0@) && (r->0).1@.len() == objects@.len(),
            None => r is None,
        },
{
    let ghost models = model::views(objects@);
    let ghost total = gather_from(models, 0, nothing_gathered(objects@.len()));
    let mut acc = empty_layout();
    let mut maps: Vec<HashMap<u8, u64>> = Vec::new();
    let n: usize = objects.len();
    let ghost mut offs: Seq<Map<u8, u64>> = nothing_gathered(n as nat).offs;
    let mut o: usize = 0;
    while o < n
        invariant
            o <= n,
            n == objects@.len(),
            models == model::views(objects@),
            maps@.len() == o,
            offs.len() == n,
            forall|i: int| 0 <= i < o ==> maps@[i]@ == #[trigger] offs[i],
            forall|i: int| o <= i < n ==> #[trigger] offs[i] == Map::<u8, u64>::empty(),
            link::names_in_range(acc@),
            total == gather_from(models, o as nat, Gathering { acc: acc@, offs }),
            total == gather_from(model::views(objects@), 0, nothing_gathered(objects@.len())),
        decreases n - o,
    {
        let obj = &objects[o];
        assert(models[o as int] == obj@);
        let mut map: HashMap<u8, u64> = HashMap::new();
        let ghost first = Gathering { acc: acc@, offs };
        let count: usize = obj.sections.len();
        let mut k: usize = 0;
        while k < count
            invariant
                k <= count,
                count == obj.sections@.len(),
                o < n,
                n == models.len(),
                models[o as int] == obj@,
                offs.len() == n,
                offs[o as int] == map@,
                link::names_in_range(acc@),
                offs == first.offs.update(o as int, map@),
                first.offs.len() == n,
                gather_object(models, o as nat, 0, first) == gather_object(
                    models,
                    o as nat,
                    k as nat,
                    Gathering { acc: acc@, offs },
                ),
                gather_from(models, o as nat, first) == total,
                total == gather_from(model::views(objects@), 0, nothing_gathered(objects@.len())),
            decreases count - k,
        {
            if !gather_one(obj, k, &mut acc, &mut map, Ghost(models), Ghost(o as nat),
                Ghost(offs)) {
                return None;
            }
            proof {
                offs = offs.update(o as int, map@);
                assert(offs =~= first.offs.update(o as int, map@));
            }
            k = k + 1;
        }
        maps.push(map);
        o = o + 1;
    }
    assert(offset_maps(maps@) =~= offs);
    Some((acc, maps))
}

/// The names of the sections that come first, in their order.
pub open spec fn known_names() -> Seq<Seq<char>> {
    seq![
        link::macho::merged_name("__TEXT"@, "__text"@),
        link::macho::merged_name("__TEXT"@, "__cstring"@),
        link::macho::merged_name("__TEXT"@, "__const"@),
        link::macho::merged_name("__TEXT"@, "__rodata"@),
        link::macho::merged_name("__TEXT"@, "__literal4"@),
        link::macho::merged_name("__TEXT"@, "__literal8"@),
        link::macho::merged_name("__TEXT"@, "__literal16"@),
        link::macho::merged_name("__TEXT"@, "__literals"@),
        link::macho::merged_name("__TEXT"@, "__gcc_except_tab"@),
        link::macho::merged_name("__DATA"@, "__const"@),
        link::macho::merged_name("__DATA_DIRTY"@, "__const"@),
        link::macho::merged_name("__DATA"@, "__data"@),
        link::macho::merged_name("__DATA_DIRTY"@, "__data"@),
        link::macho::merged_name("__DATA"@, "__thread_vars"@),
        link::macho::merged_name("__DATA_DIRTY"@, "__thread_vars"@),
        link::macho::merged_name("__DATA"@, "__thread_data"@),
        link::macho::merged_name("__DATA_DIRTY"@, "__thread_data"@),
        link::macho::merged_name("__DATA"@, "__thread_bss"@),
        link::macho::merged_name("__DATA_DIRTY"@, "__thread_bss"@),
        link::macho::merged_name("__DATA"@, "__bss"@),
        link::macho::merged_name("__DATA_DIRTY"@, "__bss"@),
    ]
}

fn known_section_names() -> (r: Vec<String>)
    ensures
        model::views(r@) == known_names(),
{
    broadcast use model::group_views;
    let mut out: Vec<String> = Vec::new();
    out.push(merged_section_name_for_lookup("__TEXT", "__text"));
    out.push(merged_section_name_for_lookup("__TEXT", "__cstring"));
    out.push(merged_section_name_for_lookup("__TEXT", "__const"));
    out.push(merged_section_name_for_lookup("__TEXT", "__rodata"));
    out.push(merged_section_name_for_lookup("__TEXT", "__literal4"));
    out.push(merged_section_name_for_lookup("__TEXT", "__literal8"));
    out.push(merged_section_name_for_lookup("__TEXT", "__literal16"));
    out.push(merged_section_name_for_lookup("__TEXT", "__literals"));
    out.push(merged_section_name_for_lookup("__TEXT", "__gcc_except_tab"));
    out.push(merged_section_name_for_lookup("__DATA", "__const"));
    out.push(merged_section_name_for_lookup("__DATA_DIRTY", "__const"));
    out.push(merged_section_name_for_lookup("__DATA", "__data"));
    out.push(merged_section_name_for_lookup("__DATA_DIRTY", "__data"));
    out.push(merged_section_name_for_lookup("__DATA", "__thread_vars"));
    out.push(merged_section_name_for_lookup("__DATA_DIRTY", "__thread_vars"));
    out.push(merged_section_name_for_lookup("__DATA", "__thread_data"));
    out.push(merged_section_name_for_lookup("__DATA_DIRTY", "__thread_data"));
    out.push(merged_section_name_for_lookup("__DATA", "__thread_bss"));
    out.push(merged_section_name_for_lookup("__DATA_DIRTY", "__thread_bss"));
    out.push(merged_section_name_for_lookup("__DATA", "__bss"));
    out.push(merged_section_name_for_lookup("__DATA_DIRTY", "__bss"));
    out
}

/// `st` with the gathered sections named from `i` on placed one behind the other.
pub open spec fn place_named(
    acc: LayoutModel,
    names: Seq<Seq<char>>,
    i: nat,
    st: Placing,
) -> Option<Placing>
    decreases names.len() - i,
{
    if i >= names.len() {
        Some(st)
    } else {
        let name = names[i as int];
        if link::gathered(acc, name) == 0 {
            place_named(acc, names, i + 1, st)
        } else {
            let s = acc.sections[acc.by_name[name] as int];
            match link::macho::aligned_to_exponent(st.vaddr, s.align) {
                None => None,
                Some(vaddr) => if vaddr + s.data.len() > u64::MAX {
                    None
                } else {
                    place_named(
                        acc,
                        names,
                        i + 1,
                        Placing {
                            layout: link::with_section(st.layout, MergedModel { name, vaddr, ..s }),
                            vaddr: (vaddr + s.data.len()) as u64,
                        },
                    )
                },
            }
        }
    }
}

fn place_gathered(
    acc: &MergedLayout,
    names: &Vec<String>,
    layout: &mut MergedLayout,
    start: u64,
) -> (r: Option<u64>)
    requires
        link::names_in_range(acc@),
        link::layout_ok(old(layout)@),
        link::macho::ends_before(old(layout)@, start as int),
    ensures
        match place_named(
            acc@,
            model::views(names@),
            0,
            (Placing { layout: old(layout)@, vaddr: start }),
        ) {
            Some(p) => r == Some(p.vaddr) && final(layout)@ == p.layout
                && link::layout_ok(final(layout)@)
                && link::macho::ends_before(final(layout)@, p.vaddr as int),
            None => r is None,
        },
{
    let ghost total = place_named(
        acc@,
        model::views(names@),
        0,
        Placing { layout: layout@, vaddr: start },
    );
    let mut vaddr: u64 = start;
    let mut i: usize = 0;
    while i < names.len()
        invariant
            i <= names@.len(),
            link::names_in_range(acc@),
            link::layout_ok(layout@),
            link::macho::ends_before(layout@, vaddr as int),
            total == place_named(
                acc@,
                model::views(names@),
                i as nat,
                Placing { layout: layout@, vaddr },
            ),
            total == place_named(
                acc@,
                model::views(names@),
                0,
                Placing { layout: old(layout)@, vaddr: start },
            ),
        decreases names@.len() - i,
    {
        assert(model::views(names@)[i as int] == names@[i as int]@);
        if let Some(found) = acc.section_by_name.get(names[i].as_str()) {
            let idx: usize = *found;
            assert(acc@.by_name.dom().contains(names@[i as int]@));
            assert(acc@.sections[idx as int] == acc.sections@[idx as int]@);
            if acc.sections[idx].data.len() > 0 {
                let s = &acc.sections[idx];
                let align: u64 = s.align;
                proof {
                    link::macho::lemma_aligned_to_exponent(vaddr, align);
                }
                vaddr = match align_exp_up(vaddr, align) {
                    Some(v) => v,
                    None => {
                        return None;
                    },
                };
                let size: u64 = s.data.len() as u64;
                if size > u64::MAX - vaddr {
                    return None;
                }
                let mut data: Vec<u8> = Vec::new();
                push_bytes(&mut data, s.data.as_slice());
                assert(data@ =~= s.data@);
                let ghost before = layout@;
                push_section(
                    layout,
                    MergedSection { name: names[i].clone(), data, vaddr, flags: s.flags, align },
                );
                proof {
                    link::lemma_with_section_ok(before, layout@.sections.last());
                }
                vaddr = vaddr + size;
            }
        }
        i = i + 1;
    }
    Some(vaddr)
}

/// The names of the first `n` gathered sections that have no place yet.
pub open spec fn unplaced(acc: LayoutModel, l: LayoutModel, n: nat) -> Seq<Seq<char>>
    decreases n,
{
    if n == 0 {
        seq![]
    } else {
        let before = unplaced(acc, l, (n - 1) as nat);
        let name = acc.sections[n - 1].name;
        if l.by_name.dom().contains(name) {
            before
        } else {
            before.push(name)
        }
    }
}

fn unplaced_names(acc: &MergedLayout, layout: &MergedLayout) -> (r: Vec<String>)
    ensures
        model::views(r@) == unplaced(acc@, layout@, acc@.sections.len()),
{
    broadcast use model::group_views;
    let mut out: Vec<String> = Vec::new();
    let mut i: usize = 0;
    while i < acc.sections.len()
        invariant
            i <= acc.sections@.len(),
            model::views(out@) == unplaced(acc@, layout@, i as nat),
        decreases acc.sections@.len() - i,
    {
        broadcast use model::group_views;
        assert(acc@.sections[i as int] == acc.sections@[i as int]@);
        if !layout.section_by_name.contains_key(acc.sections[i].name.as_str()) {
            out.push(acc.sections[i].name.clone());
        }
        i = i + 1;
    }
    out
}

/// The placed sections: the known ones in their order, then the others in the order of their
/// names.
pub open spec fn place_all(acc: LayoutModel) -> Option<LayoutModel> {
    match place_named(
        acc,
        known_names(),
        0,
        Placing { layout: link::no_sections(), vaddr: SEG_BASE },
    ) {
        None => None,
        Some(known) => match place_named(
            acc,
            order::sort_names(unplaced(acc, known.layout, acc.sections.len())),
            0,
            known,
        ) {
            None => None,
            Some(all) => Some(all.layout),
        },
    }
}

/// Whether all objects are for the CPU type of the first.
pub open spec fn same_cputype(objects: Seq<ObjectModel>) -> bool {
    forall|i: int|
        0 <= i < objects.len() ==> (#[trigger] objects[i]).header.cputype
            == objects[0].header.cputype
}

/// The layout of several objects, and where the sections of each stand in it.
pub open spec fn multi_layout(objects: Seq<ObjectModel>) -> Result<
    (LayoutModel, Seq<Map<u8, u64>>),
    Seq<char>,
> {
    if objects.len() == 0 {
        Err("no objects to merge"@)
    } else if !same_cputype(objects) {
        Err("Mach-O objects must have same cputype"@)
    } else {
        match gather_from(objects, 0, nothing_gathered(objects.len())) {
            None => Err(link::layout_too_large()),
            Some(g) => match place_all(g.acc) {
                None => Err(link::layout_too_large()),
                Some(l) => Ok((l, g.offs)),
            },
        }
    }
}

/// Merges the sections of several objects.
pub fn merge_macho_sections_multi(objects: &Vec<Macho64Object>) -> (r: Result<
    (MergedLayout, Vec<HashMap<u8, u64>>),
    String,
>)
    ensures
        match multi_layout(model::views(objects@)) {
            Ok((l, offs)) => r is Ok && (r->Ok_0).0@ == l && offset_maps((r->Ok_0).1@) == offs
                && link::layout_ok(l) && offs.len() == objects@.len(),
            Err(e) => r is Err && r->Err_0@ == e,
        },
{
    if objects.len() == 0 {
        return Err("no objects to merge".to_string());
    }
    let cputype: u32 = objects[0].header.cputype;
    assert(model::views(objects@)[0] == objects@[0]@);
    let mut i: usize = 1;
    while i < objects.len()
        invariant
            1 <= i <= objects@.len(),
            cputype == model::views(objects@)[0].header.cputype,
            forall|k: int|
                0 <= k < i ==> (#[trigger] model::views(objects@)[k]).header.cputype == cputype,
        decreases objects@.len() - i,
    {
        assert(model::views(objects@)[i as int] == objects@[i as int]@);
        if objects[i].header.cputype != cputype {
            return Err("Mach-O objects must have same cputype".to_string());
        }
        i = i + 1;
    }
    let (acc, offs) = match gather_sections(objects) {
        Some(g) => g,
        None => {
            return Err("layout exceeds the address space".to_string());
        },
    };
    let mut layout = empty_layout();
    let known = known_section_names();
    let vaddr: u64 = match place_gathered(&acc, &known, &mut layout, SEG_BASE) {
        Some(v) => v,
        None => {
            return Err("layout exceeds the address space".to_string());
        },
    };
    let extra = sorted_names(&unplaced_names(&acc, &layout));
    match place_gathered(&acc, &extra, &mut layout, vaddr) {
        Some(_) => Ok((layout, offs)),
        None => Err("layout exceeds the address space".to_string()),
    }
}

} // verus!

//! Linking ELF objects.
use vstd::prelude::*;
use vstd::string::*;
use crate::arch;
use crate::arch::TargetArch;
use crate::bytes;
use crate::bytes::{push_zeros_u64, write_u64};
use crate::elf::{Elf64Header, ElfModel, SectionHeader, parse_elf64_slice};
use crate::link;
use crate::link::{
    DynamicLinkInfo, DynamicModel, LayoutModel, LinkModel, LinkResult, MergedLayout, MergedModel,
    MergedSection, ObjectSectionContrib, ResolvedSymbol, push_section,
};
use crate::link::dynamic;
use crate::link::dynamic::{
    DynamicPlaces, build_dynamic_section_content, build_dynamic_symbols, build_plt,
    build_rela_plt, build_sysv_hash,
};
use crate::link::elf_merge;
use crate::link::elf_merge::{
    SHF_ALLOC, SHF_EXECINSTR, SHF_WRITE, merge_sections_multi_object,
    merge_sections_single_object,
};
use crate::link::elf_symbols;
use crate::link::elf_symbols::{
    add_known_addresses, collect_gotpcrel_symbol_names, resolve_symbols,
    resolve_symbols_with_offsets, symbol_names_by_index,
};
use crate::link::relocate;
use crate::link::resolver;
use crate::link::resolver::{LibraryModel, LibraryResolver, ResolvedLibrary};
use crate::model;
use crate::names;
use crate::names::{NameList, NameMap};
use crate::platform::TargetPlatform;
use crate::segment;
use crate::segment::{align_up_u64, checked_align_up};
use crate::text;
use crate::text::{str_eq, then_number};

verus! {

/// An object whose headers and section names have been read.
pub struct ParsedObject {
    pub data: Vec<u8>,
    pub header: Elf64Header,
    pub sections: Vec<SectionHeader>,
    pub names: Vec<String>,
}

/// The view of an object that has been read.
pub struct ParsedModel {
    pub data: Seq<u8>,
    pub elf: ElfModel,
}

impl View for ParsedObject {
    type V = ParsedModel;

    open spec fn view(&self) -> ParsedModel {
        ParsedModel {
            data: self.data@,
            elf: ElfModel {
                header: self.header,
                sections: self.sections@,
                names: model::views(self.names@),
            },
        }
    }
}

/// Reads the headers and the section names of an object.
pub fn parse_object(data: Vec<u8>) -> (r: Result<ParsedObject, String>)
    ensures
        model::outcome(r) == match crate::elf::elf_of(data@) {
            Ok(elf) => Ok((ParsedModel { data: data@, elf })),
            Err(e) => Err(e),
        },
{
    match parse_elf64_slice(data.as_slice()) {
        Ok((header, sections, names)) => Ok(ParsedObject { data, header, sections, names }),
        Err(e) => Err(e),
    }
}

/// The slots that the relocations of an architecture go through: only those of x86-64 do.
pub open spec fn usable_slots(arch: TargetArch, slots: Seq<Option<u64>>) -> Seq<Option<u64>> {
    if arch == TargetArch::X86_64 {
        slots
    } else {
        seq![]
    }
}

/// Applies the relocations of an object, as its architecture has them. `got_entries` tells where
/// the slot of each symbol in the global offset table is, `section_offset` where the object's part
/// of each merged section starts.
pub fn apply_relocations(
    arch: TargetArch,
    layout: &mut MergedLayout,
    data: &[u8],
    sections: &[SectionHeader],
    names: &[String],
    symbol_addrs: &[Option<u64>],
    got_entries: &[Option<u64>],
    section_offset: Option<&NameMap<u64>>,
) -> (r: Result<(), String>)
    requires
        link::names_in_range(old(layout)@),
    ensures
        relocate::relocation_outcome(
            r,
            final(layout)@,
            relocate::relocated_layout(
                arch,
                old(layout)@,
                data@,
                sections@,
                model::views(names@),
                symbol_addrs@,
                usable_slots(arch, got_entries@),
                relocate::offsets_view(section_offset),
            ),
        ),
        link::layout_ok(old(layout)@) ==> link::layout_ok(final(layout)@),
        link::names_in_range(final(layout)@),
{
    match arch {
        TargetArch::X86_64 => link::x86_64::apply_relocations(
            layout,
            data,
            sections,
            names,
            symbol_addrs,
            got_entries,
            section_offset,
        ),
        TargetArch::AArch64 => link::aarch64::apply_relocations(
            layout,
            data,
            sections,
            names,
            symbol_addrs,
            section_offset,
        ),
        TargetArch::RiscV => link::riscv::apply_relocations(
            layout,
            data,
            sections,
            names,
            symbol_addrs,
            section_offset,
        ),
    }
}

/// The layout of a single object and the symbols that others can see.
pub open spec fn merged_and_resolved(data: Seq<u8>) -> Result<
    (LayoutModel, Map<Seq<char>, ResolvedSymbol>),
    Seq<char>,
> {
    match crate::elf::elf_of(data) {
        Err(e) => Err(e),
        Ok(elf) => match elf_merge::elf_single_layout(data) {
            Err(e) => Err(e),
            Ok(l) => match elf_symbols::resolved_symbols(data, l, elf.sections, elf.names,
                Map::empty()) {
                Err(e) => Err(e),
                Ok(s) => Ok((l, s.visible)),
            },
        },
    }
}

/// Merges the sections of a single object and resolves its symbols.
pub fn merge_and_resolve(data: &[u8]) -> (r: Result<
    (MergedLayout, NameMap<ResolvedSymbol>),
    String,
>)
    ensures
        match merged_and_resolved(data@) {
            Ok((l, s)) => r is Ok && (r->Ok_0).0@ == l && (r->Ok_0).1@ == s && link::layout_ok(l),
            Err(e) => r is Err && r->Err_0@ == e,
        },
{
    let (_header, sections, names) = match parse_elf64_slice(data) {
        Ok(p) => p,
        Err(e) => {
            return Err(e);
        },
    };
    let layout = match merge_sections_single_object(data) {
        Ok(l) => l,
        Err(e) => {
            return Err(e);
        },
    };
    match resolve_symbols(data, &layout, sections.as_slice(), names.as_slice()) {
        Ok((symbols, _)) => Ok((layout, symbols)),
        Err(e) => Err(e),
    }
}

/// What linking a single object gives.
pub open spec fn elf_single_link(data: Seq<u8>) -> Result<LinkModel, Seq<char>> {
    match crate::elf::elf_of(data) {
        Err(e) => Err(e),
        Ok(elf) => match elf_merge::elf_single_layout(data) {
            Err(e) => Err(e),
            Ok(l) => match elf_symbols::resolved_symbols(data, l, elf.sections, elf.names,
                Map::empty()) {
                Err(e) => Err(e),
                Ok(s) => match arch::arch_of_machine(elf.header.e_machine) {
                    None => Err("unsupported machine "@
                        + text::decimal(elf.header.e_machine as nat)),
                    Some(arch) => {
                        let (done, error) = relocate::relocated_layout(
                            arch,
                            l,
                            data,
                            elf.sections,
                            elf.names,
                            s.addresses,
                            seq![],
                            Map::empty(),
                        );
                        match error {
                            Some(e) => Err(e),
                            None => Ok(
                                LinkModel {
                                    layout: done,
                                    e_machine: elf.header.e_machine,
                                    symbol_addrs: elf_symbols::known_addresses(s.visible),
                                    dynamic: None,
                                },
                            ),
                        }
                    },
                },
            },
        },
    }
}

/// Links a single object, without libraries.
pub fn link_single_object(data: &[u8]) -> (r: Result<LinkResult, String>)
    ensures
        model::outcome(r) == elf_single_link(data@),
        r is Ok ==> link::layout_ok(r->Ok_0.layout@),
{
    let (header, sections, names) = match parse_elf64_slice(data) {
        Ok(p) => p,
        Err(e) => {
            return Err(e);
        },
    };
    let mut layout = match merge_sections_single_object(data) {
        Ok(l) => l,
        Err(e) => {
            return Err(e);
        },
    };
    let (resolved, by_index) = match resolve_symbols(
        data,
        &layout,
        sections.as_slice(),
        names.as_slice(),
    ) {
        Ok(s) => s,
        Err(e) => {
            return Err(e);
        },
    };
    let arch = match TargetArch::from_elf_machine(header.e_machine) {
        Some(a) => a,
        None => {
            return Err(then_number("unsupported machine ", header.e_machine as u64));
        },
    };
    let no_slots: Vec<Option<u64>> = Vec::new();
    match apply_relocations(
        arch,
        &mut layout,
        data,
        sections.as_slice(),
        names.as_slice(),
        by_index.as_slice(),
        no_slots.as_slice(),
        None,
    ) {
        Ok(_) => {},
        Err(e) => {
            return Err(e);
        },
    }
    let mut symbol_addrs: NameMap<u64> = NameMap::new();
    add_known_addresses(&mut symbol_addrs, &resolved);
    assert(symbol_addrs@ =~= elf_symbols::known_addresses(resolved@));
    Ok(LinkResult { layout, e_machine: header.e_machine, symbol_addrs, dynamic: None })
}

/// A library that the command line asks for, with the file that was found for it.
#[derive(Debug, Clone)]
pub struct RequestedLibrary {
    pub name: String,
    pub found: Option<ResolvedLibrary>,
}

/// The view of a requested library.
pub struct RequestModel {
    pub name: Seq<char>,
    pub found: Option<LibraryModel>,
}

impl View for RequestedLibrary {
    type V = RequestModel;

    open spec fn view(&self) -> RequestModel {
        RequestModel { name: self.name@, found: model::view_opt(self.found) }
    }
}

/// Whether a requested library is shared: the C library always, others where a shared file was
/// found.
pub open spec fn is_shared(x: RequestModel) -> bool {
    x.name == "c"@ || x.name == "System"@ || (x.found matches Some(f) && !f.is_static)
}

/// Whether a shared library is requested.
pub open spec fn any_shared(libs: Seq<RequestModel>) -> bool {
    exists|i: int| 0 <= i < libs.len() && is_shared(#[trigger] libs[i])
}

fn has_shared_lib(libs: &[RequestedLibrary]) -> (r: bool)
    ensures
        r == any_shared(model::views(libs@)),
{
    let mut i: usize = 0;
    while i < libs.len()
        invariant
            i <= libs@.len(),
            forall|k: int| 0 <= k < i ==> !is_shared(#[trigger] model::views(libs@)[k]),
        decreases libs@.len() - i,
    {
        let x = &libs[i];
        assert(model::views(libs@)[i as int] == x@);
        let shared_file: bool = match &x.found {
            Some(f) => !f.is_static,
            None => false,
        };
        if str_eq(x.name.as_str(), "c") || str_eq(x.name.as_str(), "System") || shared_file {
            assert(is_shared(model::views(libs@)[i as int]));
            return true;
        }
        i = i + 1;
    }
    false
}

/// The names under which the image asks for the first `n` of the requested libraries.
pub open spec fn needed_names(libs: Seq<RequestModel>, platform: TargetPlatform, n: nat) -> Seq<
    Seq<char>,
>
    decreases n,
{
    if n == 0 {
        seq![]
    } else {
        let before = needed_names(libs, platform, (n - 1) as nat);
        let x = libs[n - 1];
        if x.name == "System"@ {
            before
        } else {
            before.push(
                match x.found {
                    Some(f) => f.soname,
                    None => resolver::soname_of(platform, x.name),
                },
            )
        }
    }
}

fn needed_libraries(libs: &[RequestedLibrary], platform: TargetPlatform) -> (r: Vec<String>)
    ensures
        model::views(r@) == needed_names(model::views(libs@), platform, libs@.len()),
{
    broadcast use model::group_views;
    let resolver = LibraryResolver { search_paths: Vec::new(), arch: TargetArch::X86_64, platform };
    let mut out: Vec<String> = Vec::new();
    let mut i: usize = 0;
    while i < libs.len()
        invariant
            i <= libs@.len(),
            resolver.platform == platform,
            model::views(out@) == needed_names(model::views(libs@), platform, i as nat),
        decreases libs@.len() - i,
    {
        broadcast use model::group_views;
        let x = &libs[i];
        assert(model::views(libs@)[i as int] == x@);
        if !str_eq(x.name.as_str(), "System") {
            let soname = match &x.found {
                Some(f) => f.soname.clone(),
                None => resolver.expected_soname(x.name.as_str()),
            };
            out.push(soname);
        }
        i = i + 1;
    }
    out
}

/// Where the parts of an object stand in the merged sections.
pub open spec fn part_offsets(parts: Map<Seq<char>, ObjectSectionContrib>) -> Map<Seq<char>, u64> {
    parts.map_values(|c: ObjectSectionContrib| c.offset_in_merged)
}

fn offsets_of_parts(parts: &NameMap<ObjectSectionContrib>) -> (r: NameMap<u64>)
    ensures
        r@ == part_offsets(parts@),
{
    let entries = parts.entries();
    let mut out: NameMap<u64> = NameMap::new();
    let mut i: usize = 0;
    while i < entries.len()
        invariant
            i <= entries@.len(),
            names::names_ascend(entries@),
            names::map_of(entries@) == parts@,
            forall|k: Seq<char>| #[trigger]
                out@.dom().contains(k) <==> exists|j: int|
                    0 <= j < i && (#[trigger] entries@[j]).0@ == k,
            forall|k: Seq<char>| #[trigger]
                out@.dom().contains(k) ==> parts@.dom().contains(k) && out@[k]
                    == parts@[k].offset_in_merged,
        decreases entries@.len() - i,
    {
        proof {
            names::lemma_entry(entries@, i as int);
        }
        let ghost prior = out@;
        let ghost key = entries@[i as int].0@;
        out.insert(entries[i].0.clone(), entries[i].1.offset_in_merged);
        assert forall|k: Seq<char>| #[trigger] out@.dom().contains(k) <==> exists|j: int|
            0 <= j < i + 1 && (#[trigger] entries@[j]).0@ == k by {
            if k == key {
                assert(entries@[i as int].0@ == k);
            } else {
                assert(out@.dom().contains(k) <==> prior.dom().contains(k));
            }
        }
        i = i + 1;
    }
    proof {
        assert forall|k: Seq<char>| out@.dom().contains(k) <==> part_offsets(parts@).dom().contains(k) by {
            if parts@.dom().contains(k) {
                let j = names::entry_of(entries@, k);
                assert(0 <= j < entries@.len() && entries@[j].0@ == k);
            }
        }
        assert(out@ =~= part_offsets(parts@));
    }
    out
}

/// The symbols that the objects from `i` on add: the first definition of a name counts.
pub struct GlobalTable {
    pub names: Map<Seq<char>, u64>,
    pub addresses: Seq<Seq<Option<u64>>>,
}

/// `g` with the symbols of the objects from `i` on.
pub open spec fn resolve_objects(
    objects: Seq<ParsedModel>,
    l: LayoutModel,
    parts: Seq<Map<Seq<char>, ObjectSectionContrib>>,
    i: nat,
    g: GlobalTable,
) -> Result<GlobalTable, Seq<char>>
    decreases objects.len() - i,
{
    if i >= objects.len() {
        Ok(g)
    } else {
        let obj = objects[i as int];
        match elf_symbols::resolved_symbols(
            obj.data,
            l,
            obj.elf.sections,
            obj.elf.names,
            part_offsets(parts[i as int]),
        ) {
            Err(e) => Err(e),
            Ok(s) => resolve_objects(
                objects,
                l,
                parts,
                i + 1,
                GlobalTable {
                    names: elf_symbols::known_addresses(s.visible).union_prefer_right(g.names),
                    addresses: g.addresses.push(s.addresses),
                },
            ),
        }
    }
}

/// The addresses of the symbols of each object.
pub open spec fn address_lists(v: Seq<Vec<Option<u64>>>) -> Seq<Seq<Option<u64>>> {
    Seq::new(v.len(), |i: int| v[i]@)
}

fn resolve_all(
    objects: &Vec<ParsedObject>,
    layout: &MergedLayout,
    parts: &Vec<NameMap<ObjectSectionContrib>>,
) -> (r: Result<(NameMap<u64>, Vec<Vec<Option<u64>>>), String>)
    requires
        link::names_in_range(layout@),
        parts@.len() == objects@.len(),
    ensures
        match resolve_objects(
            model::views(objects@),
            layout@,
            elf_merge::part_maps(parts@),
            0,
            (GlobalTable { names: Map::empty(), addresses: seq![] }),
        ) {
            Ok(g) => r is Ok && (r->Ok_0).0@ == g.names && address_lists((r->Ok_0).1@)
                == g.addresses && g.addresses.len() == objects@.len(),
            Err(e) => r is Err && r->Err_0@ == e,
        },
{
    let ghost models = model::views(objects@);
    let ghost maps = elf_merge::part_maps(parts@);
    let ghost first = GlobalTable { names: Map::empty(), addresses: seq![] };
    let ghost total = resolve_objects(models, layout@, maps, 0, first);
    let mut names: NameMap<u64> = NameMap::new();
    let mut addresses: Vec<Vec<Option<u64>>> = Vec::new();
    assert(address_lists(addresses@) =~= seq![]);
    let mut i: usize = 0;
    while i < objects.len()
        invariant
            i <= objects@.len(),
            addresses@.len() == i,
            parts@.len() == objects@.len(),
            link::names_in_range(layout@),
            models == model::views(objects@),
            maps == elf_merge::part_maps(parts@),
            first == (GlobalTable { names: Map::empty(), addresses: seq![] }),
            total == resolve_objects(models, layout@, maps, 0, first),
            total == resolve_objects(
                models,
                layout@,
                maps,
                i as nat,
                GlobalTable { names: names@, addresses: address_lists(addresses@) },
            ),
        decreases objects@.len() - i,
    {
        let obj = &objects[i];
        assert(models[i as int] == obj@);
        assert(maps[i as int] == parts@[i as int]@);
        let offs = offsets_of_parts(&parts[i]);
        match resolve_symbols_with_offsets(
            obj.data.as_slice(),
            layout,
            obj.sections.as_slice(),
            obj.names.as_slice(),
            Some(&offs),
        ) {
            Ok((visible, by_index)) => {
                add_known_addresses(&mut names, &visible);
                let ghost before = address_lists(addresses@);
                addresses.push(by_index);
                assert(address_lists(addresses@) =~= before.push(by_index@));
            },
            Err(e) => {
                return Err(e);
            },
        }
        i = i + 1;
    }
    Ok((names, addresses))
}

/// `found` with the names among the symbols from `i` on that have no address and no definition.
pub open spec fn undefined_from(
    addresses: Seq<Option<u64>>,
    symbols: Seq<Seq<char>>,
    names: Map<Seq<char>, u64>,
    i: nat,
    found: Seq<Seq<char>>,
) -> Seq<Seq<char>>
    decreases addresses.len() - i,
{
    if i >= addresses.len() {
        found
    } else {
        let next = if addresses[i as int] is None && i < symbols.len() && symbols[i as int].len()
            != 0 && !names.dom().contains(symbols[i as int]) {
            names::add_name(found, symbols[i as int])
        } else {
            found
        };
        undefined_from(addresses, symbols, names, i + 1, next)
    }
}

/// `found` with the undefined names of the objects from `o` on.
pub open spec fn undefined_in_objects(
    objects: Seq<ParsedModel>,
    addresses: Seq<Seq<Option<u64>>>,
    names: Map<Seq<char>, u64>,
    o: nat,
    found: Seq<Seq<char>>,
) -> Result<Seq<Seq<char>>, Seq<char>>
    decreases objects.len() - o,
{
    if o >= objects.len() {
        Ok(found)
    } else {
        let obj = objects[o as int];
        match elf_symbols::symbol_names(obj.data, obj.elf.sections) {
            Err(e) => Err(e),
            Ok(symbols) => undefined_in_objects(
                objects,
                addresses,
                names,
                o + 1,
                undefined_from(addresses[o as int], symbols, names, 0, found),
            ),
        }
    }
}

fn collect_undefined(
    objects: &Vec<ParsedObject>,
    addresses: &Vec<Vec<Option<u64>>>,
    names: &NameMap<u64>,
) -> (r: Result<NameList, String>)
    requires
        addresses@.len() == objects@.len(),
    ensures
        model::outcome(r) == undefined_in_objects(
            model::views(objects@),
            address_lists(addresses@),
            names@,
            0,
            seq![],
        ),
{
    let mut found = NameList::new();
    let ghost models = model::views(objects@);
    let ghost lists = address_lists(addresses@);
    let ghost total = undefined_in_objects(models, lists, names@, 0, seq![]);
    let mut o: usize = 0;
    while o < objects.len()
        invariant
            o <= objects@.len(),
            addresses@.len() == objects@.len(),
            models == model::views(objects@),
            lists == address_lists(addresses@),
            total == undefined_in_objects(models, lists, names@, 0, seq![]),
            total == undefined_in_objects(models, lists, names@, o as nat, found@),
        decreases objects@.len() - o,
    {
        let obj = &objects[o];
        assert(models[o as int] == obj@);
        assert(lists[o as int] == addresses@[o as int]@);
        let symbols = match symbol_names_by_index(obj.data.as_slice(), obj.sections.as_slice()) {
            Ok(v) => v,
            Err(e) => {
                return Err(e);
            },
        };
        let list = &addresses[o];
        let ghost before = found@;
        let mut i: usize = 0;
        while i < list.len()
            invariant
                i <= list@.len(),
                undefined_from(list@, model::views(symbols@), names@, i as nat, found@)
                    == undefined_from(
                    list@,
                    model::views(symbols@),
                    names@,
                    0,
                    before,
                ),
            decreases list@.len() - i,
        {
            if list[i].is_none() && i < symbols.len() {
                assert(model::views(symbols@)[i as int] == symbols@[i as int]@);
                if symbols[i].as_str().unicode_len() != 0 && !names.contains_key(
                    symbols[i].as_str(),
                ) {
                    found.insert(symbols[i].clone());
                }
            }
            i = i + 1;
        }
        o = o + 1;
    }
    Ok(found)
}

/// `l` with a section of the linker's own behind the last one, at a multiple of `align`; none
/// where it does not fit.
pub open spec fn append_own(
    l: Option<LayoutModel>,
    name: Seq<char>,
    data: Seq<u8>,
    align: u64,
    flags: u64,
    align_field: u64,
) -> Option<LayoutModel> {
    match l {
        None => None,
        Some(l) => {
            let end = link::section_end(l.sections.last()) as u64;
            let vaddr = segment::aligned(end, align);
            if !segment::align_fits(end, align) || vaddr + data.len() > u64::MAX {
                None
            } else {
                Some(
                    link::with_section(
                        l,
                        MergedModel { name, data, vaddr, flags, align: align_field },
                    ),
                )
            }
        },
    }
}

fn append_own_section(
    layout: &mut MergedLayout,
    name: &str,
    data: Vec<u8>,
    align: u64,
    flags: u64,
    align_field: u64,
) -> (r: Option<u64>)
    requires
        link::layout_ok(old(layout)@),
        old(layout)@.sections.len() > 0,
    ensures
        match append_own(Some(old(layout)@), name@, data@, align, flags, align_field) {
            Some(l) => r == Some(l.sections.last().vaddr) && final(layout)@ == l
                && link::layout_ok(l)
                && l.sections.len() > 0,
            None => r is None,
        },
{
    let n: usize = layout.sections.len();
    let ghost before = layout@;
    assert(before.sections.last() == layout.sections@[n - 1]@);
    let end: u64 = layout.sections[n - 1].vaddr + layout.sections[n - 1].data.len() as u64;
    let vaddr: u64 = match checked_align_up(end, align) {
        Some(v) => v,
        None => {
            return None;
        },
    };
    if data.len() as u64 > u64::MAX - vaddr {
        return None;
    }
    proof {
        segment::law_align_up_bounds(end, align);
        assert forall|i: int| 0 <= i < before.sections.len() implies link::section_end(
            #[trigger] before.sections[i],
        ) <= vaddr by {
            if i < before.sections.len() - 1 {
                assert(link::section_end(before.sections[i]) <= before.sections[before.sections.len() - 1].vaddr);
            }
        }
    }
    push_section(
        layout,
        MergedSection { name: name.to_owned(), data, vaddr, flags, align: align_field },
    );
    proof {
        link::lemma_with_section_ok(before, layout@.sections.last());
    }
    Some(vaddr)
}

/// Where the procedure linkage table of a layout stands.
pub open spec fn plt_addr(l: LayoutModel) -> u64 {
    segment::aligned(link::section_end(l.sections.last()) as u64, 16)
}

/// Where the slots of a procedure linkage table with `n` entries stand.
pub open spec fn got_plt_addr(plt: u64, n: nat) -> u64 {
    segment::aligned((plt + 16 + n * 16) as u64, 8)
}

/// Whether a procedure linkage table with `n` entries and its slots fit behind a layout.
pub open spec fn plt_fits(l: LayoutModel, n: nat) -> bool {
    &&& n < u32::MAX
    &&& segment::align_fits(link::section_end(l.sections.last()) as u64, 16)
    &&& plt_addr(l) + 16 + n * 16 + 8 <= u64::MAX
    &&& got_plt_addr(plt_addr(l), n) + 24 + n * 8 <= u64::MAX
}

/// The address of the last section.
pub open spec fn last_addr(l: Option<LayoutModel>) -> u64 {
    l->0.sections.last().vaddr
}

/// `l` with the sections that the dynamic linker reads.
pub open spec fn with_dynamic_sections(l: LayoutModel, undefined: Seq<Seq<char>>) -> Result<
    LayoutModel,
    Seq<char>,
> {
    let n = undefined.len();
    if l.sections.len() == 0 {
        Err("no sections"@)
    } else if !plt_fits(l, n) {
        Err(link::layout_too_large())
    } else {
        let plt = plt_addr(l);
        let got = got_plt_addr(plt, n);
        let dynsym_data = dynamic::dynsym_bytes(undefined, n);
        let dynstr_data = dynamic::dynstr_bytes(undefined, n);
        let rela_data = dynamic::rela_plt_bytes(got, n);
        let l1 = append_own(
            Some(l),
            ".plt"@,
            dynamic::plt_bytes(plt, got, n),
            16,
            SHF_ALLOC | SHF_EXECINSTR,
            16,
        );
        let l2 = append_own(
            l1,
            ".got.plt"@,
            bytes::zeros((24 + n * 8) as int),
            8,
            SHF_ALLOC | SHF_WRITE,
            8,
        );
        let l3 = append_own(l2, ".dynsym"@, dynsym_data, 8, SHF_ALLOC, 8);
        let l4 = append_own(l3, ".dynstr"@, dynstr_data, 8, SHF_ALLOC, 1);
        let l5 = append_own(l4, ".rela.plt"@, rela_data, 8, SHF_ALLOC, 8);
        let l6 = append_own(l5, ".hash"@, dynamic::hash_bytes(undefined), 8, SHF_ALLOC, 8);
        let places = DynamicPlaces {
            got,
            dynsym: last_addr(l3),
            dynstr: last_addr(l4),
            dynstr_size: dynstr_data.len() as u64,
            rela_plt: last_addr(l5),
            rela_plt_size: rela_data.len() as u64,
            hash: last_addr(l6),
        };
        match append_own(
            l6,
            ".dynamic"@,
            dynamic::dynamic_table(places),
            8,
            SHF_ALLOC | SHF_WRITE,
            8,
        ) {
            None => Err(link::layout_too_large()),
            Some(done) => Ok(done),
        }
    }
}

fn dynamic_too_large() -> (r: Result<u64, String>)
    ensures
        r is Err,
        r->Err_0@ == link::layout_too_large(),
{
    Err("layout exceeds the address space".to_string())
}

fn add_dynamic_sections(layout: &mut MergedLayout, undefined: &Vec<String>) -> (r: Result<
    u64,
    String,
>)
    requires
        link::layout_ok(old(layout)@),
    ensures
        match with_dynamic_sections(old(layout)@, model::views(undefined@)) {
            Ok(l) => r == Ok::<u64, String>(plt_addr(old(layout)@)) && final(layout)@ == l
                && link::layout_ok(l) && plt_fits(old(layout)@, undefined@.len()),
            Err(e) => r is Err && r->Err_0@ == e,
        },
{
    let count: usize = layout.sections.len();
    if count == 0 {
        return Err("no sections".to_string());
    }
    let ghost l0 = layout@;
    assert(l0.sections.last() == layout.sections@[count - 1]@);
    assert(model::views(undefined@).len() == undefined@.len());
    let end: u64 = layout.sections[count - 1].vaddr + layout.sections[count - 1].data.len() as u64;
    let n: usize = undefined.len();
    if n as u64 >= 0xffff_ffff {
        return dynamic_too_large();
    }
    let plt: u64 = match checked_align_up(end, 16) {
        Some(v) => v,
        None => {
            return dynamic_too_large();
        },
    };
    if plt > u64::MAX - (n as u64 * 16 + 24) {
        return dynamic_too_large();
    }
    let got: u64 = align_up_u64(plt + 16 + n as u64 * 16, 8);
    if got > u64::MAX - (n as u64 * 8 + 24) {
        return dynamic_too_large();
    }
    let plt_data = build_plt(plt, got, n);
    let mut slots: Vec<u8> = Vec::new();
    push_zeros_u64(&mut slots, 24 + n as u64 * 8);
    assert(slots@ =~= bytes::zeros((24 + n * 8) as int));
    let (dynsym_data, dynstr_data) = build_dynamic_symbols(undefined);
    let rela_data = build_rela_plt(got, n);
    let hash_data = build_sysv_hash(undefined);
    let dynstr_size: u64 = dynstr_data.len() as u64;
    let rela_plt_size: u64 = rela_data.len() as u64;
    if append_own_section(layout, ".plt", plt_data, 16, SHF_ALLOC | SHF_EXECINSTR, 16).is_none() {
        return dynamic_too_large();
    }
    if append_own_section(layout, ".got.plt", slots, 8, SHF_ALLOC | SHF_WRITE, 8).is_none() {
        return dynamic_too_large();
    }
    let dynsym: u64 = match append_own_section(layout, ".dynsym", dynsym_data, 8, SHF_ALLOC, 8) {
        Some(v) => v,
        None => {
            return dynamic_too_large();
        },
    };
    let dynstr: u64 = match append_own_section(layout, ".dynstr", dynstr_data, 8, SHF_ALLOC, 1) {
        Some(v) => v,
        None => {
            return dynamic_too_large();
        },
    };
    let rela_plt: u64 = match append_own_section(layout, ".rela.plt", rela_data, 8, SHF_ALLOC, 8) {
        Some(v) => v,
        None => {
            return dynamic_too_large();
        },
    };
    let hash: u64 = match append_own_section(layout, ".hash", hash_data, 8, SHF_ALLOC, 8) {
        Some(v) => v,
        None => {
            return dynamic_too_large();
        },
    };
    let table = build_dynamic_section_content(
        &DynamicPlaces { got, dynsym, dynstr, dynstr_size, rela_plt, rela_plt_size, hash },
    );
    match append_own_section(layout, ".dynamic", table, 8, SHF_ALLOC | SHF_WRITE, 8) {
        Some(_) => Ok(plt),
        None => dynamic_too_large(),
    }
}

/// `names` with the undefined names from `i` on at their entries of the procedure linkage table.
pub open spec fn plt_names(
    names: Map<Seq<char>, u64>,
    undefined: Seq<Seq<char>>,
    plt: u64,
    i: nat,
) -> Map<Seq<char>, u64>
    decreases undefined.len() - i,
{
    if i >= undefined.len() {
        names
    } else {
        plt_names(
            names.insert(undefined[i as int], (plt + 16 + i * 16) as u64),
            undefined,
            plt,
            i + 1,
        )
    }
}

fn define_plt_names(names: &mut NameMap<u64>, undefined: &Vec<String>, plt: u64)
    requires
        plt + 16 + undefined@.len() * 16 <= u64::MAX,
    ensures
        final(names)@ == plt_names(old(names)@, model::views(undefined@), plt, 0),
{
    let n: usize = undefined.len();
    let mut i: usize = 0;
    while i < n
        invariant
            i <= n,
            n == undefined@.len(),
            plt + 16 + n * 16 <= u64::MAX,
            plt_names(names@, model::views(undefined@), plt, i as nat) == plt_names(
                old(names)@,
                model::views(undefined@),
                plt,
                0,
            ),
        decreases n - i,
    {
        assert(model::views(undefined@)[i as int] == undefined@[i as int]@);
        names.insert(undefined[i].clone(), plt + 16 + i as u64 * 16);
        i = i + 1;
    }
}

/// A layout, the addresses of the names in it, and what it needs from the dynamic linker.
pub struct Linking {
    pub layout: LayoutModel,
    pub names: Map<Seq<char>, u64>,
    pub dynamic: Option<DynamicModel>,
}

/// The path of the dynamic linker.
pub open spec fn elf_interpreter() -> Seq<char> {
    "/lib64/ld-linux-x86-64.so.2"@
}

/// `l` with what undefined names need, where a shared library is requested for x86-64.
pub open spec fn with_imports(
    objects: Seq<ParsedModel>,
    l: LayoutModel,
    g: GlobalTable,
    arch: TargetArch,
    libs: Option<Seq<RequestModel>>,
    platform: TargetPlatform,
) -> Result<Linking, Seq<char>> {
    let plain = Linking { layout: l, names: g.names, dynamic: None };
    match libs {
        Some(libs) if any_shared(libs) && arch == TargetArch::X86_64 => match undefined_in_objects(
            objects,
            g.addresses,
            g.names,
            0,
            seq![],
        ) {
            Err(e) => Err(e),
            Ok(undefined) => if undefined.len() == 0 {
                Ok(plain)
            } else {
                match with_dynamic_sections(l, undefined) {
                    Err(e) => Err(e),
                    Ok(done) => Ok(
                        Linking {
                            layout: done,
                            names: plt_names(g.names, undefined, plt_addr(l), 0),
                            dynamic: Some(
                                DynamicModel {
                                    needed: needed_names(libs, platform, libs.len()),
                                    plt_symbols: undefined,
                                    weak_plt_symbols: seq![],
                                    interpreter: Some(elf_interpreter()),
                                    macho_rebase_addrs: seq![],
                                    macho_direct_binds: seq![],
                                },
                            ),
                        },
                    ),
                }
            },
        },
        _ => Ok(plain),
    }
}

/// The requested libraries, where there are any.
pub open spec fn requests(libs: Option<&[RequestedLibrary]>) -> Option<Seq<RequestModel>> {
    match libs {
        Some(l) => Some(model::views(l@)),
        None => None,
    }
}

fn add_imports(
    objects: &Vec<ParsedObject>,
    layout: &mut MergedLayout,
    names: &mut NameMap<u64>,
    addresses: &Vec<Vec<Option<u64>>>,
    arch: TargetArch,
    libs: Option<&[RequestedLibrary]>,
    platform: TargetPlatform,
) -> (r: Result<Option<DynamicLinkInfo>, String>)
    requires
        link::layout_ok(old(layout)@),
        addresses@.len() == objects@.len(),
    ensures
        match with_imports(
            model::views(objects@),
            old(layout)@,
            (GlobalTable { names: old(names)@, addresses: address_lists(addresses@) }),
            arch,
            requests(libs),
            platform,
        ) {
            Ok(done) => r is Ok && model::view_opt(r->Ok_0) == done.dynamic && final(layout)@
                == done.layout && final(names)@ == done.names && link::layout_ok(final(layout)@),
            Err(e) => r is Err && r->Err_0@ == e,
        },
{
    broadcast use model::group_views;
    let libs: &[RequestedLibrary] = match libs {
        Some(l) => l,
        None => {
            return Ok(None);
        },
    };
    if !has_shared_lib(libs) || !matches!(arch, TargetArch::X86_64) {
        return Ok(None);
    }
    let undefined = match collect_undefined(objects, addresses, names) {
        Ok(u) => u.into_names(),
        Err(e) => {
            return Err(e);
        },
    };
    assert(model::views(undefined@).len() == undefined@.len());
    if undefined.len() == 0 {
        return Ok(None);
    }
    let plt: u64 = match add_dynamic_sections(layout, &undefined) {
        Ok(v) => v,
        Err(e) => {
            return Err(e);
        },
    };
    define_plt_names(names, &undefined, plt);
    Ok(
        Some(
            DynamicLinkInfo {
                needed: needed_libraries(libs, platform),
                plt_symbols: undefined,
                weak_plt_symbols: Vec::new(),
                interpreter: Some("/lib64/ld-linux-x86-64.so.2".to_string()),
                macho_rebase_addrs: Vec::new(),
                macho_direct_binds: Vec::new(),
            },
        ),
    )
}

/// `found` with the names that the objects from `o` on look up in the global offset table.
pub open spec fn got_names_in_objects(
    objects: Seq<ParsedModel>,
    o: nat,
    found: Seq<Seq<char>>,
) -> Seq<Seq<char>>
    decreases objects.len() - o,
{
    if o >= objects.len() {
        found
    } else {
        got_names_in_objects(
            objects,
            o + 1,
            elf_symbols::got_names_of(objects[o as int].data, objects[o as int].elf.sections,
                found),
        )
    }
}

/// `data` with the slots from `i` on of names that have an address.
pub open spec fn filled_got(
    data: Seq<u8>,
    names: Seq<Seq<char>>,
    addrs: Map<Seq<char>, u64>,
    i: nat,
) -> Seq<u8>
    decreases names.len() - i,
{
    if i >= names.len() {
        data
    } else {
        let next = if addrs.dom().contains(names[i as int]) {
            bytes::patch(data, (i * 8) as int, bytes::le64(addrs[names[i as int]]))
        } else {
            data
        };
        filled_got(next, names, addrs, i + 1)
    }
}

/// `m` with the slots of the names from `i` on, in a table at `base`.
pub open spec fn slots_from(
    names: Seq<Seq<char>>,
    base: u64,
    i: nat,
    m: Map<Seq<char>, u64>,
) -> Map<Seq<char>, u64>
    decreases names.len() - i,
{
    if i >= names.len() {
        m
    } else {
        slots_from(names, base, i + 1, m.insert(names[i as int], (base + 8 * i) as u64))
    }
}

/// A layout with its global offset table, and where the slots of that table are.
pub struct GotModel {
    pub layout: LayoutModel,
    pub slots: Map<Seq<char>, u64>,
}

/// `l` with a global offset table for the names that relocations look up in one. The slot of a
/// name without an address holds zero.
pub open spec fn with_got(
    objects: Seq<ParsedModel>,
    l: LayoutModel,
    addrs: Map<Seq<char>, u64>,
    arch: TargetArch,
) -> Result<GotModel, Seq<char>> {
    let names = got_names_in_objects(objects, 0, seq![]);
    if arch != TargetArch::X86_64 || names.len() == 0 {
        Ok(GotModel { layout: l, slots: Map::empty() })
    } else if l.sections.len() == 0 {
        Err("no sections"@)
    } else if names.len() * 8 > u64::MAX {
        Err(link::layout_too_large())
    } else {
        match append_own(
            Some(l),
            ".got"@,
            filled_got(bytes::zeros((names.len() * 8) as int), names, addrs, 0),
            8,
            SHF_ALLOC | SHF_WRITE,
            8,
        ) {
            None => Err(link::layout_too_large()),
            Some(done) => Ok(
                GotModel {
                    layout: done,
                    slots: slots_from(names, done.sections.last().vaddr, 0, Map::empty()),
                },
            ),
        }
    }
}

fn add_got(
    objects: &Vec<ParsedObject>,
    layout: &mut MergedLayout,
    addrs: &NameMap<u64>,
    arch: TargetArch,
) -> (r: Result<NameMap<u64>, String>)
    requires
        link::layout_ok(old(layout)@),
    ensures
        match with_got(model::views(objects@), old(layout)@, addrs@, arch) {
            Ok(g) => r is Ok && final(layout)@ == g.layout && r->Ok_0@ == g.slots
                && link::layout_ok(g.layout),
            Err(e) => r is Err && r->Err_0@ == e,
        },
{
    if !matches!(arch, TargetArch::X86_64) {
        return Ok(NameMap::new());
    }
    let ghost models = model::views(objects@);
    let mut found = NameList::new();
    let mut o: usize = 0;
    while o < objects.len()
        invariant
            o <= objects@.len(),
            models == model::views(objects@),
            got_names_in_objects(models, o as nat, found@) == got_names_in_objects(
                models,
                0,
                seq![],
            ),
        decreases objects@.len() - o,
    {
        assert(models[o as int] == objects@[o as int]@);
        collect_gotpcrel_symbol_names(
            objects[o].data.as_slice(),
            objects[o].sections.as_slice(),
            &mut found,
        );
        o = o + 1;
    }
    let names = found.names();
    let n: usize = names.len();
    assert(model::views(names@).len() == n);
    if n == 0 {
        return Ok(NameMap::new());
    }
    if layout.sections.len() == 0 {
        return Err("no sections".to_string());
    }
    assert(layout@.sections.len() == layout.sections@.len());
    if n as u64 > u64::MAX / 8 {
        return Err("layout exceeds the address space".to_string());
    }
    let mut data: Vec<u8> = Vec::new();
    push_zeros_u64(&mut data, n as u64 * 8);
    assert(data@ =~= bytes::zeros((n * 8) as int));
    let ghost blank = data@;
    assert(data.len() == n * 8);
    let mut i: usize = 0;
    while i < n
        invariant
            i <= n,
            n == names@.len(),
            data@.len() == n * 8,
            n * 8 <= usize::MAX,
            filled_got(data@, model::views(names@), addrs@, i as nat) == filled_got(
                blank,
                model::views(names@),
                addrs@,
                0,
            ),
        decreases n - i,
    {
        assert(model::views(names@)[i as int] == names@[i as int]@);
        if let Some(a) = addrs.get(names[i].as_str()) {
            write_u64(&mut data, i * 8, *a);
        }
        i = i + 1;
    }
    let base: u64 = match append_own_section(layout, ".got", data, 8, SHF_ALLOC | SHF_WRITE, 8) {
        Some(v) => v,
        None => {
            return Err("layout exceeds the address space".to_string());
        },
    };
    let mut slots: NameMap<u64> = NameMap::new();
    let mut k: usize = 0;
    while k < n
        invariant
            k <= n,
            n == names@.len(),
            base + n * 8 <= u64::MAX,
            slots_from(model::views(names@), base, k as nat, slots@) == slots_from(
                model::views(names@),
                base,
                0,
                Map::empty(),
            ),
        decreases n - k,
    {
        assert(model::views(names@)[k as int] == names@[k as int]@);
        slots.insert(names[k].clone(), base + k as u64 * 8);
        k = k + 1;
    }
    Ok(slots)
}

/// The address of each symbol of an object: its own, or that of its name.
pub open spec fn final_addresses(
    own: Seq<Option<u64>>,
    symbols: Seq<Seq<char>>,
    names: Map<Seq<char>, u64>,
) -> Seq<Option<u64>> {
    Seq::new(
        own.len(),
        |i: int|
            if own[i] is Some {
                own[i]
            } else if i < symbols.len() && names.dom().contains(symbols[i]) {
                Some(names[symbols[i]])
            } else {
                None
            },
    )
}

fn complete_addresses(
    own: &Vec<Option<u64>>,
    symbols: &Vec<String>,
    names: &NameMap<u64>,
) -> (r: Vec<
    Option<u64>,
>)
    ensures
        r@ == final_addresses(own@, model::views(symbols@), names@),
{
    let ghost all = final_addresses(own@, model::views(symbols@), names@);
    let mut out: Vec<Option<u64>> = Vec::new();
    let mut i: usize = 0;
    while i < own.len()
        invariant
            i <= own@.len(),
            all == final_addresses(own@, model::views(symbols@), names@),
            out@ == all.subrange(0, i as int),
        decreases own@.len() - i,
    {
        let a: Option<u64> = match own[i] {
            Some(a) => Some(a),
            None => if i < symbols.len() {
                assert(model::views(symbols@)[i as int] == symbols@[i as int]@);
                match names.get(symbols[i].as_str()) {
                    Some(a) => Some(*a),
                    None => None,
                }
            } else {
                None
            },
        };
        out.push(a);
        assert(out@ =~= all.subrange(0, i + 1));
        i = i + 1;
    }
    assert(out@ =~= all);
    out
}

/// The slot of each symbol of an object in the global offset table.
pub open spec fn slots_by_index(symbols: Seq<Seq<char>>, slots: Map<Seq<char>, u64>) -> Seq<
    Option<u64>,
> {
    Seq::new(
        symbols.len(),
        |i: int|
            if slots.dom().contains(symbols[i]) {
                Some(slots[symbols[i]])
            } else {
                None
            },
    )
}

fn list_slots(symbols: &Vec<String>, slots: &NameMap<u64>) -> (r: Vec<Option<u64>>)
    ensures
        r@ == slots_by_index(model::views(symbols@), slots@),
{
    let ghost all = slots_by_index(model::views(symbols@), slots@);
    let mut out: Vec<Option<u64>> = Vec::new();
    let mut i: usize = 0;
    while i < symbols.len()
        invariant
            i <= symbols@.len(),
            all == slots_by_index(model::views(symbols@), slots@),
            out@ == all.subrange(0, i as int),
        decreases symbols@.len() - i,
    {
        assert(model::views(symbols@)[i as int] == symbols@[i as int]@);
        out.push(
            match slots.get(symbols[i].as_str()) {
                Some(a) => Some(*a),
                None => None,
            },
        );
        assert(out@ =~= all.subrange(0, i + 1));
        i = i + 1;
    }
    assert(out@ =~= all);
    out
}

/// The layout after the relocations of the objects from `o` on.
pub open spec fn relocate_objects(
    objects: Seq<ParsedModel>,
    l: LayoutModel,
    parts: Seq<Map<Seq<char>, ObjectSectionContrib>>,
    addresses: Seq<Seq<Option<u64>>>,
    names: Map<Seq<char>, u64>,
    slots: Map<Seq<char>, u64>,
    arch: TargetArch,
    o: nat,
) -> Result<LayoutModel, Seq<char>>
    decreases objects.len() - o,
{
    if o >= objects.len() {
        Ok(l)
    } else {
        let obj = objects[o as int];
        match elf_symbols::symbol_names(obj.data, obj.elf.sections) {
            Err(e) => Err(e),
            Ok(symbols) => {
                let (next, error) = relocate::relocated_layout(
                    arch,
                    l,
                    obj.data,
                    obj.elf.sections,
                    obj.elf.names,
                    final_addresses(addresses[o as int], symbols, names),
                    usable_slots(arch, slots_by_index(symbols, slots)),
                    part_offsets(parts[o as int]),
                );
                match error {
                    Some(e) => Err(e),
                    None => relocate_objects(
                        objects,
                        next,
                        parts,
                        addresses,
                        names,
                        slots,
                        arch,
                        o + 1,
                    ),
                }
            },
        }
    }
}

fn relocate_all(
    objects: &Vec<ParsedObject>,
    layout: &mut MergedLayout,
    parts: &Vec<NameMap<ObjectSectionContrib>>,
    addresses: &Vec<Vec<Option<u64>>>,
    names: &NameMap<u64>,
    slots: &NameMap<u64>,
    arch: TargetArch,
) -> (r: Result<(), String>)
    requires
        link::layout_ok(old(layout)@),
        parts@.len() == objects@.len(),
        addresses@.len() == objects@.len(),
    ensures
        match relocate_objects(
            model::views(objects@),
            old(layout)@,
            elf_merge::part_maps(parts@),
            address_lists(addresses@),
            names@,
            slots@,
            arch,
            0,
        ) {
            Ok(l) => r is Ok && final(layout)@ == l && link::layout_ok(l),
            Err(e) => r is Err && r->Err_0@ == e,
        },
{
    let ghost models = model::views(objects@);
    let ghost maps = elf_merge::part_maps(parts@);
    let ghost lists = address_lists(addresses@);
    let ghost total = relocate_objects(models, layout@, maps, lists, names@, slots@, arch, 0);
    let mut o: usize = 0;
    while o < objects.len()
        invariant
            o <= objects@.len(),
            parts@.len() == objects@.len(),
            addresses@.len() == objects@.len(),
            models == model::views(objects@),
            maps == elf_merge::part_maps(parts@),
            lists == address_lists(addresses@),
            link::layout_ok(layout@),
            total == relocate_objects(models, old(layout)@, maps, lists, names@, slots@, arch, 0),
            total == relocate_objects(models, layout@, maps, lists, names@, slots@, arch, o as nat),
        decreases objects@.len() - o,
    {
        let obj = &objects[o];
        assert(models[o as int] == obj@);
        assert(maps[o as int] == parts@[o as int]@);
        assert(lists[o as int] == addresses@[o as int]@);
        let symbols = match symbol_names_by_index(obj.data.as_slice(), obj.sections.as_slice()) {
            Ok(v) => v,
            Err(e) => {
                return Err(e);
            },
        };
        let by_index = complete_addresses(&addresses[o], &symbols, names);
        let got_by_index = list_slots(&symbols, slots);
        let offs = offsets_of_parts(&parts[o]);
        match apply_relocations(
            arch,
            layout,
            obj.data.as_slice(),
            obj.sections.as_slice(),
            obj.names.as_slice(),
            by_index.as_slice(),
            got_by_index.as_slice(),
            Some(&offs),
        ) {
            Ok(_) => {},
            Err(e) => {
                return Err(e);
            },
        }
        o = o + 1;
    }
    Ok(())
}

/// The contents of objects that have been read.
pub open spec fn object_contents(objects: Seq<ParsedModel>) -> Seq<Seq<u8>> {
    Seq::new(objects.len(), |i: int| objects[i].data)
}

/// What linking objects that have been read gives.
pub open spec fn elf_link_parsed(
    objects: Seq<ParsedModel>,
    libs: Option<Seq<RequestModel>>,
    platform: TargetPlatform,
) -> Result<LinkModel, Seq<char>> {
    if objects.len() == 0 {
        Err("no objects to link"@)
    } else if objects.len() == 1 && libs is None {
        elf_single_link(objects[0].data)
    } else {
        match elf_merge::elf_multi_layout(object_contents(objects)) {
            Err(e) => Err(e),
            Ok((merged, parts)) => {
                let machine = objects[0].elf.header.e_machine;
                match arch::arch_of_machine(machine) {
                    None => Err("unsupported machine "@ + text::decimal(machine as nat)),
                    Some(arch) => match resolve_objects(
                        objects,
                        merged,
                        parts,
                        0,
                        GlobalTable { names: Map::empty(), addresses: seq![] },
                    ) {
                        Err(e) => Err(e),
                        Ok(g) => match with_imports(objects, merged, g, arch, libs, platform) {
                            Err(e) => Err(e),
                            Ok(k) => match with_got(objects, k.layout, k.names, arch) {
                                Err(e) => Err(e),
                                Ok(t) => match relocate_objects(
                                    objects,
                                    t.layout,
                                    parts,
                                    g.addresses,
                                    k.names,
                                    t.slots,
                                    arch,
                                    0,
                                ) {
                                    Err(e) => Err(e),
                                    Ok(done) => Ok(
                                        LinkModel {
                                            layout: done,
                                            e_machine: machine,
                                            symbol_addrs: k.names,
                                            dynamic: k.dynamic,
                                        },
                                    ),
                                },
                            },
                        },
                    },
                }
            },
        }
    }
}

fn slices_of(objects: &Vec<ParsedObject>) -> (r: Vec<&[u8]>)
    ensures
        model::contents(r@) == object_contents(model::views(objects@)),
{
    let mut out: Vec<&[u8]> = Vec::new();
    let mut i: usize = 0;
    while i < objects.len()
        invariant
            i <= objects@.len(),
            out@.len() == i,
            forall|k: int| 0 <= k < i ==> (#[trigger] out@[k])@ == objects@[k].data@,
        decreases objects@.len() - i,
    {
        out.push(objects[i].data.as_slice());
        i = i + 1;
    }
    assert(model::contents(out@) =~= object_contents(model::views(objects@)));
    out
}

/// Links objects that have been read.
pub fn link_multi_object_parsed(
    parsed: &Vec<ParsedObject>,
    libs: Option<&[RequestedLibrary]>,
    platform: TargetPlatform,
) -> (r: Result<LinkResult, String>)
    ensures
        model::outcome(r) == elf_link_parsed(model::views(parsed@), requests(libs), platform),
        r is Ok ==> link::layout_ok(r->Ok_0.layout@),
{
    if parsed.len() == 0 {
        return Err("no objects to link".to_string());
    }
    assert(model::views(parsed@)[0] == parsed@[0]@);
    if parsed.len() == 1 && libs.is_none() {
        return link_single_object(parsed[0].data.as_slice());
    }
    let objects = slices_of(parsed);
    assert(model::contents(objects@).len() == objects@.len());
    let (mut layout, parts) = match merge_sections_multi_object(objects.as_slice()) {
        Ok(m) => m,
        Err(e) => {
            return Err(e);
        },
    };
    let e_machine: u16 = parsed[0].header.e_machine;
    let arch = match TargetArch::from_elf_machine(e_machine) {
        Some(a) => a,
        None => {
            return Err(then_number("unsupported machine ", e_machine as u64));
        },
    };
    assert(elf_merge::part_maps(parts@).len() == parts@.len());
    let (mut names, addresses) = match resolve_all(parsed, &layout, &parts) {
        Ok(g) => g,
        Err(e) => {
            return Err(e);
        },
    };
    assert(address_lists(addresses@).len() == addresses@.len());
    let dynamic = match add_imports(
        parsed,
        &mut layout,
        &mut names,
        &addresses,
        arch,
        libs,
        platform,
    ) {
        Ok(d) => d,
        Err(e) => {
            return Err(e);
        },
    };
    let slots = match add_got(parsed, &mut layout, &names, arch) {
        Ok(m) => m,
        Err(e) => {
            return Err(e);
        },
    };
    match relocate_all(parsed, &mut layout, &parts, &addresses, &names, &slots, arch) {
        Ok(_) => {},
        Err(e) => {
            return Err(e);
        },
    }
    Ok(LinkResult { layout, e_machine, symbol_addrs: names, dynamic })
}

/// `found`, followed by the objects in the files from `i` on.
pub open spec fn parsed_from(datas: Seq<Seq<u8>>, i: nat, found: Seq<ParsedModel>) -> Result<
    Seq<ParsedModel>,
    Seq<char>,
>
    decreases datas.len() - i,
{
    if i >= datas.len() {
        Ok(found)
    } else {
        match crate::elf::elf_of(datas[i as int]) {
            Err(e) => Err(e),
            Ok(elf) => parsed_from(
                datas,
                i + 1,
                found.push(ParsedModel { data: datas[i as int], elf }),
            ),
        }
    }
}

/// What linking several objects, or one with libraries, gives.
pub open spec fn elf_link(
    datas: Seq<Seq<u8>>,
    libs: Option<Seq<RequestModel>>,
    platform: TargetPlatform,
) -> Result<LinkModel, Seq<char>> {
    if datas.len() == 0 {
        Err("no objects to link"@)
    } else if datas.len() == 1 && libs is None {
        elf_single_link(datas[0])
    } else {
        match parsed_from(datas, 0, seq![]) {
            Err(e) => Err(e),
            Ok(objects) => elf_link_parsed(objects, libs, platform),
        }
    }
}

/// Links objects, all for the same machine. `libs` are the requested libraries: where a shared
/// one is among them, symbols that no object defines are imported.
pub fn link_multi_object(
    objects: &[&[u8]],
    libs: Option<&[RequestedLibrary]>,
    platform: TargetPlatform,
) -> (r: Result<LinkResult, String>)
    ensures
        model::outcome(r) == elf_link(model::contents(objects@), requests(libs), platform),
        r is Ok ==> link::layout_ok(r->Ok_0.layout@),
{
    broadcast use model::group_views;
    if objects.len() == 0 {
        return Err("no objects to link".to_string());
    }
    assert(model::contents(objects@)[0] == objects@[0]@);
    if objects.len() == 1 && libs.is_none() {
        return link_single_object(objects[0]);
    }
    let mut parsed: Vec<ParsedObject> = Vec::new();
    let ghost total = parsed_from(model::contents(objects@), 0, seq![]);
    let mut i: usize = 0;
    while i < objects.len()
        invariant
            i <= objects@.len(),
            objects@.len() > 0,
            !(objects@.len() == 1 && libs is None),
            total == parsed_from(model::contents(objects@), 0, seq![]),
            total == parsed_from(model::contents(objects@), i as nat, model::views(parsed@)),
        decreases objects@.len() - i,
    {
        broadcast use model::group_views;
        assert(model::contents(objects@)[i as int] == objects@[i as int]@);
        match parse_object(vstd::slice::slice_to_vec(objects[i])) {
            Ok(p) => {
                parsed.push(p);
            },
            Err(e) => {
                return Err(e);
            },
        }
        i = i + 1;
    }
    link_multi_object_parsed(&parsed, libs, platform)
}

} // verus!

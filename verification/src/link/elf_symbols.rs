//! The addresses and the names of the symbols of ELF objects.
use vstd::prelude::*;
use vstd::string::*;
use crate::elf::{
    RelaEntry, SHT_RELA, SHT_SYMTAB, SectionHeader, Symbol, get_strtab_from_section,
    get_strtab_string, parse_rela_section, parse_symtab,
};
use crate::elf::reloc_type::R_X86_64_GOTPCREL;
use crate::link;
use crate::link::{LayoutModel, MergedLayout, ResolvedSymbol};
use crate::link::relocate;
use crate::model;
use crate::names;
use crate::names::{NameList, NameMap};
use crate::text;
use crate::text::with_number;

verus! {

pub const SHN_UNDEF: u16 = 0;

pub const SHN_ABS: u16 = 0xfff1;

pub const STB_LOCAL: u8 = 0;

/// The position of the first symbol table at or after `i`.
pub open spec fn first_symtab(sections: Seq<SectionHeader>, i: nat) -> Option<int>
    decreases sections.len() - i,
{
    if i >= sections.len() {
        None
    } else if sections[i as int].sh_type == SHT_SYMTAB {
        Some(i as int)
    } else {
        first_symtab(sections, i + 1)
    }
}

/// The symbols of an object and their string table; none where it has no symbol table.
pub open spec fn symtab_of(data: Seq<u8>, sections: Seq<SectionHeader>) -> Result<
    Option<(Seq<Symbol>, Seq<u8>)>,
    Seq<char>,
> {
    match first_symtab(sections, 0) {
        None => Ok(None),
        Some(i) => if sections[i].sh_link >= sections.len() {
            Err("symtab sh_link invalid"@)
        } else {
            match crate::elf::symbols_of(data, sections[i]) {
                Err(e) => Err(e),
                Ok(symbols) => Ok(
                    Some((symbols, crate::elf::section_contents(data,
                        sections[sections[i].sh_link as int]))),
                ),
            }
        },
    }
}

fn parse_symtab_view<'a>(data: &'a [u8], sections: &[SectionHeader]) -> (r: Result<
    Option<(Vec<Symbol>, &'a [u8])>,
    String,
>)
    ensures
        match r {
            Ok(Some((symbols, strtab))) => symtab_of(data@, sections@) == Ok::<
                Option<(Seq<Symbol>, Seq<u8>)>,
                Seq<char>,
            >(Some((symbols@, strtab@))),
            Ok(None) => symtab_of(data@, sections@) == Ok::<
                Option<(Seq<Symbol>, Seq<u8>)>,
                Seq<char>,
            >(None),
            Err(e) => symtab_of(data@, sections@) == Err::<
                Option<(Seq<Symbol>, Seq<u8>)>,
                Seq<char>,
            >(e@),
        },
{
    let mut i: usize = 0;
    while i < sections.len() && sections[i].sh_type != SHT_SYMTAB
        invariant
            i <= sections@.len(),
            first_symtab(sections@, 0) == first_symtab(sections@, i as nat),
        decreases sections@.len() - i,
    {
        i = i + 1;
    }
    if i >= sections.len() {
        return Ok(None);
    }
    let link: usize = sections[i].sh_link as usize;
    if link >= sections.len() {
        return Err("symtab sh_link invalid".to_string());
    }
    let strtab = get_strtab_from_section(data, &sections[link]);
    match parse_symtab(data, &sections[i]) {
        Ok(symbols) => Ok(Some((symbols, strtab))),
        Err(e) => Err(e),
    }
}

/// The name of a symbol; its offset where the table holds none.
pub open spec fn elf_symbol_name(strtab: Seq<u8>, sym: Symbol) -> Seq<char> {
    match crate::elf::strtab_string(strtab, sym.name_offset) {
        Some(s) => s,
        None => "<sym_"@ + text::decimal(sym.name_offset as nat) + ">"@,
    }
}

fn read_symbol_name(strtab: &[u8], sym: &Symbol) -> (r: String)
    ensures
        r@ == elf_symbol_name(strtab@, *sym),
{
    match get_strtab_string(strtab, sym.name_offset) {
        Some(s) => s,
        None => with_number("<sym_", sym.name_offset as u64, ">"),
    }
}

/// What a symbol resolves to: absolute symbols to their value, others to their place in the
/// merged section.
pub open spec fn resolved_symbol(
    sym: Symbol,
    l: LayoutModel,
    names: Seq<Seq<char>>,
    offs: Map<Seq<char>, u64>,
) -> ResolvedSymbol {
    let section = relocate::name_or_empty(names, sym.st_shndx as int);
    if sym.st_shndx == SHN_UNDEF {
        ResolvedSymbol { address: None, size: sym.st_size, is_defined: false }
    } else if sym.st_shndx == SHN_ABS {
        ResolvedSymbol { address: Some(sym.st_value), size: sym.st_size, is_defined: true }
    } else if l.by_name.dom().contains(section) {
        ResolvedSymbol {
            address: Some(
                l.sections[l.by_name[section] as int].vaddr.wrapping_add(
                    relocate::offset_of(offs, section),
                ).wrapping_add(sym.st_value),
            ),
            size: sym.st_size,
            is_defined: true,
        }
    } else {
        ResolvedSymbol { address: None, size: sym.st_size, is_defined: false }
    }
}

fn resolve_symbol(
    sym: &Symbol,
    layout: &MergedLayout,
    names: &[String],
    offs: Option<&NameMap<u64>>,
) -> (r: ResolvedSymbol)
    requires
        link::names_in_range(layout@),
    ensures
        r == resolved_symbol(*sym, layout@, model::views(names@), relocate::offsets_view(offs)),
{
    if sym.st_shndx == SHN_UNDEF {
        return ResolvedSymbol { address: None, size: sym.st_size, is_defined: false };
    }
    if sym.st_shndx == SHN_ABS {
        return ResolvedSymbol { address: Some(sym.st_value), size: sym.st_size, is_defined: true };
    }
    let shndx: usize = sym.st_shndx as usize;
    let section = if shndx < names.len() {
        names[shndx].as_str()
    } else {
        ""
    };
    proof {
        reveal_strlit("");
        assert(section@ =~= relocate::name_or_empty(model::views(names@), sym.st_shndx as int));
    }
    match layout.section_by_name.get(section) {
        Some(idx) => {
            assert(layout@.by_name.dom().contains(section@));
            assert(layout@.sections[*idx as int] == layout.sections@[*idx as int]@);
            let off: u64 = match offs {
                Some(m) => match m.get(section) {
                    Some(o) => *o,
                    None => 0,
                },
                None => 0,
            };
            ResolvedSymbol {
                address: Some(
                    layout.sections[*idx].vaddr.wrapping_add(off).wrapping_add(sym.st_value),
                ),
                size: sym.st_size,
                is_defined: true,
            }
        },
        None => ResolvedSymbol { address: None, size: sym.st_size, is_defined: false },
    }
}

/// The named symbols among the first `n` that other objects can see; of two with one name the
/// later counts.
pub open spec fn visible_symbols(
    symbols: Seq<Symbol>,
    strtab: Seq<u8>,
    l: LayoutModel,
    names: Seq<Seq<char>>,
    offs: Map<Seq<char>, u64>,
    n: nat,
) -> Map<Seq<char>, ResolvedSymbol>
    decreases n,
{
    if n == 0 {
        Map::empty()
    } else {
        let before = visible_symbols(symbols, strtab, l, names, offs, (n - 1) as nat);
        let sym = symbols[n - 1];
        let name = elf_symbol_name(strtab, sym);
        if name.len() != 0 && sym.bind != STB_LOCAL {
            before.insert(name, resolved_symbol(sym, l, names, offs))
        } else {
            before
        }
    }
}

/// The address of each symbol, local ones included.
pub open spec fn symbol_addresses(
    symbols: Seq<Symbol>,
    l: LayoutModel,
    names: Seq<Seq<char>>,
    offs: Map<Seq<char>, u64>,
) -> Seq<Option<u64>> {
    Seq::new(symbols.len(), |i: int| resolved_symbol(symbols[i], l, names, offs).address)
}

/// The symbols of an object: those that others can see by name, and the addresses of all.
pub struct ResolvedModel {
    pub visible: Map<Seq<char>, ResolvedSymbol>,
    pub addresses: Seq<Option<u64>>,
}

/// The symbols of an object whose parts stand in `l` at the offsets `offs`.
pub open spec fn resolved_symbols(
    data: Seq<u8>,
    l: LayoutModel,
    sections: Seq<SectionHeader>,
    names: Seq<Seq<char>>,
    offs: Map<Seq<char>, u64>,
) -> Result<ResolvedModel, Seq<char>> {
    match symtab_of(data, sections) {
        Err(e) => Err(e),
        Ok(None) => Ok(ResolvedModel { visible: Map::empty(), addresses: seq![] }),
        Ok(Some((symbols, strtab))) => Ok(
            ResolvedModel {
                visible: visible_symbols(symbols, strtab, l, names, offs, symbols.len()),
                addresses: symbol_addresses(symbols, l, names, offs),
            },
        ),
    }
}

/// Resolves the symbols of an object whose parts stand in the layout at the given offsets.
pub fn resolve_symbols_with_offsets(
    data: &[u8],
    layout: &MergedLayout,
    sections: &[SectionHeader],
    names: &[String],
    offs: Option<&NameMap<u64>>,
) -> (r: Result<(NameMap<ResolvedSymbol>, Vec<Option<u64>>), String>)
    requires
        link::names_in_range(layout@),
    ensures
        match r {
            Ok((visible, addresses)) => resolved_symbols(
                data@,
                layout@,
                sections@,
                model::views(names@),
                relocate::offsets_view(offs),
            ) == Ok::<ResolvedModel, Seq<char>>(
                (ResolvedModel { visible: visible@, addresses: addresses@ }),
            ),
            Err(e) => resolved_symbols(
                data@,
                layout@,
                sections@,
                model::views(names@),
                relocate::offsets_view(offs),
            ) == Err::<ResolvedModel, Seq<char>>(e@),
        },
{
    let mut visible: NameMap<ResolvedSymbol> = NameMap::new();
    let mut addresses: Vec<Option<u64>> = Vec::new();
    let (symbols, strtab) = match parse_symtab_view(data, sections) {
        Ok(Some(t)) => t,
        Ok(None) => {
            return Ok((visible, addresses));
        },
        Err(e) => {
            return Err(e);
        },
    };
    let ghost sec_names = model::views(names@);
    let ghost off_map = relocate::offsets_view(offs);
    let ghost all = symbol_addresses(symbols@, layout@, sec_names, off_map);
    let mut i: usize = 0;
    while i < symbols.len()
        invariant
            i <= symbols@.len(),
            link::names_in_range(layout@),
            sec_names == model::views(names@),
            off_map == relocate::offsets_view(offs),
            all == symbol_addresses(symbols@, layout@, sec_names, off_map),
            addresses@ == all.subrange(0, i as int),
            visible@ == visible_symbols(
                symbols@,
                strtab@,
                layout@,
                sec_names,
                off_map,
                i as nat,
            ),
        decreases symbols@.len() - i,
    {
        let sym = &symbols[i];
        let name = read_symbol_name(strtab, sym);
        let resolved = resolve_symbol(sym, layout, names, offs);
        addresses.push(resolved.address);
        assert(addresses@ =~= all.subrange(0, i + 1));
        if name.as_str().unicode_len() != 0 && sym.bind != STB_LOCAL {
            visible.insert(name, resolved);
        }
        i = i + 1;
    }
    assert(addresses@ =~= all);
    Ok((visible, addresses))
}

/// Resolves the symbols of a single object.
pub fn resolve_symbols(
    data: &[u8],
    layout: &MergedLayout,
    sections: &[SectionHeader],
    names: &[String],
) -> (r: Result<(NameMap<ResolvedSymbol>, Vec<Option<u64>>), String>)
    requires
        link::names_in_range(layout@),
    ensures
        match r {
            Ok((visible, addresses)) => resolved_symbols(
                data@,
                layout@,
                sections@,
                model::views(names@),
                Map::empty(),
            ) == Ok::<ResolvedModel, Seq<char>>(
                (ResolvedModel { visible: visible@, addresses: addresses@ }),
            ),
            Err(e) => resolved_symbols(
                data@,
                layout@,
                sections@,
                model::views(names@),
                Map::empty(),
            ) == Err::<ResolvedModel, Seq<char>>(e@),
        },
{
    resolve_symbols_with_offsets(data, layout, sections, names, None)
}

/// The symbols that have an address.
pub open spec fn known_addresses(m: Map<Seq<char>, ResolvedSymbol>) -> Map<Seq<char>, u64> {
    Map::new(
        |k: Seq<char>| m.dom().contains(k) && m[k].address is Some,
        |k: Seq<char>| m[k].address->0,
    )
}

/// Adds the symbols that have an address, except under names that have one already.
pub fn add_known_addresses(known: &mut NameMap<u64>, m: &NameMap<ResolvedSymbol>)
    ensures
        final(known)@ == known_addresses(m@).union_prefer_right(old(known)@),
{
    let entries = m.entries();
    let ghost before = known@;
    let mut i: usize = 0;
    while i < entries.len()
        invariant
            i <= entries@.len(),
            names::names_ascend(entries@),
            names::map_of(entries@) == m@,
            forall|k: Seq<char>| #[trigger]
                known@.dom().contains(k) <==> before.dom().contains(k) || exists|j: int|
                    0 <= j < i && (#[trigger] entries@[j]).0@ == k && entries@[j].1.address is Some,
            forall|k: Seq<char>| #[trigger]
                known@.dom().contains(k) ==> known@[k] == if before.dom().contains(k) {
                    before[k]
                } else {
                    m@[k].address->0
                },
        decreases entries@.len() - i,
    {
        proof {
            names::lemma_entry(entries@, i as int);
        }
        let ghost prior = known@;
        let ghost key = entries@[i as int].0@;
        if let Some(a) = entries[i].1.address {
            if !known.contains_key(entries[i].0.as_str()) {
                known.insert(entries[i].0.clone(), a);
            }
        }
        assert forall|k: Seq<char>| #[trigger] known@.dom().contains(k) <==> before.dom().contains(k)
            || exists|j: int|
            0 <= j < i + 1 && (#[trigger] entries@[j]).0@ == k && entries@[j].1.address is Some by {
            if k == key && entries@[i as int].1.address is Some {
                assert(entries@[i as int].0@ == k);
                assert(known@.dom().contains(k));
            } else {
                assert(known@.dom().contains(k) <==> prior.dom().contains(k));
            }
        }
        i = i + 1;
    }
    proof {
        let expected = known_addresses(m@).union_prefer_right(before);
        assert forall|k: Seq<char>| known@.dom().contains(k) <==> expected.dom().contains(k) by {
            if known_addresses(m@).dom().contains(k) {
                let j = names::entry_of(entries@, k);
                assert(0 <= j < entries@.len() && entries@[j].0@ == k);
                names::lemma_entry(entries@, j);
            }
            if known@.dom().contains(k) && !before.dom().contains(k) {
                let j = choose|j: int|
                    0 <= j < i && (#[trigger] entries@[j]).0@ == k && entries@[j].1.address is Some;
                names::lemma_entry(entries@, j);
            }
        }
        assert(known@ =~= expected);
    }
}

/// The names of the symbols of an object.
pub open spec fn symbol_names(data: Seq<u8>, sections: Seq<SectionHeader>) -> Result<
    Seq<Seq<char>>,
    Seq<char>,
> {
    match symtab_of(data, sections) {
        Err(e) => Err(e),
        Ok(None) => Ok(seq![]),
        Ok(Some((symbols, strtab))) => Ok(
            Seq::new(symbols.len(), |i: int| elf_symbol_name(strtab, symbols[i])),
        ),
    }
}

/// The names of the symbols of an object, by their index.
pub fn symbol_names_by_index(data: &[u8], sections: &[SectionHeader]) -> (r: Result<
    Vec<String>,
    String,
>)
    ensures
        match r {
            Ok(v) => symbol_names(data@, sections@) == Ok::<Seq<Seq<char>>,
                Seq<char>>(model::views(v@)),
            Err(e) => symbol_names(data@, sections@) == Err::<Seq<Seq<char>>, Seq<char>>(e@),
        },
{
    broadcast use model::group_views;
    let mut out: Vec<String> = Vec::new();
    let (symbols, strtab) = match parse_symtab_view(data, sections) {
        Ok(Some(t)) => t,
        Ok(None) => {
            return Ok(out);
        },
        Err(e) => {
            return Err(e);
        },
    };
    let ghost all = Seq::new(symbols@.len(), |i: int| elf_symbol_name(strtab@, symbols@[i]));
    let mut i: usize = 0;
    while i < symbols.len()
        invariant
            i <= symbols@.len(),
            all == Seq::new(symbols@.len(), |i: int| elf_symbol_name(strtab@, symbols@[i])),
            model::views(out@) == all.subrange(0, i as int),
        decreases symbols@.len() - i,
    {
        broadcast use model::group_views;
        out.push(read_symbol_name(strtab, &symbols[i]));
        assert(model::views(out@) =~= all.subrange(0, i + 1));
        i = i + 1;
    }
    assert(model::views(out@) =~= all);
    Ok(out)
}

/// `found` with the names that the relocations from `i` on look up in the global offset table.
pub open spec fn got_names_from(
    names: Seq<Seq<char>>,
    relas: Seq<RelaEntry>,
    i: nat,
    found: Seq<Seq<char>>,
) -> Seq<Seq<char>>
    decreases relas.len() - i,
{
    if i >= relas.len() {
        found
    } else {
        let rel = relas[i as int];
        let next = if rel.r_type == R_X86_64_GOTPCREL && rel.r_sym < names.len()
            && names[rel.r_sym as int].len() != 0 {
            names::add_name(found, names[rel.r_sym as int])
        } else {
            found
        };
        got_names_from(names, relas, i + 1, next)
    }
}

/// `found` with the names that the relocation sections from `i` on look up in the global offset
/// table. A section that cannot be read adds none.
pub open spec fn got_names_in_sections(
    data: Seq<u8>,
    sections: Seq<SectionHeader>,
    names: Seq<Seq<char>>,
    i: nat,
    found: Seq<Seq<char>>,
) -> Seq<Seq<char>>
    decreases sections.len() - i,
{
    if i >= sections.len() {
        found
    } else {
        let sh = sections[i as int];
        let next = if sh.sh_type == SHT_RELA {
            match crate::elf::relas_of(data, sh) {
                Ok(relas) => got_names_from(names, relas, 0, found),
                Err(_) => found,
            }
        } else {
            found
        };
        got_names_in_sections(data, sections, names, i + 1, next)
    }
}

/// `found` with the names that an object looks up in the global offset table.
pub open spec fn got_names_of(
    data: Seq<u8>,
    sections: Seq<SectionHeader>,
    found: Seq<Seq<char>>,
) -> Seq<Seq<char>> {
    match symbol_names(data, sections) {
        Ok(names) => got_names_in_sections(data, sections, names, 0, found),
        Err(_) => found,
    }
}

/// Adds the names that an object looks up in the global offset table.
pub fn collect_gotpcrel_symbol_names(data: &[u8], sections: &[SectionHeader], out: &mut NameList)
    ensures
        final(out)@ == got_names_of(data@, sections@, old(out)@),
{
    let names = match symbol_names_by_index(data, sections) {
        Ok(v) => v,
        Err(_) => {
            return;
        },
    };
    let mut i: usize = 0;
    while i < sections.len()
        invariant
            i <= sections@.len(),
            got_names_in_sections(data@, sections@, model::views(names@), i as nat, out@)
                == got_names_in_sections(data@, sections@, model::views(names@), 0, old(out)@),
        decreases sections@.len() - i,
    {
        if sections[i].sh_type == SHT_RELA {
            if let Ok(relas) = parse_rela_section(data, &sections[i]) {
                let ghost before = out@;
                let mut k: usize = 0;
                while k < relas.len()
                    invariant
                        k <= relas@.len(),
                        got_names_from(model::views(names@), relas@, k as nat, out@)
                            == got_names_from(
                            model::views(names@),
                            relas@,
                            0,
                            before,
                        ),
                    decreases relas@.len() - k,
                {
                    let rel = &relas[k];
                    let sym: usize = rel.r_sym as usize;
                    if rel.r_type == R_X86_64_GOTPCREL && sym < names.len() {
                        assert(model::views(names@)[sym as int] == names@[sym as int]@);
                        if names[sym].as_str().unicode_len() != 0 {
                            out.insert(names[sym].clone());
                        }
                    }
                    k = k + 1;
                }
            }
        }
        i = i + 1;
    }
}

} // verus!

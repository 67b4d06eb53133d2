//! The addresses of the symbols of Mach-O objects, and the symbols that an image imports.
use vstd::prelude::*;
use vstd::string::*;
use std::collections::HashMap;
use crate::link::macho::N_WEAK_DEF;
use crate::link::macho_reloc;
use crate::macho::{
    ARM64_RELOC_GOT_LOAD_PAGE21, ARM64_RELOC_GOT_LOAD_PAGEOFF12, ARM64_RELOC_TLVP_LOAD_PAGE21,
    ARM64_RELOC_TLVP_LOAD_PAGEOFF12, Macho64Object, MachoReloc, MachoSymbol, N_EXT, ObjectModel,
    SymbolModel, parse_macho_relocs,
};
use crate::model;
use crate::names;
use crate::names::{NameList, NameMap};
use crate::text::{join2, text_from};

verus! {

broadcast use vstd::std_specs::hash::group_hash_axioms;

/// The distance of a symbol from the start of its section.
pub open spec fn symbol_offset(obj: ObjectModel, sym: SymbolModel) -> u64 {
    let start = if 0 < sym.sect <= obj.sections.len() {
        obj.sections[sym.sect - 1].addr
    } else {
        0
    };
    if sym.value >= start {
        (sym.value - start) as u64
    } else {
        0
    }
}

fn symbol_offset_in_section(obj: &Macho64Object, sym: &MachoSymbol) -> (r: u64)
    ensures
        r == symbol_offset(obj@, sym@),
{
    let start: u64 = if sym.sect > 0 && sym.sect as usize <= obj.sections.len() {
        assert(obj@.sections[sym.sect - 1] == obj.sections@[sym.sect - 1]@);
        obj.sections[(sym.sect - 1) as usize].addr
    } else {
        0
    };
    if sym.value >= start {
        sym.value - start
    } else {
        0
    }
}

/// The address of a symbol that the object defines in a section with an address.
pub open spec fn defined_addr(obj: ObjectModel, addrs: Map<u8, u64>, sym: SymbolModel) -> Option<
    u64,
> {
    if sym.is_defined && addrs.dom().contains(sym.sect) {
        Some(addrs[sym.sect].wrapping_add(symbol_offset(obj, sym)))
    } else {
        None
    }
}

fn find_defined_addr(
    obj: &Macho64Object,
    addrs: &HashMap<u8, u64>,
    sym: &MachoSymbol,
) -> (r: Option<u64>)
    ensures
        r == defined_addr(obj@, addrs@, sym@),
{
    if !sym.is_defined {
        return None;
    }
    match addrs.get(&sym.sect) {
        Some(base) => Some(base.wrapping_add(symbol_offset_in_section(obj, sym))),
        None => None,
    }
}

/// The addresses of the named symbols among the first `n`; of two with one name the later counts.
pub open spec fn own_symbols(obj: ObjectModel, addrs: Map<u8, u64>, n: nat) -> Map<Seq<char>, u64>
    decreases n,
{
    if n == 0 {
        Map::empty()
    } else {
        let before = own_symbols(obj, addrs, (n - 1) as nat);
        let sym = obj.symbols[n - 1];
        match defined_addr(obj, addrs, sym) {
            Some(a) if sym.name.len() != 0 => before.insert(sym.name, a),
            _ => before,
        }
    }
}

/// The addresses of the symbols that a single object defines.
pub fn resolve_macho_symbols(obj: &Macho64Object, addrs: &HashMap<u8, u64>) -> (r: NameMap<u64>)
    ensures
        r@ == own_symbols(obj@, addrs@, obj@.symbols.len()),
{
    let mut out: NameMap<u64> = NameMap::new();
    let mut i: usize = 0;
    while i < obj.symbols.len()
        invariant
            i <= obj.symbols@.len(),
            out@ == own_symbols(obj@, addrs@, i as nat),
        decreases obj.symbols@.len() - i,
    {
        let sym = &obj.symbols[i];
        assert(obj@.symbols[i as int] == sym@);
        if let Some(a) = find_defined_addr(obj, addrs, sym) {
            if sym.name.as_str().unicode_len() != 0 {
                out.insert(sym.name.clone(), a);
            }
        }
        i = i + 1;
    }
    out
}

/// The address under a name.
pub open spec fn lookup(m: Map<Seq<char>, u64>, name: Seq<char>) -> Option<u64> {
    if m.dom().contains(name) {
        Some(m[name])
    } else {
        None
    }
}

fn find_addr(m: &NameMap<u64>, name: &str) -> (r: Option<u64>)
    ensures
        r == lookup(m@, name@),
{
    match m.get(name) {
        Some(a) => Some(*a),
        None => None,
    }
}

/// The address of each symbol of a single object.
pub open spec fn single_symbol_addrs(
    obj: ObjectModel,
    addrs: Map<u8, u64>,
    names: Map<Seq<char>, u64>,
) -> Seq<Option<u64>> {
    Seq::new(
        obj.symbols.len(),
        |i: int|
            if obj.symbols[i].is_defined {
                defined_addr(obj, addrs, obj.symbols[i])
            } else {
                lookup(names, obj.symbols[i].name)
            },
    )
}

/// The address of each symbol of a single object.
pub fn symbol_addr_by_index(
    obj: &Macho64Object,
    addrs: &HashMap<u8, u64>,
    names: &NameMap<u64>,
) -> (r: Vec<Option<u64>>)
    ensures
        r@ == single_symbol_addrs(obj@, addrs@, names@),
{
    let mut out: Vec<Option<u64>> = Vec::new();
    let ghost all = single_symbol_addrs(obj@, addrs@, names@);
    let mut i: usize = 0;
    while i < obj.symbols.len()
        invariant
            i <= obj.symbols@.len(),
            all == single_symbol_addrs(obj@, addrs@, names@),
            out@ == all.subrange(0, i as int),
        decreases obj.symbols@.len() - i,
    {
        let sym = &obj.symbols[i];
        assert(obj@.symbols[i as int] == sym@);
        let a = if sym.is_defined {
            find_defined_addr(obj, addrs, sym)
        } else {
            find_addr(names, sym.name.as_str())
        };
        out.push(a);
        assert(out@ =~= all.subrange(0, i + 1));
        i = i + 1;
    }
    assert(out@ =~= all);
    out
}

/// `name` without the underscore in front.
pub open spec fn without_underscore(name: Seq<char>) -> Seq<char> {
    if name.len() > 0 && name[0] == '_' {
        name.subrange(1, name.len() as int)
    } else {
        name
    }
}

/// The address of an external symbol: under its name, or else without or with an underscore in
/// front.
pub open spec fn external_addr(names: Map<Seq<char>, u64>, name: Seq<char>) -> Option<u64> {
    if names.dom().contains(name) {
        Some(names[name])
    } else if names.dom().contains(without_underscore(name)) {
        Some(names[without_underscore(name)])
    } else {
        lookup(names, "_"@ + name)
    }
}

fn find_external_addr(names: &NameMap<u64>, name: &str) -> (r: Option<u64>)
    ensures
        r == external_addr(names@, name@),
{
    if let Some(a) = names.get(name) {
        return Some(*a);
    }
    if name.unicode_len() > 0 && name.get_char(0) == '_' {
        let stripped = text_from(name, 1);
        if let Some(a) = names.get(stripped.as_str()) {
            return Some(*a);
        }
    }
    find_addr(names, join2("_", name).as_str())
}

/// The address of a symbol of one of several objects.
pub open spec fn symbol_addr(
    obj: ObjectModel,
    addrs: Map<u8, u64>,
    names: Map<Seq<char>, u64>,
    sym: SymbolModel,
) -> Option<u64> {
    match defined_addr(obj, addrs, sym) {
        Some(a) => Some(a),
        None => if sym.n_type & N_EXT != 0 {
            external_addr(names, sym.name)
        } else {
            None
        },
    }
}

/// The address of each symbol of one of several objects.
pub open spec fn multi_symbol_addrs(
    obj: ObjectModel,
    addrs: Map<u8, u64>,
    names: Map<Seq<char>, u64>,
) -> Seq<Option<u64>> {
    Seq::new(obj.symbols.len(), |i: int| symbol_addr(obj, addrs, names, obj.symbols[i]))
}

/// The address of each symbol of one of several objects.
pub fn symbol_addr_by_index_multi(
    obj: &Macho64Object,
    addrs: &HashMap<u8, u64>,
    names: &NameMap<u64>,
) -> (r: Vec<Option<u64>>)
    ensures
        r@ == multi_symbol_addrs(obj@, addrs@, names@),
{
    let mut out: Vec<Option<u64>> = Vec::new();
    let ghost all = multi_symbol_addrs(obj@, addrs@, names@);
    let mut i: usize = 0;
    while i < obj.symbols.len()
        invariant
            i <= obj.symbols@.len(),
            all == multi_symbol_addrs(obj@, addrs@, names@),
            out@ == all.subrange(0, i as int),
        decreases obj.symbols@.len() - i,
    {
        let sym = &obj.symbols[i];
        assert(obj@.symbols[i as int] == sym@);
        let a = match find_defined_addr(obj, addrs, sym) {
            Some(a) => Some(a),
            None => if sym.n_type & N_EXT != 0 {
                find_external_addr(names, sym.name.as_str())
            } else {
                None
            },
        };
        out.push(a);
        assert(out@ =~= all.subrange(0, i + 1));
        i = i + 1;
    }
    assert(out@ =~= all);
    out
}

/// The external symbols of an image: their addresses, and which of them are defined weakly.
pub struct GlobalsModel {
    pub addrs: Map<Seq<char>, u64>,
    pub weak: Map<Seq<char>, bool>,
}

/// The external symbols of an image.
pub struct Globals {
    pub addrs: NameMap<u64>,
    pub weak: NameMap<bool>,
}

impl View for Globals {
    type V = GlobalsModel;

    open spec fn view(&self) -> GlobalsModel {
        GlobalsModel { addrs: self.addrs@, weak: self.weak@ }
    }
}

/// `g` with one definition more: the first one counts, unless it is weak and a later one is not.
pub open spec fn define(g: GlobalsModel, name: Seq<char>, addr: u64, weak: bool) -> GlobalsModel {
    if !g.addrs.dom().contains(name) {
        GlobalsModel { addrs: g.addrs.insert(name, addr), weak: g.weak.insert(name, weak) }
    } else if g.weak.dom().contains(name) && g.weak[name] && !weak {
        GlobalsModel { addrs: g.addrs.insert(name, addr), weak: g.weak.insert(name, false) }
    } else {
        g
    }
}

/// `g` with the external definitions of `obj` from the symbol `i` on.
pub open spec fn define_from(
    obj: ObjectModel,
    addrs: Map<u8, u64>,
    i: nat,
    g: GlobalsModel,
) -> GlobalsModel
    decreases obj.symbols.len() - i,
{
    if i >= obj.symbols.len() {
        g
    } else {
        let sym = obj.symbols[i as int];
        let next = match defined_addr(obj, addrs, sym) {
            Some(a) if sym.name.len() != 0 && sym.n_type & N_EXT != 0 => define(
                g,
                sym.name,
                a,
                sym.n_desc & N_WEAK_DEF != 0,
            ),
            _ => g,
        };
        define_from(obj, addrs, i + 1, next)
    }
}

/// Adds the external definitions of an object.
pub fn define_object_symbols(obj: &Macho64Object, addrs: &HashMap<u8, u64>, g: &mut Globals)
    ensures
        final(g)@ == define_from(obj@, addrs@, 0, old(g)@),
{
    let mut i: usize = 0;
    while i < obj.symbols.len()
        invariant
            i <= obj.symbols@.len(),
            define_from(obj@, addrs@, i as nat, g@) == define_from(obj@, addrs@, 0, old(g)@),
        decreases obj.symbols@.len() - i,
    {
        let sym = &obj.symbols[i];
        assert(obj@.symbols[i as int] == sym@);
        if let Some(a) = find_defined_addr(obj, addrs, sym) {
            if sym.name.as_str().unicode_len() != 0 && sym.n_type & N_EXT != 0 {
                let weak: bool = sym.n_desc & N_WEAK_DEF != 0;
                if !g.addrs.contains_key(sym.name.as_str()) {
                    g.addrs.insert(sym.name.clone(), a);
                    g.weak.insert(sym.name.clone(), weak);
                } else {
                    let existing_weak: bool = match g.weak.get(sym.name.as_str()) {
                        Some(w) => *w,
                        None => false,
                    };
                    if existing_weak && !weak {
                        g.addrs.insert(sym.name.clone(), a);
                        g.weak.insert(sym.name.clone(), false);
                    }
                }
            }
        }
        i = i + 1;
    }
}

/// A strong definition is kept against every later one; a weak one gives way to a strong one only.
pub proof fn law_strong_definition_wins(g: GlobalsModel, name: Seq<char>, addr: u64, weak: bool)
    requires
        g.addrs.dom() == g.weak.dom(),
        g.addrs.dom().contains(name),
    ensures
        !g.weak[name] ==> define(g, name, addr, weak) == g,
        g.weak[name] && weak ==> define(g, name, addr, weak) == g,
        g.weak[name] && !weak ==> define(g, name, addr, weak).addrs[name] == addr && !define(
            g,
            name,
            addr,
            weak,
        ).weak[name],
        define(g, name, addr, weak).addrs.dom() == define(g, name, addr, weak).weak.dom(),
{
    assert(g.addrs.dom().insert(name) =~= g.addrs.dom());
}

/// The names that an image imports: all, those that may be missing, and those that have a slot
/// in the global offset table.
pub struct ImportsModel {
    pub undefined: Seq<Seq<char>>,
    pub weak: Seq<Seq<char>>,
    pub got: Seq<Seq<char>>,
}

/// The names that an image imports.
pub struct Imports {
    pub undefined: NameList,
    pub weak: NameList,
    pub got: NameList,
}

impl View for Imports {
    type V = ImportsModel;

    open spec fn view(&self) -> ImportsModel {
        ImportsModel { undefined: self.undefined@, weak: self.weak@, got: self.got@ }
    }
}

/// `m` with an undefined external symbol.
pub open spec fn import_symbol(
    names: Map<Seq<char>, u64>,
    sym: SymbolModel,
    m: ImportsModel,
) -> ImportsModel {
    ImportsModel {
        undefined: if names.dom().contains(sym.name) {
            m.undefined
        } else {
            names::add_name(m.undefined, sym.name)
        },
        weak: if sym.is_weak_ref {
            names::add_name(m.weak, sym.name)
        } else {
            m.weak
        },
        ..m
    }
}

fn add_import(names: &NameMap<u64>, sym: &MachoSymbol, m: &mut Imports)
    ensures
        final(m)@ == import_symbol(names@, sym@, old(m)@),
{
    if !names.contains_key(sym.name.as_str()) {
        m.undefined.insert(sym.name.clone());
    }
    if sym.is_weak_ref {
        m.weak.insert(sym.name.clone());
    }
}

/// `m` with the undefined external symbols of `obj` from the symbol `i` on.
pub open spec fn import_symbols_from(
    names: Map<Seq<char>, u64>,
    obj: ObjectModel,
    i: nat,
    m: ImportsModel,
) -> ImportsModel
    decreases obj.symbols.len() - i,
{
    if i >= obj.symbols.len() {
        m
    } else {
        let sym = obj.symbols[i as int];
        import_symbols_from(
            names,
            obj,
            i + 1,
            if !sym.is_defined && sym.name.len() != 0 && sym.n_type & N_EXT != 0 {
                import_symbol(names, sym, m)
            } else {
                m
            },
        )
    }
}

/// Adds the undefined external symbols of an object.
pub fn import_object_symbols(names: &NameMap<u64>, obj: &Macho64Object, m: &mut Imports)
    ensures
        final(m)@ == import_symbols_from(names@, obj@, 0, old(m)@),
{
    let mut i: usize = 0;
    while i < obj.symbols.len()
        invariant
            i <= obj.symbols@.len(),
            import_symbols_from(names@, obj@, i as nat, m@) == import_symbols_from(
                names@,
                obj@,
                0,
                old(m)@,
            ),
        decreases obj.symbols@.len() - i,
    {
        let sym = &obj.symbols[i];
        assert(obj@.symbols[i as int] == sym@);
        if !sym.is_defined && sym.name.as_str().unicode_len() != 0 && sym.n_type & N_EXT != 0 {
            add_import(names, sym, m);
        }
        i = i + 1;
    }
}

/// `m` with what the relocation `r` imports.
pub open spec fn import_reloc(
    names: Map<Seq<char>, u64>,
    symbols: Seq<SymbolModel>,
    r: MachoReloc,
    m: ImportsModel,
) -> ImportsModel {
    if !r.r_extern || r.r_symbolnum >= symbols.len() {
        m
    } else {
        let sym = symbols[r.r_symbolnum as int];
        if sym.name.len() == 0 || sym.n_type & N_EXT == 0 {
            m
        } else {
            let needs_slot = if macho_reloc::is_thread_load(r.r_type) {
                !names.dom().contains(sym.name)
            } else {
                !sym.is_defined && macho_reloc::is_got_load(r.r_type)
            };
            let n = ImportsModel {
                got: if needs_slot {
                    names::add_name(m.got, sym.name)
                } else {
                    m.got
                },
                ..m
            };
            if sym.is_defined {
                n
            } else {
                import_symbol(names, sym, n)
            }
        }
    }
}

fn add_reloc_import(
    names: &NameMap<u64>,
    symbols: &Vec<MachoSymbol>,
    r: &MachoReloc,
    m: &mut Imports,
)
    ensures
        final(m)@ == import_reloc(names@, model::views(symbols@), *r, old(m)@),
{
    if !r.r_extern {
        return;
    }
    let idx: usize = r.r_symbolnum as usize;
    if idx >= symbols.len() {
        return;
    }
    let sym = &symbols[idx];
    assert(model::views(symbols@)[idx as int] == sym@);
    if sym.name.as_str().unicode_len() == 0 || sym.n_type & N_EXT == 0 {
        return;
    }
    let is_got_reloc = r.r_type == ARM64_RELOC_GOT_LOAD_PAGE21 || r.r_type
        == ARM64_RELOC_GOT_LOAD_PAGEOFF12;
    let is_tlvp_reloc = r.r_type == ARM64_RELOC_TLVP_LOAD_PAGE21 || r.r_type
        == ARM64_RELOC_TLVP_LOAD_PAGEOFF12;
    let needs_got = if is_tlvp_reloc {
        !names.contains_key(sym.name.as_str())
    } else {
        !sym.is_defined && is_got_reloc
    };
    if needs_got {
        m.got.insert(sym.name.clone());
    }
    if !sym.is_defined {
        add_import(names, sym, m);
    }
}

/// `m` with what the relocations from `i` on import.
pub open spec fn import_relocs_from(
    names: Map<Seq<char>, u64>,
    symbols: Seq<SymbolModel>,
    relocs: Seq<MachoReloc>,
    i: nat,
    m: ImportsModel,
) -> ImportsModel
    decreases relocs.len() - i,
{
    if i >= relocs.len() {
        m
    } else {
        import_relocs_from(
            names,
            symbols,
            relocs,
            i + 1,
            import_reloc(names, symbols, relocs[i as int], m),
        )
    }
}

/// `m` with what the relocations of the sections from `i` on import.
pub open spec fn import_sections_from(
    names: Map<Seq<char>, u64>,
    obj: ObjectModel,
    i: nat,
    m: ImportsModel,
) -> ImportsModel
    decreases obj.sections.len() - i,
{
    if i >= obj.sections.len() {
        m
    } else {
        let sec = obj.sections[i as int];
        import_sections_from(
            names,
            obj,
            i + 1,
            import_relocs_from(
                names,
                obj.symbols,
                crate::macho::relocs_of(obj.data, sec.reloff, sec.nreloc),
                0,
                m,
            ),
        )
    }
}

/// Adds what the relocations of an object import.
pub fn import_object_relocs(names: &NameMap<u64>, obj: &Macho64Object, m: &mut Imports)
    ensures
        final(m)@ == import_sections_from(names@, obj@, 0, old(m)@),
{
    let mut i: usize = 0;
    while i < obj.sections.len()
        invariant
            i <= obj.sections@.len(),
            import_sections_from(names@, obj@, i as nat, m@) == import_sections_from(
                names@,
                obj@,
                0,
                old(m)@,
            ),
        decreases obj.sections@.len() - i,
    {
        let sec = &obj.sections[i];
        assert(obj@.sections[i as int] == sec@);
        let relocs = parse_macho_relocs(obj.data.as_slice(), sec.reloff, sec.nreloc);
        let ghost before = m@;
        let mut k: usize = 0;
        while k < relocs.len()
            invariant
                k <= relocs@.len(),
                import_relocs_from(names@, obj@.symbols, relocs@, k as nat, m@)
                    == import_relocs_from(names@, obj@.symbols, relocs@, 0, before),
            decreases relocs@.len() - k,
        {
            add_reloc_import(names, &obj.symbols, &relocs[k], m);
            k = k + 1;
        }
        i = i + 1;
    }
}

} // verus!

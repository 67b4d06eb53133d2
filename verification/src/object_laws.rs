//! Which names an object defines and needs, and which members of an archive are linked for them.
use vstd::prelude::*;
use crate::bytes;
use crate::coff;
use crate::coff::SummaryModel;
use crate::elf::{SectionHeader, Symbol};
use crate::emit::coff_laws;
use crate::macho::SymbolModel;
use crate::object;
use crate::object::{Choice, InputModel, MemberModel};

verus! {

/// Whether a symbol makes its name known to other objects.
spec fn offers(sym: Symbol, strtab: Seq<u8>, name: Seq<char>) -> bool {
    (sym.bind == 1 || sym.bind == 2) && sym.st_shndx != 0 && name.len() > 0
        && crate::elf::strtab_string(strtab, sym.name_offset) == Some(name)
}

/// Whether a symbol asks other objects for its name.
spec fn asks(sym: Symbol, strtab: Seq<u8>, name: Seq<char>) -> bool {
    sym.bind == 1 && sym.st_shndx == 0 && name.len() > 0 && crate::elf::strtab_string(
        strtab,
        sym.name_offset,
    ) == Some(name)
}

proof fn lemma_table_names(
    symbols: Seq<Symbol>,
    strtab: Seq<u8>,
    i: nat,
    s: SummaryModel,
    name: Seq<char>,
)
    requires
        i <= symbols.len(),
        object::elf_summary_from(symbols, strtab, i, s) is Some,
    ensures
        ({
            let r = object::elf_summary_from(symbols, strtab, i, s)->0;
            &&& r.defined.contains(name) <==> s.defined.contains(name) || exists|k: int|
                i <= k < symbols.len() && offers(#[trigger] symbols[k], strtab, name)
            &&& r.undefined.contains(name) <==> s.undefined.contains(name) || exists|k: int|
                i <= k < symbols.len() && asks(#[trigger] symbols[k], strtab, name)
        }),
    decreases symbols.len() - i,
{
    if i < symbols.len() {
        let sym = symbols[i as int];
        if sym.bind != 1 && sym.bind != 2 {
            lemma_table_names(symbols, strtab, i + 1, s, name);
            assert(!offers(sym, strtab, name) && !asks(sym, strtab, name));
        } else {
            let found = crate::elf::strtab_string(strtab, sym.name_offset)->0;
            let next = if found.len() == 0 || sym.st_shndx == 0 && sym.bind == 2 {
                s
            } else if sym.st_shndx == 0 {
                SummaryModel { undefined: s.undefined.insert(found), ..s }
            } else {
                SummaryModel { defined: s.defined.insert(found), ..s }
            };
            lemma_table_names(symbols, strtab, i + 1, next, name);
            assert(next.defined.contains(name) <==> s.defined.contains(name) || offers(
                sym,
                strtab,
                name,
            ));
            assert(next.undefined.contains(name) <==> s.undefined.contains(name) || asks(
                sym,
                strtab,
                name,
            ));
        }
    }
}

/// The string table of the symbol table in the section `t`.
spec fn names_of(data: Seq<u8>, sections: Seq<SectionHeader>, t: int) -> Seq<u8> {
    crate::elf::section_contents(data, sections[sections[t].sh_link as int])
}

/// Whether the symbol `k` in the section `t` makes a name known.
spec fn offered_at(
    data: Seq<u8>,
    sections: Seq<SectionHeader>,
    t: int,
    k: int,
    name: Seq<char>,
) -> bool {
    let symbols = crate::elf::symbols_of(data, sections[t])->Ok_0;
    sections[t].sh_type == 2 && 0 <= k < symbols.len() && offers(
        symbols[k],
        names_of(data, sections, t),
        name,
    )
}

/// Whether the symbol `k` in the section `t` asks for a name.
spec fn asked_at(
    data: Seq<u8>,
    sections: Seq<SectionHeader>,
    t: int,
    k: int,
    name: Seq<char>,
) -> bool {
    let symbols = crate::elf::symbols_of(data, sections[t])->Ok_0;
    sections[t].sh_type == 2 && 0 <= k < symbols.len() && asks(
        symbols[k],
        names_of(data, sections, t),
        name,
    )
}

proof fn lemma_tables_names(
    data: Seq<u8>,
    sections: Seq<SectionHeader>,
    i: nat,
    s: SummaryModel,
    name: Seq<char>,
)
    requires
        i <= sections.len(),
        object::elf_summary_tables(data, sections, i, s) is Some,
    ensures
        ({
            let r = object::elf_summary_tables(data, sections, i, s)->0;
            &&& r.defined.contains(name) <==> s.defined.contains(name) || exists|t: int, k: int|
                i <= t < sections.len() && #[trigger] offered_at(data, sections, t, k, name)
            &&& r.undefined.contains(name) <==> s.undefined.contains(name) || exists|
                t: int,
                k: int,
            |
                i <= t < sections.len() && #[trigger] asked_at(data, sections, t, k, name)
            &&& forall|t: int|
                i <= t < sections.len() && (#[trigger] sections[t]).sh_type == 2
                    ==> sections[t].sh_link < sections.len() && crate::elf::symbols_of(
                    data,
                    sections[t],
                ) is Ok
        }),
    decreases sections.len() - i,
{
    if i < sections.len() {
        let sh = sections[i as int];
        let at = i as int;
        if sh.sh_type != 2 {
            lemma_tables_names(data, sections, i + 1, s, name);
            assert forall|k: int|
                !offered_at(data, sections, at, k, name) && !asked_at(data, sections, at, k, name)
                by {}
        } else {
            let symbols = crate::elf::symbols_of(data, sh)->Ok_0;
            let strtab = names_of(data, sections, at);
            let next = object::elf_summary_from(symbols, strtab, 0, s)->0;
            lemma_table_names(symbols, strtab, 0, s, name);
            lemma_tables_names(data, sections, i + 1, next, name);
            if exists|k: int| 0 <= k < symbols.len() && offers(#[trigger] symbols[k], strtab, name) {
                let k = choose|k: int|
                    0 <= k < symbols.len() && offers(#[trigger] symbols[k], strtab, name);
                assert(offered_at(data, sections, at, k, name));
            }
            if exists|k: int| 0 <= k < symbols.len() && asks(#[trigger] symbols[k], strtab, name) {
                let k = choose|k: int|
                    0 <= k < symbols.len() && asks(#[trigger] symbols[k], strtab, name);
                assert(asked_at(data, sections, at, k, name));
            }
        }
    }
}

/// Where the record `k` of the symbol table in the section `t` of an ELF object stands.
pub open spec fn elf_record(sections: Seq<SectionHeader>, t: int, k: int) -> int {
    sections[t].sh_offset + 24 * k
}

/// Whether the section `t` of an ELF object is a symbol table whose record `k` has a name that is
/// not empty.
pub open spec fn elf_record_named(
    data: Seq<u8>,
    sections: Seq<SectionHeader>,
    t: int,
    k: int,
    name: Seq<char>,
) -> bool {
    let size = if sections[t].sh_entsize == 0 {
        24
    } else {
        sections[t].sh_entsize
    };
    let strings = sections[sections[t].sh_link as int];
    &&& 0 <= t < sections.len()
    &&& sections[t].sh_type == 2
    &&& 0 <= k < sections[t].sh_size / size
    &&& name.len() > 0
    &&& crate::elf::strtab_string(
        crate::elf::section_contents(data, strings),
        bytes::u32_at(data, elf_record(sections, t, k)),
    ) == Some(name)
}

/// Whether an ELF object has a global or weak symbol of a name that stands in a section.
pub open spec fn elf_object_defines(
    data: Seq<u8>,
    sections: Seq<SectionHeader>,
    name: Seq<char>,
) -> bool {
    exists|t: int, k: int|
        {
            let at = elf_record(sections, t, k);
            let bind = data[at + 4] >> 4;
            &&& #[trigger] elf_record_named(data, sections, t, k, name)
            &&& bind == 1 || bind == 2
            &&& bytes::u16_at(data, at + 6) != 0
        }
}

/// Whether an ELF object has a global symbol, not a weak one, of a name that stands in no
/// section.
pub open spec fn elf_object_asks(
    data: Seq<u8>,
    sections: Seq<SectionHeader>,
    name: Seq<char>,
) -> bool {
    exists|t: int, k: int|
        {
            let at = elf_record(sections, t, k);
            &&& #[trigger] elf_record_named(data, sections, t, k, name)
            &&& data[at + 4] >> 4 == 1
            &&& bytes::u16_at(data, at + 6) == 0
        }
}

proof fn lemma_record_is_symbol(
    data: Seq<u8>,
    sections: Seq<SectionHeader>,
    t: int,
    k: int,
    name: Seq<char>,
)
    requires
        0 <= t < sections.len(),
        sections[t].sh_type == 2 ==> sections[t].sh_link < sections.len()
            && crate::elf::symbols_of(data, sections[t]) is Ok,
    ensures
        offered_at(data, sections, t, k, name) <==> {
            let at = elf_record(sections, t, k);
            let bind = data[at + 4] >> 4;
            &&& elf_record_named(data, sections, t, k, name)
            &&& bind == 1 || bind == 2
            &&& bytes::u16_at(data, at + 6) != 0
        },
        asked_at(data, sections, t, k, name) <==> {
            let at = elf_record(sections, t, k);
            &&& elf_record_named(data, sections, t, k, name)
            &&& data[at + 4] >> 4 == 1
            &&& bytes::u16_at(data, at + 6) == 0
        },
{
    let sh = sections[t];
    if sh.sh_type == 2 {
        crate::elf::law_symbols_are_read(data, sh);
        let symbols = crate::elf::symbols_of(data, sh)->Ok_0;
        if 0 <= k < symbols.len() {
            assert(crate::elf::elf_symbol_at(data, sh.sh_offset + 24 * k) == Ok::<
                Symbol,
                Seq<char>,
            >(symbols[k]));
        }
    }
}

/// A name is among those that an ELF object defines exactly where it has a global or weak symbol
/// of that name that is defined. It is among those that the object needs exactly where it has a
/// global symbol of that name that is not defined, and defines the name nowhere: a weak reference
/// is no need. An empty name is neither.
pub proof fn law_elf_summary_is_of_symbols(data: Seq<u8>, name: Seq<char>)
    requires
        object::elf_summary(data) is Some,
    ensures
        ({
            let s = object::elf_summary(data)->0;
            let sections = crate::elf::elf_of(data)->Ok_0.sections;
            &&& s.defined.contains(name) <==> elf_object_defines(data, sections, name)
            &&& s.undefined.contains(name) <==> elf_object_asks(data, sections, name)
                && !elf_object_defines(data, sections, name)
        }),
{
    let sections = crate::elf::elf_of(data)->Ok_0.sections;
    lemma_tables_names(data, sections, 0, coff::no_symbols(), name);
    assert forall|t: int, k: int| 0 <= t < sections.len() implies {
        let at = elf_record(sections, t, k);
        let bind = data[at + 4] >> 4;
        #[trigger] offered_at(data, sections, t, k, name) <==> {
            &&& elf_record_named(data, sections, t, k, name)
            &&& bind == 1 || bind == 2
            &&& bytes::u16_at(data, at + 6) != 0
        }
    } by {
        lemma_record_is_symbol(data, sections, t, k, name);
    }
    assert forall|t: int, k: int| 0 <= t < sections.len() implies {
        let at = elf_record(sections, t, k);
        #[trigger] asked_at(data, sections, t, k, name) <==> {
            &&& elf_record_named(data, sections, t, k, name)
            &&& data[at + 4] >> 4 == 1
            &&& bytes::u16_at(data, at + 6) == 0
        }
    } by {
        lemma_record_is_symbol(data, sections, t, k, name);
    }
    if elf_object_defines(data, sections, name) {
        let (t, k) = choose|t: int, k: int|
            {
                let at = elf_record(sections, t, k);
                let bind = data[at + 4] >> 4;
                &&& #[trigger] elf_record_named(data, sections, t, k, name)
                &&& bind == 1 || bind == 2
                &&& bytes::u16_at(data, at + 6) != 0
            };
        assert(offered_at(data, sections, t, k, name));
    }
    if elf_object_asks(data, sections, name) {
        let (t, k) = choose|t: int, k: int|
            {
                let at = elf_record(sections, t, k);
                &&& #[trigger] elf_record_named(data, sections, t, k, name)
                &&& data[at + 4] >> 4 == 1
                &&& bytes::u16_at(data, at + 6) == 0
            };
        assert(asked_at(data, sections, t, k, name));
    }
}

/// Whether the file holds the symbol table in the section `t` of an ELF object with the names of
/// its global and weak symbols.
pub open spec fn elf_table_is_whole(data: Seq<u8>, sections: Seq<SectionHeader>, t: int) -> bool {
    let sh = sections[t];
    let size = if sh.sh_entsize == 0 {
        24
    } else {
        sh.sh_entsize
    };
    let strings = sections[sh.sh_link as int];
    &&& sh.sh_link < sections.len()
    &&& sh.sh_size / size == 0 || elf_record(sections, t, (sh.sh_size / size) as int) <= data.len()
    &&& forall|k: int|
        {
            let bind = data[#[trigger] elf_record(sections, t, k) + 4] >> 4;
            0 <= k < sh.sh_size / size && (bind == 1 || bind == 2) ==> crate::elf::strtab_string(
                crate::elf::section_contents(data, strings),
                bytes::u32_at(data, elf_record(sections, t, k)),
            ) is Some
        }
}

proof fn lemma_table_is_read(symbols: Seq<Symbol>, strtab: Seq<u8>, i: nat, s: SummaryModel)
    requires
        i <= symbols.len(),
        forall|k: int|
            0 <= k < symbols.len() && ((#[trigger] symbols[k]).bind == 1 || symbols[k].bind == 2)
                ==> crate::elf::strtab_string(strtab, symbols[k].name_offset) is Some,
    ensures
        object::elf_summary_from(symbols, strtab, i, s) is Some,
    decreases symbols.len() - i,
{
    if i < symbols.len() {
        let sym = symbols[i as int];
        lemma_table_is_read(symbols, strtab, i + 1, s);
        if sym.bind == 1 || sym.bind == 2 {
            let found = crate::elf::strtab_string(strtab, sym.name_offset)->0;
            let needs = SummaryModel { undefined: s.undefined.insert(found), ..s };
            let gives = SummaryModel { defined: s.defined.insert(found), ..s };
            lemma_table_is_read(symbols, strtab, i + 1, needs);
            lemma_table_is_read(symbols, strtab, i + 1, gives);
        }
    }
}

proof fn lemma_tables_are_read(
    data: Seq<u8>,
    sections: Seq<SectionHeader>,
    i: nat,
    s: SummaryModel,
)
    requires
        i <= sections.len(),
        forall|t: int|
            0 <= t < sections.len() && (#[trigger] sections[t]).sh_type == 2
                ==> elf_table_is_whole(data, sections, t),
    ensures
        object::elf_summary_tables(data, sections, i, s) is Some,
    decreases sections.len() - i,
{
    if i < sections.len() {
        let t = i as int;
        let sh = sections[t];
        if sh.sh_type == 2 {
            assert(elf_table_is_whole(data, sections, t));
            crate::elf::law_symbols_are_read(data, sh);
            let n = crate::elf::symbol_count(sh);
            assert(elf_record(sections, t, n as int) == sh.sh_offset + 24 * n);
            let symbols = crate::elf::symbols_of(data, sh)->Ok_0;
            let strtab = names_of(data, sections, t);
            assert forall|k: int|
                0 <= k < symbols.len() && ((#[trigger] symbols[k]).bind == 1 || symbols[k].bind
                    == 2) implies crate::elf::strtab_string(
                strtab,
                symbols[k].name_offset,
            ) is Some by {
                let at = elf_record(sections, t, k);
                assert(crate::elf::elf_symbol_at(data, at) == Ok::<Symbol, Seq<char>>(symbols[k]));
            }
            lemma_table_is_read(symbols, strtab, 0, s);
            let next = object::elf_summary_from(symbols, strtab, 0, s)->0;
            lemma_tables_are_read(data, sections, i + 1, next);
        } else {
            lemma_tables_are_read(data, sections, i + 1, s);
        }
    }
}

/// The names of an ELF object are known where its symbol tables and the names of its global and
/// weak symbols can be read. They are what the object offers to and asks of other objects.
pub proof fn law_elf_summary_is_read(data: Seq<u8>)
    requires
        data.len() >= 4,
        data[0] == 0x7f,
        data[1] == 0x45,
        data[2] == 0x4c,
        data[3] == 0x46,
        crate::elf::elf_of(data) is Ok,
        forall|t: int|
            0 <= t < crate::elf::elf_of(data)->Ok_0.sections.len() && (
            #[trigger] crate::elf::elf_of(data)->Ok_0.sections[t]).sh_type == 2
                ==> elf_table_is_whole(data, crate::elf::elf_of(data)->Ok_0.sections, t),
    ensures
        object::elf_summary(data) is Some,
        object::object_summary(data) == object::elf_summary(data)->0,
{
    let sections = crate::elf::elf_of(data)->Ok_0.sections;
    lemma_tables_are_read(data, sections, 0, coff::no_symbols());
}

/// Whether a member is among the objects of a choice because it is needed.
spec fn is_in(c: Choice, data: Seq<u8>) -> bool {
    exists|k: int| 0 <= k < c.objects.len() && #[trigger] c.objects[k] == data
}

/// What a choice `d` made from `c` keeps: the objects, those of the picked members among them,
/// and the needs that no picked member meets.
spec fn grows(
    members: Seq<MemberModel>,
    picked: Seq<bool>,
    c: Choice,
    end: Seq<bool>,
    d: Choice,
    name: Seq<char>,
) -> bool {
    &&& end.len() == members.len()
    &&& c.objects.len() <= d.objects.len()
    &&& d.objects.subrange(0, c.objects.len() as int) == c.objects
    &&& forall|k: int|
        0 <= k < members.len() && (#[trigger] end[k]) && !picked[k] ==> is_in(d, members[k].data)
    &&& c.unresolved.contains(name) && !d.unresolved.contains(name) ==> exists|k: int|
        0 <= k < members.len() && !picked[k] && end[k] && (
        #[trigger] members[k]).symbols.defined.contains(name)
}

proof fn lemma_pass_grows(
    members: Seq<MemberModel>,
    i: nat,
    picked: Seq<bool>,
    c: Choice,
    name: Seq<char>,
)
    requires
        picked.len() == members.len(),
        i <= members.len(),
    ensures
        ({
            let (end, d) = object::pick_pass(members, i, picked, c);
            grows(members, picked, c, end, d, name)
        }),
    decreases members.len() - i,
{
    let (end, d) = object::pick_pass(members, i, picked, c);
    object::lemma_pass_keeps(members, i, picked, c);
    if i < members.len() {
        let m = members[i as int];
        if picked[i as int] || m.symbols.defined.disjoint(c.unresolved) {
            lemma_pass_grows(members, i + 1, picked, c, name);
        } else {
            let p = picked.update(i as int, true);
            let next = object::with_object(c, m.data, m.symbols);
            lemma_pass_grows(members, i + 1, p, next, name);
            object::lemma_pass_keeps(members, i + 1, p, next);
            assert(d.objects.subrange(0, c.objects.len() as int) =~= next.objects.subrange(
                0,
                c.objects.len() as int,
            )) by {
                assert forall|k: int| 0 <= k < c.objects.len() implies d.objects[k]
                    == next.objects[k] by {
                    assert(d.objects.subrange(0, next.objects.len() as int)[k]
                        == next.objects[k]);
                }
            }
            assert(next.objects.subrange(0, c.objects.len() as int) =~= c.objects);
            assert(d.objects[c.objects.len() as int] == m.data) by {
                assert(d.objects.subrange(0, next.objects.len() as int)[c.objects.len() as int]
                    == next.objects[c.objects.len() as int]);
            }
            assert(p[i as int] && end[i as int]);
            assert forall|k: int|
                0 <= k < members.len() && (#[trigger] end[k]) && !picked[k] implies is_in(
                d,
                members[k].data,
            ) by {
                if k != i {
                    assert(!p[k]);
                }
            }
            if c.unresolved.contains(name) && !d.unresolved.contains(name) {
                if next.unresolved.contains(name) {
                    let k = choose|k: int|
                        0 <= k < members.len() && !p[k] && end[k] && (
                        #[trigger] members[k]).symbols.defined.contains(name);
                    assert(!picked[k] && members[k].symbols.defined.contains(name));
                } else {
                    assert(members[i as int].symbols.defined.contains(name));
                }
            }
        }
    } else {
        assert(d.objects.subrange(0, c.objects.len() as int) =~= c.objects);
    }
}

proof fn lemma_picking_grows(
    members: Seq<MemberModel>,
    picked: Seq<bool>,
    c: Choice,
    name: Seq<char>,
)
    requires
        picked.len() == members.len(),
    ensures
        ({
            let (end, d) = object::pick_members(members, picked, c);
            grows(members, picked, c, end, d, name)
        }),
        forall|k: int|
            0 <= k < picked.len() && picked[k] ==> #[trigger] object::pick_members(
                members,
                picked,
                c,
            ).0[k],
    decreases object::unpicked(picked, picked.len()),
{
    let (next, after) = object::pick_pass(members, 0, picked, c);
    object::lemma_pass_keeps(members, 0, picked, c);
    lemma_pass_grows(members, 0, picked, c, name);
    if next != picked {
        if forall|i: int| 0 <= i < picked.len() ==> picked[i] == next[i] {
            assert(next =~= picked);
        }
        object::lemma_unpicked_le(picked, next, picked.len());
        lemma_picking_grows(members, next, after, name);
        let (end, d) = object::pick_members(members, picked, c);
        assert(d.objects.subrange(0, c.objects.len() as int) =~= c.objects) by {
            assert forall|k: int| 0 <= k < c.objects.len() implies d.objects[k] == c.objects[k] by {
                assert(d.objects.subrange(0, after.objects.len() as int)[k] == after.objects[k]);
                assert(after.objects.subrange(0, c.objects.len() as int)[k] == c.objects[k]);
            }
        }
        assert forall|k: int| 0 <= k < members.len() && (#[trigger] end[k]) && !picked[k] implies is_in(
            d,
            members[k].data,
        ) by {
            if next[k] {
                assert(is_in(after, members[k].data));
                let j = choose|j: int|
                    0 <= j < after.objects.len() && #[trigger] after.objects[j] == members[k].data;
                assert(d.objects.subrange(0, after.objects.len() as int)[j] == after.objects[j]);
                assert(d.objects[j] == members[k].data);
            }
        }
        if c.unresolved.contains(name) && !d.unresolved.contains(name) {
            if after.unresolved.contains(name) {
                let k = choose|k: int|
                    0 <= k < members.len() && !next[k] && end[k] && (
                    #[trigger] members[k]).symbols.defined.contains(name);
                assert(!picked[k] && members[k].symbols.defined.contains(name));
            } else {
                let k = choose|k: int|
                    0 <= k < members.len() && !picked[k] && next[k] && (
                    #[trigger] members[k]).symbols.defined.contains(name);
                assert(end[k] && members[k].symbols.defined.contains(name));
            }
        }
    }
}

/// The objects chosen before an archive stay in front, and where a name is needed that a member
/// of the archive defines, a member that defines it is linked.
pub proof fn law_needed_member_is_linked(
    c: Choice,
    members: Seq<MemberModel>,
    name: Seq<char>,
    m: int,
)
    requires
        0 <= m < members.len(),
        c.unresolved.contains(name),
        members[m].symbols.defined.contains(name),
    ensures
        ({
            let d = object::with_archive(c, members);
            &&& d.objects.len() >= c.objects.len()
            &&& d.objects.subrange(0, c.objects.len() as int) == c.objects
            &&& exists|k: int, j: int|
                0 <= k < members.len() && 0 <= j < d.objects.len() && (
                #[trigger] members[k]).symbols.defined.contains(name) && members[k].data == (
                #[trigger] d.objects[j])
        }),
{
    let none = object::none_picked(members.len());
    let (end, after) = object::pick_members(members, none, c);
    lemma_picking_grows(members, none, c, name);
    object::law_no_needed_member_is_left(members, none, c, m);
    let k = if after.unresolved.contains(name) {
        m
    } else {
        choose|k: int|
            0 <= k < members.len() && !none[k] && end[k] && (
            #[trigger] members[k]).symbols.defined.contains(name)
    };
    assert(end[k]) by {
        if after.unresolved.contains(name) && !end[m] {
            assert(!members[m].symbols.defined.disjoint(after.unresolved));
        }
    }
    assert(is_in(after, members[k].data));
    let j = choose|j: int|
        0 <= j < after.objects.len() && #[trigger] after.objects[j] == members[k].data;
    assert(object::with_archive(c, members).objects[j] == members[k].data);
}

proof fn lemma_archive_keeps_objects(c: Choice, members: Seq<MemberModel>)
    ensures
        ({
            let d = object::with_archive(c, members);
            &&& c.objects.len() <= d.objects.len()
            &&& d.objects.subrange(0, c.objects.len() as int) == c.objects
        }),
{
    let name: Seq<char> = seq![];
    let none = object::none_picked(members.len());
    lemma_picking_grows(members, none, c, name);
    let after = object::pick_members(members, none, c).1;
    let d = object::with_archive(c, members);
    assert(d.objects.subrange(0, c.objects.len() as int) =~= after.objects.subrange(
        0,
        c.objects.len() as int,
    ));
}

/// The objects chosen so far stay in front, whatever files follow.
pub proof fn law_chosen_objects_stay(
    c: Choice,
    files: Seq<InputModel>,
    wanted: Option<u32>,
    i: nat,
)
    requires
        object::with_files(c, files, wanted, i) is Some,
    ensures
        ({
            let d = object::with_files(c, files, wanted, i)->0;
            &&& c.objects.len() <= d.objects.len()
            &&& d.objects.subrange(0, c.objects.len() as int) == c.objects
        }),
    decreases files.len() - i,
{
    let d = object::with_files(c, files, wanted, i)->0;
    if i < files.len() {
        let data = object::normalized(files[i as int].data, wanted);
        let next = object::with_file(c, files[i as int], wanted)->0;
        law_chosen_objects_stay(next, files, wanted, i + 1);
        lemma_archive_keeps_objects(c, object::archive_members(data, wanted));
        assert(next.objects.subrange(0, c.objects.len() as int) =~= c.objects);
        assert(d.objects.subrange(0, c.objects.len() as int) =~= d.objects.subrange(
            0,
            next.objects.len() as int,
        ).subrange(0, c.objects.len() as int));
    } else {
        assert(d.objects.subrange(0, c.objects.len() as int) =~= c.objects);
    }
}

/// Whether a member that defines a name is among the objects of a choice.
pub open spec fn definer_is_chosen(
    c: Choice,
    members: Seq<MemberModel>,
    name: Seq<char>,
) -> bool {
    exists|k: int, j: int|
        0 <= k < members.len() && 0 <= j < c.objects.len() && (
        #[trigger] members[k]).symbols.defined.contains(name) && members[k].data == (
        #[trigger] c.objects[j])
}

proof fn lemma_definer_is_chosen(
    c: Choice,
    files: Seq<InputModel>,
    wanted: Option<u32>,
    i: nat,
    o: nat,
    a: nat,
    name: Seq<char>,
    m: int,
)
    requires
        i <= a < files.len(),
        o < a,
        object::with_files(c, files, wanted, i) is Some,
        forall|k: int| 0 <= k < a ==> object::plain_object((#[trigger] files[k]).data, wanted),
        forall|k: int|
            0 <= k < a ==> !object::object_summary(
                (#[trigger] files[k]).data,
            ).defined.contains(name),
        object::object_summary(files[o as int].data).undefined.contains(name),
        !c.defined.contains(name),
        i > o ==> c.unresolved.contains(name),
        object::normalized(files[a as int].data, wanted) == files[a as int].data,
        object::ar_magic(files[a as int].data),
        !object::macho_dylib(files[a as int].data),
        0 <= m < object::archive_members(files[a as int].data, wanted).len(),
        object::archive_members(files[a as int].data, wanted)[m].symbols.defined.contains(name),
    ensures
        definer_is_chosen(
            object::with_files(c, files, wanted, i)->0,
            object::archive_members(files[a as int].data, wanted),
            name,
        ),
    decreases a - i,
{
    let next = object::with_file(c, files[i as int], wanted)->0;
    if i < a {
        assert(object::plain_object(files[i as int].data, wanted));
        let s = object::object_summary(files[i as int].data);
        assert(next == object::with_object(c, files[i as int].data, s));
        lemma_definer_is_chosen(next, files, wanted, i + 1, o, a, name, m);
    } else {
        let members = object::archive_members(files[a as int].data, wanted);
        law_needed_member_is_linked(c, members, name, m);
        law_chosen_objects_stay(next, files, wanted, i + 1);
        let d = object::with_files(c, files, wanted, i)->0;
        let (k, j) = choose|k: int, j: int|
            0 <= k < members.len() && 0 <= j < next.objects.len() && (
            #[trigger] members[k]).symbols.defined.contains(name) && members[k].data == (
            #[trigger] next.objects[j]);
        assert(d.objects.subrange(0, next.objects.len() as int)[j] == next.objects[j]);
        assert(d.objects[j] == members[k].data);
    }
}

/// Where objects stand in front of an archive, one of them needs a name, none of them defines it
/// and a member of the archive does, a member that defines it is among the objects that are
/// linked. Where only one member defines it, that member is.
pub proof fn law_member_for_object_is_linked(
    files: Seq<InputModel>,
    wanted: Option<u32>,
    o: nat,
    a: nat,
    name: Seq<char>,
    m: int,
)
    requires
        o < a < files.len(),
        object::loaded(files, wanted) is Some,
        forall|k: int| 0 <= k < a ==> object::plain_object((#[trigger] files[k]).data, wanted),
        forall|k: int|
            0 <= k < a ==> !object::object_summary(
                (#[trigger] files[k]).data,
            ).defined.contains(name),
        object::object_summary(files[o as int].data).undefined.contains(name),
        object::normalized(files[a as int].data, wanted) == files[a as int].data,
        object::ar_magic(files[a as int].data),
        !object::macho_dylib(files[a as int].data),
        0 <= m < object::archive_members(files[a as int].data, wanted).len(),
        object::archive_members(files[a as int].data, wanted)[m].symbols.defined.contains(name),
    ensures
        ({
            let members = object::archive_members(files[a as int].data, wanted);
            let (_, objects, _) = object::loaded(files, wanted)->0;
            &&& exists|k: int, j: int|
                0 <= k < members.len() && 0 <= j < objects.len() && (
                #[trigger] members[k]).symbols.defined.contains(name) && members[k].data == (
                #[trigger] objects[j])
            &&& (forall|k: int|
                0 <= k < members.len() && (#[trigger] members[k]).symbols.defined.contains(name)
                    ==> k == m) ==> objects.contains(members[m].data)
        }),
{
    lemma_definer_is_chosen(object::no_choice(), files, wanted, 0, o, a, name, m);
    let members = object::archive_members(files[a as int].data, wanted);
    let objects = object::with_files(object::no_choice(), files, wanted, 0)->0.objects;
    let (k, j) = choose|k: int, j: int|
        0 <= k < members.len() && 0 <= j < objects.len() && (
        #[trigger] members[k]).symbols.defined.contains(name) && members[k].data == (
        #[trigger] objects[j]);
    assert((object::loaded(files, wanted)->0).1 == objects);
    assert(objects.contains(members[k].data));
}

/// Where ELF objects stand in front of an archive, one of them has a global symbol of a name that
/// is not defined, none of them has one that is, and only one member of the archive defines the
/// name, that member is among the objects that are linked.
pub proof fn law_member_for_elf_object_is_linked(
    files: Seq<InputModel>,
    wanted: Option<u32>,
    o: nat,
    a: nat,
    name: Seq<char>,
    m: int,
)
    requires
        o < a < files.len(),
        object::loaded(files, wanted) is Some,
        forall|k: int|
            0 <= k < a ==> object::plain_object((#[trigger] files[k]).data, wanted)
                && crate::elf::elf_magic(files[k].data) && object::elf_summary(
                files[k].data,
            ) is Some,
        forall|k: int|
            0 <= k < a ==> !elf_object_defines(
                (#[trigger] files[k]).data,
                crate::elf::elf_of(files[k].data)->Ok_0.sections,
                name,
            ),
        elf_object_asks(
            files[o as int].data,
            crate::elf::elf_of(files[o as int].data)->Ok_0.sections,
            name,
        ),
        object::normalized(files[a as int].data, wanted) == files[a as int].data,
        object::ar_magic(files[a as int].data),
        !object::macho_dylib(files[a as int].data),
        0 <= m < object::archive_members(files[a as int].data, wanted).len(),
        forall|k: int|
            0 <= k < object::archive_members(files[a as int].data, wanted).len() ==> ((
            #[trigger] object::archive_members(
                files[a as int].data,
                wanted,
            )[k]).symbols.defined.contains(name) <==> k == m),
    ensures
        (object::loaded(files, wanted)->0).1.contains(
            object::archive_members(files[a as int].data, wanted)[m].data,
        ),
{
    assert forall|k: int| 0 <= k < a implies !object::object_summary(
        (#[trigger] files[k]).data,
    ).defined.contains(name) by {
        law_elf_summary_is_of_symbols(files[k].data, name);
    }
    law_elf_summary_is_of_symbols(files[o as int].data, name);
    assert(object::plain_object(files[o as int].data, wanted));
    law_member_for_object_is_linked(files, wanted, o, a, name, m);
}

/// Whether the symbol `n` of a COFF object is an external one of a name that is not empty.
pub open spec fn coff_external(data: Seq<u8>, n: nat, name: Seq<char>) -> bool {
    let at = coff_laws::coff_record(data, coff_laws::coff_symbol(data, n));
    &&& coff_laws::has_coff_symbol(data, n)
    &&& data[at + 17] == 2
    &&& name.len() > 0
    &&& coff_laws::coff_symbol_text(data, n) == name
}

/// Whether a COFF object has an external symbol of a name that stands in a section.
pub open spec fn coff_defines(data: Seq<u8>, name: Seq<char>, from: nat) -> bool {
    exists|n: nat|
        {
            let at = coff_laws::coff_record(data, coff_laws::coff_symbol(data, n));
            n >= from && #[trigger] coff_external(data, n, name) && bytes::u16_at(data, at + 12)
                != 0
        }
}

/// Whether a COFF object has an external symbol of a name that stands in no section.
pub open spec fn coff_asks(data: Seq<u8>, name: Seq<char>, from: nat) -> bool {
    exists|n: nat|
        {
            let at = coff_laws::coff_record(data, coff_laws::coff_symbol(data, n));
            n >= from && #[trigger] coff_external(data, n, name) && bytes::u16_at(data, at + 12)
                == 0
        }
}

proof fn lemma_coff_names(data: Seq<u8>, n: nat, s: SummaryModel, name: Seq<char>)
    requires
        coff_laws::coff_record(data, bytes::u32_at(data, 12) as int) <= data.len(),
        coff_laws::coff_symbol(data, n) >= 0,
    ensures
        ({
            let r = coff::coff_summary_from(
                data,
                bytes::u32_at(data, 8) as int,
                bytes::u32_at(data, 12) as nat,
                coff_laws::coff_strings(data),
                coff_laws::coff_symbol(data, n) as nat,
                s,
            );
            &&& r.defined.contains(name) <==> s.defined.contains(name) || coff_defines(
                data,
                name,
                n,
            )
            &&& r.undefined.contains(name) <==> s.undefined.contains(name) || coff_asks(
                data,
                name,
                n,
            )
        }),
    decreases
            (if coff_laws::coff_symbol(data, n) < bytes::u32_at(data, 12) {
                bytes::u32_at(data, 12) - coff_laws::coff_symbol(data, n)
            } else {
                0
            }),
{
    let count = bytes::u32_at(data, 12);
    let i = coff_laws::coff_symbol(data, n);
    if i >= count {
        assert forall|k: nat| k >= n implies !#[trigger] coff_external(data, k, name) by {
            coff_laws::lemma_symbols_ascend(data, n, k);
        }
    } else {
        let at = coff_laws::coff_record(data, i);
        let own = coff_laws::coff_symbol_text(data, n);
        let next = if data[at + 17] == 2 && own.len() != 0 {
            if bytes::u16_at(data, at + 12) == 0 {
                SummaryModel { undefined: s.undefined.insert(own), ..s }
            } else {
                SummaryModel { defined: s.defined.insert(own), ..s }
            }
        } else {
            s
        };
        assert(coff_laws::coff_symbol(data, n + 1) == i + 1 + data[at + 16]);
        lemma_coff_names(data, n + 1, next, name);
        let is_own = coff_external(data, n, name);
        let defined = bytes::u16_at(data, at + 12) != 0;
        assert(coff_defines(data, name, n) <==> is_own && defined || coff_defines(
            data,
            name,
            n + 1,
        )) by {
            if coff_defines(data, name, n) && !(is_own && defined) {
                let k = choose|k: nat|
                    k >= n && #[trigger] coff_external(data, k, name) && bytes::u16_at(
                        data,
                        coff_laws::coff_record(data, coff_laws::coff_symbol(data, k)) + 12,
                    ) != 0;
                assert(k >= n + 1 && coff_external(data, k, name));
            }
            if coff_defines(data, name, n + 1) {
                let k = choose|k: nat|
                    k >= n + 1 && #[trigger] coff_external(data, k, name) && bytes::u16_at(
                        data,
                        coff_laws::coff_record(data, coff_laws::coff_symbol(data, k)) + 12,
                    ) != 0;
                assert(k >= n && coff_external(data, k, name));
            }
        }
        assert(coff_asks(data, name, n) <==> is_own && !defined || coff_asks(data, name, n + 1))
            by {
            if coff_asks(data, name, n) && !(is_own && !defined) {
                let k = choose|k: nat|
                    k >= n && #[trigger] coff_external(data, k, name) && bytes::u16_at(
                        data,
                        coff_laws::coff_record(data, coff_laws::coff_symbol(data, k)) + 12,
                    ) == 0;
                assert(k >= n + 1 && coff_external(data, k, name));
            }
            if coff_asks(data, name, n + 1) {
                let k = choose|k: nat|
                    k >= n + 1 && #[trigger] coff_external(data, k, name) && bytes::u16_at(
                        data,
                        coff_laws::coff_record(data, coff_laws::coff_symbol(data, k)) + 12,
                    ) == 0;
                assert(k >= n && coff_external(data, k, name));
            }
        }
    }
}

/// A name is among those that a COFF object defines exactly where it has an external symbol of
/// that name that stands in a section, and among those that the object needs exactly where it has
/// one that stands in none, and defines the name nowhere. This holds where the file holds the
/// symbol table and the size of the string table behind it.
pub proof fn law_coff_summary_is_of_symbols(data: Seq<u8>, name: Seq<char>)
    requires
        data.len() >= 20,
        bytes::u32_at(data, 8) > 0,
        bytes::u32_at(data, 12) > 0,
        coff_laws::coff_record(data, bytes::u32_at(data, 12) as int) + 4 <= data.len(),
    ensures
        coff::coff_summary(data) is Some,
        ({
            let s = coff::coff_summary(data)->0;
            &&& s.defined.contains(name) <==> coff_defines(data, name, 0)
            &&& s.undefined.contains(name) <==> coff_asks(data, name, 0) && !coff_defines(
                data,
                name,
                0,
            )
        }),
{
    let end = coff_laws::coff_record(data, bytes::u32_at(data, 12) as int);
    assert(coff::coff_strtab(data, end) =~= coff_laws::coff_strings(data));
    lemma_coff_names(data, 0, coff::no_symbols(), name);
}

/// Whether the symbol `k` of a Mach-O object is an external one of a name that is not empty.
pub open spec fn macho_external(symbols: Seq<SymbolModel>, k: int, name: Seq<char>) -> bool {
    0 <= k < symbols.len() && symbols[k].name == name && name.len() > 0 && symbols[k].n_type & 1
        != 0
}

proof fn lemma_macho_names(symbols: Seq<SymbolModel>, i: nat, s: SummaryModel, name: Seq<char>)
    requires
        i <= symbols.len(),
    ensures
        ({
            let r = object::macho_summary_from(symbols, i, s);
            &&& r.defined.contains(name) <==> s.defined.contains(name) || exists|k: int|
                i <= k && #[trigger] macho_external(symbols, k, name) && symbols[k].is_defined
            &&& r.undefined.contains(name) <==> s.undefined.contains(name) || exists|k: int|
                i <= k && #[trigger] macho_external(symbols, k, name) && !symbols[k].is_defined
                    && !symbols[k].is_weak_ref
        }),
    decreases symbols.len() - i,
{
    if i < symbols.len() {
        let sym = symbols[i as int];
        let next = if sym.name.len() == 0 || sym.n_type & 1 == 0 {
            s
        } else if sym.is_defined {
            SummaryModel { defined: s.defined.insert(sym.name), ..s }
        } else if sym.is_weak_ref {
            s
        } else {
            SummaryModel { undefined: s.undefined.insert(sym.name), ..s }
        };
        lemma_macho_names(symbols, i + 1, next, name);
        let is_own = macho_external(symbols, i as int, name);
        assert(next.defined.contains(name) <==> s.defined.contains(name) || is_own
            && sym.is_defined);
        assert(next.undefined.contains(name) <==> s.undefined.contains(name) || is_own
            && !sym.is_defined && !sym.is_weak_ref);
    }
}

/// A name is among those that a Mach-O object defines exactly where it has an external symbol of
/// that name that is defined. It is among those that the object needs exactly where it has one that
/// is not defined and no weak reference, and defines the name nowhere.
pub proof fn law_macho_summary_is_of_symbols(data: Seq<u8>, name: Seq<char>)
    requires
        crate::macho::object_of(data) is Ok,
    ensures
        object::macho_summary(data) is Some,
        ({
            let s = object::macho_summary(data)->0;
            let symbols = crate::macho::object_of(data)->Ok_0.symbols;
            let defined = exists|k: int| #[trigger]
                macho_external(symbols, k, name) && symbols[k].is_defined;
            let asked = exists|k: int| #[trigger]
                macho_external(symbols, k, name) && !symbols[k].is_defined
                    && !symbols[k].is_weak_ref;
            &&& s.defined.contains(name) <==> defined
            &&& s.undefined.contains(name) <==> asked && !defined
        }),
{
    let symbols = crate::macho::object_of(data)->Ok_0.symbols;
    lemma_macho_names(symbols, 0, coff::no_symbols(), name);
    assert forall|k: int| macho_external(symbols, k, name) implies 0 <= k by {}
}

} // verus!

//! What is read from a Mach-O object.
use vstd::prelude::*;
use crate::bytes;
use crate::emit::macho_command_laws;
use crate::macho::{Commands, SectionModel, SymbolModel, SymtabPlace};

verus! {

/// The fields of the records of a Mach-O object stand where its format says.
pub proof fn law_macho_records_are_read(data: Seq<u8>, off: int, stroff: int, strsize: int)
    ensures
        ({
            let s = crate::macho::section_at(data, off);
            &&& s.sectname == crate::macho::name16(data, off) && s.segname == crate::macho::name16(
                data,
                off + 16,
            )
            &&& s.addr == bytes::u64_at(data, off + 32) && s.size == bytes::u64_at(data, off + 40)
            &&& s.offset == bytes::u32_at(data, off + 48) && s.align == bytes::u32_at(
                data,
                off + 52,
            )
            &&& s.reloff == bytes::u32_at(data, off + 56) && s.nreloc == bytes::u32_at(
                data,
                off + 60,
            )
            &&& s.flags == bytes::u32_at(data, off + 64)
        }),
        ({
            let s = crate::macho::symbol_at(data, off, stroff, strsize);
            let kind = data[off + 4] & 0x0e;
            &&& s.name == crate::macho::table_name(
                data,
                bytes::u32_at(data, off) as int,
                stroff,
                strsize,
            )
            &&& s.n_type == data[off + 4] && s.sect == data[off + 5]
            &&& s.n_desc == bytes::u16_at(data, off + 6) && s.value == bytes::u64_at(data, off + 8)
            &&& s.is_defined <==> kind == 0x0e && data[off + 5] != 0
            &&& s.is_weak_ref <==> !s.is_defined && bytes::u16_at(data, off + 6) & 0x40 != 0
        }),
        ({
            let r = crate::macho::reloc_at(data, off);
            let word = bytes::u32_at(data, off + 4);
            &&& r.r_address == bytes::u32_at(data, off)
            &&& r.r_symbolnum == word % 0x100_0000
            &&& r.r_pcrel <==> (word / 0x100_0000) % 2 == 1
            &&& r.r_length == (word / 0x200_0000) % 4
            &&& r.r_extern <==> (word / 0x800_0000) % 2 == 1
            &&& r.r_type == word / 0x1000_0000
        }),
{
    let word = bytes::u32_at(data, off + 4);
    assert(word & 0xFFFFFF == word % 0x100_0000 && ((word >> 24) & 1 != 0) == ((word / 0x100_0000)
        % 2 == 1) && (word >> 25) & 3 == (word / 0x200_0000) % 4 && ((word >> 27) & 1 != 0) == ((
    word / 0x800_0000) % 2 == 1) && (word >> 28) & 0xF == word / 0x1000_0000) by (bit_vector);
}

proof fn lemma_commands_ascend(data: Seq<u8>, i: nat, k: nat)
    requires
        i <= k,
    ensures
        32 <= macho_command_laws::command_at(data, i) <= macho_command_laws::command_at(data, k),
    decreases k,
{
    if i < k {
        lemma_commands_ascend(data, i, (k - 1) as nat);
    } else if k > 0 {
        lemma_commands_ascend(data, (i - 1) as nat, (k - 1) as nat);
    }
}

/// Whether the command `c` of a file describes a segment.
pub open spec fn is_segment_command(data: Seq<u8>, c: nat) -> bool {
    macho_command_laws::command_kind(data, c) == 0x19 && bytes::u32_at(
        data,
        macho_command_laws::command_at(data, c) + 4,
    ) >= 72
}

/// Whether the command `c` of a file tells where symbols stand.
pub open spec fn is_symbols_command(data: Seq<u8>, c: nat) -> bool {
    let kind = macho_command_laws::command_kind(data, c);
    (kind == 2 || kind == 0xb) && bytes::u32_at(
        data,
        macho_command_laws::command_at(data, c) + 4,
    ) >= 24
}

proof fn lemma_sections_are_read(data: Seq<u8>, off: int, n: nat, found: Seq<SectionModel>)
    requires
        0 <= off,
    ensures
        ({
            let r = crate::macho::sections_from(data, off, n, found);
            &&& forall|x: SectionModel| found.contains(x) ==> #[trigger] r.contains(x)
            &&& forall|j: int|
                0 <= j < n && off + 80 * j + 80 <= data.len() ==> r.contains(
                    #[trigger] crate::macho::section_at(data, off + 80 * j),
                )
        }),
    decreases n,
{
    if n > 0 && off + 80 <= data.len() {
        let own = crate::macho::section_at(data, off);
        let next = found.push(own);
        lemma_sections_are_read(data, off + 80, (n - 1) as nat, next);
        let r = crate::macho::sections_from(data, off + 80, (n - 1) as nat, next);
        assert(crate::macho::sections_from(data, off, n, found) == r);
        assert(next[found.len() as int] == own);
        assert(next.contains(own));
        assert forall|x: SectionModel| found.contains(x) implies #[trigger] r.contains(x) by {
            let i = choose|i: int| 0 <= i < found.len() && found[i] == x;
            assert(next[i] == x);
            assert(next.contains(x));
        }
        assert forall|j: int| 0 <= j < n && off + 80 * j + 80 <= data.len() implies r.contains(
            #[trigger] crate::macho::section_at(data, off + 80 * j),
        ) by {
            if j == 0 {
                assert(r.contains(own));
            } else {
                assert(off + 80 * j == (off + 80) + 80 * (j - 1));
                assert(r.contains(crate::macho::section_at(data, (off + 80) + 80 * (j - 1))));
            }
        }
    }
}

/// What the commands from `i` on add to what was seen.
proof fn lemma_commands_are_read(data: Seq<u8>, i: nat, n: nat, seen: Commands)
    requires
        i <= n,
        crate::macho::commands_from(
            data,
            macho_command_laws::command_at(data, i),
            (n - i) as nat,
            seen,
        ) is Ok,
    ensures
        ({
            let r = crate::macho::commands_from(
                data,
                macho_command_laws::command_at(data, i),
                (n - i) as nat,
                seen,
            )->Ok_0;
            &&& forall|x: SectionModel| seen.sections.contains(x) ==> #[trigger] r.sections.contains(x)
            &&& forall|c: nat, j: int|
                #![trigger is_segment_command(data, c), crate::macho::section_at(
                    data,
                    macho_command_laws::command_at(data, c) + 72 + 80 * j,
                )]
                i <= c < n && is_segment_command(data, c) && 0 <= j < bytes::u32_at(
                    data,
                    macho_command_laws::command_at(data, c) + 64,
                ) && macho_command_laws::command_at(data, c) + 72 + 80 * j + 80 <= data.len()
                    ==> r.sections.contains(
                    crate::macho::section_at(
                        data,
                        macho_command_laws::command_at(data, c) + 72 + 80 * j,
                    ),
                )
            &&& (forall|c: nat| i <= c < n ==> !#[trigger] is_symbols_command(data, c)) ==> r.symtab
                == seen.symtab
            &&& forall|c: nat|
                i <= c < n && #[trigger] is_symbols_command(data, c) && seen.symtab.nsyms == 0
                    && bytes::u32_at(data, macho_command_laws::command_at(data, c) + 12) > 0
                    && macho_command_laws::command_at(data, c) + 24 <= data.len() && (forall|q: nat|
                    i <= q < n && q != c ==> !#[trigger] is_symbols_command(data, q)) ==> {
                    let at = macho_command_laws::command_at(data, c);
                    &&& r.symtab.symoff == bytes::u32_at(data, at + 8)
                    &&& r.symtab.nsyms == bytes::u32_at(data, at + 12)
                    &&& r.symtab.stroff == bytes::u32_at(data, at + 16)
                    &&& r.symtab.strsize == bytes::u32_at(data, at + 20)
                }
        }),
    decreases n - i,
{
    let off = macho_command_laws::command_at(data, i);
    lemma_commands_ascend(data, i, i);
    if i == n || data.len() < off + 8 {
        assert forall|c: nat| i <= c < n implies macho_command_laws::command_at(data, c) >= off by {
            lemma_commands_ascend(data, i, c);
        }
    } else {
        let next = next_commands(data, off, seen);
        assert(macho_command_laws::command_at(data, i + 1) == off + bytes::u32_at(data, off + 4));
        lemma_commands_are_read(data, i + 1, n, next);
        let r = crate::macho::commands_from(data, off, (n - i) as nat, seen)->Ok_0;
        if is_segment_command(data, i) && off + 68 <= data.len() {
            lemma_sections_are_read(
                data,
                off + 72,
                bytes::u32_at(data, off + 64) as nat,
                seen.sections,
            );
        }
        assert forall|x: SectionModel| seen.sections.contains(x) implies #[trigger] r.sections.contains(
            x,
        ) by {
            assert(next.sections.contains(x));
        }
        assert forall|c: nat, j: int|
            #![trigger is_segment_command(data, c), crate::macho::section_at(
                data,
                macho_command_laws::command_at(data, c) + 72 + 80 * j,
            )]
            i <= c < n && is_segment_command(data, c) && 0 <= j < bytes::u32_at(
                data,
                macho_command_laws::command_at(data, c) + 64,
            ) && macho_command_laws::command_at(data, c) + 72 + 80 * j + 80
                <= data.len() implies r.sections.contains(
            crate::macho::section_at(data, macho_command_laws::command_at(data, c) + 72 + 80 * j),
        ) by {
            if c == i {
                let x = crate::macho::section_at(data, off + 72 + 80 * j);
                assert(next.sections.contains(x));
                assert(r.sections.contains(x));
            }
        }
        if forall|c: nat| i <= c < n ==> !#[trigger] is_symbols_command(data, c) {
            assert(!is_symbols_command(data, i));
        }
        assert forall|c: nat|
            i <= c < n && #[trigger] is_symbols_command(data, c) && seen.symtab.nsyms == 0
                && bytes::u32_at(data, macho_command_laws::command_at(data, c) + 12) > 0
                && macho_command_laws::command_at(data, c) + 24 <= data.len() && (forall|q: nat|
                i <= q < n && q != c ==> !#[trigger] is_symbols_command(data, q)) implies {
            let at = macho_command_laws::command_at(data, c);
            &&& r.symtab.symoff == bytes::u32_at(data, at + 8)
            &&& r.symtab.nsyms == bytes::u32_at(data, at + 12)
            &&& r.symtab.stroff == bytes::u32_at(data, at + 16)
            &&& r.symtab.strsize == bytes::u32_at(data, at + 20)
        } by {
            if c == i {
                assert forall|q: nat| i + 1 <= q < n implies !#[trigger] is_symbols_command(
                    data,
                    q,
                ) by {}
            } else {
                assert(!is_symbols_command(data, i));
            }
        }
    }
}

/// What the command at `off` adds to what was seen.
spec fn next_commands(data: Seq<u8>, off: int, seen: Commands) -> Commands {
    let kind = bytes::u32_at(data, off);
    let size = bytes::u32_at(data, off + 4);
    if kind == 0x19 && size >= 72 {
        Commands { sections: crate::macho::segment_sections(data, off, seen.sections), ..seen }
    } else if (kind == 2 || kind == 0xb) && size >= 24 {
        Commands { symtab: crate::macho::larger_symtab(data, off, seen.symtab)->Ok_0, ..seen }
    } else {
        seen
    }
}

/// Every section that a segment command of a Mach-O object describes, and the file holds the record
/// of, is a section of the object. The commands follow each other by their sizes.
pub proof fn law_macho_sections_are_read(data: Seq<u8>, c: nat, j: int)
    requires
        crate::macho::object_of(data) is Ok,
        c < bytes::u32_at(data, 16),
        is_segment_command(data, c),
        0 <= j < bytes::u32_at(data, macho_command_laws::command_at(data, c) + 64),
        macho_command_laws::command_at(data, c) + 72 + 80 * j + 80 <= data.len(),
    ensures
        crate::macho::object_of(data)->Ok_0.sections.contains(
            crate::macho::section_at(data, macho_command_laws::command_at(data, c) + 72 + 80 * j),
        ),
{
    let place = SymtabPlace { symoff: 0, nsyms: 0, stroff: 0, strsize: 0 };
    let none: Seq<SectionModel> = seq![];
    let start = Commands { sections: none, symtab: place };
    lemma_commands_are_read(data, 0, bytes::u32_at(data, 16) as nat, start);
}

proof fn lemma_symbols_are_read(
    data: Seq<u8>,
    off: int,
    n: nat,
    stroff: int,
    strsize: int,
    found: Seq<SymbolModel>,
)
    requires
        off + 16 * n <= data.len(),
    ensures
        ({
            let r = crate::macho::symbols_from(data, off, n, stroff, strsize, found);
            &&& r.len() == found.len() + n
            &&& forall|i: int| 0 <= i < found.len() ==> #[trigger] r[i] == found[i]
            &&& forall|i: int|
                found.len() <= i < r.len() ==> #[trigger] r[i] == crate::macho::symbol_at(
                    data,
                    off + 16 * (i - found.len()),
                    stroff,
                    strsize,
                )
        }),
    decreases n,
{
    if n > 0 {
        let next = found.push(crate::macho::symbol_at(data, off, stroff, strsize));
        lemma_symbols_are_read(data, off + 16, (n - 1) as nat, stroff, strsize, next);
        let r = crate::macho::symbols_from(data, off, n, stroff, strsize, found);
        assert forall|i: int| 0 <= i < found.len() implies #[trigger] r[i] == found[i] by {
            assert(r[i] == next[i]);
        }
        assert(r[found.len() as int] == next[found.len() as int]);
    }
}

/// The symbols of a Mach-O object with one symbol table that the file holds are those of that
/// table, sixteen bytes apart.
pub proof fn law_macho_symbols_are_read(data: Seq<u8>, c: nat)
    requires
        crate::macho::object_of(data) is Ok,
        c < bytes::u32_at(data, 16),
        is_symbols_command(data, c),
        forall|q: nat|
            q < bytes::u32_at(data, 16) && q != c ==> !#[trigger] is_symbols_command(data, q),
        macho_command_laws::command_at(data, c) + 24 <= data.len(),
        ({
            let at = macho_command_laws::command_at(data, c);
            &&& bytes::u32_at(data, at + 12) > 0
            &&& bytes::u32_at(data, at + 8) + 16 * bytes::u32_at(data, at + 12) <= data.len()
        }),
    ensures
        ({
            let at = macho_command_laws::command_at(data, c);
            let symbols = crate::macho::object_of(data)->Ok_0.symbols;
            &&& symbols.len() == bytes::u32_at(data, at + 12)
            &&& forall|i: int|
                0 <= i < symbols.len() ==> #[trigger] symbols[i] == crate::macho::symbol_at(
                    data,
                    bytes::u32_at(data, at + 8) + 16 * i,
                    bytes::u32_at(data, at + 16) as int,
                    bytes::u32_at(data, at + 20) as int,
                )
        }),
{
    let place = SymtabPlace { symoff: 0, nsyms: 0, stroff: 0, strsize: 0 };
    let none: Seq<SectionModel> = seq![];
    let start = Commands { sections: none, symtab: place };
    lemma_commands_are_read(data, 0, bytes::u32_at(data, 16) as nat, start);
    let at = macho_command_laws::command_at(data, c);
    let empty: Seq<SymbolModel> = seq![];
    lemma_symbols_are_read(
        data,
        bytes::u32_at(data, at + 8) as int,
        bytes::u32_at(data, at + 12) as nat,
        bytes::u32_at(data, at + 16) as int,
        bytes::u32_at(data, at + 20) as int,
        empty,
    );
}

/// The relocations of a Mach-O section are the records from its place on, eight bytes apart.
pub proof fn law_macho_relocations_are_read(data: Seq<u8>, reloff: u32, nreloc: u32, i: int)
    requires
        reloff + 8 * nreloc <= data.len(),
        0 <= i < nreloc,
    ensures
        crate::macho::relocs_of(data, reloff, nreloc).len() == nreloc,
        crate::macho::relocs_of(data, reloff, nreloc)[i] == crate::macho::reloc_at(
            data,
            reloff + 8 * i,
        ),
{
    assert(crate::macho::reloc_count(data, reloff as int, nreloc as int) == nreloc);
}

} // verus!

//! Every relocation of a Mach-O object takes effect, with the addresses of its symbols.
use vstd::prelude::*;
use crate::bytes;
use crate::link;
use crate::link::LayoutModel;
use crate::link::arm64;
use crate::link::macho_reloc;
use crate::link::macho_reloc::{LinkState, RelocEnv, RelocState, RelocTarget, RelocValues, Site};
use crate::link::macho_slot_laws;
use crate::link::macho_symbols;
use crate::link::reloc_laws;
use crate::macho::{
    ARM64_RELOC_BRANCH26, ARM64_RELOC_GOT_LOAD_PAGE21, ARM64_RELOC_GOT_LOAD_PAGEOFF12,
    ARM64_RELOC_PAGE21, ARM64_RELOC_PAGEOFF12, GENERIC_RELOC_VANILLA, MachoReloc, ObjectModel,
    SectionModel,
};
use crate::order;

verus! {

/// A symbol that an object defines stands as far behind the start of its section in the image as
/// its value is behind the start of that section in the object. Another external symbol has the
/// address of its name.
pub proof fn law_macho_symbols_have_addresses(
    obj: ObjectModel,
    addrs: Map<u8, u64>,
    names: Map<Seq<char>, u64>,
    i: int,
)
    requires
        0 <= i < obj.symbols.len(),
    ensures
        ({
            let sym = obj.symbols[i];
            let found = macho_symbols::multi_symbol_addrs(obj, addrs, names)[i];
            let start = obj.sections[sym.sect - 1].addr;
            &&& sym.is_defined && 0 < sym.sect <= obj.sections.len() && start <= sym.value
                && addrs.dom().contains(sym.sect) ==> found == Some(
                addrs[sym.sect].wrapping_add((sym.value - start) as u64),
            )
            &&& !sym.is_defined && sym.n_type & 1 != 0 && names.dom().contains(sym.name) ==> found
                == Some(names[sym.name])
        }),
{
}

proof fn lemma_section_addresses(
    s: Seq<SectionModel>,
    l: LayoutModel,
    offs: Map<u8, u64>,
    all: bool,
    n: nat,
    k: int,
)
    requires
        0 <= k < n <= s.len(),
        s.len() < 256,
        l.by_name.dom().contains(link::macho::merged_name_of(s[k])),
        offs.dom().contains((k + 1) as u8),
    ensures
        ({
            let r = macho_reloc::sect_addrs(s, l, offs, all, n);
            let name = link::macho::merged_name_of(s[k]);
            &&& r.dom().contains((k + 1) as u8)
            &&& r[(k + 1) as u8] == l.sections[l.by_name[name] as int].vaddr.wrapping_add(
                offs[(k + 1) as u8],
            )
        }),
    decreases n,
{
    assert((n % 256) as u8 == n as u8);
    if k < n - 1 {
        lemma_section_addresses(s, l, offs, all, (n - 1) as nat, k);
        assert((k + 1) as u8 != n as u8);
    }
}

/// A section of an object that has been merged stands at its offset in the merged section, if the
/// object has less than 256 sections.
pub proof fn law_macho_sections_have_addresses(
    s: Seq<SectionModel>,
    l: LayoutModel,
    offs: Map<u8, u64>,
    all: bool,
    k: int,
)
    requires
        0 <= k < s.len() < 256,
        l.by_name.dom().contains(link::macho::merged_name_of(s[k])),
        offs.dom().contains((k + 1) as u8),
    ensures
        ({
            let r = macho_reloc::sect_addrs(s, l, offs, all, s.len());
            let name = link::macho::merged_name_of(s[k]);
            &&& r.dom().contains((k + 1) as u8)
            &&& r[(k + 1) as u8] == l.sections[l.by_name[name] as int].vaddr.wrapping_add(
                offs[(k + 1) as u8],
            )
        }),
{
    lemma_section_addresses(s, l, offs, all, s.len(), k);
}

/// The address that a relocation refers to, as the image is loaded: that of the section with a
/// number, of a symbol, or of the slot of an undefined name where its address is loaded from the
/// global offset table.
pub open spec fn refers_to(env: RelocEnv, r: MachoReloc, addr: u64) -> bool {
    let i = r.r_symbolnum as int;
    ||| !r.r_extern && env.sect_addrs.dom().contains(r.r_symbolnum as u8) && addr
        == env.sect_addrs[r.r_symbolnum as u8]
    ||| r.r_extern && i < env.symbols.len() && i < env.symbol_addrs.len() && (r.r_type == 0
        || r.r_type == 2 || r.r_type == 3 || r.r_type == 4) && env.symbol_addrs[i] == Some(addr)
    ||| r.r_extern && i < env.symbols.len() && (r.r_type == 5 || r.r_type == 6)
        && !env.symbols[i].is_defined && env.got is Some && env.got->0.dom().contains(
        env.symbols[i].name,
    ) && addr == env.got->0[env.symbols[i].name]
}

proof fn lemma_target(
    env: RelocEnv,
    name: Seq<char>,
    data: Seq<u8>,
    off: int,
    r: MachoReloc,
    addr: u64,
)
    requires
        refers_to(env, r, addr),
        !link::macho::is_thread_vars(name),
    ensures
        macho_reloc::reloc_target(env, name, data, off, r) == Ok::<RelocTarget, Seq<char>>(
            RelocTarget { base: addr, bind: None },
        ),
{
}

/// What Mach-O code and data refer to after a relocation. A branch leads to the address that the
/// relocation refers to, as the image is loaded, plus what the instruction held and what an addend
/// record announced; a page instruction and the one behind it, together, do so too; and an address
/// of eight bytes is that address plus what stood there. Such an address in the data is among those
/// that move with the image.
pub proof fn law_macho_relocations_refer_to_addresses(
    env: RelocEnv,
    site: Site,
    r: MachoReloc,
    st: RelocState,
    addr: u64,
)
    requires
        macho_reloc::relocate_one(env, site, r, st) is Ok,
        order::addrs_ascend(st.rebases),
        r.r_type != 10,
        !link::macho::is_thread_vars(site.name),
        refers_to(env, r, addr),
    ensures
        ({
            let next = macho_reloc::relocate_one(env, site, r, st)->Ok_0;
            let off = site.offset.wrapping_add(r.r_address as u64);
            let place = site.vaddr.wrapping_add(off);
            let from = place.wrapping_add(site.shift);
            let to = macho_reloc::runtime_addr(env.ranges, env.text_shift, addr, 0);
            let extra = if st.addends.dom().contains(r.r_address) {
                st.addends[r.r_address]
            } else {
                0
            };
            let before = bytes::u32_at(st.data, off as int);
            let after = bytes::u32_at(next.data, off as int);
            &&& next.data.len() == st.data.len()
            &&& r.r_type == ARM64_RELOC_BRANCH26 ==> from + arm64::branch_displacement(after)
                == to.wrapping_add_signed(arm64::branch_displacement(before).wrapping_add(extra))
            &&& r.r_type == ARM64_RELOC_PAGE21 || r.r_type == ARM64_RELOC_GOT_LOAD_PAGE21 ==> from
                / 4096 * 4096 + arm64::adrp_displacement(after) == to.wrapping_add_signed(
                arm64::adrp_displacement(before).wrapping_add(extra),
            ) / 4096 * 4096
            &&& r.r_type == ARM64_RELOC_PAGEOFF12 || r.r_type == ARM64_RELOC_GOT_LOAD_PAGEOFF12
                ==> arm64::page_offset(after) == to.wrapping_add_signed(
                (arm64::page_offset(before) as i64).wrapping_add(extra),
            ) & 0x0fff
            &&& r.r_type == GENERIC_RELOC_VANILLA && r.r_length == 3 && !r.r_pcrel ==> bytes::u64_at(
                next.data,
                off as int,
            ) == to.wrapping_add(bytes::u64_at(st.data, off as int))
            &&& r.r_type == GENERIC_RELOC_VANILLA && r.r_length == 3 && !r.r_pcrel
                && link::macho::is_data_name(site.name) ==> next.rebases.contains(place)
        }),
{
    let off = site.offset.wrapping_add(r.r_address as u64);
    let place = site.vaddr.wrapping_add(off);
    lemma_target(env, site.name, st.data, off as int, r, addr);
    let v = RelocValues {
        off: off as int,
        base: addr,
        base_runtime: macho_reloc::runtime_addr(env.ranges, env.text_shift, addr, 0),
        place_runtime: place.wrapping_add(site.shift),
        extra: if st.addends.dom().contains(r.r_address) {
            st.addends[r.r_address]
        } else {
            0
        },
    };
    reloc_laws::law_macho_relocation_refers_to_target(env, site.name, st.data, r, v, false);
    order::law_insert_addr(st.rebases, place, place);
}

/// A pointer of eight bytes in a descriptor of thread variables that refers to an undefined name is
/// left to the dynamic linker: its place, the name, and whether the name may be missing are among
/// the binds.
pub proof fn law_macho_descriptors_are_bound(
    env: RelocEnv,
    site: Site,
    r: MachoReloc,
    st: RelocState,
)
    requires
        macho_reloc::relocate_one(env, site, r, st) is Ok,
        link::macho::is_thread_vars(site.name),
        r.r_type == 0,
        r.r_length == 3,
        !r.r_pcrel,
        r.r_extern,
        r.r_symbolnum < env.symbols.len(),
        !env.symbols[r.r_symbolnum as int].is_defined,
    ensures
        ({
            let next = macho_reloc::relocate_one(env, site, r, st)->Ok_0;
            let sym = env.symbols[r.r_symbolnum as int];
            let place = site.vaddr.wrapping_add(site.offset.wrapping_add(r.r_address as u64));
            &&& next.binds.len() == st.binds.len() + 1
            &&& next.binds.drop_last() == st.binds
            &&& next.binds.last().0 == place
            &&& next.binds.last().1 == sym.name
            &&& next.binds.last().2 == sym.is_weak_ref
        }),
{
    let next = macho_reloc::relocate_one(env, site, r, st)->Ok_0;
    assert(next.binds.drop_last() =~= st.binds);
}

/// An addend record is added to the relocation behind it at the same place: as a signed number of
/// 24 bits.
pub proof fn law_macho_addends_are_announced(
    env: RelocEnv,
    site: Site,
    r: MachoReloc,
    st: RelocState,
)
    requires
        r.r_type == 10,
        r.r_symbolnum < 0x100_0000,
    ensures
        ({
            let next = macho_reloc::relocate_one(env, site, r, st);
            let v = next->Ok_0.addends[r.r_address];
            &&& next is Ok
            &&& next->Ok_0.data == st.data && next->Ok_0.rebases == st.rebases
                && next->Ok_0.binds == st.binds
            &&& next->Ok_0.addends.dom().contains(r.r_address)
            &&& r.r_symbolnum < 0x80_0000 ==> v == r.r_symbolnum
            &&& r.r_symbolnum >= 0x80_0000 ==> v == r.r_symbolnum - 0x100_0000
        }),
{
    let n = r.r_symbolnum;
    lemma_record_addend(n);
}

proof fn lemma_record_addend(n: u32)
    requires
        n < 0x100_0000,
    ensures
        n < 0x80_0000 ==> arm64::record_addend(n) == n,
        n >= 0x80_0000 ==> arm64::record_addend(n) == n - 0x100_0000,
{
    assert(n < 0x100_0000 ==> (n < 0x80_0000 ==> ((((n & 0x00ff_ffff) as u64) << 40u32) as i64)
        >> 40u32 == n) && (n >= 0x80_0000 ==> ((((n & 0x00ff_ffff) as u64) << 40u32) as i64)
        >> 40u32 == n - 0x100_0000)) by (bit_vector);
    assert((64 - 24) as u32 == 40);
}

proof fn lemma_one_is_local(env: RelocEnv, site: Site, r: MachoReloc, st: RelocState, b: int)
    requires
        macho_reloc::relocate_one(env, site, r, st) is Ok,
    ensures
        ({
            let next = macho_reloc::relocate_one(env, site, r, st)->Ok_0;
            let off = site.offset.wrapping_add(r.r_address as u64);
            &&& next.data.len() == st.data.len()
            &&& 0 <= b < st.data.len() && (r.r_type == 10 || !(off <= b < off + 8))
                ==> next.data[b] == st.data[b]
        }),
{
    broadcast use bytes::group_le_len;
}

proof fn lemma_one_keeps_lists(env: RelocEnv, site: Site, r: MachoReloc, st: RelocState, x: u64)
    requires
        macho_reloc::relocate_one(env, site, r, st) is Ok,
        order::addrs_ascend(st.rebases),
    ensures
        ({
            let next = macho_reloc::relocate_one(env, site, r, st)->Ok_0;
            &&& order::addrs_ascend(next.rebases)
            &&& st.rebases.contains(x) ==> next.rebases.contains(x)
            &&& st.binds.is_prefix_of(next.binds)
        }),
{
    let off = site.offset.wrapping_add(r.r_address as u64);
    order::law_insert_addr(st.rebases, site.vaddr.wrapping_add(off), x);
}

/// Where a relocation changes a merged section, of which the object's part starts at `offset`.
pub open spec fn macho_place(offset: u64, r: MachoReloc) -> int {
    offset.wrapping_add(r.r_address as u64) as int
}

/// Whether a relocation can change a byte: those at its place, at most eight.
pub open spec fn macho_touches(offset: u64, r: MachoReloc, b: int) -> bool {
    r.r_type != 10 && macho_place(offset, r) <= b < macho_place(offset, r) + 8
}

/// Whether two relocations change different bytes.
pub open spec fn macho_apart(offset: u64, r: MachoReloc, other: MachoReloc) -> bool {
    other.r_type == 10 || macho_place(offset, r) + 8 <= macho_place(offset, other) || macho_place(
        offset,
        other,
    ) + 8 <= macho_place(offset, r)
}

proof fn lemma_from_keeps(
    env: RelocEnv,
    site: Site,
    relocs: Seq<MachoReloc>,
    i: nat,
    st: RelocState,
    b: int,
)
    requires
        0 <= b < st.data.len(),
        forall|j: int|
            i <= j < relocs.len() ==> !macho_touches(site.offset, #[trigger] relocs[j], b),
    ensures
        ({
            let r = macho_reloc::relocate_from(env, site, relocs, i, st).0;
            r.data.len() == st.data.len() && r.data[b] == st.data[b]
        }),
    decreases relocs.len() - i,
{
    if i < relocs.len() {
        let r = relocs[i as int];
        assert(!macho_touches(site.offset, relocs[i as int], b));
        if let Ok(next) = macho_reloc::relocate_one(env, site, r, st) {
            lemma_one_is_local(env, site, r, st, b);
            lemma_from_keeps(env, site, relocs, i + 1, next, b);
        }
    }
}

proof fn lemma_from_keeps_lists(
    env: RelocEnv,
    site: Site,
    relocs: Seq<MachoReloc>,
    i: nat,
    st: RelocState,
    x: u64,
)
    requires
        order::addrs_ascend(st.rebases),
    ensures
        ({
            let r = macho_reloc::relocate_from(env, site, relocs, i, st).0;
            &&& r.data.len() == st.data.len()
            &&& order::addrs_ascend(r.rebases)
            &&& st.rebases.contains(x) ==> r.rebases.contains(x)
            &&& st.binds.is_prefix_of(r.binds)
        }),
    decreases relocs.len() - i,
{
    if i < relocs.len() {
        let r = relocs[i as int];
        if let Ok(next) = macho_reloc::relocate_one(env, site, r, st) {
            lemma_one_is_local(env, site, r, st, 0);
            lemma_one_keeps_lists(env, site, r, st, x);
            lemma_from_keeps_lists(env, site, relocs, i + 1, next, x);
        }
    }
}

/// Whether a state keeps what a relocation did: the bytes at its place, the addresses that move
/// with the image, and the binds.
pub open spec fn keeps_effect(
    env: RelocEnv,
    site: Site,
    r: MachoReloc,
    before: RelocState,
    after: RelocState,
) -> bool {
    let next = macho_reloc::relocate_one(env, site, r, before);
    &&& next is Ok
    &&& order::addrs_ascend(before.rebases)
    &&& next->Ok_0.data.len() == after.data.len()
    &&& forall|b: int|
        0 <= b < after.data.len() && macho_touches(site.offset, r, b) ==> after.data[b]
            == #[trigger] next->Ok_0.data[b]
    &&& forall|x: u64| #[trigger]
        next->Ok_0.rebases.contains(x) ==> after.rebases.contains(x)
    &&& next->Ok_0.binds.is_prefix_of(after.binds)
}

/// Every relocation of a section takes effect: where no later one changes the same bytes, the
/// section holds at its place what the relocation stores, and the addresses that move with the
/// image and the binds that it adds are never dropped.
pub proof fn law_macho_relocations_take_effect(
    env: RelocEnv,
    site: Site,
    relocs: Seq<MachoReloc>,
    i: nat,
    st: RelocState,
    k: int,
) -> (before: RelocState)
    requires
        i <= k < relocs.len(),
        order::addrs_ascend(st.rebases),
        macho_reloc::relocate_from(env, site, relocs, i, st).1 is None,
        forall|j: int|
            k < j < relocs.len() ==> macho_apart(site.offset, relocs[k], #[trigger] relocs[j]),
    ensures
        keeps_effect(
            env,
            site,
            relocs[k],
            before,
            macho_reloc::relocate_from(env, site, relocs, i, st).0,
        ),
    decreases k - i,
{
    let r = relocs[i as int];
    let next = macho_reloc::relocate_one(env, site, r, st)->Ok_0;
    lemma_one_keeps_lists(env, site, r, st, 0);
    if i < k {
        law_macho_relocations_take_effect(env, site, relocs, i + 1, next, k)
    } else {
        let after = macho_reloc::relocate_from(env, site, relocs, i + 1, next).0;
        lemma_from_keeps_lists(env, site, relocs, i + 1, next, 0);
        assert forall|b: int|
            0 <= b < after.data.len() && macho_touches(site.offset, r, b) implies after.data[b]
            == #[trigger] next.data[b] by {
            assert forall|j: int| i + 1 <= j < relocs.len() implies !macho_touches(
                site.offset,
                #[trigger] relocs[j],
                b,
            ) by {
                assert(macho_apart(site.offset, relocs[k], relocs[j]));
            }
            lemma_from_keeps(env, site, relocs, i + 1, next, b);
        }
        assert forall|x: u64| #[trigger] next.rebases.contains(x) implies after.rebases.contains(
            x,
        ) by {
            lemma_from_keeps_lists(env, site, relocs, i + 1, next, x);
        }
        st
    }
}

/// Where the relocations of the section `t` of an object are applied.
pub open spec fn site_of(
    env: RelocEnv,
    l: LayoutModel,
    obj: ObjectModel,
    offs: Map<u8, u64>,
    t: int,
) -> Site {
    let idx = l.by_name[link::macho::merged_name_of(obj.sections[t])] as int;
    Site {
        name: l.sections[idx].name,
        vaddr: l.sections[idx].vaddr,
        shift: env.ranges[idx].2,
        offset: macho_reloc::offset_or_zero(offs, ((t + 1) % 256) as u8),
    }
}

/// Whether none of the relocations of the section `t` of an object changes the byte `b` of the
/// section `s` of a layout.
pub open spec fn macho_leaves_byte(
    l: LayoutModel,
    obj: ObjectModel,
    offs: Map<u8, u64>,
    t: int,
    s: int,
    b: int,
) -> bool {
    link::macho_laws::macho_relocates(l, obj, t, s) ==> forall|j: int|
        0 <= j < macho_slot_laws::relocs_in(obj, t).len() ==> !macho_touches(
            macho_reloc::offset_or_zero(offs, ((t + 1) % 256) as u8),
            #[trigger] macho_slot_laws::relocs_in(obj, t)[j],
            b,
        )
}

/// What a state starts with, for the relocations of one section.
spec fn state_of(st: LinkState, idx: int) -> RelocState {
    RelocState {
        data: st.layout.sections[idx].data,
        addends: Map::empty(),
        rebases: st.rebases,
        binds: st.binds,
    }
}

proof fn lemma_section_keeps(
    env: RelocEnv,
    obj: ObjectModel,
    offs: Map<u8, u64>,
    t: nat,
    st: LinkState,
    s: int,
    b: int,
    x: u64,
)
    requires
        t < obj.sections.len(),
        link::names_in_range(st.layout),
        order::addrs_ascend(st.rebases),
        0 <= s < st.layout.sections.len(),
    ensures
        ({
            let next = macho_reloc::apply_section(env, obj, offs, t, st).0;
            &&& link::same_shape(st.layout, next.layout)
            &&& order::addrs_ascend(next.rebases)
            &&& st.rebases.contains(x) ==> next.rebases.contains(x)
            &&& st.binds.is_prefix_of(next.binds)
            &&& 0 <= b < st.layout.sections[s].data.len() && macho_leaves_byte(
                st.layout,
                obj,
                offs,
                t as int,
                s,
                b,
            ) && !link::macho::is_thread_vars(st.layout.sections[s].name)
                ==> next.layout.sections[s].data[b] == st.layout.sections[s].data[b]
        }),
{
    let sec = obj.sections[t as int];
    let name = link::macho::merged_name_of(sec);
    if sec.nreloc != 0 && st.layout.by_name.dom().contains(name) {
        let idx = st.layout.by_name[name] as int;
        let site = site_of(env, st.layout, obj, offs, t as int);
        let relocs = macho_slot_laws::relocs_in(obj, t as int);
        let start = state_of(st, idx);
        let done = macho_reloc::relocate_from(env, site, relocs, 0, start).0;
        lemma_from_keeps_lists(env, site, relocs, 0, start, x);
        link::macho_laws::lemma_descriptors_len(done.data, 0);
        if idx == s && 0 <= b < start.data.len() && macho_leaves_byte(
            st.layout,
            obj,
            offs,
            t as int,
            s,
            b,
        ) {
            assert(link::macho_laws::macho_relocates(st.layout, obj, t as int, s));
            lemma_from_keeps(env, site, relocs, 0, start, b);
        }
    }
}

proof fn lemma_apply_keeps(
    env: RelocEnv,
    obj: ObjectModel,
    offs: Map<u8, u64>,
    i: nat,
    st: LinkState,
    s: int,
    b: int,
    x: u64,
)
    requires
        link::names_in_range(st.layout),
        order::addrs_ascend(st.rebases),
        0 <= s < st.layout.sections.len(),
    ensures
        ({
            let done = macho_reloc::apply_from(env, obj, offs, i, st).0;
            &&& link::same_shape(st.layout, done.layout)
            &&& order::addrs_ascend(done.rebases)
            &&& st.rebases.contains(x) ==> done.rebases.contains(x)
            &&& st.binds.is_prefix_of(done.binds)
            &&& 0 <= b < st.layout.sections[s].data.len() && (forall|t: int|
                i <= t < obj.sections.len() ==> #[trigger] macho_leaves_byte(
                    st.layout,
                    obj,
                    offs,
                    t,
                    s,
                    b,
                )) && !link::macho::is_thread_vars(st.layout.sections[s].name)
                ==> done.layout.sections[s].data[b] == st.layout.sections[s].data[b]
        }),
    decreases obj.sections.len() - i,
{
    if i < obj.sections.len() {
        let (next, error) = macho_reloc::apply_section(env, obj, offs, i, st);
        lemma_section_keeps(env, obj, offs, i, st, s, b, x);
        if error is None {
            lemma_apply_keeps(env, obj, offs, i + 1, next, s, b, x);
            if forall|t: int|
                i <= t < obj.sections.len() ==> #[trigger] macho_leaves_byte(
                    st.layout,
                    obj,
                    offs,
                    t,
                    s,
                    b,
                ) {
                assert(macho_leaves_byte(st.layout, obj, offs, i as int, s, b));
                assert forall|t: int|
                    i + 1 <= t < obj.sections.len() implies #[trigger] macho_leaves_byte(
                    next.layout,
                    obj,
                    offs,
                    t,
                    s,
                    b,
                ) by {
                    assert(macho_leaves_byte(st.layout, obj, offs, t, s, b));
                }
            }
        } else {
            if forall|t: int|
                i <= t < obj.sections.len() ==> #[trigger] macho_leaves_byte(
                    st.layout,
                    obj,
                    offs,
                    t,
                    s,
                    b,
                ) {
                assert(macho_leaves_byte(st.layout, obj, offs, i as int, s, b));
            }
        }
    }
}

/// Whether the relocation `k` of the section `t` of an object changes bytes of the section `s` of a
/// layout that no later relocation of the object changes.
pub open spec fn is_last_macho_change(
    l: LayoutModel,
    obj: ObjectModel,
    offs: Map<u8, u64>,
    t: int,
    k: int,
    s: int,
) -> bool {
    let offset = macho_reloc::offset_or_zero(offs, ((t + 1) % 256) as u8);
    let relocs = macho_slot_laws::relocs_in(obj, t);
    &&& 0 <= t < obj.sections.len()
    &&& link::macho_laws::macho_relocates(l, obj, t, s)
    &&& 0 <= k < relocs.len()
    &&& forall|j: int| k < j < relocs.len() ==> macho_apart(offset, relocs[k], #[trigger] relocs[j])
    &&& forall|u: int, b: int|
        t < u < obj.sections.len() && macho_touches(offset, relocs[k], b)
            ==> #[trigger] macho_leaves_byte(l, obj, offs, u, s, b)
}

/// Whether a link keeps what a relocation did: the bytes at its place, the addresses that move with
/// the image, and the binds.
pub open spec fn link_keeps_effect(
    env: RelocEnv,
    site: Site,
    r: MachoReloc,
    before: RelocState,
    done: LinkState,
    s: int,
) -> bool {
    keeps_effect(
        env,
        site,
        r,
        before,
        RelocState {
            data: done.layout.sections[s].data,
            addends: Map::empty(),
            rebases: done.rebases,
            binds: done.binds,
        },
    )
}

proof fn lemma_effect_of_section(
    env: RelocEnv,
    obj: ObjectModel,
    offs: Map<u8, u64>,
    st: LinkState,
    t: int,
    k: int,
    s: int,
) -> (before: RelocState)
    requires
        link::names_in_range(st.layout),
        order::addrs_ascend(st.rebases),
        0 <= s < st.layout.sections.len(),
        !link::macho::is_thread_vars(st.layout.sections[s].name),
        is_last_macho_change(st.layout, obj, offs, t, k, s),
        macho_reloc::apply_from(env, obj, offs, t as nat, st).1 is None,
    ensures
        link_keeps_effect(
            env,
            site_of(env, st.layout, obj, offs, t),
            macho_slot_laws::relocs_in(obj, t)[k],
            before,
            macho_reloc::apply_from(env, obj, offs, t as nat, st).0,
            s,
        ),
{
    let site = site_of(env, st.layout, obj, offs, t);
    let relocs = macho_slot_laws::relocs_in(obj, t);
    let start = state_of(st, s);
    let (mid, error) = macho_reloc::relocate_from(env, site, relocs, 0, start);
    let next = macho_reloc::apply_section(env, obj, offs, t as nat, st).0;
    let done = macho_reloc::apply_from(env, obj, offs, t as nat, st).0;
    assert(error is None);
    let before = law_macho_relocations_take_effect(env, site, relocs, 0, start, k);
    lemma_section_keeps(env, obj, offs, t as nat, st, s, 0, 0);
    assert(next.layout.sections[s].data == mid.data);
    let one = macho_reloc::relocate_one(env, site, relocs[k], before)->Ok_0;
    lemma_apply_keeps(env, obj, offs, (t + 1) as nat, next, s, 0, 0);
    assert forall|b: int|
        0 <= b < mid.data.len() && macho_touches(site.offset, relocs[k], b) implies
    done.layout.sections[s].data[b] == #[trigger] one.data[b] by {
        assert forall|u: int| t + 1 <= u < obj.sections.len() implies #[trigger] macho_leaves_byte(
            next.layout,
            obj,
            offs,
            u,
            s,
            b,
        ) by {
            assert(macho_leaves_byte(st.layout, obj, offs, u, s, b));
        }
        lemma_apply_keeps(env, obj, offs, (t + 1) as nat, next, s, b, 0);
        assert(mid.data[b] == one.data[b]);
    }
    assert forall|x: u64| #[trigger] one.rebases.contains(x) implies done.rebases.contains(x) by {
        assert(mid.rebases.contains(x));
        lemma_apply_keeps(env, obj, offs, (t + 1) as nat, next, s, 0, x);
    }
    before
}

/// Every relocation of an object takes effect: where no later one changes the same bytes, the
/// merged section holds at its place what the relocation stores, and the addresses that move with
/// the image and the binds that it adds are kept. The descriptors of thread variables are left out.
pub proof fn law_macho_object_relocations_take_effect(
    env: RelocEnv,
    obj: ObjectModel,
    offs: Map<u8, u64>,
    i: nat,
    st: LinkState,
    t: int,
    k: int,
    s: int,
) -> (before: RelocState)
    requires
        i <= t,
        link::names_in_range(st.layout),
        order::addrs_ascend(st.rebases),
        0 <= s < st.layout.sections.len(),
        !link::macho::is_thread_vars(st.layout.sections[s].name),
        is_last_macho_change(st.layout, obj, offs, t, k, s),
        macho_reloc::apply_from(env, obj, offs, i, st).1 is None,
    ensures
        link_keeps_effect(
            env,
            site_of(env, st.layout, obj, offs, t),
            macho_slot_laws::relocs_in(obj, t)[k],
            before,
            macho_reloc::apply_from(env, obj, offs, i, st).0,
            s,
        ),
    decreases t - i,
{
    if i < t {
        let next = macho_reloc::apply_section(env, obj, offs, i, st).0;
        lemma_section_keeps(env, obj, offs, i, st, s, 0, 0);
        assert forall|u: int, b: int|
            macho_leaves_byte(st.layout, obj, offs, u, s, b) == #[trigger] macho_leaves_byte(
                next.layout,
                obj,
                offs,
                u,
                s,
                b,
            ) by {}
        assert(is_last_macho_change(next.layout, obj, offs, t, k, s)) by {
            let offset = macho_reloc::offset_or_zero(offs, ((t + 1) % 256) as u8);
            let relocs = macho_slot_laws::relocs_in(obj, t);
            assert forall|u: int, b: int|
                t < u < obj.sections.len() && macho_touches(offset, relocs[k], b) implies #[trigger]
            macho_leaves_byte(next.layout, obj, offs, u, s, b) by {
                assert(macho_leaves_byte(st.layout, obj, offs, u, s, b));
            }
        }
        law_macho_object_relocations_take_effect(env, obj, offs, i + 1, next, t, k, s)
    } else {
        lemma_effect_of_section(env, obj, offs, st, t, k, s)
    }
}

} // verus!

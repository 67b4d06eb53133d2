//! Merging the sections of ELF objects.
use vstd::prelude::*;
use vstd::string::*;
use crate::bytes;
use crate::bytes::{push_bytes, push_zeros_u64};
use crate::elf::{
    SHT_NOBITS, SHT_PROGBITS, SectionHeader, get_strtab_from_section, parse_elf64_slice,
};
use crate::link;
use crate::link::{
    LayoutModel, MergedLayout, MergedModel, MergedSection, ObjectSectionContrib, empty_layout,
    push_section,
};
use crate::link::macho::Placing;
use crate::link::relocate;
use crate::model;
use crate::names::NameMap;
use crate::order;
use crate::order::sorted_names;
use crate::segment;
use crate::segment::{align_up_u64, checked_align_up};
use crate::text;
use crate::text::{push_decimal, str_eq, with_number};

verus! {

pub const SHF_WRITE: u64 = 1;

pub const SHF_ALLOC: u64 = 2;

pub const SHF_EXECINSTR: u64 = 4;

/// The address of the first section.
pub const ELF_BASE: u64 = 0x400000;

/// `value` rounded up to `align`.
pub fn align_up(value: u64, align: u64) -> (r: u64)
    requires
        segment::align_fits(value, align),
    ensures
        r == segment::aligned(value, align),
{
    align_up_u64(value, align)
}

/// The position of a section among the kinds of sections.
pub open spec fn elf_rank(name: Seq<char>) -> nat {
    if name == ".text"@ {
        0
    } else if name == ".rodata"@ {
        1
    } else if name == ".data"@ {
        2
    } else if name == ".bss"@ {
        3
    } else {
        4
    }
}

fn section_merge_order(name: &str) -> (r: usize)
    ensures
        r == elf_rank(name@),
{
    if str_eq(name, ".text") {
        0
    } else if str_eq(name, ".rodata") {
        1
    } else if str_eq(name, ".data") {
        2
    } else if str_eq(name, ".bss") {
        3
    } else {
        4
    }
}

/// Whether a section takes memory at run time.
pub open spec fn elf_mergeable(sh: SectionHeader) -> bool {
    (sh.sh_type == SHT_PROGBITS || sh.sh_type == SHT_NOBITS) && sh.sh_flags & SHF_ALLOC != 0
}

fn is_mergeable(sh: &SectionHeader) -> (r: bool)
    ensures
        r == elf_mergeable(*sh),
{
    (sh.sh_type == SHT_PROGBITS || sh.sh_type == SHT_NOBITS) && sh.sh_flags & SHF_ALLOC != 0
}

/// The sections of the rank `k` among the first `n`, with their names, in their order.
pub open spec fn elf_ranked(s: Seq<SectionHeader>, names: Seq<Seq<char>>, k: nat, n: nat) -> Seq<
    (Seq<char>, SectionHeader),
>
    decreases n,
{
    if n == 0 {
        seq![]
    } else {
        let before = elf_ranked(s, names, k, (n - 1) as nat);
        let name = relocate::name_or_empty(names, n - 1);
        if elf_mergeable(s[n - 1]) && elf_rank(name) == k {
            before.push((name, s[n - 1]))
        } else {
            before
        }
    }
}

/// The mergeable sections of the first `k` ranks, by rank and then in their order.
pub open spec fn elf_merge_order(s: Seq<SectionHeader>, names: Seq<Seq<char>>, k: nat) -> Seq<
    (Seq<char>, SectionHeader),
>
    decreases k,
{
    if k == 0 {
        seq![]
    } else {
        elf_merge_order(s, names, (k - 1) as nat) + elf_ranked(s, names, (k - 1) as nat, s.len())
    }
}

/// The mergeable sections with their names: code, constants, data, zeros, then the others.
pub fn collect_mergeable_sections(sections: &[SectionHeader], names: &[String]) -> (r: Vec<
    (String, SectionHeader),
>)
    ensures
        model::views(r@) == elf_merge_order(sections@, model::views(names@), 5),
{
    broadcast use model::group_views;
    let mut out: Vec<(String, SectionHeader)> = Vec::new();
    let n: usize = sections.len();
    let mut k: usize = 0;
    while k < 5
        invariant
            k <= 5,
            n == sections@.len(),
            model::views(out@) == elf_merge_order(sections@, model::views(names@), k as nat),
        decreases 5 - k,
    {
        let mut i: usize = 0;
        assert(model::views(out@) =~= elf_merge_order(sections@, model::views(names@), k as nat)
            + elf_ranked(
            sections@,
            model::views(names@),
            k as nat,
            0,
        ));
        while i < n
            invariant
                i <= n,
                n == sections@.len(),
                model::views(out@) == elf_merge_order(sections@, model::views(names@), k as nat)
                    + elf_ranked(
                    sections@,
                    model::views(names@),
                    k as nat,
                    i as nat,
                ),
            decreases n - i,
        {
            broadcast use model::group_views;
            let name = if i < names.len() {
                names[i].clone()
            } else {
                String::new()
            };
            assert(name@ =~= relocate::name_or_empty(model::views(names@), i as int));
            let ghost before = model::views(out@);
            if is_mergeable(&sections[i]) && section_merge_order(name.as_str()) == k {
                out.push((name, sections[i]));
                assert(model::views(out@) =~= before.push((name@, sections@[i as int])));
            }
            assert(model::views(out@) =~= elf_merge_order(sections@, model::views(names@),
                k as nat) + elf_ranked(
                sections@,
                model::views(names@),
                k as nat,
                (i + 1) as nat,
            ));
            i = i + 1;
        }
        k = k + 1;
    }
    out
}

/// The bytes that a section contributes: those in the file, or as many zeros as its size says
/// where it has none there. Other sections contribute nothing.
pub open spec fn elf_section_bytes(data: Seq<u8>, sh: SectionHeader) -> Seq<u8> {
    if sh.sh_type == SHT_PROGBITS {
        crate::elf::section_contents(data, sh)
    } else if sh.sh_type == SHT_NOBITS {
        bytes::zeros(sh.sh_size as int)
    } else {
        seq![]
    }
}

/// A section contributes no more bytes than its size says; one without bytes in the file
/// contributes exactly as many, all zero.
pub proof fn law_section_bytes_len(data: Seq<u8>, sh: SectionHeader)
    ensures
        elf_section_bytes(data, sh).len() <= sh.sh_size,
        sh.sh_type == SHT_NOBITS ==> elf_section_bytes(data, sh) == bytes::zeros(sh.sh_size as int)
            && elf_section_bytes(data, sh).len() == sh.sh_size,
        sh.sh_size == 0 ==> elf_section_bytes(data, sh).len() == 0,
{
}

/// Reads the bytes that a section contributes.
pub fn read_section_data(data: &[u8], sh: &SectionHeader) -> (r: Vec<u8>)
    ensures
        r@ == elf_section_bytes(data@, *sh),
{
    let mut out: Vec<u8> = Vec::new();
    if sh.sh_type == SHT_PROGBITS {
        push_bytes(&mut out, get_strtab_from_section(data, sh));
        assert(out@ =~= crate::elf::section_contents(data@, *sh));
    } else if sh.sh_type == SHT_NOBITS {
        push_zeros_u64(&mut out, sh.sh_size);
        assert(out@ =~= bytes::zeros(sh.sh_size as int));
    } else {
        assert(out@ =~= seq![]);
    }
    out
}

/// The alignment of a section, at least one.
pub open spec fn elf_align(sh: SectionHeader) -> u64 {
    if sh.sh_addralign > 1 {
        sh.sh_addralign
    } else {
        1
    }
}

fn section_alignment(sh: &SectionHeader) -> (r: u64)
    ensures
        r == elf_align(*sh),
{
    if sh.sh_addralign > 1 {
        sh.sh_addralign
    } else {
        1
    }
}

/// `st` with the sections from `i` on placed one behind the other.
pub open spec fn place_elf_sections(
    file: Seq<u8>,
    order: Seq<(Seq<char>, SectionHeader)>,
    i: nat,
    st: Placing,
) -> Option<LayoutModel>
    decreases order.len() - i,
{
    if i >= order.len() {
        Some(st.layout)
    } else {
        let (name, sh) = order[i as int];
        let vaddr = segment::aligned(st.vaddr, elf_align(sh));
        if !segment::align_fits(st.vaddr, elf_align(sh)) || vaddr + sh.sh_size > u64::MAX {
            None
        } else {
            place_elf_sections(
                file,
                order,
                i + 1,
                Placing {
                    layout: link::with_section(
                        st.layout,
                        MergedModel {
                            name,
                            data: elf_section_bytes(file, sh),
                            vaddr,
                            flags: sh.sh_flags,
                            align: elf_align(sh),
                        },
                    ),
                    vaddr: (vaddr + sh.sh_size) as u64,
                },
            )
        }
    }
}

/// The layout of a single object.
pub open spec fn elf_single_layout(data: Seq<u8>) -> Result<LayoutModel, Seq<char>> {
    match crate::elf::elf_of(data) {
        Err(e) => Err(e),
        Ok(obj) => match place_elf_sections(
            data,
            elf_merge_order(obj.sections, obj.names, 5),
            0,
            Placing { layout: link::no_sections(), vaddr: ELF_BASE },
        ) {
            None => Err(link::layout_too_large()),
            Some(l) => Ok(l),
        },
    }
}

/// Merges the sections of a single object, from the usual load address on.
pub fn merge_sections_single_object(data: &[u8]) -> (r: Result<MergedLayout, String>)
    ensures
        model::outcome(r) == elf_single_layout(data@),
        r is Ok ==> link::layout_ok(r->Ok_0@),
{
    let (_header, sections, names) = match parse_elf64_slice(data) {
        Ok(p) => p,
        Err(e) => {
            return Err(e);
        },
    };
    let order = collect_mergeable_sections(sections.as_slice(), names.as_slice());
    let ghost all = place_elf_sections(
        data@,
        model::views(order@),
        0,
        Placing { layout: link::no_sections(), vaddr: ELF_BASE },
    );
    let mut layout = empty_layout();
    let mut vaddr: u64 = ELF_BASE;
    let mut i: usize = 0;
    while i < order.len()
        invariant
            i <= order@.len(),
            elf_single_layout(data@) == match all {
                None => Err(link::layout_too_large()),
                Some(l) => Ok(l),
            },
            all == place_elf_sections(
                data@,
                model::views(order@),
                i as nat,
                Placing { layout: layout@, vaddr },
            ),
            link::layout_ok(layout@),
            link::macho::ends_before(layout@, vaddr as int),
        decreases order@.len() - i,
    {
        let sh = &order[i].1;
        assert(model::views(order@)[i as int] == (order@[i as int].0@, *sh));
        let align: u64 = section_alignment(sh);
        let start: u64 = match checked_align_up(vaddr, align) {
            Some(v) => v,
            None => {
                return Err("layout exceeds the address space".to_string());
            },
        };
        if sh.sh_size > u64::MAX - start {
            return Err("layout exceeds the address space".to_string());
        }
        proof {
            segment::law_align_up_bounds(vaddr, align);
            law_section_bytes_len(data@, *sh);
        }
        let bytes = read_section_data(data, sh);
        let ghost before = layout@;
        push_section(
            &mut layout,
            MergedSection {
                name: order[i].0.clone(),
                data: bytes,
                vaddr: start,
                flags: sh.sh_flags,
                align,
            },
        );
        proof {
            link::lemma_with_section_ok(before, layout@.sections.last());
        }
        vaddr = start + sh.sh_size;
        i = i + 1;
    }
    Ok(layout)
}

/// A section that is being gathered from its parts.
pub struct PendingSection {
    pub name: String,
    pub data: Vec<u8>,
    pub size: u64,
    pub align: u64,
    pub flags: u64,
}

/// The view of a section that is being gathered.
pub struct PendingModel {
    pub name: Seq<char>,
    pub data: Seq<u8>,
    pub size: u64,
    pub align: u64,
    pub flags: u64,
}

impl View for PendingSection {
    type V = PendingModel;

    open spec fn view(&self) -> PendingModel {
        PendingModel {
            name: self.name@,
            data: self.data@,
            size: self.size,
            align: self.align,
            flags: self.flags,
        }
    }
}

/// The sections that are being gathered, in the order in which they came up.
pub struct Pool {
    pub sections: Vec<PendingSection>,
    pub by_name: NameMap<usize>,
}

/// The view of the sections that are being gathered.
pub struct PoolModel {
    pub sections: Seq<PendingModel>,
    pub by_name: Map<Seq<char>, usize>,
}

impl View for Pool {
    type V = PoolModel;

    open spec fn view(&self) -> PoolModel {
        PoolModel { sections: model::views(self.sections@), by_name: self.by_name@ }
    }
}

/// Whether every name stands for a section that is there, and none holds more bytes than its size.
pub open spec fn pool_ok(p: PoolModel) -> bool {
    &&& forall|n: Seq<char>| #[trigger]
        p.by_name.dom().contains(n) ==> p.by_name[n] < p.sections.len()
    &&& forall|i: int|
        0 <= i < p.sections.len() ==> (#[trigger] p.sections[i]).data.len() <= p.sections[i].size
}

/// How far a section has been filled.
pub open spec fn pool_size(p: PoolModel, name: Seq<char>) -> u64 {
    if p.by_name.dom().contains(name) {
        p.sections[p.by_name[name] as int].size
    } else {
        0
    }
}

/// `p` with a part of `size` bytes added to the section `name` at `offset`.
pub open spec fn with_part(
    p: PoolModel,
    name: Seq<char>,
    offset: u64,
    data: Seq<u8>,
    sh: SectionHeader,
) -> PoolModel {
    let size = (offset + sh.sh_size) as u64;
    if p.by_name.dom().contains(name) {
        let idx = p.by_name[name] as int;
        let s = p.sections[idx];
        PoolModel {
            sections: p.sections.update(
                idx,
                PendingModel {
                    data: s.data + bytes::zeros(offset - s.size) + data,
                    size,
                    align: if elf_align(sh) > s.align {
                        elf_align(sh)
                    } else {
                        s.align
                    },
                    flags: s.flags | sh.sh_flags,
                    ..s
                },
            ),
            ..p
        }
    } else {
        PoolModel {
            sections: p.sections.push(
                PendingModel {
                    name,
                    data: bytes::zeros(offset as int) + data,
                    size,
                    align: elf_align(sh),
                    flags: sh.sh_flags,
                },
            ),
            by_name: p.by_name.insert(name, p.sections.len() as usize),
        }
    }
}

fn add_part(pool: &mut Pool, name: &str, offset: u64, data: &Vec<u8>, sh: &SectionHeader)
    requires
        pool_ok(old(pool)@),
        pool_size(old(pool)@, name@) <= offset,
        offset + sh.sh_size <= u64::MAX,
        data@.len() <= sh.sh_size,
    ensures
        final(pool)@ == with_part(old(pool)@, name@, offset, data@, *sh),
        pool_ok(final(pool)@),
{
    broadcast use model::group_views;
    let align: u64 = section_alignment(sh);
    let found: Option<usize> = match pool.by_name.get(name) {
        Some(i) => Some(*i),
        None => None,
    };
    match found {
        Some(idx) => {
            assert(pool@.by_name.dom().contains(name@));
            assert(pool@.sections[idx as int] == pool.sections@[idx as int]@);
            let pad: u64 = offset - pool.sections[idx].size;
            push_zeros_u64(&mut pool.sections[idx].data, pad);
            push_bytes(&mut pool.sections[idx].data, data.as_slice());
            pool.sections[idx].size = offset + sh.sh_size;
            if align > pool.sections[idx].align {
                pool.sections[idx].align = align;
            }
            let flags: u64 = pool.sections[idx].flags;
            pool.sections[idx].flags = flags | sh.sh_flags;
            assert(pool.sections@ =~= old(pool).sections@.update(
                idx as int,
                pool.sections@[idx as int],
            ));
        },
        None => {
            let mut bytes: Vec<u8> = Vec::new();
            push_zeros_u64(&mut bytes, offset);
            push_bytes(&mut bytes, data.as_slice());
            assert(bytes@ =~= bytes::zeros(offset as int) + data@);
            let idx: usize = pool.sections.len();
            pool.by_name.insert(name.to_owned(), idx);
            pool.sections.push(
                PendingSection {
                    name: name.to_owned(),
                    data: bytes,
                    size: offset + sh.sh_size,
                    align,
                    flags: sh.sh_flags,
                },
            );
            assert(pool.sections.len() == idx + 1);
        },
    }
}

/// The sections gathered from an object from `i` on, and where its parts stand.
pub struct ElfGathering {
    pub pool: PoolModel,
    pub parts: Map<Seq<char>, ObjectSectionContrib>,
}

/// `g` with the sections of an object from `i` on. Each part starts at its own alignment.
pub open spec fn gather_elf_object(
    file: Seq<u8>,
    order: Seq<(Seq<char>, SectionHeader)>,
    i: nat,
    g: ElfGathering,
) -> Option<ElfGathering>
    decreases order.len() - i,
{
    if i >= order.len() {
        Some(g)
    } else {
        let (name, sh) = order[i as int];
        let raw = pool_size(g.pool, name);
        let offset = segment::aligned(raw, elf_align(sh));
        if !segment::align_fits(raw, elf_align(sh)) || offset + sh.sh_size > u64::MAX {
            None
        } else {
            gather_elf_object(
                file,
                order,
                i + 1,
                ElfGathering {
                    pool: with_part(g.pool, name, offset, elf_section_bytes(file, sh), sh),
                    parts: g.parts.insert(
                        name,
                        ObjectSectionContrib { offset_in_merged: offset, size: sh.sh_size },
                    ),
                },
            )
        }
    }
}

fn gather_object(
    file: &[u8],
    sections: &Vec<SectionHeader>,
    names: &Vec<String>,
    pool: &mut Pool,
) -> (r: Option<NameMap<ObjectSectionContrib>>)
    requires
        pool_ok(old(pool)@),
    ensures
        match gather_elf_object(
            file@,
            elf_merge_order(sections@, model::views(names@), 5),
            0,
            (ElfGathering { pool: old(pool)@, parts: Map::empty() }),
        ) {
            Some(g) => r is Some && r->0@ == g.parts && final(pool)@ == g.pool && pool_ok(
                final(pool)@,
            ),
            None => r is None,
        },
{
    let order = collect_mergeable_sections(sections.as_slice(), names.as_slice());
    let ghost total = gather_elf_object(
        file@,
        model::views(order@),
        0,
        ElfGathering { pool: pool@, parts: Map::empty() },
    );
    let mut parts: NameMap<ObjectSectionContrib> = NameMap::new();
    let mut i: usize = 0;
    while i < order.len()
        invariant
            i <= order@.len(),
            pool_ok(pool@),
            model::views(order@) == elf_merge_order(sections@, model::views(names@), 5),
            total == gather_elf_object(
                file@,
                model::views(order@),
                0,
                ElfGathering { pool: old(pool)@, parts: Map::empty() },
            ),
            total == gather_elf_object(
                file@,
                model::views(order@),
                i as nat,
                ElfGathering { pool: pool@, parts: parts@ },
            ),
        decreases order@.len() - i,
    {
        let sh = &order[i].1;
        assert(model::views(order@)[i as int] == (order@[i as int].0@, *sh));
        let raw: u64 = match pool.by_name.get(order[i].0.as_str()) {
            Some(idx) => {
                assert(pool@.by_name.dom().contains(order@[i as int].0@));
                assert(pool@.sections[*idx as int] == pool.sections@[*idx as int]@);
                pool.sections[*idx].size
            },
            None => 0,
        };
        let align: u64 = section_alignment(sh);
        let offset: u64 = match checked_align_up(raw, align) {
            Some(v) => v,
            None => {
                return None;
            },
        };
        if sh.sh_size > u64::MAX - offset {
            return None;
        }
        proof {
            segment::law_align_up_bounds(raw, align);
            law_section_bytes_len(file@, *sh);
        }
        let data = read_section_data(file, sh);
        add_part(pool, order[i].0.as_str(), offset, &data, sh);
        parts.insert(
            order[i].0.clone(),
            ObjectSectionContrib { offset_in_merged: offset, size: sh.sh_size },
        );
        i = i + 1;
    }
    Some(parts)
}

/// The maps of a vector of name maps.
pub open spec fn part_maps(v: Seq<NameMap<ObjectSectionContrib>>) -> Seq<
    Map<Seq<char>, ObjectSectionContrib>,
> {
    Seq::new(v.len(), |i: int| v[i]@)
}

/// The sections gathered from the objects from `i` on, and where the parts of each stand.
pub open spec fn gather_elf_from(
    datas: Seq<Seq<u8>>,
    machine: u16,
    i: nat,
    pool: PoolModel,
    parts: Seq<Map<Seq<char>, ObjectSectionContrib>>,
) -> Result<(PoolModel, Seq<Map<Seq<char>, ObjectSectionContrib>>), Seq<char>>
    decreases datas.len() - i,
{
    if i >= datas.len() {
        Ok((pool, parts))
    } else {
        match crate::elf::elf_of(datas[i as int]) {
            Err(e) => Err(e),
            Ok(obj) => if obj.header.e_machine != machine {
                Err(
                    "e_machine mismatch: "@ + text::decimal(obj.header.e_machine as nat) + " vs "@
                        + text::decimal(machine as nat),
                )
            } else {
                match gather_elf_object(
                    datas[i as int],
                    elf_merge_order(obj.sections, obj.names, 5),
                    0,
                    ElfGathering { pool, parts: Map::empty() },
                ) {
                    None => Err(link::layout_too_large()),
                    Some(g) => gather_elf_from(
                        datas,
                        machine,
                        i + 1,
                        g.pool,
                        parts.push(g.parts),
                    ),
                }
            },
        }
    }
}

/// A pool without sections.
pub open spec fn empty_pool() -> PoolModel {
    PoolModel { sections: seq![], by_name: Map::empty() }
}

fn gather_all(datas: &[&[u8]], machine: u16) -> (r: Result<
    (Pool, Vec<NameMap<ObjectSectionContrib>>),
    String,
>)
    ensures
        match gather_elf_from(model::contents(datas@), machine, 0, empty_pool(), seq![]) {
            Ok((pool, parts)) => r is Ok && (r->Ok_0).0@ == pool && part_maps((r->Ok_0).1@) == parts
                && pool_ok(pool) && parts.len() == datas@.len(),
            Err(e) => r is Err && r->Err_0@ == e,
        },
{
    broadcast use model::group_views;
    let mut pool = Pool { sections: Vec::new(), by_name: NameMap::new() };
    let mut parts: Vec<NameMap<ObjectSectionContrib>> = Vec::new();
    let ghost total = gather_elf_from(model::contents(datas@), machine, 0, empty_pool(), seq![]);
    assert(part_maps(parts@) =~= seq![]);
    let mut i: usize = 0;
    while i < datas.len()
        invariant
            i <= datas@.len(),
            parts@.len() == i,
            pool_ok(pool@),
            total == gather_elf_from(model::contents(datas@), machine, 0, empty_pool(), seq![]),
            total == gather_elf_from(
                model::contents(datas@),
                machine,
                i as nat,
                pool@,
                part_maps(parts@),
            ),
        decreases datas@.len() - i,
    {
        assert(model::contents(datas@)[i as int] == datas@[i as int]@);
        let (header, sections, names) = match parse_elf64_slice(datas[i]) {
            Ok(p) => p,
            Err(e) => {
                return Err(e);
            },
        };
        if header.e_machine != machine {
            let mut msg = with_number("e_machine mismatch: ", header.e_machine as u64, " vs ");
            push_decimal(&mut msg, machine as u64);
            return Err(msg);
        }
        match gather_object(datas[i], &sections, &names, &mut pool) {
            Some(p) => {
                let ghost before = part_maps(parts@);
                parts.push(p);
                assert(part_maps(parts@) =~= before.push(p@));
            },
            None => {
                return Err("layout exceeds the address space".to_string());
            },
        }
        i = i + 1;
    }
    Ok((pool, parts))
}

/// `st` with the gathered sections named from `i` on placed one behind the other.
pub open spec fn place_pool(p: PoolModel, names: Seq<Seq<char>>, i: nat, st: Placing) -> Option<
    Placing,
>
    decreases names.len() - i,
{
    if i >= names.len() {
        Some(st)
    } else {
        let name = names[i as int];
        if pool_size(p, name) == 0 {
            place_pool(p, names, i + 1, st)
        } else {
            let s = p.sections[p.by_name[name] as int];
            let vaddr = segment::aligned(st.vaddr, s.align);
            if !segment::align_fits(st.vaddr, s.align) || vaddr + s.size > u64::MAX {
                None
            } else {
                place_pool(
                    p,
                    names,
                    i + 1,
                    Placing {
                        layout: link::with_section(
                            st.layout,
                            MergedModel {
                                name,
                                data: s.data,
                                vaddr,
                                flags: s.flags,
                                align: s.align,
                            },
                        ),
                        vaddr: (vaddr + s.size) as u64,
                    },
                )
            }
        }
    }
}

/// Places the gathered sections that `names` lists.
fn append_merged_sections(
    pool: &Pool,
    names: &Vec<String>,
    layout: &mut MergedLayout,
    start: u64,
) -> (r: Option<u64>)
    requires
        pool_ok(pool@),
        link::layout_ok(old(layout)@),
        link::macho::ends_before(old(layout)@, start as int),
    ensures
        match place_pool(
            pool@,
            model::views(names@),
            0,
            (Placing { layout: old(layout)@, vaddr: start }),
        ) {
            Some(p) => r == Some(p.vaddr) && final(layout)@ == p.layout
                && link::layout_ok(final(layout)@)
                && link::macho::ends_before(final(layout)@, p.vaddr as int),
            None => r is None,
        },
{
    let ghost total = place_pool(
        pool@,
        model::views(names@),
        0,
        Placing { layout: layout@, vaddr: start },
    );
    let mut vaddr: u64 = start;
    let mut i: usize = 0;
    while i < names.len()
        invariant
            i <= names@.len(),
            pool_ok(pool@),
            link::layout_ok(layout@),
            link::macho::ends_before(layout@, vaddr as int),
            total == place_pool(
                pool@,
                model::views(names@),
                i as nat,
                Placing { layout: layout@, vaddr },
            ),
            total == place_pool(
                pool@,
                model::views(names@),
                0,
                Placing { layout: old(layout)@, vaddr: start },
            ),
        decreases names@.len() - i,
    {
        assert(model::views(names@)[i as int] == names@[i as int]@);
        if let Some(found) = pool.by_name.get(names[i].as_str()) {
            let idx: usize = *found;
            assert(pool@.by_name.dom().contains(names@[i as int]@));
            assert(pool@.sections[idx as int] == pool.sections@[idx as int]@);
            let s = &pool.sections[idx];
            if s.size > 0 {
                let at: u64 = match checked_align_up(vaddr, s.align) {
                    Some(v) => v,
                    None => {
                        return None;
                    },
                };
                if s.size > u64::MAX - at {
                    return None;
                }
                proof {
                    segment::law_align_up_bounds(vaddr, s.align);
                }
                let mut data: Vec<u8> = Vec::new();
                push_bytes(&mut data, s.data.as_slice());
                assert(data@ =~= s.data@);
                let ghost before = layout@;
                push_section(
                    layout,
                    MergedSection {
                        name: names[i].clone(),
                        data,
                        vaddr: at,
                        flags: s.flags,
                        align: s.align,
                    },
                );
                proof {
                    link::lemma_with_section_ok(before, layout@.sections.last());
                }
                vaddr = at + s.size;
            }
        }
        i = i + 1;
    }
    Some(vaddr)
}

/// The names of the sections that come first, in their order.
pub open spec fn elf_known_names() -> Seq<Seq<char>> {
    seq![".text"@, ".rodata"@, ".data"@, ".bss"@]
}

/// The other names among the first `n` gathered sections.
pub open spec fn elf_other_names(p: PoolModel, n: nat) -> Seq<Seq<char>>
    decreases n,
{
    if n == 0 {
        seq![]
    } else {
        let before = elf_other_names(p, (n - 1) as nat);
        let name = p.sections[n - 1].name;
        if elf_rank(name) < 4 {
            before
        } else {
            before.push(name)
        }
    }
}

fn other_names(pool: &Pool) -> (r: Vec<String>)
    ensures
        model::views(r@) == elf_other_names(pool@, pool@.sections.len()),
{
    broadcast use model::group_views;
    let mut out: Vec<String> = Vec::new();
    let mut i: usize = 0;
    while i < pool.sections.len()
        invariant
            i <= pool.sections@.len(),
            model::views(out@) == elf_other_names(pool@, i as nat),
        decreases pool.sections@.len() - i,
    {
        broadcast use model::group_views;
        assert(pool@.sections[i as int] == pool.sections@[i as int]@);
        if section_merge_order(pool.sections[i].name.as_str()) >= 4 {
            out.push(pool.sections[i].name.clone());
        }
        i = i + 1;
    }
    out
}

/// The placed sections: the known ones in their order, then the others in the order of their
/// names.
pub open spec fn place_whole_pool(p: PoolModel) -> Option<LayoutModel> {
    match place_pool(
        p,
        elf_known_names(),
        0,
        Placing { layout: link::no_sections(), vaddr: ELF_BASE },
    ) {
        None => None,
        Some(known) => match place_pool(
            p,
            order::sort_names(elf_other_names(p, p.sections.len())),
            0,
            known,
        ) {
            None => None,
            Some(all) => Some(all.layout),
        },
    }
}

/// The layout of several objects, and where the parts of each stand in it.
pub open spec fn elf_multi_layout(datas: Seq<Seq<u8>>) -> Result<
    (LayoutModel, Seq<Map<Seq<char>, ObjectSectionContrib>>),
    Seq<char>,
> {
    if datas.len() == 0 {
        Err("no objects to merge"@)
    } else {
        match crate::elf::elf_of(datas[0]) {
            Err(e) => Err(e),
            Ok(first) => match gather_elf_from(
                datas,
                first.header.e_machine,
                0,
                empty_pool(),
                seq![],
            ) {
                Err(e) => Err(e),
                Ok((pool, parts)) => match place_whole_pool(pool) {
                    None => Err(link::layout_too_large()),
                    Some(l) => Ok((l, parts)),
                },
            },
        }
    }
}

/// Merges the sections of several objects, which must be for the same machine.
pub fn merge_sections_multi_object(objects: &[&[u8]]) -> (r: Result<
    (MergedLayout, Vec<NameMap<ObjectSectionContrib>>),
    String,
>)
    ensures
        match elf_multi_layout(model::contents(objects@)) {
            Ok((l, parts)) => r is Ok && (r->Ok_0).0@ == l && part_maps((r->Ok_0).1@) == parts
                && link::layout_ok(l) && parts.len() == objects@.len(),
            Err(e) => r is Err && r->Err_0@ == e,
        },
{
    broadcast use model::group_views;
    if objects.len() == 0 {
        return Err("no objects to merge".to_string());
    }
    assert(model::contents(objects@)[0] == objects@[0]@);
    let machine: u16 = match parse_elf64_slice(objects[0]) {
        Ok((h, _, _)) => h.e_machine,
        Err(e) => {
            return Err(e);
        },
    };
    let (pool, parts) = match gather_all(objects, machine) {
        Ok(g) => g,
        Err(e) => {
            return Err(e);
        },
    };
    let mut layout = empty_layout();
    let mut known: Vec<String> = Vec::new();
    known.push(".text".to_string());
    known.push(".rodata".to_string());
    known.push(".data".to_string());
    known.push(".bss".to_string());
    assert(model::views(known@) =~= elf_known_names());
    let vaddr: u64 = match append_merged_sections(&pool, &known, &mut layout, ELF_BASE) {
        Some(v) => v,
        None => {
            return Err("layout exceeds the address space".to_string());
        },
    };
    let extra = sorted_names(&other_names(&pool));
    match append_merged_sections(&pool, &extra, &mut layout, vaddr) {
        Some(_) => Ok((layout, parts)),
        None => Err("layout exceeds the address space".to_string()),
    }
}

} // verus!

//! Applying the relocations of Mach-O objects.
use vstd::prelude::*;
use vstd::string::*;
use std::collections::HashMap;
use crate::bytes;
use crate::bytes::{
    has_bytes, read_u16_le, read_u32_le, read_u64_le, write_u16, write_u32, write_u64,
};
use crate::link;
use crate::link::{LayoutModel, MergedLayout, set_section_data, take_section_data};
use crate::link::arm64;
use crate::link::arm64::{
    decode_arm64_adrp_addend, decode_arm64_branch_addend, decode_arm64_pageoff_addend,
    decode_arm64_reloc_addend, encode_arm64_branch, encode_arm64_page,
    encode_arm64_pageoff_immediate, encode_arm64_tlvp_local_add,
};
use crate::link::macho::{
    is_data_layout_section, is_thread_vars_section, merged_section_name_for_lookup,
};
use crate::macho::{
    ARM64_RELOC_ADDEND, ARM64_RELOC_BRANCH26, ARM64_RELOC_GOT_LOAD_PAGE21,
    ARM64_RELOC_GOT_LOAD_PAGEOFF12, ARM64_RELOC_PAGE21, ARM64_RELOC_PAGEOFF12,
    ARM64_RELOC_TLVP_LOAD_PAGE21, ARM64_RELOC_TLVP_LOAD_PAGEOFF12, GENERIC_RELOC_VANILLA,
    Macho64Object, MachoReloc, MachoSymbol, ObjectModel, SectionModel, SymbolModel,
    parse_macho_relocs,
};
use crate::model;
use crate::names::NameMap;
use crate::order;
use crate::order::add_addr;
use crate::text;
use crate::text::{join2, push_decimal, push_hex, push_hex_fixed, str_eq, then_number, with_number};

verus! {

broadcast use vstd::std_specs::hash::group_hash_axioms;

/// How many bytes a relocation covers.
pub open spec fn reloc_width(r_length: u32) -> int {
    if r_length == 0 {
        1
    } else if r_length == 1 {
        2
    } else if r_length == 3 {
        8
    } else {
        4
    }
}

fn reloc_size(r_length: u32) -> (r: usize)
    ensures
        r == reloc_width(r_length),
{
    match r_length {
        0 => 1,
        1 => 2,
        2 => 4,
        3 => 8,
        _ => 4,
    }
}

/// The number that stands where a relocation applies.
pub open spec fn stored_addend(data: Seq<u8>, off: int, length: u32) -> u64 {
    if length == 0 {
        data[off] as u64
    } else if length == 1 {
        bytes::u16_at(data, off) as u64
    } else if length == 2 {
        bytes::u32_at(data, off) as u64
    } else {
        bytes::u64_at(data, off)
    }
}

fn read_addend(data: &Vec<u8>, off: usize, length: u32) -> (r: u64)
    requires
        length <= 3,
        off + reloc_width(length) <= data@.len(),
    ensures
        r == stored_addend(data@, off as int, length),
{
    match length {
        0 => data[off] as u64,
        1 => read_u16_le(data.as_slice(), off).unwrap() as u64,
        2 => read_u32_le(data.as_slice(), off).unwrap() as u64,
        _ => read_u64_le(data.as_slice(), off).unwrap(),
    }
}

/// The addresses of an object's sections, the first `n` of them, under the low eight bits of
/// their numbers. A section of `s` stands in `l` at its offset in `offs`; one without an offset
/// counts, at zero, where `all` holds.
pub open spec fn sect_addrs(
    s: Seq<SectionModel>,
    l: LayoutModel,
    offs: Map<u8, u64>,
    all: bool,
    n: nat,
) -> Map<u8, u64>
    decreases n,
{
    if n == 0 {
        Map::empty()
    } else {
        let before = sect_addrs(s, l, offs, all, (n - 1) as nat);
        let name = link::macho::merged_name_of(s[n - 1]);
        let number = (n % 256) as u8;
        if l.by_name.dom().contains(name) && (all || offs.dom().contains(number)) {
            before.insert(
                number,
                l.sections[l.by_name[name] as int].vaddr.wrapping_add(offset_or_zero(offs, number)),
            )
        } else {
            before
        }
    }
}

/// The offset of a section, or zero.
pub open spec fn offset_or_zero(offs: Map<u8, u64>, number: u8) -> u64 {
    if offs.dom().contains(number) {
        offs[number]
    } else {
        0
    }
}

/// The addresses of an object's sections.
pub fn section_addresses(
    obj: &Macho64Object,
    layout: &MergedLayout,
    offs: &HashMap<u8, u64>,
    all: bool,
) -> (r: HashMap<u8, u64>)
    requires
        link::names_in_range(layout@),
    ensures
        r@ == sect_addrs(obj@.sections, layout@, offs@, all, obj@.sections.len()),
{
    let mut out: HashMap<u8, u64> = HashMap::new();
    let n: usize = obj.sections.len();
    let mut i: usize = 0;
    while i < n
        invariant
            i <= n,
            n == obj.sections@.len(),
            link::names_in_range(layout@),
            out@ == sect_addrs(obj@.sections, layout@, offs@, all, i as nat),
        decreases n - i,
    {
        let sec = &obj.sections[i];
        assert(obj@.sections[i as int] == sec@);
        let number: u8 = ((i + 1) % 256) as u8;
        let name = merged_section_name_for_lookup(sec.segname.as_str(), sec.sectname.as_str());
        if let Some(idx) = layout.section_by_name.get(name.as_str()) {
            assert(layout@.by_name.dom().contains(name@));
            let known = offs.get(&number);
            if all || known.is_some() {
                let off: u64 = match known {
                    Some(o) => *o,
                    None => 0,
                };
                out.insert(number, layout.sections[*idx].vaddr.wrapping_add(off));
            }
        }
        i = i + 1;
    }
    out
}

/// The shift with which the first range that holds `addr`, from `i` on, is loaded.
pub open spec fn runtime_addr(
    ranges: Seq<(u64, u64, u64)>,
    default_shift: u64,
    addr: u64,
    i: nat,
) -> u64
    decreases ranges.len() - i,
{
    if i >= ranges.len() {
        addr.wrapping_add(default_shift)
    } else if ranges[i as int].0 <= addr < ranges[i as int].1 {
        addr.wrapping_add(ranges[i as int].2)
    } else {
        runtime_addr(ranges, default_shift, addr, i + 1)
    }
}

/// The address at which what the layout has at `addr` is loaded.
pub fn runtime_addr_for_layout_addr(
    ranges: &Vec<(u64, u64, u64)>,
    default_shift: u64,
    addr: u64,
) -> (r: u64)
    ensures
        r == runtime_addr(ranges@, default_shift, addr, 0),
{
    let mut i: usize = 0;
    while i < ranges.len()
        invariant
            i <= ranges@.len(),
            runtime_addr(ranges@, default_shift, addr, 0) == runtime_addr(
                ranges@,
                default_shift,
                addr,
                i as nat,
            ),
        decreases ranges@.len() - i,
    {
        let (start, end, shift) = ranges[i];
        if addr >= start && addr < end {
            return addr.wrapping_add(shift);
        }
        i = i + 1;
    }
    addr.wrapping_add(default_shift)
}

/// The start, the end and the shift of each section.
pub open spec fn shift_ranges(l: LayoutModel, text_shift: u64, data_shift: u64) -> Seq<
    (u64, u64, u64),
> {
    Seq::new(
        l.sections.len(),
        |i: int|
            (
                l.sections[i].vaddr,
                link::section_end(l.sections[i]) as u64,
                if link::macho::is_data_name(l.sections[i].name) {
                    data_shift
                } else {
                    text_shift
                },
            ),
    )
}

/// The start, the end and the shift of each section.
pub fn section_ranges(layout: &MergedLayout, text_shift: u64, data_shift: u64) -> (r: Vec<
    (u64, u64, u64),
>)
    requires
        link::ends_fit(layout@),
    ensures
        r@ == shift_ranges(layout@, text_shift, data_shift),
{
    let mut out: Vec<(u64, u64, u64)> = Vec::new();
    let ghost all = shift_ranges(layout@, text_shift, data_shift);
    let mut i: usize = 0;
    while i < layout.sections.len()
        invariant
            i <= layout.sections@.len(),
            link::ends_fit(layout@),
            all == shift_ranges(layout@, text_shift, data_shift),
            out@ == all.subrange(0, i as int),
        decreases layout.sections@.len() - i,
    {
        let sec = &layout.sections[i];
        assert(layout@.sections[i as int] == sec@);
        let shift: u64 = if is_data_layout_section(sec.name.as_str()) {
            data_shift
        } else {
            text_shift
        };
        out.push((sec.vaddr, sec.vaddr + sec.data.len() as u64, shift));
        assert(out@ =~= all.subrange(0, i + 1));
        i = i + 1;
    }
    assert(out@ =~= all);
    out
}

/// Whether a merged section holds initial values of thread-local variables.
pub open spec fn is_thread_storage(name: Seq<char>) -> bool {
    name == "__DATA.__thread_data"@ || name == "__DATA.__thread_bss"@
}

/// The address ranges of thread-local storage among the first `n` sections.
pub open spec fn thread_ranges(l: LayoutModel, n: nat) -> Seq<(u64, u64)>
    decreases n,
{
    if n == 0 {
        seq![]
    } else {
        let before = thread_ranges(l, (n - 1) as nat);
        let sec = l.sections[n - 1];
        if is_thread_storage(sec.name) {
            before.push((sec.vaddr, link::section_end(sec) as u64))
        } else {
            before
        }
    }
}

fn tls_ranges(layout: &MergedLayout) -> (r: Vec<(u64, u64)>)
    requires
        link::ends_fit(layout@),
    ensures
        r@ == thread_ranges(layout@, layout@.sections.len()),
{
    let mut out: Vec<(u64, u64)> = Vec::new();
    let mut i: usize = 0;
    while i < layout.sections.len()
        invariant
            i <= layout.sections@.len(),
            link::ends_fit(layout@),
            out@ == thread_ranges(layout@, i as nat),
        decreases layout.sections@.len() - i,
    {
        let sec = &layout.sections[i];
        assert(layout@.sections[i as int] == sec@);
        if str_eq(sec.name.as_str(), "__DATA.__thread_data") || str_eq(
            sec.name.as_str(),
            "__DATA.__thread_bss",
        ) {
            out.push((sec.vaddr, sec.vaddr + sec.data.len() as u64));
        }
        i = i + 1;
    }
    out
}

/// The lowest start among the first `n` ranges.
pub open spec fn lowest_start(tls: Seq<(u64, u64)>, n: nat) -> u64
    decreases n,
{
    if n == 0 {
        u64::MAX
    } else {
        let m = lowest_start(tls, (n - 1) as nat);
        if tls[n - 1].0 < m {
            tls[n - 1].0
        } else {
            m
        }
    }
}

/// Whether `addr` lies in thread-local storage.
pub open spec fn in_thread_storage(tls: Seq<(u64, u64)>, addr: u64) -> bool {
    exists|i: int| 0 <= i < tls.len() && (#[trigger] tls[i]).0 <= addr < tls[i].1
}

/// The offset of `target` in thread-local storage where `base` lies in it.
fn tls_base_of(tls: &Vec<(u64, u64)>, addr: u64) -> (r: Option<u64>)
    ensures
        r == if in_thread_storage(tls@, addr) {
            Some(lowest_start(tls@, tls@.len()))
        } else {
            None
        },
{
    let mut found: bool = false;
    let mut low: u64 = u64::MAX;
    let mut i: usize = 0;
    while i < tls.len()
        invariant
            i <= tls@.len(),
            low == lowest_start(tls@, i as nat),
            found == exists|k: int| 0 <= k < i && (#[trigger] tls@[k]).0 <= addr < tls@[k].1,
        decreases tls@.len() - i,
    {
        let (start, end) = tls[i];
        if start < low {
            low = start;
        }
        if addr >= start && addr < end {
            assert(tls@[i as int].0 <= addr < tls@[i as int].1);
            found = true;
        }
        i = i + 1;
    }
    if found {
        Some(low)
    } else {
        None
    }
}

/// What the relocations of one object refer to.
pub struct RelocEnv {
    pub symbols: Seq<SymbolModel>,
    pub sect_addrs: Map<u8, u64>,
    pub ranges: Seq<(u64, u64, u64)>,
    pub tls: Seq<(u64, u64)>,
    pub symbol_addrs: Seq<Option<u64>>,
    pub got: Option<Map<Seq<char>, u64>>,
    pub text_shift: u64,
}

/// What the relocations of one object refer to.
pub struct RelocContext<'a> {
    pub symbols: &'a Vec<MachoSymbol>,
    pub sect_addrs: HashMap<u8, u64>,
    pub ranges: Vec<(u64, u64, u64)>,
    pub tls: Vec<(u64, u64)>,
    pub symbol_addrs: &'a Vec<Option<u64>>,
    pub got: Option<&'a NameMap<u64>>,
    pub text_shift: u64,
}

impl<'a> View for RelocContext<'a> {
    type V = RelocEnv;

    open spec fn view(&self) -> RelocEnv {
        RelocEnv {
            symbols: model::views(self.symbols@),
            sect_addrs: self.sect_addrs@,
            ranges: self.ranges@,
            tls: self.tls@,
            symbol_addrs: self.symbol_addrs@,
            got: match self.got {
                Some(m) => Some(m@),
                None => None,
            },
            text_shift: self.text_shift,
        }
    }
}

/// The merged section that relocations are applied to: its name, its address, the shift with
/// which it is loaded, and where the object's part of it starts.
pub struct Site {
    pub name: Seq<char>,
    pub vaddr: u64,
    pub shift: u64,
    pub offset: u64,
}

/// The symbol that a relocation names.
pub open spec fn reloc_symbol(env: RelocEnv, r: MachoReloc) -> Option<SymbolModel> {
    if r.r_symbolnum < env.symbols.len() {
        Some(env.symbols[r.r_symbolnum as int])
    } else {
        None
    }
}

/// Whether a relocation loads an address from the global offset table.
pub open spec fn is_got_load(r_type: u32) -> bool {
    r_type == ARM64_RELOC_GOT_LOAD_PAGE21 || r_type == ARM64_RELOC_GOT_LOAD_PAGEOFF12
}

/// Whether a relocation loads the address of a thread-local variable descriptor.
pub open spec fn is_thread_load(r_type: u32) -> bool {
    r_type == ARM64_RELOC_TLVP_LOAD_PAGE21 || r_type == ARM64_RELOC_TLVP_LOAD_PAGEOFF12
}

/// Whether a relocation is left to the dynamic linker.
pub open spec fn wants_bind(env: RelocEnv, name: Seq<char>, r: MachoReloc) -> bool {
    match reloc_symbol(env, r) {
        Some(s) => !s.is_defined && link::macho::is_thread_vars(name) && r.r_type
            == GENERIC_RELOC_VANILLA
            && r.r_length == 3 && !r.r_pcrel,
        None => false,
    }
}

/// The address of the symbol that a relocation names: its slot in the global offset table where
/// the relocation goes through one.
pub open spec fn symbol_target(env: RelocEnv, r: MachoReloc) -> Option<u64> {
    let resolved = if r.r_symbolnum < env.symbol_addrs.len() {
        env.symbol_addrs[r.r_symbolnum as int]
    } else {
        None
    };
    match (reloc_symbol(env, r), env.got) {
        (Some(s), Some(got)) => {
            let through_got = if is_thread_load(r.r_type) {
                resolved is None
            } else {
                !s.is_defined && is_got_load(r.r_type)
            };
            if through_got && got.dom().contains(s.name) {
                Some(got[s.name])
            } else {
                resolved
            }
        },
        _ => resolved,
    }
}

/// What a relocation refers to: an address in the layout, or a symbol to be bound when the image
/// is loaded.
pub struct RelocTarget {
    pub base: u64,
    pub bind: Option<(Seq<char>, bool, i64)>,
}

/// What a bind adds to the symbol's address.
pub open spec fn bind_addend(name: Seq<char>, stored: u64) -> i64 {
    if stored as i64 == 0 && name == "__tlv_bootstrap"@ {
        8
    } else {
        stored as i64
    }
}

/// What the relocation `r` at `off` refers to.
pub open spec fn reloc_target(
    env: RelocEnv,
    name: Seq<char>,
    data: Seq<u8>,
    off: int,
    r: MachoReloc,
) -> Result<RelocTarget, Seq<char>> {
    if !r.r_extern {
        let number = r.r_symbolnum as u8;
        Ok(RelocTarget { base: offset_or_zero(env.sect_addrs, number), bind: None })
    } else if wants_bind(env, name, r) {
        let s = reloc_symbol(env, r)->0;
        Ok(
            RelocTarget {
                base: 0,
                bind: Some((s.name, s.is_weak_ref, bind_addend(s.name, bytes::u64_at(data, off)))),
            },
        )
    } else {
        match symbol_target(env, r) {
            Some(base) => Ok(RelocTarget { base, bind: None }),
            None => Err(
                "undefined symbol index "@ + text::decimal(r.r_symbolnum as nat) + " ("@ + (
                match reloc_symbol(env, r) {
                    Some(s) => s.name,
                    None => "?"@,
                }) + ") for relocation"@,
            ),
        }
    }
}

/// What a relocation refers to, with the name of the symbol to bind.
pub struct Target {
    pub base: u64,
    pub bind: Option<(String, bool, i64)>,
}

impl View for Target {
    type V = RelocTarget;

    open spec fn view(&self) -> RelocTarget {
        RelocTarget { base: self.base, bind: model::view_opt(self.bind) }
    }
}

fn find_symbol_target(ctx: &RelocContext<'_>, r: &MachoReloc) -> (res: Option<u64>)
    ensures
        res == symbol_target(ctx@, *r),
{
    let idx: usize = r.r_symbolnum as usize;
    let resolved: Option<u64> = if idx < ctx.symbol_addrs.len() {
        ctx.symbol_addrs[idx]
    } else {
        None
    };
    if idx >= ctx.symbols.len() {
        return resolved;
    }
    let s = &ctx.symbols[idx];
    assert(ctx@.symbols[idx as int] == s@);
    let is_got_reloc = r.r_type == ARM64_RELOC_GOT_LOAD_PAGE21 || r.r_type
        == ARM64_RELOC_GOT_LOAD_PAGEOFF12;
    let is_tlvp_reloc = r.r_type == ARM64_RELOC_TLVP_LOAD_PAGE21 || r.r_type
        == ARM64_RELOC_TLVP_LOAD_PAGEOFF12;
    let use_got_slot = if is_tlvp_reloc {
        resolved.is_none()
    } else {
        !s.is_defined && is_got_reloc
    };
    if use_got_slot {
        if let Some(got) = ctx.got {
            if let Some(slot) = got.get(s.name.as_str()) {
                return Some(*slot);
            }
        }
    }
    resolved
}

fn find_reloc_target(
    ctx: &RelocContext<'_>,
    name: &str,
    data: &Vec<u8>,
    off: usize,
    r: &MachoReloc,
) -> (res: Result<Target, String>)
    requires
        off + reloc_width(r.r_length) <= data@.len(),
    ensures
        model::outcome(res) == reloc_target(ctx@, name@, data@, off as int, *r),
{
    if !r.r_extern {
        let number: u8 = r.r_symbolnum as u8;
        let base: u64 = match ctx.sect_addrs.get(&number) {
            Some(a) => *a,
            None => 0,
        };
        return Ok(Target { base, bind: None });
    }
    let idx: usize = r.r_symbolnum as usize;
    if idx < ctx.symbols.len() {
        let s = &ctx.symbols[idx];
        assert(ctx@.symbols[idx as int] == s@);
        if !s.is_defined && is_thread_vars_section(name) && r.r_type == GENERIC_RELOC_VANILLA
            && r.r_length == 3 && !r.r_pcrel {
            let stored: i64 = read_u64_le(data.as_slice(), off).unwrap() as i64;
            let addend: i64 = if stored == 0 && str_eq(s.name.as_str(), "__tlv_bootstrap") {
                8
            } else {
                stored
            };
            return Ok(Target { base: 0, bind: Some((s.name.clone(), s.is_weak_ref, addend)) });
        }
    }
    match find_symbol_target(ctx, r) {
        Some(base) => Ok(Target { base, bind: None }),
        None => {
            let mut msg = with_number("undefined symbol index ", r.r_symbolnum as u64, " (");
            if idx < ctx.symbols.len() {
                assert(ctx@.symbols[idx as int] == ctx.symbols@[idx as int]@);
                msg.append(ctx.symbols[idx].name.as_str());
            } else {
                msg.append("?");
            }
            msg.append(") for relocation");
            Err(msg)
        },
    }
}

/// The numbers that a relocation computes with.
pub struct RelocValues {
    pub off: int,
    pub base: u64,
    pub base_runtime: u64,
    pub place_runtime: u64,
    pub extra: i64,
}

/// `data` after a relocation that stores an address or a distance, and whether the address
/// moves with the image.
pub open spec fn stored_value(
    env: RelocEnv,
    name: Seq<char>,
    data: Seq<u8>,
    r: MachoReloc,
    v: RelocValues,
    bound: bool,
) -> (Seq<u8>, bool) {
    let addend = stored_addend(data, v.off, r.r_length);
    let absolute = v.base_runtime.wrapping_add(addend);
    let value = if r.r_pcrel {
        absolute.wrapping_sub(v.place_runtime)
    } else {
        absolute
    };
    if r.r_length == 0 {
        (bytes::patch(data, v.off, seq![value as u8]), false)
    } else if r.r_length == 1 {
        (bytes::patch(data, v.off, bytes::le16(value as u16)), false)
    } else if r.r_length == 2 {
        (bytes::patch(data, v.off, bytes::le32(value as u32)), false)
    } else if r.r_length == 3 {
        if link::macho::is_thread_vars(name) && !r.r_pcrel && in_thread_storage(env.tls, v.base)
            && v.off % 24
            == 16 {
            let offset = v.base.wrapping_add(addend).wrapping_sub(
                lowest_start(env.tls, env.tls.len()),
            );
            (bytes::patch(data, v.off, bytes::le64((offset as u32) as u64)), false)
        } else {
            (bytes::patch(data, v.off, bytes::le64(value)), !r.r_pcrel
                && link::macho::is_data_name(name) && !bound)
        }
    } else {
        (data, false)
    }
}

/// The details that stand behind the message of a refused page offset.
pub open spec fn page_offset_details(
    r_type: u32,
    insn: u32,
    base: u64,
    addend: i64,
    place: u64,
) -> Seq<char> {
    " (reloc_type="@ + text::decimal(r_type as nat) + " insn=0x"@ + text::hex_fixed(insn as nat, 8)
        + " base=0x"@
        + text::hex(base as nat) + " addend=0x"@ + text::hex((addend as u64) as nat) + " place=0x"@
            + text::hex(
        place as nat,
    ) + ")"@
}

/// `data` after the relocation `r`, and whether it stored an address that moves with the image.
pub open spec fn relocated(
    env: RelocEnv,
    name: Seq<char>,
    data: Seq<u8>,
    r: MachoReloc,
    v: RelocValues,
    bound: bool,
) -> Result<(Seq<u8>, bool), Seq<char>> {
    let insn = bytes::u32_at(data, v.off);
    if r.r_type == GENERIC_RELOC_VANILLA {
        Ok(stored_value(env, name, data, r, v, bound))
    } else if r.r_type == ARM64_RELOC_BRANCH26 {
        if data.len() < v.off + 4 {
            Err("branch reloc: buffer too short"@)
        } else {
            let target = v.base_runtime.wrapping_add_signed(
                arm64::branch_displacement(insn).wrapping_add(v.extra),
            );
            match arm64::branch_to(insn, target, v.place_runtime) {
                Ok(p) => Ok((bytes::patch(data, v.off, bytes::le32(p)), false)),
                Err(e) => Err(e),
            }
        }
    } else if r.r_type == ARM64_RELOC_PAGE21 || r.r_type == ARM64_RELOC_GOT_LOAD_PAGE21 || r.r_type
        == ARM64_RELOC_TLVP_LOAD_PAGE21 {
        if data.len() < v.off + 4 {
            Err("page21 reloc: buffer too short"@)
        } else {
            let target = v.base_runtime.wrapping_add_signed(
                arm64::adrp_displacement(insn).wrapping_add(v.extra),
            );
            match arm64::page_to(insn, target, v.place_runtime) {
                Ok(p) => Ok((bytes::patch(data, v.off, bytes::le32(p)), false)),
                Err(e) => Err(e),
            }
        }
    } else if r.r_type == ARM64_RELOC_PAGEOFF12 || r.r_type == ARM64_RELOC_TLVP_LOAD_PAGEOFF12
        || r.r_type == ARM64_RELOC_GOT_LOAD_PAGEOFF12 {
        if data.len() < v.off + 4 {
            Err("pageoff12 reloc: buffer too short"@)
        } else {
            let addend = (arm64::page_offset(insn) as i64).wrapping_add(v.extra);
            let target = v.base_runtime.wrapping_add_signed(addend);
            let pageoff = (target & 0x0fff) as u32;
            let local = r.r_type == ARM64_RELOC_TLVP_LOAD_PAGEOFF12 && r.r_extern && (
            match reloc_symbol(env, r) {
                Some(s) => s.is_defined,
                None => false,
            });
            match if local {
                arm64::local_thread_add(insn, pageoff)
            } else {
                arm64::with_page_offset(insn, pageoff)
            } {
                Ok(p) => Ok((bytes::patch(data, v.off, bytes::le32(p)), false)),
                Err(e) => Err(
                    e + page_offset_details(
                        r.r_type,
                        insn,
                        v.base_runtime,
                        addend,
                        v.place_runtime,
                    ),
                ),
            }
        }
    } else {
        Err("unsupported Mach-O relocation type "@ + text::decimal(r.r_type as nat))
    }
}

fn store_value(
    ctx: &RelocContext<'_>,
    name: &str,
    data: &mut Vec<u8>,
    r: &MachoReloc,
    off: usize,
    base: u64,
    base_runtime: u64,
    place_runtime: u64,
    bound: bool,
    Ghost(extra): Ghost<i64>,
) -> (rebase: bool)
    requires
        off + reloc_width(r.r_length) <= old(data)@.len(),
    ensures
        (final(data)@, rebase) == stored_value(
            ctx@,
            name@,
            old(data)@,
            *r,
            (RelocValues { off: off as int, base, base_runtime, place_runtime, extra }),
            bound,
        ),
{
    if r.r_length > 3 {
        return false;
    }
    let addend: u64 = read_addend(data, off, r.r_length);
    let mut value: u64 = base_runtime.wrapping_add(addend);
    if r.r_pcrel {
        value = value.wrapping_sub(place_runtime);
    }
    if r.r_length == 0 {
        data[off] = value as u8;
        assert(data@ =~= bytes::patch(old(data)@, off as int, seq![value as u8]));
        false
    } else if r.r_length == 1 {
        write_u16(data, off, value as u16);
        false
    } else if r.r_length == 2 {
        write_u32(data, off, value as u32);
        false
    } else {
        if is_thread_vars_section(name) && !r.r_pcrel && off % 24 == 16 {
            if let Some(tls_start) = tls_base_of(&ctx.tls, base) {
                let offset: u32 = base.wrapping_add(addend).wrapping_sub(tls_start) as u32;
                write_u64(data, off, offset as u64);
                return false;
            }
        }
        write_u64(data, off, value);
        !r.r_pcrel && !bound && is_data_layout_section(name)
    }
}

fn relocate_page_offset(
    ctx: &RelocContext<'_>,
    data: &mut Vec<u8>,
    r: &MachoReloc,
    off: usize,
    base_runtime: u64,
    place_runtime: u64,
    extra: i64,
    Ghost(name): Ghost<Seq<char>>,
    Ghost(base): Ghost<u64>,
    Ghost(bound): Ghost<bool>,
) -> (res: Result<bool, String>)
    requires
        off + 4 <= old(data)@.len(),
        r.r_type == ARM64_RELOC_PAGEOFF12 || r.r_type == ARM64_RELOC_TLVP_LOAD_PAGEOFF12 || r.r_type
            == ARM64_RELOC_GOT_LOAD_PAGEOFF12,
    ensures
        relocated(
            ctx@,
            name,
            old(data)@,
            *r,
            (RelocValues { off: off as int, base, base_runtime, place_runtime, extra }),
            bound,
        ) == match res {
            Ok(b) => Ok::<(Seq<u8>, bool), Seq<char>>((final(data)@, b)),
            Err(e) => Err(e@),
        },
        res is Err ==> final(data)@ == old(data)@,
{
    let insn: u32 = read_u32_le(data.as_slice(), off).unwrap();
    let addend: i64 = (decode_arm64_pageoff_addend(insn) as i64).wrapping_add(extra);
    let target: u64 = base_runtime.wrapping_add_signed(addend);
    let pageoff: u32 = (target & 0x0fff) as u32;
    let idx: usize = r.r_symbolnum as usize;
    let local: bool = r.r_type == ARM64_RELOC_TLVP_LOAD_PAGEOFF12 && r.r_extern && idx
        < ctx.symbols.len() && ctx.symbols[idx].is_defined;
    assert(idx < ctx.symbols@.len() ==> ctx@.symbols[idx as int] == ctx.symbols@[idx as int]@);
    let patched = if local {
        encode_arm64_tlvp_local_add(insn, pageoff)
    } else {
        encode_arm64_pageoff_immediate(insn, pageoff)
    };
    match patched {
        Ok(p) => {
            write_u32(data, off, p);
            Ok(false)
        },
        Err(e) => {
            let mut details = then_number(" (reloc_type=", r.r_type as u64);
            details.append(" insn=0x");
            push_hex_fixed(&mut details, insn as u64, 8);
            details.append(" base=0x");
            push_hex(&mut details, base_runtime);
            details.append(" addend=0x");
            push_hex(&mut details, addend as u64);
            details.append(" place=0x");
            push_hex(&mut details, place_runtime);
            details.append(")");
            Err(join2(e.as_str(), details.as_str()))
        },
    }
}

/// Applies one relocation whose place lies in `data`.
fn relocate(
    ctx: &RelocContext<'_>,
    name: &str,
    data: &mut Vec<u8>,
    r: &MachoReloc,
    off: usize,
    base: u64,
    base_runtime: u64,
    place_runtime: u64,
    extra: i64,
    bound: bool,
) -> (res: Result<bool, String>)
    requires
        off + reloc_width(r.r_length) <= old(data)@.len(),
    ensures
        relocated(
            ctx@,
            name@,
            old(data)@,
            *r,
            (RelocValues { off: off as int, base, base_runtime, place_runtime, extra }),
            bound,
        ) == match res {
            Ok(b) => Ok::<(Seq<u8>, bool), Seq<char>>((final(data)@, b)),
            Err(e) => Err(e@),
        },
        res is Err ==> final(data)@ == old(data)@,
{
    if r.r_type == GENERIC_RELOC_VANILLA {
        return Ok(
            store_value(
                ctx,
                name,
                data,
                r,
                off,
                base,
                base_runtime,
                place_runtime,
                bound,
                Ghost(extra),
            ),
        );
    }
    if r.r_type == ARM64_RELOC_BRANCH26 {
        if !has_bytes(data.as_slice(), off, 4) {
            return Err("branch reloc: buffer too short".to_string());
        }
        let insn: u32 = read_u32_le(data.as_slice(), off).unwrap();
        let addend: i64 = decode_arm64_branch_addend(insn).wrapping_add(extra);
        let target: u64 = base_runtime.wrapping_add_signed(addend);
        match encode_arm64_branch(insn, target, place_runtime) {
            Ok(p) => {
                write_u32(data, off, p);
                Ok(false)
            },
            Err(e) => Err(e),
        }
    } else if r.r_type == ARM64_RELOC_PAGE21 || r.r_type == ARM64_RELOC_GOT_LOAD_PAGE21 || r.r_type
        == ARM64_RELOC_TLVP_LOAD_PAGE21 {
        if !has_bytes(data.as_slice(), off, 4) {
            return Err("page21 reloc: buffer too short".to_string());
        }
        let insn: u32 = read_u32_le(data.as_slice(), off).unwrap();
        let addend: i64 = decode_arm64_adrp_addend(insn).wrapping_add(extra);
        let target: u64 = base_runtime.wrapping_add_signed(addend);
        match encode_arm64_page(insn, target, place_runtime) {
            Ok(p) => {
                write_u32(data, off, p);
                Ok(false)
            },
            Err(e) => Err(e),
        }
    } else if r.r_type == ARM64_RELOC_PAGEOFF12 || r.r_type == ARM64_RELOC_TLVP_LOAD_PAGEOFF12
        || r.r_type == ARM64_RELOC_GOT_LOAD_PAGEOFF12 {
        if !has_bytes(data.as_slice(), off, 4) {
            return Err("pageoff12 reloc: buffer too short".to_string());
        }
        relocate_page_offset(
            ctx,
            data,
            r,
            off,
            base_runtime,
            place_runtime,
            extra,
            Ghost(name@),
            Ghost(base),
            Ghost(bound),
        )
    } else {
        Err(then_number("unsupported Mach-O relocation type ", r.r_type as u64))
    }
}

/// What relocating one section changes.
pub struct RelocState {
    pub data: Seq<u8>,
    pub addends: Map<u32, i64>,
    pub rebases: Seq<u64>,
    pub binds: Seq<(u64, Seq<char>, bool, i64)>,
}

/// Where the relocation `r` applies, counted from the start of the merged section.
pub open spec fn reloc_offset(site: Site, r: MachoReloc) -> u64 {
    site.offset.wrapping_add(r.r_address as u64)
}

/// The state after the relocation `r`.
pub open spec fn relocate_one(env: RelocEnv, site: Site, r: MachoReloc, st: RelocState) -> Result<
    RelocState,
    Seq<char>,
> {
    let off = reloc_offset(site, r);
    if r.r_type == ARM64_RELOC_ADDEND {
        Ok(
            RelocState {
                addends: st.addends.insert(r.r_address, arm64::record_addend(r.r_symbolnum)),
                ..st
            },
        )
    } else if st.data.len() < off + reloc_width(r.r_length) {
        Err(
            "relocation offset "@ + text::decimal(off as nat) + " + "@ + text::decimal(
                reloc_width(r.r_length) as nat,
            ) + " out of bounds (len "@ + text::decimal(st.data.len()) + ")"@,
        )
    } else {
        match reloc_target(env, site.name, st.data, off as int, r) {
            Err(e) => Err(e),
            Ok(t) => {
                let place = site.vaddr.wrapping_add(off);
                let v = RelocValues {
                    off: off as int,
                    base: t.base,
                    base_runtime: if t.bind is Some {
                        0
                    } else {
                        runtime_addr(env.ranges, env.text_shift, t.base, 0)
                    },
                    place_runtime: place.wrapping_add(site.shift),
                    extra: if st.addends.dom().contains(r.r_address) {
                        st.addends[r.r_address]
                    } else {
                        0
                    },
                };
                match relocated(env, site.name, st.data, r, v, t.bind is Some) {
                    Err(e) => Err(e),
                    Ok((data, rebase)) => Ok(
                        RelocState {
                            data,
                            addends: st.addends.remove(r.r_address),
                            rebases: if rebase {
                                order::insert_addr(st.rebases, place)
                            } else {
                                st.rebases
                            },
                            binds: match t.bind {
                                Some((name, weak, addend)) => st.binds.push(
                                    (place, name, weak, addend),
                                ),
                                None => st.binds,
                            },
                        },
                    ),
                }
            },
        }
    }
}

/// The state after the relocations from `i` on, and what stopped them.
pub open spec fn relocate_from(
    env: RelocEnv,
    site: Site,
    relocs: Seq<MachoReloc>,
    i: nat,
    st: RelocState,
) -> (RelocState, Option<Seq<char>>)
    decreases relocs.len() - i,
{
    if i >= relocs.len() {
        (st, None)
    } else {
        match relocate_one(env, site, relocs[i as int], st) {
            Ok(next) => relocate_from(env, site, relocs, i + 1, next),
            Err(e) => (st, Some(e)),
        }
    }
}

/// Applies one relocation, or keeps the addend that it announces.
fn apply_one(
    ctx: &RelocContext<'_>,
    name: &str,
    vaddr: u64,
    shift: u64,
    offset: u64,
    r: &MachoReloc,
    data: &mut Vec<u8>,
    addends: &mut HashMap<u32, i64>,
    rebases: &mut Vec<u64>,
    binds: &mut Vec<(u64, String, bool, i64)>,
) -> (res: Result<(), String>)
    ensures
        relocate_one(
            ctx@,
            (Site { name: name@, vaddr, shift, offset }),
            *r,
            (RelocState {
                data: old(data)@,
                addends: old(addends)@,
                rebases: old(rebases)@,
                binds: model::views(old(binds)@),
            }),
        ) == match res {
            Ok(_) => Ok::<RelocState, Seq<char>>(
                (RelocState {
                    data: final(data)@,
                    addends: final(addends)@,
                    rebases: final(rebases)@,
                    binds: model::views(final(binds)@),
                }),
            ),
            Err(e) => Err(e@),
        },
        res is Err ==> final(data)@ == old(data)@ && final(rebases)@ == old(rebases)@
            && final(binds)@ == old(binds)@,
{
    broadcast use model::group_views;
    if r.r_type == ARM64_RELOC_ADDEND {
        addends.insert(r.r_address, decode_arm64_reloc_addend(r.r_symbolnum));
        return Ok(());
    }
    let off64: u64 = offset.wrapping_add(r.r_address as u64);
    let size: usize = reloc_size(r.r_length);
    let len: usize = data.len();
    if off64 > len as u64 || size > len - off64 as usize {
        let mut msg = with_number("relocation offset ", off64, " + ");
        push_decimal(&mut msg, size as u64);
        msg.append(" out of bounds (len ");
        push_decimal(&mut msg, len as u64);
        msg.append(")");
        return Err(msg);
    }
    let off: usize = off64 as usize;
    let target = match find_reloc_target(ctx, name, data, off, r) {
        Ok(t) => t,
        Err(e) => {
            return Err(e);
        },
    };
    let place: u64 = vaddr.wrapping_add(off64);
    let bound: bool = target.bind.is_some();
    let base_runtime: u64 = if bound {
        0
    } else {
        runtime_addr_for_layout_addr(&ctx.ranges, ctx.text_shift, target.base)
    };
    let place_runtime: u64 = place.wrapping_add(shift);
    let extra: i64 = match addends.remove(&r.r_address) {
        Some(a) => a,
        None => 0,
    };
    let rebase: bool = match relocate(
        ctx,
        name,
        data,
        r,
        off,
        target.base,
        base_runtime,
        place_runtime,
        extra,
        bound,
    ) {
        Ok(b) => b,
        Err(e) => {
            return Err(e);
        },
    };
    if rebase {
        add_addr(rebases, place);
    }
    if let Some((symbol, weak, addend)) = target.bind {
        binds.push((place, symbol, weak, addend));
    }
    Ok(())
}

/// `data` with the thread-local variable descriptors from `i` on in the form that the loader
/// expects.
pub open spec fn descriptors_from(data: Seq<u8>, i: int) -> Seq<u8>
    decreases data.len() - i,
{
    if i < 0 || i + 24 > data.len() {
        data
    } else {
        let init = bytes::u64_at(data, i + 16) & 0xffff_ffff;
        let rest = (data.len() - 16 - i) as u64;
        let once = bytes::patch(data, i + 8, bytes::le64((init << 32) | 0x102));
        descriptors_from(bytes::patch(once, i + 16, bytes::le64((0x58u64 << 32) | rest)), i + 24)
    }
}

fn finish_descriptors(data: &mut Vec<u8>)
    ensures
        final(data)@ == descriptors_from(old(data)@, 0),
        final(data)@.len() == old(data)@.len(),
{
    let n: usize = data.len();
    let mut i: usize = 0;
    while n >= 24 && i <= n - 24
        invariant
            n == data@.len(),
            n == old(data)@.len(),
            descriptors_from(data@, i as int) == descriptors_from(old(data)@, 0),
            i <= n,
        decreases n - i,
    {
        let init: u64 = read_u64_le(data.as_slice(), i + 16).unwrap() & 0xffff_ffff;
        let rest: u64 = (n - 16 - i) as u64;
        write_u64(data, i + 8, (init << 32) | 0x102);
        write_u64(data, i + 16, (0x58u64 << 32) | rest);
        i = i + 24;
    }
}

/// What relocating an object changes.
pub struct LinkState {
    pub layout: LayoutModel,
    pub rebases: Seq<u64>,
    pub binds: Seq<(u64, Seq<char>, bool, i64)>,
}

/// The state after the relocations of the section number `i` of an object, and what stopped them.
pub open spec fn apply_section(
    env: RelocEnv,
    obj: ObjectModel,
    offs: Map<u8, u64>,
    i: nat,
    st: LinkState,
) -> (LinkState, Option<Seq<char>>) {
    let sec = obj.sections[i as int];
    let name = link::macho::merged_name_of(sec);
    if sec.nreloc == 0 || !st.layout.by_name.dom().contains(name) {
        (st, None)
    } else {
        let idx = st.layout.by_name[name] as int;
        let merged = st.layout.sections[idx];
        let site = Site {
            name: merged.name,
            vaddr: merged.vaddr,
            shift: env.ranges[idx].2,
            offset: offset_or_zero(offs, ((i + 1) % 256) as u8),
        };
        let (done, error) = relocate_from(
            env,
            site,
            crate::macho::relocs_of(obj.data, sec.reloff, sec.nreloc),
            0,
            RelocState {
                data: merged.data,
                addends: Map::empty(),
                rebases: st.rebases,
                binds: st.binds,
            },
        );
        (
            LinkState {
                layout: link::with_data(
                    st.layout,
                    idx,
                    if error is None && link::macho::is_thread_vars(merged.name) {
                        descriptors_from(done.data, 0)
                    } else {
                        done.data
                    },
                ),
                rebases: done.rebases,
                binds: done.binds,
            },
            error,
        )
    }
}

/// The state after the relocations of the sections from `i` on, and what stopped them.
pub open spec fn apply_from(
    env: RelocEnv,
    obj: ObjectModel,
    offs: Map<u8, u64>,
    i: nat,
    st: LinkState,
) -> (LinkState, Option<Seq<char>>)
    decreases obj.sections.len() - i,
{
    if i >= obj.sections.len() {
        (st, None)
    } else {
        let (next, error) = apply_section(env, obj, offs, i, st);
        if error is Some {
            (next, error)
        } else {
            apply_from(env, obj, offs, i + 1, next)
        }
    }
}

/// Whether a result and what is left of the state say what they should.
pub open spec fn apply_outcome(
    r: Result<(), String>,
    left: LinkState,
    expected: (LinkState, Option<Seq<char>>),
) -> bool {
    &&& left == expected.0
    &&& match expected.1 {
        None => r is Ok,
        Some(e) => r is Err && r->Err_0@ == e,
    }
}

/// What the relocations of `obj` refer to in the layout `l`.
pub open spec fn reloc_env(
    obj: ObjectModel,
    l: LayoutModel,
    offs: Map<u8, u64>,
    symbol_addrs: Seq<Option<u64>>,
    got: Option<Map<Seq<char>, u64>>,
    text_shift: u64,
    data_shift: u64,
) -> RelocEnv {
    RelocEnv {
        symbols: obj.symbols,
        sect_addrs: sect_addrs(obj.sections, l, offs, true, obj.sections.len()),
        ranges: shift_ranges(l, text_shift, data_shift),
        tls: thread_ranges(l, l.sections.len()),
        symbol_addrs,
        got,
        text_shift,
    }
}

/// Relocating keeps the length of the bytes.
pub proof fn lemma_relocate_from_len(
    env: RelocEnv,
    site: Site,
    relocs: Seq<MachoReloc>,
    i: nat,
    st: RelocState,
)
    ensures
        relocate_from(env, site, relocs, i, st).0.data.len() == st.data.len(),
    decreases relocs.len() - i,
{
    if i < relocs.len() {
        if let Ok(next) = relocate_one(env, site, relocs[i as int], st) {
            lemma_relocate_from_len(env, site, relocs, i + 1, next);
        }
    }
}

/// Applies the relocations of one section.
fn apply_to_section(
    ctx: &RelocContext<'_>,
    name: &str,
    vaddr: u64,
    shift: u64,
    offset: u64,
    relocs: &Vec<MachoReloc>,
    data: &mut Vec<u8>,
    rebases: &mut Vec<u64>,
    binds: &mut Vec<(u64, String, bool, i64)>,
) -> (res: Result<(), String>)
    ensures
        ({
            let (done, error) = relocate_from(
                ctx@,
                Site { name: name@, vaddr, shift, offset },
                relocs@,
                0,
                RelocState {
                    data: old(data)@,
                    addends: Map::empty(),
                    rebases: old(rebases)@,
                    binds: model::views(old(binds)@),
                },
            );
            &&& final(data)@ == done.data && final(rebases)@ == done.rebases
            &&& model::views(final(binds)@) == done.binds
            &&& match error {
                None => res is Ok,
                Some(e) => res is Err && res->Err_0@ == e,
            }
        }),
        final(data)@.len() == old(data)@.len(),
{
    let ghost env = ctx@;
    let ghost site = Site { name: name@, vaddr, shift, offset };
    let mut addends: HashMap<u32, i64> = HashMap::new();
    let ghost first = RelocState {
        data: data@,
        addends: Map::empty(),
        rebases: rebases@,
        binds: model::views(binds@),
    };
    let ghost total = relocate_from(env, site, relocs@, 0, first);
    proof {
        lemma_relocate_from_len(env, site, relocs@, 0, first);
    }
    let mut i: usize = 0;
    while i < relocs.len()
        invariant
            i <= relocs@.len(),
            env == ctx@,
            site == (Site { name: name@, vaddr, shift, offset }),
            total.0.data.len() == old(data)@.len(),
            total == relocate_from(
                env,
                site,
                relocs@,
                0,
                RelocState {
                    data: old(data)@,
                    addends: Map::empty(),
                    rebases: old(rebases)@,
                    binds: model::views(old(binds)@),
                },
            ),
            total == relocate_from(
                env,
                site,
                relocs@,
                i as nat,
                RelocState {
                    data: data@,
                    addends: addends@,
                    rebases: rebases@,
                    binds: model::views(binds@),
                },
            ),
        decreases relocs@.len() - i,
    {
        match apply_one(
            ctx,
            name,
            vaddr,
            shift,
            offset,
            &relocs[i],
            data,
            &mut addends,
            rebases,
            binds,
        ) {
            Ok(_) => {},
            Err(e) => {
                return Err(e);
            },
        }
        i = i + 1;
    }
    Ok(())
}

/// Applies the relocations of the section number `i` of an object.
fn apply_object_section(
    ctx: &RelocContext<'_>,
    obj: &Macho64Object,
    offs: &HashMap<u8, u64>,
    i: usize,
    layout: &mut MergedLayout,
    rebases: &mut Vec<u64>,
    binds: &mut Vec<(u64, String, bool, i64)>,
) -> (res: Result<(), String>)
    requires
        i < obj.sections@.len(),
        link::names_in_range(old(layout)@),
        link::ends_fit(old(layout)@),
        ctx@.ranges.len() == old(layout)@.sections.len(),
    ensures
        apply_outcome(
            res,
            (LinkState {
                layout: final(layout)@,
                rebases: final(rebases)@,
                binds: model::views(final(binds)@),
            }),
            apply_section(
                ctx@,
                obj@,
                offs@,
                i as nat,
                (LinkState {
                    layout: old(layout)@,
                    rebases: old(rebases)@,
                    binds: model::views(old(binds)@),
                }),
            ),
        ),
        link::names_in_range(final(layout)@),
        link::ends_fit(final(layout)@),
        link::layout_ok(old(layout)@) ==> link::layout_ok(final(layout)@),
        final(layout)@.sections.len() == old(layout)@.sections.len(),
{
    let sec = &obj.sections[i];
    assert(obj@.sections[i as int] == sec@);
    assert(i < obj.sections.len());
    if sec.nreloc == 0 {
        return Ok(());
    }
    let merged = merged_section_name_for_lookup(sec.segname.as_str(), sec.sectname.as_str());
    let idx: usize = match layout.section_by_name.get(merged.as_str()) {
        Some(found) => *found,
        None => {
            return Ok(());
        },
    };
    assert(layout@.by_name.dom().contains(merged@));
    assert(layout@.sections[idx as int] == layout.sections@[idx as int]@);
    let name = layout.sections[idx].name.clone();
    let vaddr: u64 = layout.sections[idx].vaddr;
    let relocs = parse_macho_relocs(obj.data.as_slice(), sec.reloff, sec.nreloc);
    let number: u8 = ((i + 1) % 256) as u8;
    let offset: u64 = match offs.get(&number) {
        Some(o) => *o,
        None => 0,
    };
    let mut data = take_section_data(layout, idx);
    let done = apply_to_section(
        ctx,
        name.as_str(),
        vaddr,
        ctx.ranges[idx].2,
        offset,
        &relocs,
        &mut data,
        rebases,
        binds,
    );
    if done.is_ok() && is_thread_vars_section(name.as_str()) {
        finish_descriptors(&mut data);
    }
    proof {
        if link::layout_ok(old(layout)@) {
            link::lemma_with_data_ok(old(layout)@, idx as int, data@);
        }
        link::lemma_with_data_fits(old(layout)@, idx as int, data@);
        link::lemma_with_data_twice(old(layout)@, idx as int, seq![], data@);
    }
    set_section_data(layout, idx, data);
    done
}

/// Applies the relocations of an object to the layout that it was merged into. Where one of them
/// is refused, those in front of it have been applied.
pub fn apply_macho_relocations(
    obj: &Macho64Object,
    layout: &mut MergedLayout,
    symbol_addrs: &Vec<Option<u64>>,
    offs: &HashMap<u8, u64>,
    got: Option<&NameMap<u64>>,
    text_shift: u64,
    data_shift: u64,
    rebases: &mut Vec<u64>,
    binds: &mut Vec<(u64, String, bool, i64)>,
) -> (res: Result<(), String>)
    requires
        link::names_in_range(old(layout)@),
        link::ends_fit(old(layout)@),
    ensures
        apply_outcome(
            res,
            (LinkState {
                layout: final(layout)@,
                rebases: final(rebases)@,
                binds: model::views(final(binds)@),
            }),
            apply_from(
                reloc_env(
                    obj@,
                    old(layout)@,
                    offs@,
                    symbol_addrs@,
                    (match got {
                        Some(m) => Some(m@),
                        None => None,
                    }),
                    text_shift,
                    data_shift,
                ),
                obj@,
                offs@,
                0,
                (LinkState {
                    layout: old(layout)@,
                    rebases: old(rebases)@,
                    binds: model::views(old(binds)@),
                }),
            ),
        ),
        link::names_in_range(final(layout)@),
        link::ends_fit(final(layout)@),
        link::layout_ok(old(layout)@) ==> link::layout_ok(final(layout)@),
{
    let ctx = RelocContext {
        symbols: &obj.symbols,
        sect_addrs: section_addresses(obj, layout, offs, true),
        ranges: section_ranges(layout, text_shift, data_shift),
        tls: tls_ranges(layout),
        symbol_addrs,
        got,
        text_shift,
    };
    let ghost env = ctx@;
    let ghost total = apply_from(
        env,
        obj@,
        offs@,
        0,
        LinkState { layout: layout@, rebases: rebases@, binds: model::views(binds@) },
    );
    let n: usize = obj.sections.len();
    let mut i: usize = 0;
    while i < n
        invariant
            i <= n,
            n == obj.sections@.len(),
            env == ctx@,
            env.ranges.len() == layout@.sections.len(),
            link::names_in_range(layout@),
            link::ends_fit(layout@),
            link::layout_ok(old(layout)@) ==> link::layout_ok(layout@),
            env == reloc_env(
                obj@,
                old(layout)@,
                offs@,
                symbol_addrs@,
                (match got {
                    Some(m) => Some(m@),
                    None => None,
                }),
                text_shift,
                data_shift,
            ),
            total == apply_from(
                env,
                obj@,
                offs@,
                0,
                LinkState {
                    layout: old(layout)@,
                    rebases: old(rebases)@,
                    binds: model::views(old(binds)@),
                },
            ),
            total == apply_from(
                env,
                obj@,
                offs@,
                i as nat,
                LinkState { layout: layout@, rebases: rebases@, binds: model::views(binds@) },
            ),
        decreases n - i,
    {
        match apply_object_section(&ctx, obj, offs, i, layout, rebases, binds) {
            Ok(_) => {},
            Err(e) => {
                return Err(e);
            },
        }
        i = i + 1;
    }
    Ok(())
}

} // verus!

//! Linking Mach-O objects: merging their sections, resolving their symbols and
//! applying their relocations.
use vstd::prelude::*;
use vstd::string::*;
use std::collections::HashMap;
use crate::arch;
use crate::arch::TargetArch;
use crate::bytes;
use crate::bytes::{push_bytes, push_u32, push_zeros_u64, write_u64};
use crate::link;
use crate::link::{
    DynamicLinkInfo, DynamicModel, LayoutModel, LinkModel, LinkResult, MergedLayout, MergedModel,
    MergedSection, empty_layout, push_section, set_section_data, take_section_data,
};
use crate::link::arm64;
use crate::link::arm64::wrapped_difference;
use crate::link::macho_merge;
use crate::link::macho_merge::merge_macho_sections_multi;
use crate::link::macho_reloc;
use crate::link::macho_reloc::{
    LinkState, apply_macho_relocations, runtime_addr_for_layout_addr, section_addresses,
    section_ranges,
};
use crate::link::macho_symbols;
use crate::link::macho_symbols::{
    Globals, GlobalsModel, Imports, ImportsModel, define_object_symbols, import_object_relocs,
    import_object_symbols, resolve_macho_symbols, symbol_addr_by_index,
    symbol_addr_by_index_multi,
};
use crate::macho::{Macho64Object, MachoSection, ObjectModel, SectionModel, parse_macho64_object};
use crate::model;
use crate::names;
use crate::names::{NameList, NameMap, clone_names};
use crate::order;
use crate::order::{add_addr, sorted_binds};
use crate::segment;
use crate::segment::{align_up_u64, checked_align_up};
use crate::text;
use crate::text::{contains_text, join3, split_once_dot, starts_with, str_eq, then_number};

verus! {

/// The address of the first section.
pub const SEG_BASE: u64 = 0x100000000;

/// What the image's header takes in memory.
pub const VM_ADDR_BIAS: u64 = 0x4000;

pub const SECTION_TYPE_MASK: u32 = 0x0000_00ff;

pub const S_ZEROFILL: u32 = 0x1;

pub const S_GB_ZEROFILL: u32 = 0xc;

pub const S_THREAD_LOCAL_ZEROFILL: u32 = 0x12;

pub const N_WEAK_DEF: u16 = 0x0080;

/// The position of a section among the kinds of sections.
pub open spec fn merge_rank(sectname: Seq<char>) -> nat {
    if sectname == "__text"@ {
        0
    } else if sectname == "__cstring"@ || sectname == "__rodata"@ {
        1
    } else if sectname == "__data"@ {
        2
    } else if sectname == "__bss"@ {
        3
    } else {
        4
    }
}

fn macho_section_merge_order(sectname: &str) -> (r: usize)
    ensures
        r == merge_rank(sectname@),
{
    if str_eq(sectname, "__text") {
        0
    } else if str_eq(sectname, "__cstring") || str_eq(sectname, "__rodata") {
        1
    } else if str_eq(sectname, "__data") {
        2
    } else if str_eq(sectname, "__bss") {
        3
    } else {
        4
    }
}

/// Whether a section is taken into the image: not the empty ones, nor those with unwind tables.
pub open spec fn mergeable(sec: SectionModel) -> bool {
    &&& sec.size != 0
    &&& sec.sectname != "__compact_unwind"@
    &&& sec.sectname != "__eh_frame"@
    &&& !text::occurs_in("eh_frame"@, sec.sectname)
    &&& !(text::is_prefix("__"@, sec.sectname) && text::occurs_in("unwind"@, sec.sectname))
}

/// Whether a section becomes part of the image.
pub fn is_mergeable_section(sec: &MachoSection) -> (r: bool)
    ensures
        r == mergeable(sec@),
{
    if sec.size == 0 {
        return false;
    }
    let name = sec.sectname.as_str();
    !(str_eq(name, "__compact_unwind") || str_eq(name, "__eh_frame") || contains_text(
        name,
        "eh_frame",
    ) || starts_with(name, "__") && contains_text(name, "unwind"))
}

/// Whether a section holds zeros that the file does not.
pub open spec fn zerofill(sec: SectionModel) -> bool {
    let kind = sec.flags & SECTION_TYPE_MASK;
    kind == S_ZEROFILL || kind == S_GB_ZEROFILL || kind == S_THREAD_LOCAL_ZEROFILL
}

fn is_zerofill_section(sec: &MachoSection) -> (r: bool)
    ensures
        r == zerofill(sec@),
{
    let kind: u32 = sec.flags & SECTION_TYPE_MASK;
    kind == S_ZEROFILL || kind == S_GB_ZEROFILL || kind == S_THREAD_LOCAL_ZEROFILL
}

/// The bytes of a section: `sec.size` of them, zero where the file holds none.
pub open spec fn section_bytes(data: Seq<u8>, sec: SectionModel) -> Seq<u8> {
    if zerofill(sec) || sec.offset >= data.len() {
        bytes::zeros(sec.size as int)
    } else if sec.size <= data.len() - sec.offset {
        data.subrange(sec.offset as int, sec.offset + sec.size)
    } else {
        data.subrange(sec.offset as int, data.len() as int) + bytes::zeros(
            sec.size - (data.len() - sec.offset),
        )
    }
}

/// A section's bytes are as many as its size says.
pub proof fn lemma_section_bytes_len(data: Seq<u8>, sec: SectionModel)
    ensures
        section_bytes(data, sec).len() == sec.size,
{
}

/// Reads the bytes of a section.
pub fn read_section_data(obj: &Macho64Object, sec: &MachoSection) -> (r: Vec<u8>)
    ensures
        r@ == section_bytes(obj@.data, sec@),
{
    let mut out: Vec<u8> = Vec::new();
    let start: usize = sec.offset as usize;
    if is_zerofill_section(sec) || start >= obj.data.len() {
        push_zeros_u64(&mut out, sec.size);
        assert(out@ =~= bytes::zeros(sec.size as int));
        return out;
    }
    let available: usize = obj.data.len() - start;
    if sec.size <= available as u64 {
        let take: usize = sec.size as usize;
        push_bytes(&mut out, vstd::slice::slice_subrange(obj.data.as_slice(), start, start + take));
        assert(out@ =~= section_bytes(obj@.data, sec@));
    } else {
        push_bytes(
            &mut out,
            vstd::slice::slice_subrange(obj.data.as_slice(), start, obj.data.len()),
        );
        push_zeros_u64(&mut out, sec.size - available as u64);
        assert(out@ =~= section_bytes(obj@.data, sec@));
    }
    out
}

/// Whether a merged section belongs to the data segment.
pub open spec fn is_data_name(name: Seq<char>) -> bool {
    if name == "__got"@ || name == "__data"@ || name == "__bss"@ || name == "__common"@ || name
        == "__thread_bss"@ || name == "__thread_data"@ || name == "__thread_vars"@ {
        true
    } else {
        match text::split_at_first(name, '.') {
            Some((seg, _)) => text::is_prefix("__DATA"@, seg) || text::is_prefix("__AUTH"@, seg),
            None => false,
        }
    }
}

/// Whether a merged section belongs to the data segment.
pub fn is_data_layout_section(name: &str) -> (r: bool)
    ensures
        r == is_data_name(name@),
{
    if str_eq(name, "__got") || str_eq(name, "__data") || str_eq(name, "__bss") || str_eq(
        name,
        "__common",
    ) || str_eq(name, "__thread_bss") || str_eq(name, "__thread_data") || str_eq(
        name,
        "__thread_vars",
    ) {
        return true;
    }
    match split_once_dot(name) {
        Some((seg, _)) => starts_with(seg.as_str(), "__DATA")
            || starts_with(seg.as_str(), "__AUTH"),
        None => false,
    }
}

/// Whether a merged section holds thread-local variable descriptors.
pub open spec fn is_thread_vars(name: Seq<char>) -> bool {
    name == "__DATA.__thread_vars"@ || name == "__DATA_DIRTY.__thread_vars"@
}

/// Whether a section holds the descriptors of thread variables.
pub fn is_thread_vars_section(name: &str) -> (r: bool)
    ensures
        r == is_thread_vars(name@),
{
    str_eq(name, "__DATA.__thread_vars") || str_eq(name, "__DATA_DIRTY.__thread_vars")
}

/// The name under which a section is merged.
pub open spec fn merged_name(segname: Seq<char>, sectname: Seq<char>) -> Seq<char> {
    if sectname == "__text"@ {
        ".text"@
    } else if text::is_prefix("__TEXT"@, segname) || text::is_prefix("__DATA"@, segname)
        || text::is_prefix(
        "__AUTH"@,
        segname,
    ) {
        segname + "."@ + sectname
    } else {
        sectname
    }
}

/// The name under which a section is merged.
pub fn merged_section_name_for_lookup(segname: &str, sectname: &str) -> (r: String)
    ensures
        r@ == merged_name(segname@, sectname@),
{
    if str_eq(sectname, "__text") {
        ".text".to_string()
    } else if starts_with(segname, "__TEXT") || starts_with(segname, "__DATA") || starts_with(
        segname,
        "__AUTH",
    ) {
        join3(segname, ".", sectname)
    } else {
        sectname.to_string()
    }
}

/// The name under which `sec` is merged.
pub open spec fn merged_name_of(sec: SectionModel) -> Seq<char> {
    merged_name(sec.segname, sec.sectname)
}

/// The exponent of a section's alignment.
pub open spec fn align_exponent(sec: SectionModel) -> u64 {
    let a = if sec.align > 0 {
        sec.align as u64
    } else {
        4
    };
    if is_data_name(merged_name_of(sec)) && a < 3 {
        3
    } else {
        a
    }
}

/// The exponent of a section's alignment.
pub fn section_align(sec: &MachoSection, name: &str) -> (r: u64)
    requires
        name@ == merged_name_of(sec@),
    ensures
        r == align_exponent(sec@),
{
    let a: u64 = if sec.align > 0 {
        sec.align as u64
    } else {
        4
    };
    if is_data_layout_section(name) && a < 3 {
        3
    } else {
        a
    }
}

/// `value` rounded up to the power of two with the exponent `exp`, where it fits.
pub open spec fn aligned_to_exponent(value: u64, exp: u64) -> Option<u64> {
    if exp == 0 {
        Some(value)
    } else if exp >= 64 || !segment::align_fits(value, 1u64 << exp) {
        None
    } else {
        Some(segment::aligned(value, 1u64 << exp))
    }
}

/// `value` rounded up to the power of two with the exponent `exp`, where it fits.
pub fn align_exp_up(value: u64, exp: u64) -> (r: Option<u64>)
    ensures
        r == aligned_to_exponent(value, exp),
{
    if exp == 0 {
        return Some(value);
    }
    if exp >= 64 {
        return None;
    }
    checked_align_up(value, 1u64 << exp)
}

/// Rounding up to a power of two never lowers a value.
pub proof fn lemma_aligned_to_exponent(value: u64, exp: u64)
    ensures
        aligned_to_exponent(value, exp) is Some ==> value <= aligned_to_exponent(value, exp)->0,
{
    if exp != 0 && exp < 64 && segment::align_fits(value, 1u64 << exp) {
        segment::law_align_up_bounds(value, 1u64 << exp);
    }
}

/// The flags of a merged section: executable for code.
pub open spec fn section_flags(sectname: Seq<char>) -> u64 {
    if sectname == "__text"@ {
        6
    } else {
        2
    }
}

/// The sections of the rank `k` among the first `n`, in their order.
pub open spec fn ranked(s: Seq<SectionModel>, k: nat, n: nat) -> Seq<SectionModel>
    decreases n,
{
    if n == 0 {
        seq![]
    } else {
        let sec = s[n - 1];
        let before = ranked(s, k, (n - 1) as nat);
        if mergeable(sec) && merge_rank(sec.sectname) == k {
            before.push(sec)
        } else {
            before
        }
    }
}

/// The mergeable sections of the first `k` ranks, by rank and then in their order.
pub open spec fn merge_order(s: Seq<SectionModel>, k: nat) -> Seq<SectionModel>
    decreases k,
{
    if k == 0 {
        seq![]
    } else {
        merge_order(s, (k - 1) as nat) + ranked(s, (k - 1) as nat, s.len())
    }
}

fn collect_in_merge_order<'a>(sections: &'a Vec<MachoSection>) -> (r: Vec<&'a MachoSection>)
    ensures
        model::views(r@) == merge_order(model::views(sections@), 5),
{
    broadcast use model::group_views;
    let mut out: Vec<&'a MachoSection> = Vec::new();
    let n: usize = sections.len();
    let mut k: usize = 0;
    while k < 5
        invariant
            k <= 5,
            n == sections@.len(),
            model::views(out@) == merge_order(model::views(sections@), k as nat),
        decreases 5 - k,
    {
        let mut i: usize = 0;
        assert(model::views(out@) =~= merge_order(model::views(sections@), k as nat) + ranked(
            model::views(sections@),
            k as nat,
            0,
        ));
        while i < n
            invariant
                i <= n,
                n == sections@.len(),
                model::views(out@) == merge_order(model::views(sections@), k as nat) + ranked(
                    model::views(sections@),
                    k as nat,
                    i as nat,
                ),
            decreases n - i,
        {
            broadcast use model::group_views;
            let sec: &'a MachoSection = &sections[i];
            let ghost before = model::views(out@);
            if is_mergeable_section(sec) && macho_section_merge_order(sec.sectname.as_str()) == k {
                out.push(sec);
                assert(model::views(out@) =~= before.push(sec@));
            }
            assert(model::views(sections@)[i as int] == sec@);
            assert(model::views(out@) =~= merge_order(model::views(sections@), k as nat) + ranked(
                model::views(sections@),
                k as nat,
                (i + 1) as nat,
            ));
            i = i + 1;
        }
        k = k + 1;
    }
    out
}

/// A layout that is being filled, with the address at which the next section may start.
pub struct Placing {
    pub layout: LayoutModel,
    pub vaddr: u64,
}

/// `st` with the sections from `i` on placed one behind the other.
pub open spec fn place_sections(
    data: Seq<u8>,
    order: Seq<SectionModel>,
    i: nat,
    st: Placing,
) -> Option<LayoutModel>
    decreases order.len() - i,
{
    if i >= order.len() {
        Some(st.layout)
    } else {
        let sec = order[i as int];
        match aligned_to_exponent(st.vaddr, align_exponent(sec)) {
            None => None,
            Some(vaddr) => if vaddr + sec.size > u64::MAX {
                None
            } else {
                place_sections(
                    data,
                    order,
                    i + 1,
                    Placing {
                        layout: link::with_section(
                            st.layout,
                            MergedModel {
                                name: merged_name_of(sec),
                                data: section_bytes(data, sec),
                                vaddr,
                                flags: section_flags(sec.sectname),
                                align: align_exponent(sec),
                            },
                        ),
                        vaddr: (vaddr + sec.size) as u64,
                    },
                )
            },
        }
    }
}

/// The layout of a single object; none where it does not fit in 64-bit addresses.
pub open spec fn single_layout(obj: ObjectModel) -> Option<LayoutModel> {
    place_sections(
        obj.data,
        merge_order(obj.sections, 5),
        0,
        Placing { layout: link::no_sections(), vaddr: SEG_BASE },
    )
}

/// Whether all sections end at or before `vaddr`.
pub open spec fn ends_before(l: LayoutModel, vaddr: int) -> bool {
    forall|i: int| 0 <= i < l.sections.len()
        ==> link::section_end(#[trigger] l.sections[i]) <= vaddr
}

/// Lays out the sections of a single object.
pub fn merge_macho_sections(obj: &Macho64Object) -> (r: Option<MergedLayout>)
    ensures
        model::view_opt(r) == single_layout(obj@),
        r is Some ==> link::layout_ok(r->0@),
{
    let order = collect_in_merge_order(&obj.sections);
    let mut layout = empty_layout();
    let mut vaddr: u64 = SEG_BASE;
    let mut i: usize = 0;
    while i < order.len()
        invariant
            i <= order@.len(),
            model::views(order@) == merge_order(obj@.sections, 5),
            place_sections(
                obj@.data,
                model::views(order@),
                i as nat,
                Placing { layout: layout@, vaddr },
            ) == single_layout(obj@),
            link::layout_ok(layout@),
            ends_before(layout@, vaddr as int),
        decreases order@.len() - i,
    {
        let sec = order[i];
        assert(model::views(order@)[i as int] == sec@);
        let name = merged_section_name_for_lookup(sec.segname.as_str(), sec.sectname.as_str());
        let align: u64 = section_align(sec, name.as_str());
        proof {
            lemma_aligned_to_exponent(vaddr, align);
        }
        vaddr = match align_exp_up(vaddr, align) {
            Some(v) => v,
            None => {
                return None;
            },
        };
        proof {
            lemma_section_bytes_len(obj@.data, sec@);
        }
        if sec.size > u64::MAX - vaddr {
            return None;
        }
        let data = read_section_data(obj, sec);
        let flags: u64 = if str_eq(sec.sectname.as_str(), "__text") {
            6
        } else {
            2
        };
        let ghost before = layout@;
        push_section(&mut layout, MergedSection { name, data, vaddr, flags, align });
        proof {
            link::lemma_with_section_ok(before, layout@.sections.last());
        }
        vaddr = vaddr + sec.size;
        i = i + 1;
    }
    Some(layout)
}

/// The address of the first section at or after `i` of the data segment, or of the others.
pub open spec fn first_addr(l: LayoutModel, data: bool, i: nat) -> Option<u64>
    decreases l.sections.len() - i,
{
    if i >= l.sections.len() {
        None
    } else if is_data_name(l.sections[i as int].name) == data {
        Some(l.sections[i as int].vaddr)
    } else {
        first_addr(l, data, i + 1)
    }
}

/// The highest end among the first `n` sections outside of the data segment.
pub open spec fn text_end(l: LayoutModel, n: nat) -> int
    decreases n,
{
    if n == 0 {
        SEG_BASE as int
    } else {
        let before = text_end(l, (n - 1) as nat);
        let sec = l.sections[n - 1];
        if !is_data_name(sec.name) && link::section_end(sec) > before {
            link::section_end(sec)
        } else {
            before
        }
    }
}

/// How far the text and the data sections are moved when the image is loaded; none where they
/// would leave the address space. The text moves behind the header, the data behind the text.
pub open spec fn runtime_shifts(l: LayoutModel) -> Option<(u64, u64)> {
    match first_addr(l, true, 0) {
        None => Some((VM_ADDR_BIAS, VM_ADDR_BIAS)),
        Some(data_base) => {
            let text_base = match first_addr(l, false, 0) {
                Some(a) => a,
                None => SEG_BASE,
            };
            let end = text_end(l, l.sections.len());
            let size = if end >= text_base {
                end - text_base
            } else {
                0
            };
            if !segment::align_fits(size as u64, VM_ADDR_BIAS) {
                None
            } else {
                let after = text_base + VM_ADDR_BIAS + segment::aligned(size as u64, VM_ADDR_BIAS);
                if after + VM_ADDR_BIAS > u64::MAX || data_base + VM_ADDR_BIAS > u64::MAX {
                    None
                } else {
                    let lowest = segment::aligned(after as u64, VM_ADDR_BIAS);
                    let vmaddr = if data_base + VM_ADDR_BIAS > lowest {
                        data_base + VM_ADDR_BIAS
                    } else {
                        lowest as int
                    };
                    Some((VM_ADDR_BIAS, (vmaddr - data_base) as u64))
                }
            }
        },
    }
}

/// How far the text and the data sections are moved when the image is loaded.
pub fn compute_runtime_shifts(layout: &MergedLayout) -> (r: Option<(u64, u64)>)
    requires
        link::sections_ascend(layout@),
    ensures
        r == runtime_shifts(layout@),
{
    let mut text_base: Option<u64> = None;
    let mut data_base: Option<u64> = None;
    let mut end: u64 = SEG_BASE;
    let n: usize = layout.sections.len();
    let mut i: usize = 0;
    while i < n
        invariant
            i <= n,
            n == layout.sections@.len(),
            link::sections_ascend(layout@),
            end == text_end(layout@, i as nat),
            first_addr(layout@, true, 0) == if data_base is Some {
                data_base
            } else {
                first_addr(layout@, true, i as nat)
            },
            first_addr(layout@, false, 0) == if text_base is Some {
                text_base
            } else {
                first_addr(layout@, false, i as nat)
            },
        decreases n - i,
    {
        let sec = &layout.sections[i];
        assert(layout@.sections[i as int] == sec@);
        if is_data_layout_section(sec.name.as_str()) {
            if data_base.is_none() {
                data_base = Some(sec.vaddr);
            }
        } else {
            if text_base.is_none() {
                text_base = Some(sec.vaddr);
            }
            let sec_end: u64 = sec.vaddr + sec.data.len() as u64;
            if sec_end > end {
                end = sec_end;
            }
        }
        i = i + 1;
    }
    let data_base: u64 = match data_base {
        Some(a) => a,
        None => {
            return Some((VM_ADDR_BIAS, VM_ADDR_BIAS));
        },
    };
    let text_base: u64 = match text_base {
        Some(a) => a,
        None => SEG_BASE,
    };
    let size: u64 = if end >= text_base {
        end - text_base
    } else {
        0
    };
    let size_aligned: u64 = match checked_align_up(size, VM_ADDR_BIAS) {
        Some(v) => v,
        None => {
            return None;
        },
    };
    if data_base > u64::MAX - VM_ADDR_BIAS || text_base > u64::MAX - VM_ADDR_BIAS {
        return None;
    }
    if size_aligned > u64::MAX - (text_base + VM_ADDR_BIAS) {
        return None;
    }
    let lowest: u64 = match checked_align_up(text_base + VM_ADDR_BIAS + size_aligned,
        VM_ADDR_BIAS) {
        Some(v) => v,
        None => {
            return None;
        },
    };
    let vmaddr: u64 = if data_base + VM_ADDR_BIAS > lowest {
        data_base + VM_ADDR_BIAS
    } else {
        lowest
    };
    Some((VM_ADDR_BIAS, vmaddr - data_base))
}

/// The bytes of one stub at `stub`: it jumps to the address that the slot at `slot` holds.
pub open spec fn stub_code(stub: u64, slot: u64) -> Seq<u8> {
    bytes::le32(arm64::with_page_distance(0x90000010, slot / 4096 - stub / 4096)) + bytes::le32(
        0xF9400210u32 | (((((slot & 0xFFF) as u32) >> 3) & 0x0fff) << 10),
    ) + bytes::le32(0xD61F0200)
}

/// Where the slots stand that the stubs from `start` on jump through.
pub open spec fn stub_slots_addr(start: u64, n: nat) -> u64 {
    segment::aligned((start + n * 12 + 36) as u64, 0x8000)
}

/// Whether `n` stubs from `start` on, and their slots, have addresses.
pub open spec fn stubs_fit(start: u64, n: nat) -> bool {
    start + n * 12 + 36 + 0x8000 <= u64::MAX
}

/// The first `k` of `n` stubs from `start` on.
pub open spec fn stub_bytes(start: u64, n: nat, text_shift: u64, data_shift: u64, k: nat) -> Seq<u8>
    decreases k,
{
    if k == 0 {
        seq![]
    } else {
        let i = (k - 1) as nat;
        stub_bytes(start, n, text_shift, data_shift, i) + stub_code(
            ((start + i * 12) as u64).wrapping_add(text_shift),
            stub_slots_addr(start, n).wrapping_add((i * 8) as u64).wrapping_add(data_shift),
        )
    }
}

/// The code that the stubs share.
pub open spec fn stub_helper_bytes() -> Seq<u8> {
    bytes::le32(0x90000011) + bytes::le32(0x91002231) + bytes::le32(0xA9BF46F0)
        + bytes::le32(0x90000010) + bytes::le32(0xF9400210)
        + bytes::le32(0xD61F0200)
}

/// A stub takes twelve bytes.
pub proof fn lemma_stub_bytes_len(start: u64, n: nat, text_shift: u64, data_shift: u64, k: nat)
    ensures
        stub_bytes(start, n, text_shift, data_shift, k).len() == k * 12,
    decreases k,
{
    broadcast use bytes::group_le_len;
    if k > 0 {
        lemma_stub_bytes_len(start, n, text_shift, data_shift, (k - 1) as nat);
    }
}

fn build_stubs(count: usize, start: u64, text_shift: u64, data_shift: u64) -> (r: Option<Vec<u8>>)
    ensures
        r is Some <==> stubs_fit(start, count as nat),
        r is Some ==> r->0@ == stub_bytes(
            start,
            count as nat,
            text_shift,
            data_shift,
            count as nat,
        ),
{
    let n: u64 = count as u64;
    if n > (u64::MAX - 0x8024) / 12 || n * 12 + 0x8024 > u64::MAX - start {
        return None;
    }
    let slots: u64 = align_up_u64(start + n * 12 + 36, 0x8000);
    let mut out: Vec<u8> = Vec::new();
    let mut i: u64 = 0;
    while i < n
        invariant
            i <= n,
            n == count,
            start + n * 12 + 36 + 0x8000 <= u64::MAX,
            slots == stub_slots_addr(start, n as nat),
            out@ == stub_bytes(start, n as nat, text_shift, data_shift, i as nat),
        decreases n - i,
    {
        let stub: u64 = (start + i * 12).wrapping_add(text_shift);
        let slot: u64 = slots.wrapping_add(i * 8).wrapping_add(data_shift);
        let distance: u32 = wrapped_difference(slot / 4096, stub / 4096, 0x20_0000);
        let ghost before = out@;
        push_u32(
            &mut out,
            (0x90000010u32 & 0x9F00001F) | ((distance & 0x3) << 29) | (((distance >> 2) & 0x7ffff)
                << 5),
        );
        push_u32(&mut out, 0xF9400210u32 | (((((slot & 0xFFF) as u32) >> 3) & 0x0fff) << 10));
        push_u32(&mut out, 0xD61F0200u32);
        assert(out@ =~= before + stub_code(stub, slot));
        i = i + 1;
    }
    Some(out)
}

fn build_stub_helper() -> (r: Vec<u8>)
    ensures
        r@ == stub_helper_bytes(),
{
    let mut out: Vec<u8> = Vec::new();
    push_u32(&mut out, 0x90000011u32);
    push_u32(&mut out, 0x91002231u32);
    push_u32(&mut out, 0xA9BF46F0u32);
    push_u32(&mut out, 0x90000010u32);
    push_u32(&mut out, 0xF9400210u32);
    push_u32(&mut out, 0xD61F0200u32);
    assert(out@ =~= stub_helper_bytes());
    out
}

/// What linking a single object gives.
pub open spec fn single_link(data: Seq<u8>) -> Result<LinkModel, Seq<char>> {
    match crate::macho::object_of(data) {
        Err(e) => Err(e),
        Ok(obj) => match arch::arch_of_cputype(obj.header.cputype) {
            None => Err("unsupported Mach-O cputype "@ + text::decimal(obj.header.cputype as nat)),
            Some(arch) => match single_layout(obj) {
                None => Err(link::layout_too_large()),
                Some(l) => {
                    let addrs = macho_reloc::sect_addrs(obj.sections, l, Map::empty(), true,
                        obj.sections.len());
                    let names = macho_symbols::own_symbols(obj, addrs, obj.symbols.len());
                    let (done, error) = macho_reloc::apply_from(
                        macho_reloc::reloc_env(
                            obj,
                            l,
                            Map::empty(),
                            macho_symbols::single_symbol_addrs(obj, addrs, names),
                            None,
                            VM_ADDR_BIAS,
                            VM_ADDR_BIAS,
                        ),
                        obj,
                        Map::empty(),
                        0,
                        LinkState { layout: l, rebases: seq![], binds: seq![] },
                    );
                    match error {
                        Some(e) => Err(e),
                        None => Ok(
                            LinkModel {
                                layout: done.layout,
                                e_machine: arch::elf_machine(arch),
                                symbol_addrs: names,
                                dynamic: None,
                            },
                        ),
                    }
                },
            },
        },
    }
}

/// Links a single object, without libraries.
pub fn link_macho_single_object(data: &[u8]) -> (r: Result<LinkResult, String>)
    ensures
        model::outcome(r) == single_link(data@),
        r is Ok ==> link::layout_ok(r->Ok_0.layout@),
{
    broadcast use vstd::std_specs::hash::group_hash_axioms;
    broadcast use model::group_views;
    let obj = match parse_macho64_object(data) {
        Ok(o) => o,
        Err(e) => {
            return Err(e);
        },
    };
    let arch = match TargetArch::from_macho_cputype(obj.header.cputype) {
        Some(a) => a,
        None => {
            return Err(then_number("unsupported Mach-O cputype ", obj.header.cputype as u64));
        },
    };
    let mut layout = match merge_macho_sections(&obj) {
        Some(l) => l,
        None => {
            return Err("layout exceeds the address space".to_string());
        },
    };
    let offs: HashMap<u8, u64> = HashMap::new();
    let addrs = section_addresses(&obj, &layout, &offs, true);
    let symbol_addrs = resolve_macho_symbols(&obj, &addrs);
    let by_index = symbol_addr_by_index(&obj, &addrs, &symbol_addrs);
    let mut rebases: Vec<u64> = Vec::new();
    let mut binds: Vec<(u64, String, bool, i64)> = Vec::new();
    match apply_macho_relocations(
        &obj,
        &mut layout,
        &by_index,
        &offs,
        None,
        VM_ADDR_BIAS,
        VM_ADDR_BIAS,
        &mut rebases,
        &mut binds,
    ) {
        Ok(_) => {},
        Err(e) => {
            return Err(e);
        },
    }
    Ok(LinkResult { layout, e_machine: arch.to_elf_machine(), symbol_addrs, dynamic: None })
}

/// `found`, followed by the objects in the files from `i` on.
pub open spec fn objects_from(datas: Seq<Seq<u8>>, i: nat, found: Seq<ObjectModel>) -> Result<
    Seq<ObjectModel>,
    Seq<char>,
>
    decreases datas.len() - i,
{
    if i >= datas.len() {
        Ok(found)
    } else {
        match crate::macho::object_of(datas[i as int]) {
            Ok(obj) => objects_from(datas, i + 1, found.push(obj)),
            Err(e) => Err(e),
        }
    }
}

fn parse_objects(datas: &[&[u8]]) -> (r: Result<Vec<Macho64Object>, String>)
    ensures
        match r {
            Ok(v) => objects_from(model::contents(datas@), 0, seq![]) == Ok::<
                Seq<ObjectModel>,
                Seq<char>,
            >(model::views(v@)) && v@.len() == datas@.len(),
            Err(e) => objects_from(model::contents(datas@), 0, seq![]) == Err::<
                Seq<ObjectModel>,
                Seq<char>,
            >(e@),
        },
{
    broadcast use model::group_views;
    let mut out: Vec<Macho64Object> = Vec::new();
    let mut i: usize = 0;
    while i < datas.len()
        invariant
            i <= datas@.len(),
            out@.len() == i,
            objects_from(model::contents(datas@), i as nat, model::views(out@)) == objects_from(
                model::contents(datas@),
                0,
                seq![],
            ),
        decreases datas@.len() - i,
    {
        broadcast use model::group_views;
        assert(model::contents(datas@)[i as int] == datas@[i as int]@);
        match parse_macho64_object(datas[i]) {
            Ok(obj) => {
                out.push(obj);
            },
            Err(e) => {
                return Err(e);
            },
        }
        i = i + 1;
    }
    Ok(out)
}

/// The addresses of the sections of the object `o` that have been merged.
pub open spec fn object_sect_addrs(
    objects: Seq<ObjectModel>,
    l: LayoutModel,
    offs: Seq<Map<u8, u64>>,
    o: nat,
) -> Map<u8, u64> {
    macho_reloc::sect_addrs(
        objects[o as int].sections,
        l,
        offs[o as int],
        false,
        objects[o as int].sections.len(),
    )
}

/// `g` with the external definitions of the objects from `o` on.
pub open spec fn globals_from(
    objects: Seq<ObjectModel>,
    l: LayoutModel,
    offs: Seq<Map<u8, u64>>,
    o: nat,
    g: GlobalsModel,
) -> GlobalsModel
    decreases objects.len() - o,
{
    if o >= objects.len() {
        g
    } else {
        globals_from(
            objects,
            l,
            offs,
            o + 1,
            macho_symbols::define_from(objects[o as int], object_sect_addrs(objects, l, offs, o),
                0, g),
        )
    }
}

fn define_globals(
    objects: &Vec<Macho64Object>,
    layout: &MergedLayout,
    offs: &Vec<HashMap<u8, u64>>,
) -> (r: NameMap<u64>)
    requires
        link::names_in_range(layout@),
        offs@.len() == objects@.len(),
    ensures
        r@ == globals_from(
            model::views(objects@),
            layout@,
            macho_merge::offset_maps(offs@),
            0,
            (GlobalsModel { addrs: Map::empty(), weak: Map::empty() }),
        ).addrs,
{
    let mut g = Globals { addrs: NameMap::new(), weak: NameMap::new() };
    let ghost first = g@;
    let ghost models = model::views(objects@);
    let ghost maps = macho_merge::offset_maps(offs@);
    let mut o: usize = 0;
    while o < objects.len()
        invariant
            o <= objects@.len(),
            offs@.len() == objects@.len(),
            link::names_in_range(layout@),
            models == model::views(objects@),
            maps == macho_merge::offset_maps(offs@),
            globals_from(models, layout@, maps, o as nat, g@) == globals_from(
                models,
                layout@,
                maps,
                0,
                first,
            ),
        decreases objects@.len() - o,
    {
        let obj = &objects[o];
        assert(models[o as int] == obj@);
        assert(maps[o as int] == offs@[o as int]@);
        let addrs = section_addresses(obj, layout, &offs[o], false);
        define_object_symbols(obj, &addrs, &mut g);
        o = o + 1;
    }
    g.addrs
}

/// `m` with the undefined external symbols of the objects from `o` on.
pub open spec fn import_all_symbols(
    objects: Seq<ObjectModel>,
    names: Map<Seq<char>, u64>,
    o: nat,
    m: ImportsModel,
) -> ImportsModel
    decreases objects.len() - o,
{
    if o >= objects.len() {
        m
    } else {
        import_all_symbols(
            objects,
            names,
            o + 1,
            macho_symbols::import_symbols_from(names, objects[o as int], 0, m),
        )
    }
}

/// `m` with what the relocations of the objects from `o` on import.
pub open spec fn import_all_relocs(
    objects: Seq<ObjectModel>,
    names: Map<Seq<char>, u64>,
    o: nat,
    m: ImportsModel,
) -> ImportsModel
    decreases objects.len() - o,
{
    if o >= objects.len() {
        m
    } else {
        import_all_relocs(
            objects,
            names,
            o + 1,
            macho_symbols::import_sections_from(names, objects[o as int], 0, m),
        )
    }
}

/// `s` with the names of `more` from `i` on.
pub open spec fn add_names(s: Seq<Seq<char>>, more: Seq<Seq<char>>, i: nat) -> Seq<Seq<char>>
    decreases more.len() - i,
{
    if i >= more.len() {
        s
    } else {
        add_names(names::add_name(s, more[i as int]), more, i + 1)
    }
}

/// The names that the objects import. Each undefined one has a slot in the global offset table,
/// before the others that need one. Only AArch64 images import anything.
pub open spec fn imports_of(
    objects: Seq<ObjectModel>,
    names: Map<Seq<char>, u64>,
    arch: TargetArch,
) -> ImportsModel {
    let none = ImportsModel { undefined: seq![], weak: seq![], got: seq![] };
    if arch != TargetArch::AArch64 {
        none
    } else {
        let m = import_all_relocs(
            objects,
            names,
            0,
            import_all_symbols(objects, names, 0, none),
        );
        ImportsModel { got: add_names(m.undefined, m.got, 0), ..m }
    }
}

fn add_all_names(list: &mut NameList, more: &Vec<String>)
    ensures
        final(list)@ == add_names(old(list)@, model::views(more@), 0),
{
    let mut i: usize = 0;
    while i < more.len()
        invariant
            i <= more@.len(),
            add_names(list@, model::views(more@), i as nat)
                == add_names(old(list)@, model::views(more@), 0),
        decreases more@.len() - i,
    {
        assert(model::views(more@)[i as int] == more@[i as int]@);
        list.insert(more[i].clone());
        i = i + 1;
    }
}

/// Adding names that are all new gives them in their order.
proof fn lemma_add_new_names(s: Seq<Seq<char>>, i: nat)
    requires
        s.no_duplicates(),
        i <= s.len(),
    ensures
        add_names(s.subrange(0, i as int), s, i) == s,
    decreases s.len() - i,
{
    if i < s.len() {
        let head = s.subrange(0, i as int);
        assert(!head.contains(s[i as int])) by {
            if head.contains(s[i as int]) {
                let k = head.index_of(s[i as int]);
                assert(s[k] == s[i as int]);
            }
        }
        assert(head.push(s[i as int]) =~= s.subrange(0, (i + 1) as int));
        lemma_add_new_names(s, i + 1);
    } else {
        assert(s.subrange(0, i as int) =~= s);
    }
}

fn collect_imports(
    objects: &Vec<Macho64Object>,
    names: &NameMap<u64>,
    arch: TargetArch,
) -> (r: Imports)
    ensures
        r@ == imports_of(model::views(objects@), names@, arch),
{
    let mut m = Imports {
        undefined: NameList::new(),
        weak: NameList::new(),
        got: NameList::new(),
    };
    if !matches!(arch, TargetArch::AArch64) {
        return m;
    }
    let ghost models = model::views(objects@);
    let ghost none = m@;
    let mut o: usize = 0;
    while o < objects.len()
        invariant
            o <= objects@.len(),
            models == model::views(objects@),
            import_all_symbols(models, names@, o as nat, m@) == import_all_symbols(
                models,
                names@,
                0,
                none,
            ),
        decreases objects@.len() - o,
    {
        assert(models[o as int] == objects@[o as int]@);
        import_object_symbols(names, &objects[o], &mut m);
        o = o + 1;
    }
    let ghost second = m@;
    let mut p: usize = 0;
    while p < objects.len()
        invariant
            p <= objects@.len(),
            models == model::views(objects@),
            import_all_relocs(models, names@, p as nat, m@) == import_all_relocs(
                models,
                names@,
                0,
                second,
            ),
        decreases objects@.len() - p,
    {
        assert(models[p as int] == objects@[p as int]@);
        import_object_relocs(names, &objects[p], &mut m);
        p = p + 1;
    }
    let ghost third = m@;
    let mut got = NameList::new();
    add_all_names(&mut got, m.undefined.names());
    proof {
        lemma_add_new_names(m.undefined@, 0);
        assert(m.undefined@.subrange(0, 0) =~= Seq::<Seq<char>>::empty());
    }
    add_all_names(&mut got, m.got.names());
    Imports { undefined: m.undefined, weak: m.weak, got }
}

/// A section of the linker's own.
pub open spec fn own_section(
    name: Seq<char>,
    data: Seq<u8>,
    vaddr: u64,
    flags: u64,
    align: u64,
) -> MergedModel {
    MergedModel { name, data, vaddr, flags, align }
}

/// Where the stubs of a layout start: behind its last section.
pub open spec fn stubs_start(l: LayoutModel) -> u64 {
    segment::aligned(link::section_end(l.sections.last()) as u64, 16)
}

/// Where the global offset table stands: behind `n` stubs and the code that they share.
pub open spec fn got_start(start: u64, n: nat) -> u64 {
    segment::aligned((start + n * 12 + 24) as u64, 0x8000)
}

/// `l` with the stubs, the code that they share and the global offset table.
pub open spec fn with_stubs(l: LayoutModel, m: ImportsModel) -> Result<LayoutModel, Seq<char>> {
    let n = m.undefined.len();
    if m.got.len() == 0 {
        Ok(l)
    } else if l.sections.len() == 0 {
        Err("no sections"@)
    } else if !segment::align_fits(link::section_end(l.sections.last()) as u64, 16)
        || !stubs_fit(stubs_start(l), n)
        || got_start(stubs_start(l), n) + m.got.len() * 8 > u64::MAX {
        Err(link::layout_too_large())
    } else {
        let start = stubs_start(l);
        let stubs = stub_bytes(start, n, VM_ADDR_BIAS, VM_ADDR_BIAS, n);
        let one = link::with_section(l, own_section("__stubs"@, stubs, start, 6, 4));
        let two = link::with_section(
            one,
            own_section("__stub_helper"@, stub_helper_bytes(), (start + n * 12) as u64, 6, 4),
        );
        Ok(
            link::with_section(
                two,
                own_section("__got"@, bytes::zeros((m.got.len() * 8) as int), got_start(start, n),
                    2, 8),
            ),
        )
    }
}

/// `names` with the undefined names from `i` on at their stubs.
pub open spec fn stub_names(
    names: Map<Seq<char>, u64>,
    undefined: Seq<Seq<char>>,
    start: u64,
    i: nat,
) -> Map<Seq<char>, u64>
    decreases undefined.len() - i,
{
    if i >= undefined.len() {
        names
    } else {
        stub_names(
            names.insert(undefined[i as int], (start + i * 12) as u64),
            undefined,
            start,
            i + 1,
        )
    }
}

/// The external symbols with the undefined ones at their stubs.
pub open spec fn names_with_stubs(
    l: LayoutModel,
    m: ImportsModel,
    names: Map<Seq<char>, u64>,
) -> Map<Seq<char>, u64> {
    if m.got.len() == 0 {
        names
    } else {
        stub_names(names, m.undefined, stubs_start(l), 0)
    }
}

/// Whether the stubs section, where there is one, has room for `n` stubs.
pub open spec fn stubs_have_room(l: LayoutModel, n: nat) -> bool {
    l.by_name.dom().contains("__stubs"@) ==> l.sections[l.by_name["__stubs"@] as int].data.len()
        >= n * 12
}

fn add_stubs(layout: &mut MergedLayout, m: &Imports, names: &mut NameMap<u64>) -> (r: Result<
    (),
    String,
>)
    requires
        link::layout_ok(old(layout)@),
        m@.undefined.len() <= m@.got.len(),
    ensures
        match with_stubs(old(layout)@, m@) {
            Ok(l) => r is Ok && final(layout)@ == l && link::layout_ok(l) && stubs_have_room(
                l,
                m@.undefined.len(),
            ) && final(names)@ == names_with_stubs(old(layout)@, m@, old(names)@),
            Err(e) => r is Err && r->Err_0@ == e,
        },
{
    if m.got.len() == 0 {
        return Ok(());
    }
    let count: usize = layout.sections.len();
    if count == 0 {
        return Err("no sections".to_string());
    }
    let ghost l0 = layout@;
    assert(l0.sections.last() == layout.sections@[count - 1]@);
    assert(l0.sections.len() == count);
    let end: u64 = layout.sections[count - 1].vaddr + layout.sections[count - 1].data.len() as u64;
    let start: u64 = match checked_align_up(end, 16) {
        Some(v) => v,
        None => {
            return Err("layout exceeds the address space".to_string());
        },
    };
    let n: usize = m.undefined.len();
    let stubs = match build_stubs(n, start, VM_ADDR_BIAS, VM_ADDR_BIAS) {
        Some(b) => b,
        None => {
            return Err("layout exceeds the address space".to_string());
        },
    };
    let helper_addr: u64 = start + n as u64 * 12;
    let got_addr: u64 = align_up_u64(helper_addr + 24, 0x8000);
    let slots: u64 = m.got.len() as u64;
    if slots > (u64::MAX - got_addr) / 8 {
        assert(got_addr + slots * 8 > u64::MAX);
        return Err("layout exceeds the address space".to_string());
    }
    let mut got: Vec<u8> = Vec::new();
    push_zeros_u64(&mut got, slots * 8);
    assert(got@ =~= bytes::zeros((m@.got.len() * 8) as int));
    proof {
        segment::law_align_up_bounds(end, 16);
        segment::law_align_up_bounds((helper_addr + 24) as u64, 0x8000);
        lemma_stub_bytes_len(start, n as nat, VM_ADDR_BIAS, VM_ADDR_BIAS, n as nat);
        reveal_strlit("__stubs");
        reveal_strlit("__stub_helper");
        reveal_strlit("__got");
    }
    let helper = build_stub_helper();
    assert(helper@.len() == 24) by {
        broadcast use bytes::group_le_len;
    }
    push_section(
        layout,
        MergedSection { name: "__stubs".to_string(), data: stubs, vaddr: start, flags: 6,
            align: 4 },
    );
    let ghost l1 = layout@;
    proof {
        assert forall|i: int| 0 <= i < l0.sections.len() implies link::section_end(
            #[trigger] l0.sections[i],
        ) <= start by {
            if i < l0.sections.len() - 1 {
                assert(link::section_end(l0.sections[i]) <= l0.sections[l0.sections.len() - 1].vaddr);
            }
        }
        link::lemma_with_section_ok(l0, l1.sections.last());
    }
    push_section(
        layout,
        MergedSection {
            name: "__stub_helper".to_string(),
            data: helper,
            vaddr: helper_addr,
            flags: 6,
            align: 4,
        },
    );
    let ghost l2 = layout@;
    proof {
        link::lemma_with_section_ok(l1, l2.sections.last());
    }
    push_section(
        layout,
        MergedSection { name: "__got".to_string(), data: got, vaddr: got_addr, flags: 2, align: 8 },
    );
    proof {
        link::lemma_with_section_ok(l2, layout@.sections.last());
        assert("__stubs"@.len() == 7 && "__stub_helper"@.len() == 13 && "__got"@.len() == 5);
        assert(layout@.by_name["__stubs"@] == l0.sections.len());
        assert(layout@.sections[l0.sections.len() as int] == l1.sections.last());
    }
    let undefined = m.undefined.names();
    let ghost names0 = names@;
    let mut i: usize = 0;
    while i < n
        invariant
            i <= n,
            n == undefined@.len(),
            model::views(undefined@) == m@.undefined,
            start + n * 12 <= u64::MAX,
            stub_names(names@, m@.undefined, start, i as nat) == stub_names(
                names0,
                m@.undefined,
                start,
                0,
            ),
        decreases n - i,
    {
        assert(m@.undefined[i as int] == undefined@[i as int]@);
        names.insert(undefined[i].clone(), start + i as u64 * 12);
        i = i + 1;
    }
    Ok(())
}

/// `l` with stubs that fit how the image is loaded.
pub open spec fn with_final_stubs(
    l: LayoutModel,
    n: nat,
    text_shift: u64,
    data_shift: u64,
) -> Option<LayoutModel> {
    if !l.by_name.dom().contains("__stubs"@) {
        Some(l)
    } else {
        let idx = l.by_name["__stubs"@] as int;
        let start = l.sections[idx].vaddr;
        if stubs_fit(start, n) {
            Some(link::with_data(l, idx, stub_bytes(start, n, text_shift, data_shift, n)))
        } else {
            None
        }
    }
}

fn finish_stubs(layout: &mut MergedLayout, n: usize, text_shift: u64, data_shift: u64) -> (r: bool)
    requires
        link::layout_ok(old(layout)@),
        stubs_have_room(old(layout)@, n as nat),
    ensures
        match with_final_stubs(old(layout)@, n as nat, text_shift, data_shift) {
            Some(l) => r && final(layout)@ == l && link::layout_ok(l),
            None => !r,
        },
{
    let idx: usize = match layout.section_by_name.get("__stubs") {
        Some(i) => *i,
        None => {
            return true;
        },
    };
    assert(layout@.by_name.dom().contains("__stubs"@));
    assert(layout@.sections[idx as int] == layout.sections@[idx as int]@);
    let start: u64 = layout.sections[idx].vaddr;
    match build_stubs(n, start, text_shift, data_shift) {
        Some(stubs) => {
            proof {
                lemma_stub_bytes_len(start, n as nat, text_shift, data_shift, n as nat);
                link::lemma_with_data_ok(layout@, idx as int, stubs@);
            }
            set_section_data(layout, idx, stubs);
            true
        },
        None => false,
    }
}

/// `data` with the slots from `i` on of names that the image itself defines.
pub open spec fn filled_slots(
    data: Seq<u8>,
    m: ImportsModel,
    names: Map<Seq<char>, u64>,
    ranges: Seq<(u64, u64, u64)>,
    text_shift: u64,
    i: nat,
) -> Seq<u8>
    decreases m.got.len() - i,
{
    if i >= m.got.len() {
        data
    } else {
        let name = m.got[i as int];
        let next = if !m.undefined.contains(name) && names.dom().contains(name) && i * 8 + 8
            <= data.len() {
            bytes::patch(data, (i * 8) as int,
                bytes::le64(macho_reloc::runtime_addr(ranges, text_shift, names[name], 0)))
        } else {
            data
        };
        filled_slots(next, m, names, ranges, text_shift, i + 1)
    }
}

/// `rebases` with the addresses of the slots from `i` on.
pub open spec fn slot_rebases(rebases: Seq<u64>, base: u64, n: nat, i: nat) -> Seq<u64>
    decreases n - i,
{
    if i >= n {
        rebases
    } else {
        slot_rebases(order::insert_addr(rebases, base.wrapping_add((i as u64).wrapping_mul(8))),
            base, n, i + 1)
    }
}

/// `slots` with the addresses of the slots from `i` on.
pub open spec fn slot_addrs(
    slots: Map<Seq<char>, u64>,
    got: Seq<Seq<char>>,
    base: u64,
    i: nat,
) -> Map<Seq<char>, u64>
    decreases got.len() - i,
{
    if i >= got.len() {
        slots
    } else {
        slot_addrs(
            slots.insert(got[i as int], base.wrapping_add((i as u64).wrapping_mul(8))),
            got,
            base,
            i + 1,
        )
    }
}

/// A layout with its global offset table filled, the addresses in it that move with the image,
/// and the address of each slot.
pub struct WithSlots {
    pub layout: LayoutModel,
    pub rebases: Seq<u64>,
    pub slots: Map<Seq<char>, u64>,
}

/// `l` with its global offset table filled.
pub open spec fn with_slots(
    l: LayoutModel,
    m: ImportsModel,
    names: Map<Seq<char>, u64>,
    text_shift: u64,
    data_shift: u64,
) -> WithSlots {
    if !l.by_name.dom().contains("__got"@) {
        WithSlots { layout: l, rebases: seq![], slots: Map::empty() }
    } else {
        let idx = l.by_name["__got"@] as int;
        let base = l.sections[idx].vaddr;
        let ranges = macho_reloc::shift_ranges(l, text_shift, data_shift);
        WithSlots {
            layout: link::with_data(
                l,
                idx,
                filled_slots(l.sections[idx].data, m, names, ranges, text_shift, 0),
            ),
            rebases: slot_rebases(seq![], base, m.got.len(), 0),
            slots: slot_addrs(Map::empty(), m.got, base, 0),
        }
    }
}

fn fill_slots(
    layout: &mut MergedLayout,
    m: &Imports,
    names: &NameMap<u64>,
    text_shift: u64,
    data_shift: u64,
) -> (r: (Vec<u64>, NameMap<u64>))
    requires
        link::layout_ok(old(layout)@),
    ensures
        link::layout_ok(final(layout)@),
        with_slots(old(layout)@, m@, names@, text_shift, data_shift) == (WithSlots {
            layout: final(layout)@,
            rebases: r.0@,
            slots: r.1@,
        }),
{
    let ranges = section_ranges(layout, text_shift, data_shift);
    let mut rebases: Vec<u64> = Vec::new();
    let mut slots: NameMap<u64> = NameMap::new();
    let idx: usize = match layout.section_by_name.get("__got") {
        Some(i) => *i,
        None => {
            return (rebases, slots);
        },
    };
    assert(layout@.by_name.dom().contains("__got"@));
    assert(layout@.sections[idx as int] == layout.sections@[idx as int]@);
    let base: u64 = layout.sections[idx].vaddr;
    let got = m.got.names();
    let n: usize = got.len();
    let mut data = take_section_data(layout, idx);
    let ghost before = data@;
    let mut i: usize = 0;
    while i < n
        invariant
            i <= n,
            n == got@.len(),
            model::views(got@) == m@.got,
            data@.len() == before.len(),
            slot_rebases(rebases@, base, n as nat, i as nat) == slot_rebases(
                seq![],
                base,
                n as nat,
                0,
            ),
            slot_addrs(slots@, m@.got, base, i as nat) == slot_addrs(Map::empty(), m@.got, base, 0),
            filled_slots(data@, m@, names@, ranges@, text_shift, i as nat) == filled_slots(
                before,
                m@,
                names@,
                ranges@,
                text_shift,
                0,
            ),
        decreases n - i,
    {
        assert(m@.got[i as int] == got@[i as int]@);
        let slot: u64 = base.wrapping_add((i as u64).wrapping_mul(8));
        add_addr(&mut rebases, slot);
        slots.insert(got[i].clone(), slot);
        if !m.undefined.contains(got[i].as_str()) {
            if let Some(addr) = names.get(got[i].as_str()) {
                if i < data.len() / 8 {
                    let value: u64 = runtime_addr_for_layout_addr(&ranges, text_shift, *addr);
                    write_u64(&mut data, i * 8, value);
                }
            }
        }
        i = i + 1;
    }
    proof {
        link::lemma_with_data_ok(old(layout)@, idx as int, data@);
        link::lemma_with_data_twice(old(layout)@, idx as int, seq![], data@);
    }
    set_section_data(layout, idx, data);
    (rebases, slots)
}

/// The state after the relocations of the objects from `o` on.
pub open spec fn apply_objects(
    objects: Seq<ObjectModel>,
    offs: Seq<Map<u8, u64>>,
    names: Map<Seq<char>, u64>,
    slots: Map<Seq<char>, u64>,
    text_shift: u64,
    data_shift: u64,
    o: nat,
    st: LinkState,
) -> Result<LinkState, Seq<char>>
    decreases objects.len() - o,
{
    if o >= objects.len() {
        Ok(st)
    } else {
        let obj = objects[o as int];
        let addrs = object_sect_addrs(objects, st.layout, offs, o);
        let (next, error) = macho_reloc::apply_from(
            macho_reloc::reloc_env(
                obj,
                st.layout,
                offs[o as int],
                macho_symbols::multi_symbol_addrs(obj, addrs, names),
                Some(slots),
                text_shift,
                data_shift,
            ),
            obj,
            offs[o as int],
            0,
            st,
        );
        match error {
            None => apply_objects(
                objects,
                offs,
                names,
                slots,
                text_shift,
                data_shift,
                o + 1,
                next,
            ),
            Some(e) => Err(e),
        }
    }
}

fn apply_all(
    objects: &Vec<Macho64Object>,
    layout: &mut MergedLayout,
    offs: &Vec<HashMap<u8, u64>>,
    names: &NameMap<u64>,
    slots: &NameMap<u64>,
    text_shift: u64,
    data_shift: u64,
    rebases: &mut Vec<u64>,
    binds: &mut Vec<(u64, String, bool, i64)>,
) -> (r: Result<(), String>)
    requires
        link::layout_ok(old(layout)@),
        offs@.len() == objects@.len(),
    ensures
        match apply_objects(
            model::views(objects@),
            macho_merge::offset_maps(offs@),
            names@,
            slots@,
            text_shift,
            data_shift,
            0,
            (LinkState { layout: old(layout)@, rebases: old(rebases)@,
                binds: model::views(old(binds)@) }),
        ) {
            Ok(done) => r is Ok && final(layout)@ == done.layout && final(rebases)@ == done.rebases
                && model::views(final(binds)@) == done.binds && link::layout_ok(final(layout)@),
            Err(e) => r is Err && r->Err_0@ == e,
        },
{
    let ghost models = model::views(objects@);
    let ghost maps = macho_merge::offset_maps(offs@);
    let ghost first = LinkState { layout: layout@, rebases: rebases@, binds: model::views(binds@) };
    let mut o: usize = 0;
    while o < objects.len()
        invariant
            o <= objects@.len(),
            offs@.len() == objects@.len(),
            models == model::views(objects@),
            maps == macho_merge::offset_maps(offs@),
            link::layout_ok(layout@),
            first == (LinkState {
                layout: old(layout)@,
                rebases: old(rebases)@,
                binds: model::views(old(binds)@),
            }),
            apply_objects(
                models,
                maps,
                names@,
                slots@,
                text_shift,
                data_shift,
                o as nat,
                LinkState { layout: layout@, rebases: rebases@, binds: model::views(binds@) },
            ) == apply_objects(
                models,
                maps,
                names@,
                slots@,
                text_shift,
                data_shift,
                0,
                first,
            ),
        decreases objects@.len() - o,
    {
        let obj = &objects[o];
        assert(models[o as int] == obj@);
        assert(maps[o as int] == offs@[o as int]@);
        let addrs = section_addresses(obj, layout, &offs[o], false);
        let symbol_addrs = symbol_addr_by_index_multi(obj, &addrs, names);
        match apply_macho_relocations(
            obj,
            layout,
            &symbol_addrs,
            &offs[o],
            Some(slots),
            text_shift,
            data_shift,
            rebases,
            binds,
        ) {
            Ok(_) => {},
            Err(e) => {
                return Err(e);
            },
        }
        o = o + 1;
    }
    Ok(())
}

/// The names among the first `n` that are in `set`.
pub open spec fn names_in(s: Seq<Seq<char>>, set: Seq<Seq<char>>, n: nat) -> Seq<Seq<char>>
    decreases n,
{
    if n == 0 {
        seq![]
    } else {
        let before = names_in(s, set, (n - 1) as nat);
        if set.contains(s[n - 1]) {
            before.push(s[n - 1])
        } else {
            before
        }
    }
}

/// What the image needs from the dynamic linker.
pub open spec fn dynamic_of(
    l: LayoutModel,
    m: ImportsModel,
    st: LinkState,
    dylibs: Seq<Seq<char>>,
) -> Option<DynamicModel> {
    if l.by_name.dom().contains("__got"@) {
        Some(
            DynamicModel {
                needed: seq!["libSystem.B.dylib"@] + dylibs,
                plt_symbols: m.undefined,
                weak_plt_symbols: names_in(m.undefined, m.weak, m.undefined.len()),
                interpreter: None,
                macho_rebase_addrs: st.rebases,
                macho_direct_binds: order::dedup_binds(order::sort_binds(st.binds)),
            },
        )
    } else {
        None
    }
}

fn build_dynamic(
    layout: &MergedLayout,
    m: &Imports,
    rebases: Vec<u64>,
    binds: &Vec<(u64, String, bool, i64)>,
    dylibs: &[String],
) -> (r: Option<DynamicLinkInfo>)
    ensures
        model::view_opt(r) == dynamic_of(
            layout@,
            m@,
            (LinkState { layout: layout@, rebases: rebases@, binds: model::views(binds@) }),
            model::views(dylibs@),
        ),
{
    broadcast use model::group_views;
    if !layout.section_by_name.contains_key("__got") {
        return None;
    }
    let undefined = m.undefined.names();
    let n: usize = undefined.len();
    let mut weak: Vec<String> = Vec::new();
    let mut i: usize = 0;
    while i < n
        invariant
            i <= n,
            n == undefined@.len(),
            model::views(undefined@) == m@.undefined,
            model::views(weak@) == names_in(m@.undefined, m@.weak, i as nat),
        decreases n - i,
    {
        broadcast use model::group_views;
        assert(m@.undefined[i as int] == undefined@[i as int]@);
        if m.weak.contains(undefined[i].as_str()) {
            weak.push(undefined[i].clone());
        }
        i = i + 1;
    }
    let mut needed: Vec<String> = Vec::new();
    needed.push("libSystem.B.dylib".to_string());
    let mut k: usize = 0;
    assert(model::views(needed@) =~= seq!["libSystem.B.dylib"@]
        + model::views(dylibs@).subrange(0, 0));
    while k < dylibs.len()
        invariant
            k <= dylibs@.len(),
            model::views(needed@) == seq!["libSystem.B.dylib"@]
                + model::views(dylibs@).subrange(0, k as int),
        decreases dylibs@.len() - k,
    {
        broadcast use model::group_views;
        needed.push(dylibs[k].clone());
        assert(model::views(needed@) =~= seq!["libSystem.B.dylib"@]
            + model::views(dylibs@).subrange(0, k + 1));
        k = k + 1;
    }
    assert(model::views(dylibs@).subrange(0, dylibs@.len() as int) =~= model::views(dylibs@));
    Some(
        DynamicLinkInfo {
            needed,
            plt_symbols: clone_names(undefined),
            weak_plt_symbols: weak,
            interpreter: None,
            macho_rebase_addrs: rebases,
            macho_direct_binds: sorted_binds(binds),
        },
    )
}

/// What linking gives once the sections are merged.
pub open spec fn link_merged(
    objects: Seq<ObjectModel>,
    merged: LayoutModel,
    offs: Seq<Map<u8, u64>>,
    arch: TargetArch,
    dylibs: Seq<Seq<char>>,
) -> Result<LinkModel, Seq<char>> {
    let defined = globals_from(
        objects,
        merged,
        offs,
        0,
        GlobalsModel { addrs: Map::empty(), weak: Map::empty() },
    ).addrs;
    let m = imports_of(objects, defined, arch);
    let names = names_with_stubs(merged, m, defined);
    match with_stubs(merged, m) {
        Err(e) => Err(e),
        Ok(stubbed) => match runtime_shifts(stubbed) {
            None => Err(link::layout_too_large()),
            Some((text_shift, data_shift)) => match with_final_stubs(
                stubbed,
                m.undefined.len(),
                text_shift,
                data_shift,
            ) {
                None => Err(link::layout_too_large()),
                Some(l) => {
                    let w = with_slots(l, m, names, text_shift, data_shift);
                    match apply_objects(
                        objects,
                        offs,
                        names,
                        w.slots,
                        text_shift,
                        data_shift,
                        0,
                        LinkState { layout: w.layout, rebases: w.rebases, binds: seq![] },
                    ) {
                        Err(e) => Err(e),
                        Ok(done) => Ok(
                            LinkModel {
                                layout: done.layout,
                                e_machine: arch::elf_machine(arch),
                                symbol_addrs: names,
                                dynamic: dynamic_of(done.layout, m, done, dylibs),
                            },
                        ),
                    }
                },
            },
        },
    }
}

/// What linking several objects, or one with libraries, gives.
pub open spec fn multi_link(datas: Seq<Seq<u8>>, dylibs: Seq<Seq<char>>) -> Result<
    LinkModel,
    Seq<char>,
> {
    match objects_from(datas, 0, seq![]) {
        Err(e) => Err(e),
        Ok(objects) => match macho_merge::multi_layout(objects) {
            Err(e) => Err(e),
            Ok((l, offs)) => match arch::arch_of_cputype(objects[0].header.cputype) {
                None => Err(
                    "unsupported Mach-O cputype "@
                        + text::decimal(objects[0].header.cputype as nat),
                ),
                Some(arch) => link_merged(objects, l, offs, arch, dylibs),
            },
        },
    }
}

/// The undefined names are among those with a slot.
proof fn lemma_imports_len(objects: Seq<ObjectModel>, names: Map<Seq<char>, u64>, arch: TargetArch)
    ensures
        imports_of(objects, names, arch).undefined.len() <= imports_of(objects, names,
            arch).got.len(),
{
    if arch == TargetArch::AArch64 {
        let none = ImportsModel { undefined: seq![], weak: seq![], got: seq![] };
        let m = import_all_relocs(
            objects,
            names,
            0,
            import_all_symbols(objects, names, 0, none),
        );
        lemma_add_names_len(m.undefined, m.got, 0);
    }
}

proof fn lemma_add_names_len(s: Seq<Seq<char>>, more: Seq<Seq<char>>, i: nat)
    ensures
        s.len() <= add_names(s, more, i).len(),
    decreases more.len() - i,
{
    if i < more.len() {
        lemma_add_names_len(names::add_name(s, more[i as int]), more, i + 1);
    }
}

fn link_merged_objects(
    objects: &Vec<Macho64Object>,
    merged: MergedLayout,
    offs: &Vec<HashMap<u8, u64>>,
    arch: TargetArch,
    dylibs: &[String],
) -> (r: Result<LinkResult, String>)
    requires
        link::layout_ok(merged@),
        offs@.len() == objects@.len(),
    ensures
        model::outcome(r) == link_merged(
            model::views(objects@),
            merged@,
            macho_merge::offset_maps(offs@),
            arch,
            model::views(dylibs@),
        ),
        r is Ok ==> link::layout_ok(r->Ok_0.layout@),
{
    broadcast use model::group_views;
    let mut layout = merged;
    let mut names = define_globals(objects, &layout, offs);
    let m = collect_imports(objects, &names, arch);
    proof {
        lemma_imports_len(model::views(objects@), names@, arch);
    }
    match add_stubs(&mut layout, &m, &mut names) {
        Ok(_) => {},
        Err(e) => {
            return Err(e);
        },
    }
    let (text_shift, data_shift) = match compute_runtime_shifts(&layout) {
        Some(s) => s,
        None => {
            return Err("layout exceeds the address space".to_string());
        },
    };
    if !finish_stubs(&mut layout, m.undefined.len(), text_shift, data_shift) {
        return Err("layout exceeds the address space".to_string());
    }
    let (mut rebases, slots) = fill_slots(&mut layout, &m, &names, text_shift, data_shift);
    let mut binds: Vec<(u64, String, bool, i64)> = Vec::new();
    match apply_all(
        objects,
        &mut layout,
        offs,
        &names,
        &slots,
        text_shift,
        data_shift,
        &mut rebases,
        &mut binds,
    ) {
        Ok(_) => {},
        Err(e) => {
            return Err(e);
        },
    }
    let dynamic = build_dynamic(&layout, &m, rebases, &binds, dylibs);
    Ok(LinkResult { layout, e_machine: arch.to_elf_machine(), symbol_addrs: names, dynamic })
}

/// Links several objects, or one with libraries. `dylib_paths` names the dynamic libraries that
/// the image loads besides the system's.
pub fn link_macho_multi_object(
    datas: &[&[u8]],
    libs: Option<&[String]>,
    dylib_paths: &[String],
    _input_paths: &[String],
) -> (r: Result<LinkResult, String>)
    ensures
        model::outcome(r) == if datas@.len() == 0 {
            Err("no objects to link"@)
        } else if datas@.len() == 1 && libs is None {
            single_link(datas@[0]@)
        } else {
            multi_link(model::contents(datas@), model::views(dylib_paths@))
        },
        r is Ok ==> link::layout_ok(r->Ok_0.layout@),
{
    if datas.len() == 0 {
        return Err("no objects to link".to_string());
    }
    if datas.len() == 1 && libs.is_none() {
        return link_macho_single_object(datas[0]);
    }
    let objects = match parse_objects(datas) {
        Ok(v) => v,
        Err(e) => {
            return Err(e);
        },
    };
    let (layout, offs) = match merge_macho_sections_multi(&objects) {
        Ok(m) => m,
        Err(e) => {
            return Err(e);
        },
    };
    assert(model::views(objects@)[0] == objects@[0]@);
    let arch = match TargetArch::from_macho_cputype(objects[0].header.cputype) {
        Some(a) => a,
        None => {
            return Err(
                then_number("unsupported Mach-O cputype ", objects[0].header.cputype as u64),
            );
        },
    };
    link_merged_objects(&objects, layout, &offs, arch, dylib_paths)
}

} // verus!

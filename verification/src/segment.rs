//! Alignment, and the memory image of a layout.
use vstd::prelude::*;
use vstd::arithmetic::power2::*;
use vstd::bits::*;
use crate::bytes;
use crate::bytes::{push_zeros_u64, write_bytes};
use crate::link;
use crate::link::{LayoutModel, MergedLayout, MergedModel};

verus! {

/// `value` rounded up to `align`, which is a power of two or zero.
pub open spec fn aligned(value: u64, align: u64) -> u64 {
    if align == 0 {
        value
    } else {
        ((value + align - 1) as u64) & !((align - 1) as u64)
    }
}

/// Whether `value` can be rounded up to `align` within 64 bits.
pub open spec fn align_fits(value: u64, align: u64) -> bool {
    value + align <= u64::MAX
}

/// Whether `a` is the power of two with the exponent `n`.
pub open spec fn is_power(a: u64, n: nat) -> bool {
    n < 64 && a == pow2(n)
}

/// Rounding up never lowers a value and adds less than the alignment.
pub proof fn law_align_up_bounds(value: u64, align: u64)
    requires
        align_fits(value, align),
    ensures
        value <= aligned(value, align),
        align != 0 ==> aligned(value, align) < value + align,
{
    if align != 0 {
        let m = (align - 1) as u64;
        let x = (value + m) as u64;
        assert(x & !m <= x && x - (x & !m) <= m) by (bit_vector);
    }
}

/// A value rounded up to a power of two is a multiple of it.
pub proof fn law_align_up_multiple(value: u64, align: u64, n: nat)
    requires
        align_fits(value, align),
        is_power(align, n),
    ensures
        aligned(value, align) % align == 0,
{
    lemma_pow2_pos(n);
    let m = (align - 1) as u64;
    let x = (value + m) as u64;
    let k = x & !m;
    assert(k & m == 0) by (bit_vector)
        requires
            k == x & !m,
    ;
    lemma_u64_low_bits_mask_is_mod(k, n);
}

/// A multiple of a power of two is left alone by rounding up to it.
pub proof fn law_align_up_idempotent(value: u64, align: u64, n: nat)
    requires
        align_fits(value, align),
        is_power(align, n),
        value % align == 0,
    ensures
        aligned(value, align) == value,
{
    law_align_up_bounds(value, align);
    law_align_up_multiple(value, align, n);
    lemma_pow2_pos(n);
    let r = aligned(value, align);
    assert(r == value) by (nonlinear_arith)
        requires
            r % align == 0,
            value % align == 0,
            value <= r < value + align,
            align > 0,
    {
        assert((r - value) % (align as int) == 0) by {
            vstd::arithmetic::div_mod::lemma_sub_mod_noop(r as int, value as int, align as int);
        }
        vstd::arithmetic::div_mod::lemma_small_mod((r - value) as nat, align as nat);
    }
}

/// Rounds `value` up to `align`.
pub fn align_up_u64(value: u64, align: u64) -> (r: u64)
    requires
        align_fits(value, align),
    ensures
        r == aligned(value, align),
{
    if align == 0 {
        return value;
    }
    (value + align - 1) & !(align - 1)
}

/// Rounds `value` up to `align`.
pub fn align_up_usize(value: usize, align: usize) -> (r: usize)
    requires
        value + align <= usize::MAX,
    ensures
        r == aligned(value as u64, align as u64),
{
    if align == 0 {
        return value;
    }
    let r: u64 = align_up_u64(value as u64, align as u64);
    proof {
        law_align_up_bounds(value as u64, align as u64);
    }
    r as usize
}

/// Rounds `value` up to `align`, where the result fits.
pub fn checked_align_up(value: u64, align: u64) -> (r: Option<u64>)
    ensures
        r == if align_fits(value, align) {
            Some(aligned(value, align))
        } else {
            None
        },
{
    if align > u64::MAX - value {
        return None;
    }
    Some(align_up_u64(value, align))
}

/// `n` rounded up to a multiple of `a`.
pub open spec fn padded(n: int, a: int) -> int {
    n + (a - n % a) % a
}

/// What is missing from `n` to a multiple of `a`.
pub fn padding(n: usize, a: usize) -> (r: usize)
    requires
        0 < a,
    ensures
        r == padded(n as int, a as int) - n,
        r < a,
{
    (a - n % a) % a
}

/// Whether a layout has a memory image: no section starts before the first or ends beyond 64-bit
/// addresses.
pub open spec fn has_image(l: LayoutModel) -> bool {
    forall|i: int|
        0 <= i < l.sections.len() ==> l.sections[0].vaddr <= (#[trigger] l.sections[i]).vaddr
            && link::section_end(l.sections[i]) <= u64::MAX
}

/// The address of the first section, or `default_base` where there is none.
pub open spec fn image_base(l: LayoutModel, default_base: u64) -> u64 {
    if l.sections.len() > 0 {
        l.sections[0].vaddr
    } else {
        default_base
    }
}

/// The highest end among the first `n` sections, at least `base`.
pub open spec fn image_end(l: LayoutModel, base: u64, n: nat) -> int
    decreases n,
{
    if n == 0 {
        base as int
    } else {
        let before = image_end(l, base, (n - 1) as nat);
        if link::section_end(l.sections[n - 1]) > before {
            link::section_end(l.sections[n - 1])
        } else {
            before
        }
    }
}

/// `image` with the bytes of the sections from `i` on at their distance from `base`.
pub open spec fn place_images(l: LayoutModel, base: u64, i: nat, image: Seq<u8>) -> Seq<u8>
    decreases l.sections.len() - i,
{
    if i >= l.sections.len() {
        image
    } else {
        let s = l.sections[i as int];
        place_images(l, base, i + 1, bytes::patch(image, s.vaddr - base, s.data))
    }
}

/// The memory image of a layout: its bytes from the address of the first section on, zero between
/// the sections.
pub open spec fn memory_image(l: LayoutModel, base: u64) -> Seq<u8> {
    place_images(l, base, 0, bytes::zeros(image_end(l, base, l.sections.len()) - base))
}

/// The memory image reaches to the end of the last section.
pub proof fn lemma_image_end(l: LayoutModel, base: u64, n: nat)
    requires
        n <= l.sections.len(),
    ensures
        base <= image_end(l, base, n),
        forall|i: int|
            0 <= i < n ==> link::section_end(#[trigger] l.sections[i]) <= image_end(l, base, n),
        has_image(l) ==> image_end(l, base, n) <= u64::MAX,
    decreases n,
{
    if n > 0 {
        lemma_image_end(l, base, (n - 1) as nat);
    }
}

proof fn lemma_place_images_len(l: LayoutModel, base: u64, i: nat, image: Seq<u8>)
    ensures
        place_images(l, base, i, image).len() == image.len(),
    decreases l.sections.len() - i,
{
    if i < l.sections.len() {
        let s = l.sections[i as int];
        lemma_place_images_len(l, base, i + 1, bytes::patch(image, s.vaddr - base, s.data));
    }
}

/// How many bytes the memory image has.
pub proof fn lemma_memory_image_len(l: LayoutModel, base: u64)
    requires
        has_image(l),
    ensures
        memory_image(l, base).len() == image_end(l, base, l.sections.len()) - base,
{
    lemma_image_end(l, base, l.sections.len());
    lemma_place_images_len(
        l,
        base,
        0,
        bytes::zeros(image_end(l, base, l.sections.len()) - base),
    );
}

proof fn lemma_later_images_keep(l: LayoutModel, base: u64, i: nat, image: Seq<u8>, k: int)
    requires
        0 <= k < image.len(),
        forall|j: int|
            i <= j < l.sections.len() ==> !((#[trigger] l.sections[j]).vaddr - base <= k
                < link::section_end(l.sections[j]) - base),
    ensures
        place_images(l, base, i, image)[k] == image[k],
    decreases l.sections.len() - i,
{
    if i < l.sections.len() {
        let s = l.sections[i as int];
        lemma_later_images_keep(l, base, i + 1, bytes::patch(image, s.vaddr - base, s.data), k);
    }
}

/// Whether two sections have no address in common.
pub open spec fn apart(a: MergedModel, b: MergedModel) -> bool {
    ||| a.data.len() == 0
    ||| b.data.len() == 0
    ||| link::section_end(a) <= b.vaddr
    ||| link::section_end(b) <= a.vaddr
}

/// Whether the sections of a layout, in whatever order, have no addresses in common.
pub open spec fn sections_apart(l: LayoutModel) -> bool {
    forall|i: int, j: int|
        0 <= i < j < l.sections.len() ==> apart(#[trigger] l.sections[i], #[trigger] l.sections[j])
}

/// Where sections do not overlap, the memory image holds the bytes of each at its address. They
/// need not stand in the order of their addresses, but for the first, which is the lowest.
pub proof fn law_image_holds_sections(l: LayoutModel, n: int)
    requires
        has_image(l),
        sections_apart(l),
        0 <= n < l.sections.len(),
    ensures
        ({
            let base = image_base(l, 0);
            let s = l.sections[n];
            memory_image(l, base).subrange(s.vaddr - base, link::section_end(s) - base) == s.data
        }),
{
    let base = image_base(l, 0);
    let s = l.sections[n];
    let total = image_end(l, base, l.sections.len()) - base;
    lemma_image_end(l, base, l.sections.len());
    lemma_image_after(l, base, n as nat, 0, bytes::zeros(total));
    lemma_place_images_len(l, base, 0, bytes::zeros(total));
    assert(memory_image(l, base).subrange(s.vaddr - base, link::section_end(s) - base) =~= s.data);
}

proof fn lemma_image_after(l: LayoutModel, base: u64, n: nat, i: nat, image: Seq<u8>)
    requires
        sections_apart(l),
        i <= n < l.sections.len(),
        base <= l.sections[n as int].vaddr,
        link::section_end(l.sections[n as int]) - base <= image.len(),
    ensures
        forall|k: int|
            l.sections[n as int].vaddr - base <= k < link::section_end(l.sections[n as int]) - base
                ==> #[trigger] place_images(l, base, i, image)[k]
                == l.sections[n as int].data[k - (l.sections[n as int].vaddr - base)],
    decreases n - i,
{
    let s = l.sections[i as int];
    let next = bytes::patch(image, s.vaddr - base, s.data);
    assert(place_images(l, base, i, image) == place_images(l, base, i + 1, next));
    if i < n {
        lemma_image_after(l, base, n, i + 1, next);
    } else {
        assert forall|k: int|
            s.vaddr - base <= k < link::section_end(s) - base implies #[trigger] place_images(
            l,
            base,
            i,
            image,
        )[k] == s.data[k - (s.vaddr - base)] by {
            assert forall|j: int| i + 1 <= j < l.sections.len() implies !((
            #[trigger] l.sections[j]).vaddr - base <= k < link::section_end(l.sections[j])
                - base) by {
                assert(apart(l.sections[i as int], l.sections[j]));
            }
            lemma_later_images_keep(l, base, i + 1, next, k);
        }
    }
}

/// Between the sections the memory image is zero.
pub proof fn law_image_gaps_are_zero(l: LayoutModel, base: u64, k: int)
    requires
        has_image(l),
        0 <= k < memory_image(l, base).len(),
        forall|j: int|
            0 <= j < l.sections.len() ==> !((#[trigger] l.sections[j]).vaddr - base <= k
                < link::section_end(l.sections[j]) - base),
    ensures
        memory_image(l, base)[k] == 0,
{
    let total = image_end(l, base, l.sections.len()) - base;
    lemma_image_end(l, base, l.sections.len());
    lemma_place_images_len(l, base, 0, bytes::zeros(total));
    lemma_later_images_keep(l, base, 0, bytes::zeros(total), k);
}

/// A layout whose sections follow each other has a memory image, and its sections stand apart.
pub proof fn lemma_ascending_has_image(l: LayoutModel)
    requires
        link::sections_ascend(l),
    ensures
        has_image(l),
        sections_apart(l),
{
    assert forall|i: int| 0 <= i < l.sections.len() implies l.sections[0].vaddr <= (
    #[trigger] l.sections[i]).vaddr && link::section_end(l.sections[i]) <= u64::MAX by {
        if i > 0 {
            assert(link::section_end(l.sections[0]) <= l.sections[i].vaddr);
        }
    }
}

/// Builds the memory image of a layout; returns its address and its bytes.
pub fn build_segment_buffer(layout: &MergedLayout, default_base: u64) -> (r: (u64, Vec<u8>))
    requires
        has_image(layout@),
    ensures
        r.0 == image_base(layout@, default_base),
        r.1@ == memory_image(layout@, r.0),
{
    let n: usize = layout.sections.len();
    let ghost l = layout@;
    let base: u64 = if n > 0 {
        assert(l.sections[0] == layout.sections@[0]@);
        layout.sections[0].vaddr
    } else {
        default_base
    };
    let mut end: u64 = base;
    let mut i: usize = 0;
    while i < n
        invariant
            i <= n,
            n == layout.sections@.len(),
            l == layout@,
            has_image(l),
            end == image_end(l, base, i as nat),
        decreases n - i,
    {
        let sec = &layout.sections[i];
        assert(l.sections[i as int] == sec@);
        let sec_end: u64 = sec.vaddr + sec.data.len() as u64;
        if sec_end > end {
            end = sec_end;
        }
        i = i + 1;
    }
    proof {
        lemma_image_end(l, base, n as nat);
    }
    let mut buf: Vec<u8> = Vec::new();
    push_zeros_u64(&mut buf, end - base);
    assert(buf@ =~= bytes::zeros(end - base));
    assert(buf.len() == end - base);
    let mut k: usize = 0;
    while k < n
        invariant
            k <= n,
            n == layout.sections@.len(),
            l == layout@,
            has_image(l),
            base == image_base(l, default_base),
            buf@.len() == end - base,
            end - base <= usize::MAX,
            forall|j: int| 0 <= j < n ==> link::section_end(#[trigger] l.sections[j]) <= end,
            place_images(l, base, k as nat, buf@) == memory_image(l, base),
        decreases n - k,
    {
        let sec = &layout.sections[k];
        assert(l.sections[k as int] == sec@);
        let off: usize = (sec.vaddr - base) as usize;
        write_bytes(&mut buf, off, sec.data.as_slice());
        k = k + 1;
    }
    (base, buf)
}

} // verus!

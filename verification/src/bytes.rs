//! Reading and writing fixed-width integers in byte buffers.
use vstd::prelude::*;

verus! {

/// The two bytes of `v`, least significant first.
#[verifier::opaque]
pub open spec fn le16(v: u16) -> Seq<u8> {
    seq![(v & 0xff) as u8, ((v >> 8) & 0xff) as u8]
}

/// The four bytes of `v`, least significant first.
#[verifier::opaque]
pub open spec fn le32(v: u32) -> Seq<u8> {
    seq![
        (v & 0xff) as u8,
        ((v >> 8) & 0xff) as u8,
        ((v >> 16) & 0xff) as u8,
        ((v >> 24) & 0xff) as u8,
    ]
}

/// The eight bytes of `v`, least significant first.
#[verifier::opaque]
pub open spec fn le64(v: u64) -> Seq<u8> {
    seq![
        (v & 0xff) as u8,
        ((v >> 8) & 0xff) as u8,
        ((v >> 16) & 0xff) as u8,
        ((v >> 24) & 0xff) as u8,
        ((v >> 32) & 0xff) as u8,
        ((v >> 40) & 0xff) as u8,
        ((v >> 48) & 0xff) as u8,
        ((v >> 56) & 0xff) as u8,
    ]
}

/// `n` zero bytes.
pub open spec fn zeros(n: int) -> Seq<u8> {
    Seq::new(n as nat, |i: int| 0u8)
}

/// `s` with the bytes from `off` on overwritten by `b`.
pub open spec fn patch(s: Seq<u8>, off: int, b: Seq<u8>) -> Seq<u8> {
    Seq::new(s.len(), |i: int| if off <= i < off + b.len() { b[i - off] } else { s[i] })
}

/// The little-endian 16-bit integer at `off`.
#[verifier::opaque]
pub open spec fn u16_at(s: Seq<u8>, off: int) -> u16 {
    (s[off] as u16) | ((s[off + 1] as u16) << 8)
}

/// The little-endian 32-bit integer at `off`.
#[verifier::opaque]
pub open spec fn u32_at(s: Seq<u8>, off: int) -> u32 {
    (s[off] as u32) | ((s[off + 1] as u32) << 8) | ((s[off + 2] as u32) << 16)
        | ((s[off + 3] as u32)
        << 24)
}

/// The big-endian 32-bit integer at `off`.
#[verifier::opaque]
pub open spec fn be_u32_at(s: Seq<u8>, off: int) -> u32 {
    ((s[off] as u32) << 24) | ((s[off + 1] as u32) << 16) | ((s[off + 2] as u32) << 8) | (s[off
        + 3] as u32)
}

/// The little-endian 64-bit integer at `off`.
#[verifier::opaque]
pub open spec fn u64_at(s: Seq<u8>, off: int) -> u64 {
    (s[off] as u64) | ((s[off + 1] as u64) << 8) | ((s[off + 2] as u64) << 16)
        | ((s[off + 3] as u64)
        << 24) | ((s[off + 4] as u64) << 32) | ((s[off + 5] as u64) << 40) | ((s[off + 6] as u64)
        << 48) | ((s[off + 7] as u64) << 56)
}

/// The big-endian 64-bit integer at `off`.
#[verifier::opaque]
pub open spec fn be_u64_at(s: Seq<u8>, off: int) -> u64 {
    ((s[off] as u64) << 56) | ((s[off + 1] as u64) << 48) | ((s[off + 2] as u64) << 40) | ((s[off
        + 3] as u64) << 32) | ((s[off + 4] as u64) << 24) | ((s[off + 5] as u64) << 16) | ((s[off
        + 6] as u64) << 8) | (s[off + 7] as u64)
}

/// The number that a 32-bit word stands for in two's complement.
pub open spec fn signed32(v: u32) -> int {
    if v < 0x8000_0000 {
        v as int
    } else {
        v - 0x1_0000_0000
    }
}

/// The integer at `off`, where the buffer reaches that far.
pub open spec fn get_u16(s: Seq<u8>, off: int) -> Option<u16> {
    if 0 <= off && off + 2 <= s.len() { Some(u16_at(s, off)) } else { None }
}

/// The integer at `off`, where the buffer reaches that far.
pub open spec fn get_u32(s: Seq<u8>, off: int) -> Option<u32> {
    if 0 <= off && off + 4 <= s.len() { Some(u32_at(s, off)) } else { None }
}

/// The big-endian integer at `off`, where the buffer reaches that far.
pub open spec fn get_be_u32(s: Seq<u8>, off: int) -> Option<u32> {
    if 0 <= off && off + 4 <= s.len() { Some(be_u32_at(s, off)) } else { None }
}

/// The big-endian integer at `off`, where the buffer reaches that far.
pub open spec fn get_be_u64(s: Seq<u8>, off: int) -> Option<u64> {
    if 0 <= off && off + 8 <= s.len() { Some(be_u64_at(s, off)) } else { None }
}

/// The integer at `off`, where the buffer reaches that far.
pub open spec fn get_u64(s: Seq<u8>, off: int) -> Option<u64> {
    if 0 <= off && off + 8 <= s.len() { Some(u64_at(s, off)) } else { None }
}

/// The bytes from `start` up to `end`, where the buffer holds them.
pub open spec fn get_range(s: Seq<u8>, start: int, end: int) -> Option<Seq<u8>> {
    if 0 <= start <= end <= s.len() { Some(s.subrange(start, end)) } else { None }
}

/// A fixed-width integer takes its width in bytes.
pub broadcast proof fn lemma_le16_len(v: u16)
    ensures
        #[trigger] le16(v).len() == 2,
{
    reveal(le16);
}

/// A fixed-width integer takes its width in bytes.
pub broadcast proof fn lemma_le32_len(v: u32)
    ensures
        #[trigger] le32(v).len() == 4,
{
    reveal(le32);
}

/// A fixed-width integer takes its width in bytes.
pub broadcast proof fn lemma_le64_len(v: u64)
    ensures
        #[trigger] le64(v).len() == 8,
{
    reveal(le64);
}

pub broadcast group group_le_len {
    lemma_le16_len,
    lemma_le32_len,
    lemma_le64_len,
}

/// A 16-bit integer is read back where its bytes stand.
pub proof fn lemma_read_u16(s: Seq<u8>, off: int, v: u16)
    requires
        0 <= off,
        off + 2 <= s.len(),
        s.subrange(off, off + 2) == le16(v),
    ensures
        u16_at(s, off) == v,
{
    reveal(le16);
    reveal(u16_at);
    let t = s.subrange(off, off + 2);
    assert(s[off] == t[0] && s[off + 1] == t[1]);
    assert((((v & 0xff) as u8) as u16) | ((((v >> 8) & 0xff) as u8) as u16) << 8 == v)
        by (bit_vector);
}

/// Two zero bytes are read as zero.
pub proof fn lemma_zero_u16(s: Seq<u8>, off: int)
    requires
        0 <= off,
        off + 2 <= s.len(),
        s[off] == 0,
        s[off + 1] == 0,
    ensures
        u16_at(s, off) == 0,
{
    reveal(u16_at);
    assert(0u16 | (0u16 << 8) == 0) by (bit_vector);
}

/// A 32-bit integer is read back where its bytes stand.
pub proof fn lemma_read_u32(s: Seq<u8>, off: int, v: u32)
    requires
        0 <= off,
        off + 4 <= s.len(),
        s.subrange(off, off + 4) == le32(v),
    ensures
        u32_at(s, off) == v,
{
    reveal(le32);
    reveal(u32_at);
    let t = s.subrange(off, off + 4);
    assert(s[off] == t[0] && s[off + 1] == t[1] && s[off + 2] == t[2] && s[off + 3] == t[3]);
    assert((((v & 0xff) as u8) as u32) | ((((v >> 8) & 0xff) as u8) as u32) << 8 | ((((v >> 16)
        & 0xff) as u8) as u32) << 16 | ((((v >> 24) & 0xff) as u8) as u32) << 24 == v)
        by (bit_vector);
}

/// A 64-bit integer is read back where its bytes stand.
pub proof fn lemma_read_u64(s: Seq<u8>, off: int, v: u64)
    requires
        0 <= off,
        off + 8 <= s.len(),
        s.subrange(off, off + 8) == le64(v),
    ensures
        u64_at(s, off) == v,
{
    reveal(le64);
    reveal(u64_at);
    let t = s.subrange(off, off + 8);
    assert(s[off] == t[0] && s[off + 1] == t[1] && s[off + 2] == t[2] && s[off + 3] == t[3]);
    assert(s[off + 4] == t[4] && s[off + 5] == t[5] && s[off + 6] == t[6] && s[off + 7] == t[7]);
    assert((((v & 0xff) as u8) as u64) | ((((v >> 8) & 0xff) as u8) as u64) << 8 | ((((v >> 16)
        & 0xff) as u8) as u64) << 16 | ((((v >> 24) & 0xff) as u8) as u64) << 24 | ((((v >> 32)
        & 0xff) as u8) as u64) << 32 | ((((v >> 40) & 0xff) as u8) as u64) << 40 | ((((v >> 48)
        & 0xff) as u8) as u64) << 48 | ((((v >> 56) & 0xff) as u8) as u64) << 56 == v)
        by (bit_vector);
}

/// What stands in a part of a file stands in the file.
pub proof fn lemma_in_part(e: Seq<u8>, at: int, part: Seq<u8>, from: int, to: int)
    requires
        0 <= at,
        at + part.len() <= e.len(),
        e.subrange(at, at + part.len()) == part,
        0 <= from <= to <= part.len(),
    ensures
        e.subrange(at + from, at + to) == part.subrange(from, to),
{
    assert forall|k: int| 0 <= k < part.len() implies e[at + k] == part[k] by {
        assert(e.subrange(at, at + part.len())[k] == part[k]);
    }
    assert(e.subrange(at + from, at + to) =~= part.subrange(from, to));
}

/// An integer that was written over other bytes is read back.
pub proof fn lemma_patched_u32(s: Seq<u8>, off: int, v: u32)
    requires
        0 <= off,
        off + 4 <= s.len(),
    ensures
        u32_at(patch(s, off, le32(v)), off) == v,
{
    lemma_le32_len(v);
    let t = patch(s, off, le32(v));
    assert(t.subrange(off, off + 4) =~= le32(v));
    lemma_read_u32(t, off, v);
}

/// An integer that was written over other bytes is read back.
pub proof fn lemma_patched_u64(s: Seq<u8>, off: int, v: u64)
    requires
        0 <= off,
        off + 8 <= s.len(),
    ensures
        u64_at(patch(s, off, le64(v)), off) == v,
{
    lemma_le64_len(v);
    let t = patch(s, off, le64(v));
    assert(t.subrange(off, off + 8) =~= le64(v));
    lemma_read_u64(t, off, v);
}

/// Equal bytes are equal 32-bit integers.
pub proof fn lemma_same_u32(a: Seq<u8>, i: int, b: Seq<u8>, j: int)
    requires
        forall|k: int| 0 <= k < 4 ==> a[i + k] == #[trigger] b[j + k],
    ensures
        u32_at(a, i) == u32_at(b, j),
{
    reveal(u32_at);
    assert(b[j + 0] == a[i + 0] && b[j + 1] == a[i + 1] && b[j + 2] == a[i + 2] && b[j + 3]
        == a[i + 3]);
}

/// Equal bytes are equal 64-bit integers.
pub proof fn lemma_same_u64(a: Seq<u8>, i: int, b: Seq<u8>, j: int)
    requires
        forall|k: int| 0 <= k < 8 ==> a[i + k] == #[trigger] b[j + k],
    ensures
        u64_at(a, i) == u64_at(b, j),
{
    reveal(u64_at);
    assert(b[j + 0] == a[i + 0] && b[j + 1] == a[i + 1] && b[j + 2] == a[i + 2] && b[j + 3]
        == a[i + 3]);
    assert(b[j + 4] == a[i + 4] && b[j + 5] == a[i + 5] && b[j + 6] == a[i + 6] && b[j + 7]
        == a[i + 7]);
}

/// The position of the first zero byte at or after `i`, or the length where there is none.
pub open spec fn first_zero(s: Seq<u8>, i: int) -> int
    decreases s.len() - i,
{
    if i < 0 || i >= s.len() {
        s.len() as int
    } else if s[i] == 0 {
        i
    } else {
        first_zero(s, i + 1)
    }
}

/// The bytes in front of the first zero byte.
pub open spec fn cstr(s: Seq<u8>) -> Seq<u8> {
    s.subrange(0, first_zero(s, 0))
}

/// The first zero byte stands between `i` and the end.
pub proof fn lemma_first_zero(s: Seq<u8>, i: int)
    requires
        0 <= i <= s.len(),
    ensures
        i <= first_zero(s, i) <= s.len(),
        first_zero(s, i) < s.len() ==> s[first_zero(s, i)] == 0,
        forall|k: int| i <= k < first_zero(s, i) ==> s[k] != 0,
    decreases s.len() - i,
{
    if i < s.len() && s[i] != 0 {
        lemma_first_zero(s, i + 1);
    }
}

/// The bytes in front of the first zero byte, or all of them.
pub fn trim_cstr(b: &[u8]) -> (r: &[u8])
    ensures
        r@ == cstr(b@),
{
    let n: usize = b.len();
    let mut i: usize = 0;
    while i < n && b[i] != 0
        invariant
            i <= n,
            n == b@.len(),
            first_zero(b@, 0) == first_zero(b@, i as int),
        decreases n - i,
    {
        i = i + 1;
    }
    vstd::slice::slice_subrange(b, 0, i)
}

/// Whether `n` bytes stand in `data` from `off` on.
pub fn has_bytes(data: &[u8], off: usize, n: usize) -> (r: bool)
    ensures
        r == (off + n <= data@.len()),
        r ==> off + n <= usize::MAX,
{
    off <= data.len() && n <= data.len() - off
}

/// The sum of two offsets, held at the largest one where it would not fit.
pub fn offset_sum(a: usize, b: usize) -> (r: usize)
    ensures
        a + b <= usize::MAX ==> r == a + b,
        a + b > usize::MAX ==> r == usize::MAX,
{
    if a > usize::MAX - b {
        usize::MAX
    } else {
        a + b
    }
}

/// A 64-bit offset as an index, held at the largest one where it would not fit.
pub fn offset_index(off: u64) -> (r: usize)
    ensures
        off <= usize::MAX ==> r == off,
        off > usize::MAX ==> r == usize::MAX,
{
    if off > usize::MAX as u64 {
        usize::MAX
    } else {
        off as usize
    }
}

/// Reads a 16-bit integer, least significant byte first.
pub fn read_u16_le(data: &[u8], off: usize) -> (r: Option<u16>)
    ensures
        r == get_u16(data@, off as int),
{
    reveal(u16_at);
    if data.len() < 2 || off > data.len() - 2 {
        return None;
    }
    Some((data[off] as u16) | ((data[off + 1] as u16) << 8))
}

/// Reads a 32-bit integer, least significant byte first.
pub fn read_u32_le(data: &[u8], off: usize) -> (r: Option<u32>)
    ensures
        r == get_u32(data@, off as int),
{
    reveal(u32_at);
    if data.len() < 4 || off > data.len() - 4 {
        return None;
    }
    Some(
        (data[off] as u32) | ((data[off + 1] as u32) << 8) | ((data[off + 2] as u32) << 16) | ((
        data[off + 3] as u32) << 24),
    )
}

/// Reads a 32-bit integer, most significant byte first.
pub fn read_u32_be(data: &[u8], off: usize) -> (r: Option<u32>)
    ensures
        r == get_be_u32(data@, off as int),
{
    reveal(be_u32_at);
    if data.len() < 4 || off > data.len() - 4 {
        return None;
    }
    Some(
        ((data[off] as u32) << 24) | ((data[off + 1] as u32) << 16) | ((data[off + 2] as u32) << 8)
            | (data[off + 3] as u32),
    )
}

/// Reads a 64-bit integer, most significant byte first.
pub fn read_u64_be(data: &[u8], off: usize) -> (r: Option<u64>)
    ensures
        r == get_be_u64(data@, off as int),
{
    reveal(be_u64_at);
    if data.len() < 8 || off > data.len() - 8 {
        return None;
    }
    Some(
        ((data[off] as u64) << 56) | ((data[off + 1] as u64) << 48) | ((data[off + 2] as u64) << 40)
            | ((data[off + 3] as u64) << 32) | ((data[off + 4] as u64) << 24) | ((data[off
            + 5] as u64) << 16) | ((data[off + 6] as u64) << 8) | (data[off + 7] as u64),
    )
}

/// Reads a 64-bit integer, least significant byte first.
pub fn read_u64_le(data: &[u8], off: usize) -> (r: Option<u64>)
    ensures
        r == get_u64(data@, off as int),
{
    reveal(u64_at);
    if data.len() < 8 || off > data.len() - 8 {
        return None;
    }
    Some(
        (data[off] as u64) | ((data[off + 1] as u64) << 8) | ((data[off + 2] as u64) << 16) | ((
        data[off + 3] as u64) << 24) | ((data[off + 4] as u64) << 32) | ((data[off + 5] as u64)
            << 40) | ((data[off + 6] as u64) << 48) | ((data[off + 7] as u64) << 56),
    )
}

/// Appends the bytes of `v`, least significant first.
pub fn push_u16(out: &mut Vec<u8>, v: u16)
    ensures
        final(out)@ == old(out)@ + le16(v),
{
    reveal(le16);
    out.push((v & 0xff) as u8);
    out.push(((v >> 8) & 0xff) as u8);
    assert(out@ =~= old(out)@ + le16(v));
}

/// Appends the bytes of `v`, least significant first.
pub fn push_u32(out: &mut Vec<u8>, v: u32)
    ensures
        final(out)@ == old(out)@ + le32(v),
{
    reveal(le32);
    out.push((v & 0xff) as u8);
    out.push(((v >> 8) & 0xff) as u8);
    out.push(((v >> 16) & 0xff) as u8);
    out.push(((v >> 24) & 0xff) as u8);
    assert(out@ =~= old(out)@ + le32(v));
}

/// Appends the bytes of `v`, least significant first.
pub fn push_u64(out: &mut Vec<u8>, v: u64)
    ensures
        final(out)@ == old(out)@ + le64(v),
{
    reveal(le64);
    out.push((v & 0xff) as u8);
    out.push(((v >> 8) & 0xff) as u8);
    out.push(((v >> 16) & 0xff) as u8);
    out.push(((v >> 24) & 0xff) as u8);
    out.push(((v >> 32) & 0xff) as u8);
    out.push(((v >> 40) & 0xff) as u8);
    out.push(((v >> 48) & 0xff) as u8);
    out.push(((v >> 56) & 0xff) as u8);
    assert(out@ =~= old(out)@ + le64(v));
}

/// Appends a slice.
pub fn push_bytes(out: &mut Vec<u8>, b: &[u8])
    ensures
        final(out)@ == old(out)@ + b@,
{
    out.extend_from_slice(b);
    assert(out@ =~= old(out)@ + b@);
}

/// Appends `n` zero bytes.
pub fn push_zeros(out: &mut Vec<u8>, n: usize)
    ensures
        final(out)@ == old(out)@ + zeros(n as int),
{
    let mut z: Vec<u8> = vec![0u8; n];
    assert(z@ =~= zeros(n as int));
    out.append(&mut z);
}

/// Appends `n` zero bytes.
pub fn push_zeros_u64(out: &mut Vec<u8>, n: u64)
    ensures
        final(out)@ == old(out)@ + zeros(n as int),
{
    let mut left: u64 = n;
    assert(out@ =~= old(out)@ + zeros(0));
    while left > 0
        invariant
            left <= n,
            out@ == old(out)@ + zeros(n - left),
        decreases left,
    {
        let step: usize = offset_index(left);
        push_zeros(out, step);
        left = left - step as u64;
        assert(out@ =~= old(out)@ + zeros(n - left));
    }
}

/// Overwrites the bytes from `off` on with `b`.
pub fn write_bytes(data: &mut Vec<u8>, off: usize, b: &[u8])
    requires
        off + b@.len() <= old(data)@.len(),
    ensures
        final(data)@ == patch(old(data)@, off as int, b@),
{
    let n: usize = b.len();
    let total: usize = data.len();
    let mut i: usize = 0;
    assert(data@ =~= patch(old(data)@, off as int, b@.subrange(0, 0)));
    while i < n
        invariant
            i <= n,
            n == b@.len(),
            off + n <= total,
            total == old(data)@.len(),
            data@.len() == total,
            data@ == patch(old(data)@, off as int, b@.subrange(0, i as int)),
        decreases n - i,
    {
        data[off + i] = b[i];
        assert(data@ =~= patch(old(data)@, off as int, b@.subrange(0, i + 1)));
        i = i + 1;
    }
    assert(b@.subrange(0, n as int) =~= b@);
}

/// Overwrites the two bytes from `off` on with `v`, least significant first.
pub fn write_u16(data: &mut Vec<u8>, off: usize, v: u16)
    requires
        off + 2 <= old(data)@.len(),
    ensures
        final(data)@ == patch(old(data)@, off as int, le16(v)),
{
    let mut b: Vec<u8> = Vec::new();
    push_u16(&mut b, v);
    assert(b@ =~= le16(v));
    proof {
        lemma_le16_len(v);
    }
    write_bytes(data, off, b.as_slice());
}

/// Overwrites the four bytes from `off` on with `v`, least significant first.
pub fn write_u32(data: &mut Vec<u8>, off: usize, v: u32)
    requires
        off + 4 <= old(data)@.len(),
    ensures
        final(data)@ == patch(old(data)@, off as int, le32(v)),
{
    let mut b: Vec<u8> = Vec::new();
    push_u32(&mut b, v);
    assert(b@ =~= le32(v));
    proof {
        lemma_le32_len(v);
    }
    write_bytes(data, off, b.as_slice());
}

/// Overwrites the eight bytes from `off` on with `v`, least significant first.
pub fn write_u64(data: &mut Vec<u8>, off: usize, v: u64)
    requires
        off + 8 <= old(data)@.len(),
    ensures
        final(data)@ == patch(old(data)@, off as int, le64(v)),
{
    let mut b: Vec<u8> = Vec::new();
    push_u64(&mut b, v);
    assert(b@ =~= le64(v));
    proof {
        lemma_le64_len(v);
    }
    write_bytes(data, off, b.as_slice());
}

} // verus!

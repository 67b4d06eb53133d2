//! What is read from an archive.
use vstd::prelude::*;
use vstd::string::*;
use vstd::utf8::*;
use crate::object;
use crate::object::MemberModel;

verus! {

/// The number that the first `k` bytes of a field write out in base ten.
pub open spec fn decimal_value(field: Seq<u8>, k: nat) -> nat
    decreases k,
{
    if k == 0 {
        0
    } else {
        (10 * decimal_value(field, (k - 1) as nat) + (field[k - 1] - 0x30)) as nat
    }
}

/// Whether a field writes out a number in base ten: `k` digits, and then spaces.
pub open spec fn writes_number(field: Seq<u8>, k: nat, v: nat) -> bool {
    &&& 0 < k <= field.len()
    &&& forall|j: int| 0 <= j < k ==> 0x30 <= #[trigger] field[j] <= 0x39
    &&& forall|j: int| k <= j < field.len() ==> #[trigger] field[j] == 0x20
    &&& decimal_value(field, k) == v
    &&& v <= usize::MAX
}

proof fn lemma_ascii_is_valid(b: Seq<u8>)
    requires
        forall|j: int| 0 <= j < b.len() ==> #[trigger] b[j] < 0x80,
    ensures
        valid_utf8(b),
{
    let chars = Seq::new(b.len(), |j: int| b[j] as char);
    assert(is_ascii_chars(chars)) by {
        assert forall|j: int| 0 <= j < chars.len() implies '\0' <= #[trigger] chars[j]
            <= '\u{7f}' by {
            assert(b[j] < 0x80);
        }
    }
    is_ascii_chars_encode_utf8(chars);
    assert(encode_utf8(chars) =~= b) by {
        assert forall|j: int| 0 <= j < b.len() implies encode_utf8(chars)[j] == #[trigger] b[j] by {
            assert(chars[j] as u8 == b[j]);
        }
    }
    encode_utf8_valid_utf8(chars);
}

/// Without the bytes at its end, a field is what stands in front of them.
proof fn lemma_trimmed(s: Seq<u8>, c: u8, k: nat)
    requires
        k <= s.len(),
        forall|j: int| k <= j < s.len() ==> #[trigger] s[j] == c,
        k > 0 ==> s[k - 1] != c,
    ensures
        object::trim_end(s, c) == s.subrange(0, k as int),
    decreases s.len(),
{
    if s.len() > k {
        assert(s.last() == c);
        lemma_trimmed(s.drop_last(), c, k);
        assert(s.drop_last().subrange(0, k as int) =~= s.subrange(0, k as int));
    } else {
        assert(s.subrange(0, k as int) =~= s);
    }
}

proof fn lemma_digits(s: Seq<u8>, t: Seq<u8>, k: nat)
    requires
        k <= s.len(),
        k <= t.len(),
        forall|j: int| 0 <= j < k ==> #[trigger] s[j] == t[j],
        forall|j: int| 0 <= j < k ==> 0x30 <= #[trigger] t[j] <= 0x39,
    ensures
        object::digits_value(s, k) == Some(decimal_value(t, k)),
    decreases k,
{
    if k > 0 {
        lemma_digits(s, t, (k - 1) as nat);
        assert(s[k - 1] == t[k - 1]);
    }
}

/// A field that writes out a number is read as that number.
proof fn lemma_number_is_read(field: Seq<u8>, k: nat, v: nat)
    requires
        writes_number(field, k, v),
    ensures
        object::trim_end(field, 0x20) == field.subrange(0, k as int),
        object::number_or_zero(field.subrange(0, k as int)) == v,
{
    let t = field.subrange(0, k as int);
    assert(field[k - 1] != 0x20);
    lemma_trimmed(field, 0x20, k);
    assert(t[0] == field[0]);
    lemma_digits(t, field, k);
}

/// Where the header of the member `n` of an archive stands, if its members have some sizes: the
/// first behind the magic number, and each further one behind the contents of the one before it,
/// at an even place.
pub open spec fn member_place(sizes: Seq<nat>, n: nat) -> int
    decreases n,
{
    if n == 0 {
        8
    } else {
        let end = member_place(sizes, (n - 1) as nat) + 60 + sizes[n - 1];
        end + end % 2
    }
}

/// Whether the first `n` members of an archive have some sizes: each header writes out the size of
/// its member.
pub open spec fn has_members(data: Seq<u8>, sizes: Seq<nat>, n: nat) -> bool {
    forall|k: nat|
        #![trigger member_place(sizes, k)]
        k < n ==> {
            let at = member_place(sizes, k);
            &&& at + 60 <= data.len()
            &&& exists|d: nat| #[trigger]
                writes_number(data.subrange(at + 48, at + 58), d, sizes[k as int])
        }
}

proof fn lemma_size_is_read(data: Seq<u8>, at: int, size: nat)
    requires
        0 <= at,
        at + 60 <= data.len(),
        exists|d: nat| #[trigger] writes_number(data.subrange(at + 48, at + 58), d, size),
    ensures
        object::member_size(data, at) == size,
{
    let field = data.subrange(at + 48, at + 58);
    let d = choose|d: nat| #[trigger] writes_number(field, d, size);
    lemma_number_is_read(field, d, size);
    assert forall|j: int| 0 <= j < field.len() implies #[trigger] field[j] < 0x80 by {
        if j < d {
            assert(0x30 <= field[j] <= 0x39);
        } else {
            assert(field[j] == 0x20);
        }
    }
    lemma_ascii_is_valid(field);
}

proof fn lemma_found_stay(
    data: Seq<u8>,
    off: int,
    wanted: Option<u32>,
    found: Seq<MemberModel>,
    m: MemberModel,
)
    requires
        found.contains(m),
    ensures
        object::members_from(data, off, wanted, found).contains(m),
    decreases
            (if off + 60 <= data.len() {
                data.len() - off
            } else {
                0
            }),
{
    if off + 60 <= data.len() {
        let next = match object::member_at(data, off, wanted) {
            Some(x) => found.push(x),
            None => found,
        };
        let i = found.index_of(m);
        assert(next[i] == m);
        lemma_found_stay(data, object::next_member(data, off), wanted, next, m);
    }
}

proof fn lemma_place_bounds(sizes: Seq<nat>, n: nat)
    ensures
        member_place(sizes, n) >= 8,
    decreases n,
{
    if n > 0 {
        lemma_place_bounds(sizes, (n - 1) as nat);
    }
}

/// Walking over the members leads to the member `n`.
proof fn lemma_member_is_reached(
    data: Seq<u8>,
    wanted: Option<u32>,
    sizes: Seq<nat>,
    i: nat,
    n: nat,
    found: Seq<MemberModel>,
)
    requires
        i <= n,
        has_members(data, sizes, n),
        member_place(sizes, n) + 60 <= data.len(),
        object::member_at(data, member_place(sizes, n), wanted) is Some,
    ensures
        object::members_from(data, member_place(sizes, i), wanted, found).contains(
            object::member_at(data, member_place(sizes, n), wanted)->0,
        ),
    decreases n - i,
{
    let at = member_place(sizes, i);
    let next = match object::member_at(data, at, wanted) {
        Some(x) => found.push(x),
        None => found,
    };
    lemma_place_bounds(sizes, i);
    if i < n {
        lemma_size_is_read(data, at, sizes[i as int]);
        assert(object::next_member(data, at) == member_place(sizes, i + 1));
        lemma_member_is_reached(data, wanted, sizes, i + 1, n, next);
    } else {
        let m = object::member_at(data, at, wanted)->0;
        assert(next[found.len() as int] == m);
        lemma_found_stay(data, object::next_member(data, at), wanted, next, m);
    }
}

proof fn lemma_trim_keeps_first(s: Seq<u8>, c: u8)
    requires
        s.len() > 0,
        s[0] != c,
    ensures
        object::trim_end(s, c).len() > 0,
        object::trim_end(s, c).len() <= s.len(),
        forall|j: int|
            0 <= j < object::trim_end(s, c).len() ==> #[trigger] object::trim_end(s, c)[j] == s[j],
    decreases s.len(),
{
    if s.last() == c {
        lemma_trim_keeps_first(s.drop_last(), c);
    }
}

/// The object in a member whose header writes out its size, and a name that is not kept in its
/// contents, is what stands behind the header.
proof fn lemma_plain_member(data: Seq<u8>, wanted: Option<u32>, at: int, size: nat)
    requires
        0 <= at,
        size > 0,
        at + 60 + size <= data.len(),
        exists|d: nat| #[trigger] writes_number(data.subrange(at + 48, at + 58), d, size),
        forall|j: int| at <= j < at + 16 ==> #[trigger] data[j] < 0x80,
        data[at] != 0x20,
        data[at] != 0x2f,
        data[at] != 0x23,
        object::normalized(data.subrange(at + 60, at + 60 + size), wanted) == data.subrange(
            at + 60,
            at + 60 + size,
        ),
        object::is_object(data.subrange(at + 60, at + 60 + size)),
    ensures
        ({
            let object = data.subrange(at + 60, at + 60 + size);
            object::member_at(data, at, wanted) == Some(
                MemberModel { data: object, symbols: object::object_summary(object) },
            )
        }),
{
    let raw = data.subrange(at, at + 16);
    lemma_size_is_read(data, at, size);
    assert forall|j: int| 0 <= j < raw.len() implies #[trigger] raw[j] < 0x80 by {
        assert(data[at + j] < 0x80);
    }
    lemma_ascii_is_valid(raw);
    assert(raw[0] == data[at]);
    lemma_trim_keeps_first(raw, 0x20);
    let once = object::trim_end(raw, 0x20);
    assert(once[0] == raw[0]);
    lemma_trim_keeps_first(once, 0x2f);
    let name = object::member_name(data, at);
    assert(name[0] == raw[0]);
}

/// An object that is a member of an archive is read from it, with the names that it defines and
/// needs: the bytes behind its header, as many as the header says. The members before it may have
/// any sizes; each starts at an even place.
pub proof fn law_archive_members_are_read(
    data: Seq<u8>,
    wanted: Option<u32>,
    sizes: Seq<nat>,
    n: nat,
)
    requires
        data.len() >= 8,
        data.subrange(0, 8) == seq![
            0x21u8,
            0x3cu8,
            0x61u8,
            0x72u8,
            0x63u8,
            0x68u8,
            0x3eu8,
            0x0au8,
        ],
        n < sizes.len(),
        has_members(data, sizes, n + 1),
        sizes[n as int] > 0,
        ({
            let at = member_place(sizes, n);
            let object = data.subrange(at + 60, at + 60 + sizes[n as int]);
            &&& at + 60 + sizes[n as int] <= data.len()
            &&& forall|j: int| at <= j < at + 16 ==> #[trigger] data[j] < 0x80
            &&& data[at] != 0x20 && data[at] != 0x2f && data[at] != 0x23
            &&& object::normalized(object, wanted) == object
            &&& object::is_object(object)
        }),
    ensures
        ({
            let at = member_place(sizes, n);
            let object = data.subrange(at + 60, at + 60 + sizes[n as int]);
            object::archive_members(data, wanted).contains(
                MemberModel { data: object, symbols: object::object_summary(object) },
            )
        }),
{
    let at = member_place(sizes, n);
    let start = data.subrange(0, 8);
    assert(start[0] == data[0] && start[1] == data[1] && start[2] == data[2] && start[3]
        == data[3]);
    assert(start[4] == data[4] && start[5] == data[5] && start[6] == data[6] && start[7]
        == data[7]);
    lemma_place_bounds(sizes, n);
    assert(has_members(data, sizes, n)) by {
        assert forall|k: nat|
            #![trigger member_place(sizes, k)]
            k < n implies {
            let at = member_place(sizes, k);
            &&& at + 60 <= data.len()
            &&& exists|d: nat| #[trigger]
                writes_number(data.subrange(at + 48, at + 58), d, sizes[k as int])
        } by {
            assert(k < n + 1);
        }
    }
    lemma_plain_member(data, wanted, at, sizes[n as int]);
    let none: Seq<MemberModel> = seq![];
    lemma_member_is_reached(data, wanted, sizes, 0, n, none);
}

} // verus!

//! Integers of variable length.
use vstd::prelude::*;
use vstd::arithmetic::power2::*;

verus! {

/// An unsigned integer, seven bits a byte, the low ones first; all bytes but the last have their
/// top bit set.
pub open spec fn uleb(v: nat) -> Seq<u8>
    decreases v,
{
    if v < 128 {
        seq![v as u8]
    } else {
        seq![(v % 128 + 128) as u8] + uleb(v / 128)
    }
}

/// A signed integer, seven bits a byte, the low ones first; all bytes but the last have their top
/// bit set, and the next bit of the last one is the sign.
pub open spec fn sleb(v: int) -> Seq<u8>
    decreases
            (if v >= 0 {
                v
            } else {
                -v
            }),
{
    let low = v % 128;
    let rest = v / 128;
    if rest == 0 && low < 64 || rest == -1 && low >= 64 {
        seq![low as u8]
    } else {
        seq![(low + 128) as u8] + sleb(rest)
    }
}

/// The unsigned integer that bytes stand for.
pub open spec fn uleb_value(s: Seq<u8>) -> nat
    decreases s.len(),
{
    if s.len() == 0 {
        0
    } else if s[0] < 128 {
        s[0] as nat
    } else {
        (s[0] - 128) as nat + 128 * uleb_value(s.drop_first())
    }
}

/// The signed integer that bytes stand for.
pub open spec fn sleb_value(s: Seq<u8>) -> int
    decreases s.len(),
{
    if s.len() == 0 {
        0
    } else if s[0] < 64 {
        s[0] as int
    } else if s[0] < 128 {
        s[0] - 128
    } else {
        s[0] - 128 + 128 * sleb_value(s.drop_first())
    }
}

/// An unsigned integer is read back from its bytes.
pub proof fn law_uleb_round_trip(v: nat)
    ensures
        uleb_value(uleb(v)) == v,
        uleb(v).len() > 0,
        uleb(v).last() < 128,
        forall|i: int| 0 <= i < uleb(v).len() - 1 ==> uleb(v)[i] >= 128,
    decreases v,
{
    if v >= 128 {
        law_uleb_round_trip(v / 128);
        let rest = uleb(v / 128);
        let s = uleb(v);
        assert(s.drop_first() =~= rest);
        assert(s.last() == rest.last());
        assert forall|i: int| 0 <= i < s.len() - 1 implies s[i] >= 128 by {
            if i > 0 {
                assert(s[i] == rest[i - 1]);
            }
        }
    }
}

/// A signed integer is read back from its bytes.
pub proof fn law_sleb_round_trip(v: int)
    ensures
        sleb_value(sleb(v)) == v,
        sleb(v).len() > 0,
    decreases
            (if v >= 0 {
                v
            } else {
                -v
            }),
{
    let low = v % 128;
    let rest = v / 128;
    if !(rest == 0 && low < 64 || rest == -1 && low >= 64) {
        law_sleb_round_trip(rest);
        assert(sleb(v).drop_first() =~= sleb(rest));
    }
}

/// Appends an unsigned integer.
pub fn push_uleb128(buf: &mut Vec<u8>, val: u64)
    ensures
        final(buf)@ == old(buf)@ + uleb(val as nat),
{
    let mut v: u64 = val;
    let ghost mut head: Seq<u8> = seq![];
    assert(head + uleb(val as nat) =~= uleb(val as nat));
    while v >= 128
        invariant
            buf@ == old(buf)@ + head,
            head + uleb(v as nat) == uleb(val as nat),
        decreases v,
    {
        let b: u8 = (v % 128) as u8 + 128;
        let ghost next = head.push(b);
        buf.push(b);
        proof {
            assert(buf@ =~= old(buf)@ + next);
            assert(next + uleb((v / 128) as nat) =~= head + uleb(v as nat));
            head = next;
        }
        v = v / 128;
    }
    buf.push(v as u8);
    assert(buf@ =~= old(buf)@ + (head + uleb(v as nat)));
}

/// Appends a signed integer.
pub fn push_sleb128(buf: &mut Vec<u8>, val: i64)
    ensures
        final(buf)@ == old(buf)@ + sleb(val as int),
{
    let mut v: i64 = val;
    let ghost mut head: Seq<u8> = seq![];
    assert(head + sleb(val as int) =~= sleb(val as int));
    loop
        invariant_except_break
            buf@ == old(buf)@ + head,
            head + sleb(v as int) == sleb(val as int),
        ensures
            buf@ == old(buf)@ + sleb(val as int),
        decreases
                (if v >= 0 {
                    v as int
                } else {
                    -(v as int)
                }),
    {
        let low: i64 = v & 0x7f;
        let rest: i64 = v >> 7;
        assert(v == rest * 128 + low && 0 <= low && low < 128 && -0x0100_0000_0000_0000 <= rest
            && rest < 0x0100_0000_0000_0000) by (bit_vector)
            requires
                low == v & 0x7f,
                rest == v >> 7,
        ;
        assert(low == (v as int) % 128 && rest == (v as int) / 128);
        if rest == 0 && low < 64 || rest == -1 && low >= 64 {
            buf.push(low as u8);
            assert(buf@ =~= old(buf)@ + (head + sleb(v as int)));
            break;
        }
        let b: u8 = low as u8 + 128;
        let ghost next = head.push(b);
        buf.push(b);
        proof {
            assert(buf@ =~= old(buf)@ + next);
            assert(next + sleb(rest as int) =~= head + sleb(v as int));
            head = next;
        }
        v = rest;
    }
}

/// How many bytes an unsigned integer takes.
pub fn uleb128_size(val: u64) -> (r: usize)
    ensures
        r == uleb(val as nat).len(),
        r <= 10,
{
    let mut v: u64 = val;
    let mut n: usize = 1;
    proof {
        lemma2_to64();
        lemma_pow2_strictly_increases(64, 70);
        lemma_uleb_len(val as nat, 9);
    }
    while v >= 0x80
        invariant
            n + uleb(v as nat).len() == uleb(val as nat).len() + 1,
            1 <= uleb(v as nat).len(),
            uleb(val as nat).len() <= 10,
        decreases v,
    {
        let ghost rest = uleb((v / 128) as nat);
        assert(uleb(v as nat).len() == 1 + rest.len());
        proof {
            law_uleb_round_trip((v / 128) as nat);
        }
        v = v / 128;
        n = n + 1;
    }
    n
}

proof fn lemma_uleb_len(v: nat, k: nat)
    requires
        v < pow2(7 * (k + 1)),
    ensures
        1 <= uleb(v).len() <= k + 1,
    decreases k,
{
    lemma2_to64();
    if v >= 128 {
        assert(k > 0);
        lemma_pow2_adds(7, 7 * k);
        let p = pow2(7 * k);
        assert(v < 128 * p);
        assert(v / 128 < p);
        assert(7 * k == 7 * ((k - 1) as nat + 1));
        lemma_uleb_len(v / 128, (k - 1) as nat);
    }
}

} // verus!

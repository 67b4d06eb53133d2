//! What the loader does when it runs the programs for pointers and imports.
use vstd::prelude::*;
use vstd::string::*;
use vstd::utf8::*;
use crate::bytes;
use crate::emit::leb;
use crate::emit::opcodes;
use crate::order;

verus! {

/// How many bytes the variable-length integer at the start of `s` takes.
pub open spec fn leb_len(s: Seq<u8>) -> nat
    decreases s.len(),
{
    if s.len() == 0 {
        0
    } else if s[0] < 128 {
        1
    } else {
        1 + leb_len(s.drop_first())
    }
}

/// A variable-length integer ends with the bytes.
pub proof fn lemma_leb_len(s: Seq<u8>)
    ensures
        leb_len(s) <= s.len(),
    decreases s.len(),
{
    if s.len() > 0 && s[0] >= 128 {
        lemma_leb_len(s.drop_first());
    }
}

proof fn lemma_uleb_in_front(v: nat, tail: Seq<u8>)
    ensures
        leb_len(leb::uleb(v) + tail) == leb::uleb(v).len(),
        leb::uleb_value(leb::uleb(v) + tail) == v,
        (leb::uleb(v) + tail).skip(leb::uleb(v).len() as int) == tail,
    decreases v,
{
    let s = leb::uleb(v) + tail;
    assert(s.skip(leb::uleb(v).len() as int) =~= tail);
    if v >= 128 {
        lemma_uleb_in_front(v / 128, tail);
        assert(s.drop_first() =~= leb::uleb(v / 128) + tail);
    }
}

/// `count` offsets, eight apart, from `at` on.
pub open spec fn pointers_from(at: nat, count: nat) -> Seq<nat> {
    Seq::new(count, |i: int| (at + 8 * i) as nat)
}

/// The offsets that the loader adjusts when it runs a program from the offset `at` on.
pub open spec fn rebased(program: Seq<u8>, at: nat) -> Seq<nat>
    decreases program.len(),
{
    if program.len() == 0 {
        seq![]
    } else {
        let command = program[0] / 16;
        let operand = (program[0] % 16) as nat;
        let rest = program.drop_first();
        let n = leb_len(rest) as int;
        proof {
            lemma_leb_len(rest);
        }
        if command == 1 {
            rebased(rest, at)
        } else if command == 2 {
            rebased(rest.skip(n), leb::uleb_value(rest))
        } else if command == 5 {
            pointers_from(at, operand) + rebased(rest, at + 8 * operand)
        } else if command == 6 {
            pointers_from(at, leb::uleb_value(rest)) + rebased(
                rest.skip(n),
                at + 8 * leb::uleb_value(rest),
            )
        } else {
            seq![]
        }
    }
}

proof fn lemma_run_steps(offs: Seq<u64>, i: int, j: int)
    requires
        0 <= i < j <= offs.len(),
        forall|k: int| i < k < j ==> #[trigger] offs[k] == offs[i] + 8 * (k - i),
    ensures
        j <= opcodes::run_end(offs, j) <= offs.len(),
        forall|k: int| i < k < opcodes::run_end(offs, j) ==> #[trigger] offs[k] == offs[i]
            + 8 * (k - i),
    decreases offs.len() - j,
{
    if j < offs.len() && offs[j] == offs[j - 1] + 8 {
        assert(offs[j] == offs[i] + 8 * (j - i)) by {
            if j - 1 > i {
                assert(offs[j - 1] == offs[i] + 8 * (j - 1 - i));
            }
        }
        lemma_run_steps(offs, i, j + 1);
    }
}

/// The offsets from `i` on, as numbers.
pub open spec fn offsets_from(offs: Seq<u64>, i: int) -> Seq<nat> {
    Seq::new((offs.len() - i) as nat, |k: int| offs[i + k] as nat)
}

proof fn lemma_one_run(segment: u32, start: u64, count: nat, tail: Seq<u8>, at: nat)
    ensures
        rebased(opcodes::rebase_run(segment, start, count) + tail, at) == pointers_from(start as nat, count)
            + rebased(tail, start as nat + 8 * count),
{
    let order: Seq<u8> = if count <= 15 {
        seq![(0x50 + count) as u8]
    } else {
        seq![0x60u8] + leb::uleb(count)
    };
    let after = order + tail;
    let program = opcodes::rebase_run(segment, start, count) + tail;
    let v = leb::uleb(start as nat);
    lemma_on_segment(segment);
    assert(program[0] == opcodes::on_segment(0x20, segment));
    assert(program.drop_first() =~= v + after);
    lemma_uleb_in_front(start as nat, after);
    assert(rebased(program, at) == rebased(after, start as nat));
    if count <= 15 {
        assert(after[0] == (0x50 + count) as u8);
        assert(after.drop_first() =~= tail);
    } else {
        assert(after[0] == 0x60u8);
        assert(after.drop_first() =~= leb::uleb(count) + tail);
        lemma_uleb_in_front(count, tail);
    }
}

proof fn lemma_runs(segment: u32, offs: Seq<u64>, i: int, at: nat)
    requires
        0 <= i <= offs.len(),
    ensures
        rebased(opcodes::rebase_runs(segment, offs, i) + seq![0u8], at) == offsets_from(offs, i),
    decreases offs.len() - i,
{
    let stop = seq![0u8];
    if i == offs.len() {
        assert(opcodes::rebase_runs(segment, offs, i) + stop =~= stop);
        assert(rebased(stop, at) =~= offsets_from(offs, i));
    } else {
        lemma_run_steps(offs, i, i + 1);
        let end = opcodes::run_end(offs, i + 1);
        let count = (end - i) as nat;
        let start = offs[i] as nat;
        let tail = opcodes::rebase_runs(segment, offs, end) + stop;
        let program = opcodes::rebase_runs(segment, offs, i) + stop;
        assert(program =~= opcodes::rebase_run(segment, offs[i], count) + tail);
        lemma_one_run(segment, offs[i], count, tail, at);
        lemma_runs(segment, offs, end, start + 8 * count);
        assert(offsets_from(offs, i) =~= pointers_from(start, count) + offsets_from(offs, end)) by {
            assert forall|k: int| 0 <= k < count implies #[trigger] offs[i + k] == start
                + 8 * k by {
                if k > 0 {
                    assert(offs[i + k] == offs[i] + 8 * (i + k - i));
                }
            }
        }
    }
}

proof fn lemma_on_segment(segment: u32)
    ensures
        opcodes::on_segment(0x20, segment) / 16 == 2,
        opcodes::on_segment(0x70, segment) / 16 == 7,
{
    let b = segment as u8;
    assert((0x20u8 | (b & 0x0F)) / 16 == 2 && (0x70u8 | (b & 0x0F)) / 16 == 7) by (bit_vector);
}

/// The program for the pointers adjusts each of them once, in ascending order, and nothing else.
pub proof fn law_rebase_program_adjusts_pointers(segment: u32, offs: Seq<u64>)
    ensures
        rebased(opcodes::rebase_program(segment, offs), 0) == offsets_from(
            opcodes::ascending(offs, offs.len()),
            0,
        ),
{
    let sorted = opcodes::ascending(offs, offs.len());
    if offs.len() == 0 {
        assert(rebased(opcodes::rebase_program(segment, offs), 0) =~= offsets_from(sorted, 0));
    } else {
        let runs = opcodes::rebase_runs(segment, sorted, 0) + seq![0u8];
        assert(opcodes::rebase_program(segment, offs) =~= seq![0x11u8] + runs);
        assert(opcodes::rebase_program(segment, offs).drop_first() =~= runs);
        lemma_runs(segment, sorted, 0, 0);
    }
}

/// The pointers that are adjusted are the given ones: their offsets stand in ascending order, each
/// once.
pub proof fn law_ascending_keeps_offsets(offs: Seq<u64>, n: nat, x: u64)
    requires
        n <= offs.len(),
    ensures
        order::addrs_ascend(opcodes::ascending(offs, n)),
        opcodes::ascending(offs, n).contains(x) <==> offs.subrange(0, n as int).contains(x),
    decreases n,
{
    let s = opcodes::ascending(offs, n);
    if n > 0 {
        law_ascending_keeps_offsets(offs, (n - 1) as nat, x);
        order::law_insert_addr(opcodes::ascending(offs, (n - 1) as nat), offs[n - 1], x);
        let a = offs.subrange(0, n - 1);
        let b = offs.subrange(0, n as int);
        assert(b =~= a.push(offs[n - 1]));
        if a.contains(x) {
            let i = a.index_of(x);
            assert(b[i] == x);
        }
        if b.contains(x) && x != offs[n - 1] {
            let i = b.index_of(x);
            assert(a[i] == x);
        }
        assert(b[n - 1] == offs[n - 1]);
    }
}

/// A place that the loader fills: the symbol's name, whether it may be missing, where it goes, and
/// what is added to its address.
pub struct Bound {
    pub name: Seq<u8>,
    pub weak: bool,
    pub at: nat,
    pub addend: int,
}

/// The places that the loader fills when it runs a program from a state on.
pub open spec fn bound_places(program: Seq<u8>, st: Bound) -> Seq<Bound>
    decreases program.len(),
{
    if program.len() == 0 {
        seq![]
    } else {
        let command = program[0] / 16;
        let operand = program[0] % 16;
        let rest = program.drop_first();
        let n = leb_len(rest) as int;
        let zero = bytes::first_zero(rest, 0);
        proof {
            lemma_leb_len(rest);
        }
        if command == 3 || command == 5 {
            bound_places(rest, st)
        } else if command == 4 {
            if 0 <= zero < rest.len() {
                bound_places(
                    rest.skip(zero + 1),
                    Bound { name: rest.take(zero), weak: operand % 2 == 1, ..st },
                )
            } else {
                seq![]
            }
        } else if command == 6 {
            bound_places(rest.skip(n), Bound { addend: leb::sleb_value(rest), ..st })
        } else if command == 7 {
            bound_places(rest.skip(n), Bound { at: leb::uleb_value(rest), ..st })
        } else if command == 9 {
            seq![st] + bound_places(rest, Bound { at: st.at + 8, ..st })
        } else {
            seq![]
        }
    }
}

proof fn lemma_sleb_in_front(v: int, tail: Seq<u8>)
    ensures
        leb_len(leb::sleb(v) + tail) == leb::sleb(v).len(),
        leb::sleb_value(leb::sleb(v) + tail) == v,
        (leb::sleb(v) + tail).skip(leb::sleb(v).len() as int) == tail,
    decreases
            (if v >= 0 {
                v
            } else {
                -v
            }),
{
    let s = leb::sleb(v) + tail;
    let low = v % 128;
    let rest = v / 128;
    assert(s.skip(leb::sleb(v).len() as int) =~= tail);
    if !(rest == 0 && low < 64 || rest == -1 && low >= 64) {
        lemma_sleb_in_front(rest, tail);
        assert(s.drop_first() =~= leb::sleb(rest) + tail);
    }
}

/// Whether no byte of a name is zero.
pub open spec fn no_zero(name: Seq<char>) -> bool {
    forall|i: int| 0 <= i < encode_utf8(name).len() ==> #[trigger] encode_utf8(name)[i] != 0
}

proof fn lemma_zero_behind(s: Seq<u8>, t: Seq<u8>, i: int)
    requires
        forall|k: int| 0 <= k < s.len() ==> #[trigger] s[k] != 0,
        t.len() > 0,
        t[0] == 0,
        0 <= i <= s.len(),
    ensures
        bytes::first_zero(s + t, i) == s.len(),
    decreases s.len() - i,
{
    if i < s.len() {
        assert((s + t)[i] == s[i]);
        lemma_zero_behind(s, t, i + 1);
    } else {
        assert((s + t)[i] == t[0]);
    }
}

proof fn lemma_bind_head(segment: u32, name: Seq<char>, weak: bool, off: u64, tail: Seq<u8>, st: Bound)
    requires
        no_zero(name),
    ensures
        bound_places(opcodes::bind_head(segment, name, weak, off) + tail, st) == bound_places(
            tail,
            Bound { name: encode_utf8(name), weak, at: off as nat, addend: st.addend },
        ),
{
    let program = opcodes::bind_head(segment, name, weak, off) + tail;
    let b = encode_utf8(name);
    let v = leb::uleb(off as nat);
    let last = seq![0x51u8] + tail;
    let command = opcodes::on_segment(0x70, segment);
    lemma_on_segment(segment);
    let place = seq![command] + (v + last);
    let rest = program.drop_first();
    assert(program[0] == if weak { 0x41u8 } else { 0x40u8 });
    assert(rest =~= b + (seq![0u8] + place));
    lemma_zero_behind(b, seq![0u8] + place, 0);
    assert(rest.take(b.len() as int) =~= b);
    assert(rest.skip(b.len() as int + 1) =~= place);
    let named = Bound { name: b, weak, ..st };
    assert(bound_places(program, st) == bound_places(place, named));
    assert(place[0] == command);
    assert(place.drop_first() =~= v + last);
    lemma_uleb_in_front(off as nat, last);
    let placed = Bound { at: off as nat, ..named };
    assert(bound_places(place, named) == bound_places(last, placed));
    assert(last[0] == 0x51u8);
    assert(last.drop_first() =~= tail);
}

/// What the slots of the first `n` imported names are filled with.
pub open spec fn filled_slots(names: Seq<Seq<char>>, weak: Seq<Seq<char>>, got: u64, n: nat) -> Seq<
    Bound,
> {
    Seq::new(
        n,
        |i: int|
            Bound {
                name: encode_utf8(names[i]),
                weak: weak.contains(names[i]),
                at: got.wrapping_add((i as u64).wrapping_mul(8)) as nat,
                addend: 0,
            },
    )
}

/// What the first `n` other places are filled with.
pub open spec fn filled_places(binds: Seq<(u64, Seq<char>, bool, i64)>, n: nat) -> Seq<Bound> {
    Seq::new(
        n,
        |i: int|
            Bound {
                name: encode_utf8(binds[i].1),
                weak: binds[i].2,
                at: binds[i].0 as nat,
                addend: binds[i].3 as int,
            },
    )
}

proof fn lemma_slot_binds(
    segment: u32,
    names: Seq<Seq<char>>,
    weak: Seq<Seq<char>>,
    got: u64,
    n: nat,
    tail: Seq<u8>,
    st: Bound,
) -> (left: Bound)
    requires
        n <= names.len(),
        forall|i: int| 0 <= i < n ==> no_zero(#[trigger] names[i]),
        st.addend == 0,
    ensures
        left.addend == 0,
        bound_places(opcodes::slot_binds(segment, names, weak, got, n) + tail, st)
            == filled_slots(names, weak, got, n)
            + bound_places(tail, left),
    decreases n,
{
    if n == 0 {
        assert(opcodes::slot_binds(segment, names, weak, got, n) + tail =~= tail);
        assert(filled_slots(names, weak, got, n)
            + bound_places(tail, st) =~= bound_places(tail, st));
        st
    } else {
        let i = (n - 1) as nat;
        let name = names[i as int];
        let off = got.wrapping_add((i as u64).wrapping_mul(8));
        let head = opcodes::bind_head(segment, name, weak.contains(name), off);
        let last = seq![0x90u8] + tail;
        let before = opcodes::slot_binds(segment, names, weak, got, i);
        assert(opcodes::slot_binds(segment, names, weak, got, n) + tail =~= before + (head + last));
        let mid = lemma_slot_binds(segment, names, weak, got, i, head + last, st);
        lemma_bind_head(segment, name, weak.contains(name), off, last, mid);
        let here = Bound {
            name: encode_utf8(name),
            weak: weak.contains(name),
            at: off as nat,
            addend: 0,
        };
        let left = Bound { at: here.at + 8, ..here };
        assert(last[0] == 0x90u8);
        assert(last.drop_first() =~= tail);
        assert(bound_places(last, here) == seq![here] + bound_places(tail, left));
        assert(filled_slots(names, weak, got, i) + (seq![here] + bound_places(tail, left))
            =~= filled_slots(names, weak, got, n) + bound_places(tail, left));
        left
    }
}

/// Whether no place without an addend comes behind one that has one.
pub open spec fn addends_stay(binds: Seq<(u64, Seq<char>, bool, i64)>) -> bool {
    forall|i: int, j: int|
        0 <= i < j < binds.len() && (#[trigger] binds[i]).3 != 0 ==> (#[trigger] binds[j]).3 != 0
}

proof fn lemma_direct_binds(
    segment: u32,
    binds: Seq<(u64, Seq<char>, bool, i64)>,
    n: nat,
    tail: Seq<u8>,
    st: Bound,
) -> (left: Bound)
    requires
        n <= binds.len(),
        forall|i: int| 0 <= i < n ==> no_zero((#[trigger] binds[i]).1),
        addends_stay(binds),
        st.addend == 0,
    ensures
        left.addend == if n == 0 {
            0
        } else {
            binds[n - 1].3 as int
        },
        bound_places(opcodes::direct_binds(segment, binds, n) + tail, st) == filled_places(binds, n)
            + bound_places(tail, left),
    decreases n,
{
    if n == 0 {
        assert(opcodes::direct_binds(segment, binds, n) + tail =~= tail);
        assert(filled_places(binds, n) + bound_places(tail, st) =~= bound_places(tail, st));
        st
    } else {
        let i = (n - 1) as nat;
        let (off, name, weak, addend) = binds[i as int];
        let head = opcodes::bind_head(segment, name, weak, off);
        let last = seq![0x90u8] + tail;
        let middle = if addend != 0 {
            seq![0x60u8] + leb::sleb(addend as int)
        } else {
            seq![]
        };
        let rest = middle + last;
        assert(opcodes::direct_binds(segment, binds, n) + tail =~= opcodes::direct_binds(segment, binds, i)
            + (head + rest));
        let mid = lemma_direct_binds(segment, binds, i, head + rest, st);
        lemma_bind_head(segment, name, weak, off, rest, mid);
        let named = Bound { name: encode_utf8(name), weak, at: off as nat, addend: mid.addend };
        let here = Bound { addend: addend as int, ..named };
        if addend != 0 {
            assert(rest[0] == 0x60u8);
            assert(rest.drop_first() =~= leb::sleb(addend as int) + last);
            lemma_sleb_in_front(addend as int, last);
        } else {
            assert(rest =~= last);
            if n > 1 {
                assert(binds[n - 2].3 == 0);
            }
        }
        assert(bound_places(rest, named) == bound_places(last, here));
        let left = Bound { at: here.at + 8, ..here };
        assert(last[0] == 0x90u8);
        assert(last.drop_first() =~= tail);
        assert(filled_places(binds, i) + (seq![here] + bound_places(tail, left)) =~= filled_places(
            binds,
            n,
        ) + bound_places(tail, left));
        left
    }
}

/// The program for the imports fills the slot of each imported name and then each other place,
/// once and in their order, and nothing else. The loader keeps an addend until the next one, so
/// this is stated for places of which none without an addend comes behind one with an addend.
pub proof fn law_bind_program_fills_places(
    names: Seq<Seq<char>>,
    weak: Seq<Seq<char>>,
    segment: u32,
    got: u64,
    binds: Seq<(u64, Seq<char>, bool, i64)>,
    st: Bound,
)
    requires
        forall|i: int| 0 <= i < names.len() ==> no_zero(#[trigger] names[i]),
        forall|i: int| 0 <= i < binds.len() ==> no_zero((#[trigger] binds[i]).1),
        addends_stay(binds),
        st.addend == 0,
    ensures
        bound_places(opcodes::bind_program(names, weak, segment, got, binds), st) == filled_slots(
            names,
            weak,
            got,
            names.len(),
        ) + filled_places(binds, binds.len()),
{
    let slots = filled_slots(names, weak, got, names.len());
    let places = filled_places(binds, binds.len());
    if names.len() == 0 && binds.len() == 0 {
        assert(bound_places(opcodes::bind_program(names, weak, segment, got, binds), st) =~= slots + places);
    } else {
        let stop = seq![0u8];
        let directs = opcodes::direct_binds(segment, binds, binds.len()) + stop;
        let rest = opcodes::slot_binds(segment, names, weak, got, names.len()) + directs;
        let program = opcodes::bind_program(names, weak, segment, got, binds);
        assert(program[0] == 0x3eu8);
        assert(program.drop_first() =~= rest);
        let mid = lemma_slot_binds(segment, names, weak, got, names.len(), directs, st);
        let left = lemma_direct_binds(segment, binds, binds.len(), stop, mid);
        assert(bound_places(stop, left) =~= seq![]);
        assert(places + bound_places(stop, left) =~= places);
    }
}

} // verus!

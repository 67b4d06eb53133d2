//! The programs by which the dynamic linker of macOS adjusts an image: which
//! pointers move with it, and which are filled with the addresses of symbols.
use vstd::prelude::*;
use vstd::utf8::*;
use crate::bytes::push_bytes;
use crate::emit::leb;
use crate::emit::leb::{push_sleb128, push_uleb128};
use crate::model;
use crate::names::NameSet;
use crate::order;
use crate::order::add_addr;

verus! {

/// The position behind the run of pointers, eight bytes apart, that `j - 1` belongs to.
pub open spec fn run_end(offs: Seq<u64>, j: int) -> int
    decreases offs.len() - j,
{
    if j < 1 || j >= offs.len() || offs[j] != offs[j - 1] + 8 {
        j
    } else {
        run_end(offs, j + 1)
    }
}

/// A run ends behind its first pointer.
pub proof fn lemma_run_end(offs: Seq<u64>, j: int)
    requires
        1 <= j <= offs.len(),
    ensures
        j <= run_end(offs, j) <= offs.len(),
    decreases offs.len() - j,
{
    if j < offs.len() && offs[j] == offs[j - 1] + 8 {
        lemma_run_end(offs, j + 1);
    }
}

/// A command that works on a segment: the segment's number stands in its low bits.
pub open spec fn on_segment(command: u8, segment: u32) -> u8 {
    command | ((segment as u8) & 0x0F)
}

/// The commands for a run of `count` pointers from `start` on.
pub open spec fn rebase_run(segment: u32, start: u64, count: nat) -> Seq<u8> {
    seq![on_segment(0x20, segment)] + leb::uleb(start as nat) + if count <= 15 {
        seq![(0x50 + count) as u8]
    } else {
        seq![0x60u8] + leb::uleb(count)
    }
}

/// The commands for the pointers from `i` on.
pub open spec fn rebase_runs(segment: u32, offs: Seq<u64>, i: int) -> Seq<u8>
    decreases offs.len() - i,
{
    if i < 0 || i >= offs.len() {
        seq![]
    } else {
        let end = run_end(offs, i + 1);
        proof {
            lemma_run_end(offs, i + 1);
        }
        rebase_run(segment, offs[i], (end - i) as nat) + rebase_runs(segment, offs, end)
    }
}

/// The first `n` offsets, in ascending order, each once.
pub open spec fn ascending(offs: Seq<u64>, n: nat) -> Seq<u64>
    decreases n,
{
    if n == 0 {
        seq![]
    } else {
        order::insert_addr(ascending(offs, (n - 1) as nat), offs[n - 1])
    }
}

/// The program that adjusts the pointers at the given offsets in a segment.
pub open spec fn rebase_program(segment: u32, offs: Seq<u64>) -> Seq<u8> {
    if offs.len() == 0 {
        seq![]
    } else {
        seq![0x11u8] + rebase_runs(segment, ascending(offs, offs.len()), 0) + seq![0u8]
    }
}

/// Builds the program that adjusts the pointers at the given offsets in a segment.
pub fn build_rebase_opcodes(data_segment_index: u32, pointer_offsets: &Vec<u64>) -> (r: Vec<u8>)
    ensures
        r@ == rebase_program(data_segment_index, pointer_offsets@),
{
    let ghost segment = data_segment_index;
    let command: u8 = 0x20u8 | ((data_segment_index as u8) & 0x0F);
    let mut buf: Vec<u8> = Vec::new();
    if pointer_offsets.len() == 0 {
        assert(buf@ =~= seq![]);
        return buf;
    }
    let mut offs: Vec<u64> = Vec::new();
    let mut k: usize = 0;
    while k < pointer_offsets.len()
        invariant
            k <= pointer_offsets@.len(),
            offs@ == ascending(pointer_offsets@, k as nat),
        decreases pointer_offsets@.len() - k,
    {
        add_addr(&mut offs, pointer_offsets[k]);
        k = k + 1;
    }
    let n: usize = offs.len();
    buf.push(0x11);
    let mut i: usize = 0;
    let ghost mut head: Seq<u8> = seq![];
    assert(buf@ =~= seq![0x11u8] + head);
    assert(head + rebase_runs(segment, offs@, 0) =~= rebase_runs(segment, offs@, 0));
    while i < n
        invariant
            i <= n,
            n == offs@.len(),
            segment == data_segment_index,
            command == on_segment(0x20, segment),
            buf@ == seq![0x11u8] + head,
            head + rebase_runs(segment, offs@, i as int) == rebase_runs(segment, offs@, 0),
        decreases n - i,
    {
        let start: u64 = offs[i];
        let mut j: usize = i + 1;
        while j < n && offs[j - 1] <= u64::MAX - 8 && offs[j] == offs[j - 1] + 8
            invariant
                i < j <= n,
                n == offs@.len(),
                run_end(offs@, i + 1) == run_end(offs@, j as int),
            decreases n - j,
        {
            j = j + 1;
        }
        let count: usize = j - i;
        let ghost before = buf@;
        buf.push(command);
        assert(buf@ =~= before + seq![command]);
        push_uleb128(&mut buf, start);
        if count <= 15 {
            let ghost mid = buf@;
            buf.push(0x50 + count as u8);
            assert(buf@ =~= mid + seq![(0x50 + count) as u8]);
        } else {
            let ghost mid = buf@;
            buf.push(0x60);
            assert(buf@ =~= mid + seq![0x60u8]);
            push_uleb128(&mut buf, count as u64);
            assert(buf@ =~= mid + (seq![0x60u8] + leb::uleb(count as nat)));
        }
        proof {
            let run = rebase_run(segment, start, count as nat);
            assert(buf@ =~= before + run);
            assert(run_end(offs@, i + 1) == j);
            let next = head + run;
            assert(buf@ =~= seq![0x11u8] + next);
            assert(next + rebase_runs(segment, offs@, j as int) =~= head + rebase_runs(segment, offs@, i as int));
            head = next;
        }
        i = j;
    }
    buf.push(0);
    assert(head + rebase_runs(segment, offs@, n as int) =~= head);
    assert(buf@ =~= rebase_program(segment, pointer_offsets@));
    buf
}

/// The commands that name a symbol and a place in the data segment.
pub open spec fn bind_head(segment: u32, name: Seq<char>, weak: bool, off: u64) -> Seq<u8> {
    seq![if weak {
        0x41u8
    } else {
        0x40u8
    }] + encode_utf8(name) + seq![0u8, on_segment(0x70, segment)] + leb::uleb(off as nat) + seq![0x51u8]
}

/// The commands for the slots of the first `n` imported names.
pub open spec fn slot_binds(
    segment: u32,
    names: Seq<Seq<char>>,
    weak: Seq<Seq<char>>,
    got: u64,
    n: nat,
) -> Seq<u8>
    decreases n,
{
    if n == 0 {
        seq![]
    } else {
        let i = (n - 1) as nat;
        slot_binds(segment, names, weak, got, i) + bind_head(
            segment,
            names[i as int],
            weak.contains(names[i as int]),
            got.wrapping_add((i as u64).wrapping_mul(8)),
        ) + seq![0x90u8]
    }
}

/// The commands for the first `n` other places.
pub open spec fn direct_binds(
    segment: u32,
    binds: Seq<(u64, Seq<char>, bool, i64)>,
    n: nat,
) -> Seq<u8>
    decreases n,
{
    if n == 0 {
        seq![]
    } else {
        let (off, name, weak, addend) = binds[n - 1];
        direct_binds(segment, binds, (n - 1) as nat) + bind_head(segment, name, weak, off) + (if addend
            != 0 {
            seq![0x60u8] + leb::sleb(addend as int)
        } else {
            seq![]
        }) + seq![0x90u8]
    }
}

/// The program that fills the slots of the imported names and the other places.
pub open spec fn bind_program(
    names: Seq<Seq<char>>,
    weak: Seq<Seq<char>>,
    segment: u32,
    got: u64,
    binds: Seq<(u64, Seq<char>, bool, i64)>,
) -> Seq<u8> {
    if names.len() == 0 && binds.len() == 0 {
        seq![]
    } else {
        seq![0x3eu8] + slot_binds(segment, names, weak, got, names.len()) + direct_binds(
            segment,
            binds,
            binds.len(),
        ) + seq![0u8]
    }
}

fn push_bind_head(buf: &mut Vec<u8>, segment: u32, name: &str, weak: bool, off: u64)
    ensures
        final(buf)@ == old(buf)@ + bind_head(segment, name@, weak, off),
{
    buf.push(
        if weak {
            0x41
        } else {
            0x40
        },
    );
    push_bytes(buf, name.as_bytes());
    buf.push(0);
    buf.push(0x70u8 | ((segment as u8) & 0x0F));
    push_uleb128(buf, off);
    buf.push(0x51);
    assert(buf@ =~= old(buf)@ + bind_head(segment, name@, weak, off));
}

/// Builds the program that fills the slots of the imported names and the other places.
pub fn build_bind_opcodes(
    names: &Vec<String>,
    weak_names: &Vec<String>,
    data_segment_index: u32,
    got: u64,
    binds: &Vec<(u64, String, bool, i64)>,
) -> (r: Vec<u8>)
    ensures
        r@ == bind_program(
            model::views(names@),
            model::views(weak_names@),
            data_segment_index,
            got,
            model::views(binds@),
        ),
{
    let ghost symbols = model::views(names@);
    let ghost weak = model::views(weak_names@);
    let ghost places = model::views(binds@);
    let mut buf: Vec<u8> = Vec::new();
    if names.len() == 0 && binds.len() == 0 {
        assert(buf@ =~= seq![]);
        return buf;
    }
    let mut weak_set = NameSet::new();
    let mut w: usize = 0;
    while w < weak_names.len()
        invariant
            w <= weak_names@.len(),
            weak == model::views(weak_names@),
            forall|x: Seq<char>| #[trigger]
                weak_set@.contains(x) <==> exists|j: int| 0 <= j < w && (#[trigger] weak[j]) == x,
        decreases weak_names@.len() - w,
    {
        let ghost prior = weak_set@;
        assert(weak[w as int] == weak_names@[w as int]@);
        weak_set.insert(weak_names[w].clone());
        assert forall|x: Seq<char>| #[trigger] weak_set@.contains(x) <==> exists|j: int|
            0 <= j < w + 1 && (#[trigger] weak[j]) == x by {
            if x == weak[w as int] {
                assert(weak_set@.contains(x));
            } else {
                assert(weak_set@.contains(x) <==> prior.contains(x));
            }
        }
        w = w + 1;
    }
    assert forall|x: Seq<char>| #[trigger] weak_set@.contains(x) <==> weak.contains(x) by {
        if weak.contains(x) {
            let j = weak.index_of(x);
            assert(weak[j] == x);
        }
    }
    buf.push(0x3e);
    let mut i: usize = 0;
    assert(buf@ =~= seq![0x3eu8] + slot_binds(data_segment_index, symbols, weak, got, 0));
    while i < names.len()
        invariant
            i <= names@.len(),
            symbols == model::views(names@),
            forall|x: Seq<char>| #[trigger] weak_set@.contains(x) <==> weak.contains(x),
            buf@ == seq![0x3eu8] + slot_binds(data_segment_index, symbols, weak, got, i as nat),
        decreases names@.len() - i,
    {
        assert(symbols[i as int] == names@[i as int]@);
        let is_weak: bool = weak_set.contains(names[i].as_str());
        let off: u64 = got.wrapping_add((i as u64).wrapping_mul(8));
        push_bind_head(&mut buf, data_segment_index, names[i].as_str(), is_weak, off);
        buf.push(0x90);
        assert(buf@ =~= seq![0x3eu8] + slot_binds(data_segment_index, symbols, weak, got, (i + 1) as nat));
        i = i + 1;
    }
    let ghost slots = buf@;
    let mut k: usize = 0;
    assert(buf@ =~= slots + direct_binds(data_segment_index, places, 0));
    while k < binds.len()
        invariant
            k <= binds@.len(),
            places == model::views(binds@),
            buf@ == slots + direct_binds(data_segment_index, places, k as nat),
        decreases binds@.len() - k,
    {
        assert(places[k as int] == binds@[k as int]@);
        let b = &binds[k];
        let ghost prior = buf@;
        push_bind_head(&mut buf, data_segment_index, b.1.as_str(), b.2, b.0);
        let ghost mid = buf@;
        if b.3 != 0 {
            buf.push(0x60);
            assert(buf@ =~= mid + seq![0x60u8]);
            push_sleb128(&mut buf, b.3);
            assert(buf@ =~= mid + (seq![0x60u8] + leb::sleb(b.3 as int)));
        }
        buf.push(0x90);
        assert(buf@ =~= slots + direct_binds(data_segment_index, places, (k + 1) as nat));
        k = k + 1;
    }
    buf.push(0);
    assert(buf@ =~= bind_program(symbols, weak, data_segment_index, got, places));
    buf
}

} // verus!

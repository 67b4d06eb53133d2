//! What a loader finds in an export trie.
use vstd::prelude::*;
use crate::emit::exports;
use crate::emit::exports::{Branch, Suffixes, TrieNodeModel};

verus! {

proof fn lemma_trie_prefix(nodes: Seq<TrieNodeModel>, offs: Seq<nat>, i: nat, n: nat)
    requires
        i < n <= nodes.len(),
    ensures
        ({
            let at = exports::trie_bytes(nodes, offs, i).len() as int;
            let own = exports::node_bytes(nodes[i as int], offs);
            &&& at + own.len() <= exports::trie_bytes(nodes, offs, n).len()
            &&& exports::trie_bytes(nodes, offs, n).subrange(at, at + own.len()) == own
        }),
    decreases n,
{
    let at = exports::trie_bytes(nodes, offs, i).len() as int;
    let own = exports::node_bytes(nodes[i as int], offs);
    let all = exports::trie_bytes(nodes, offs, n);
    if i < n - 1 {
        lemma_trie_prefix(nodes, offs, i, (n - 1) as nat);
        let before = exports::trie_bytes(nodes, offs, (n - 1) as nat);
        assert(all.subrange(at, at + own.len()) =~= before.subrange(at, at + own.len()));
    } else {
        assert(all.subrange(at, at + own.len()) =~= own);
    }
}

/// Once the offsets have settled, each node stands where the edges that lead to it say.
pub proof fn law_nodes_stand_at_offsets(nodes: Seq<TrieNodeModel>, k: nat, i: int)
    requires
        exports::passes_settle(nodes, k),
        0 <= i < nodes.len(),
    ensures
        ({
            let offs = exports::passes(nodes, k);
            let own = exports::node_bytes(nodes[i], offs);
            let all = exports::trie_bytes(nodes, offs, nodes.len());
            &&& offs[i] + own.len() <= all.len()
            &&& all.subrange(offs[i] as int, (offs[i] + own.len()) as int) == own
        }),
{
    let offs = exports::passes(nodes, k);
    assert(exports::next_offsets(nodes, offs)[i] == offs[i]);
    lemma_trie_prefix(nodes, offs, i as nat, nodes.len());
}

/// The address of a name; of several the last one.
pub open spec fn last_address(s: Suffixes, name: Seq<u8>) -> Option<u64>
    decreases s.len(),
{
    if s.len() == 0 {
        None
    } else if s.last().0 == name {
        Some(s.last().1)
    } else {
        last_address(s.drop_last(), name)
    }
}

/// Whether a label is what a name starts with.
pub open spec fn starts(label: Seq<u8>, name: Seq<u8>) -> bool {
    label.len() <= name.len() && name.take(label.len() as int) == label
}

/// The first edge from `k` on whose label is what a name starts with.
pub open spec fn matching_edge(edges: Seq<(Seq<u8>, nat)>, name: Seq<u8>, k: nat) -> Option<int>
    decreases edges.len() - k,
{
    if k >= edges.len() {
        None
    } else if starts(edges[k as int].0, name) {
        Some(k as int)
    } else {
        matching_edge(edges, name, k + 1)
    }
}

/// What a loader finds under a name from the node `i` on, in at most `steps` steps.
pub open spec fn trie_find(nodes: Seq<TrieNodeModel>, i: nat, name: Seq<u8>, steps: nat) -> Option<
    u64,
>
    decreases steps,
{
    if steps == 0 {
        None
    } else if name.len() == 0 {
        nodes[i as int].terminal
    } else {
        let edges = nodes[i as int].edges;
        match matching_edge(edges, name, 0) {
            Some(j) => trie_find(
                nodes,
                edges[j].1,
                name.skip(edges[j].0.len() as int),
                (steps - 1) as nat,
            ),
            None => None,
        }
    }
}

proof fn lemma_ended_is_last(s: Suffixes, name: Seq<u8>)
    requires
        name.len() == 0,
    ensures
        exports::ended(s) == last_address(s, name),
    decreases s.len(),
{
    if s.len() > 0 {
        lemma_ended_is_last(s.drop_last(), name);
        if s.last().0.len() == 0 {
            assert(s.last().0 =~= name);
        }
    }
}

proof fn lemma_last_after(s: Suffixes, name: Seq<u8>)
    requires
        name.len() > 0,
    ensures
        last_address(s, name) == last_address(exports::after(s, name[0]), name.drop_first()),
    decreases s.len(),
{
    if s.len() > 0 {
        let t = s.drop_last();
        let (own, address) = s.last();
        lemma_last_after(t, name);
        if own.len() > 0 && own[0] == name[0] {
            let rest = exports::after(t, name[0]);
            let all = rest.push((own.drop_first(), address));
            assert(all.drop_last() =~= rest);
            if own.drop_first() == name.drop_first() {
                assert(own =~= seq![own[0]] + own.drop_first());
                assert(name =~= seq![name[0]] + name.drop_first());
            }
        }
    }
}

proof fn lemma_no_names(s: Suffixes, c: u8, name: Seq<u8>)
    requires
        exports::all_go_on(s, c),
        name.len() == 0 || name[0] != c,
    ensures
        last_address(s, name) is None,
    decreases s.len(),
{
    assert(s.last() == s[s.len() - 1]);
    let t = s.drop_last();
    if t.len() > 0 {
        assert forall|i: int| 0 <= i < t.len() implies (#[trigger] t[i]).0.len() > 0 && t[i].0[0]
            == c by {
            assert(t[i] == s[i]);
        }
        lemma_no_names(t, c, name);
    }
}

/// The names behind a label are those that go on with what makes it longer.
proof fn lemma_settled_finds(b: Branch, name: Seq<u8>)
    ensures
        ({
            let r = exports::settled(b);
            let more = r.label.skip(b.label.len() as int);
            &&& b.label.len() <= r.label.len()
            &&& r.label.take(b.label.len() as int) == b.label
            &&& last_address(b.rest, name) == if starts(more, name) {
                last_address(r.rest, name.skip(more.len() as int))
            } else {
                None
            }
        }),
    decreases exports::weight(b.rest),
{
    let c = b.rest[0].0[0];
    let r = exports::settled(b);
    let n = b.label.len() as int;
    let more = r.label.skip(n);
    if exports::all_go_on(b.rest, c) {
        exports::lemma_after_weight(b.rest, c);
        let next = Branch { label: b.label.push(c), rest: exports::after(b.rest, c) };
        let tail = r.label.skip(n + 1);
        if name.len() > 0 {
            lemma_settled_finds(next, name.drop_first());
        } else {
            lemma_settled_finds(next, name);
        }
        assert(next.label.take(n) =~= b.label);
        assert(r.label.take(n) =~= r.label.take(n + 1).take(n));
        assert(r.label[n] == r.label.take(n + 1)[n]);
        assert(more =~= seq![c] + tail);
        if name.len() > 0 && name[0] == c {
            lemma_last_after(b.rest, name);
            let rest = name.drop_first();
            assert(name =~= seq![c] + rest);
            assert(starts(more, name) == starts(tail, rest)) by {
                if starts(more, name) {
                    assert(rest.take(tail.len() as int) =~= name.take(more.len() as int).skip(1));
                    assert(more.skip(1) =~= tail);
                }
                if starts(tail, rest) {
                    assert(name.take(more.len() as int) =~= seq![c] + rest.take(tail.len() as int));
                }
            }
            if starts(more, name) {
                assert(name.skip(more.len() as int) =~= rest.skip(tail.len() as int));
            }
        } else {
            lemma_no_names(b.rest, c, name);
            if starts(more, name) {
                assert(name[0] == name.take(more.len() as int)[0]);
            }
        }
    } else {
        assert(more =~= seq![]);
        assert(name.take(0) =~= seq![]);
        assert(name.skip(0) =~= name);
        assert(r.label.take(n) =~= b.label);
    }
}

proof fn lemma_branch_finds(s: Suffixes, name: Seq<u8>)
    requires
        name.len() > 0,
    ensures
        ({
            let b = exports::branch(s, name[0]);
            &&& b.label.len() > 0 && b.label[0] == name[0]
            &&& last_address(s, name) == if starts(b.label, name) {
                last_address(b.rest, name.skip(b.label.len() as int))
            } else {
                None
            }
        }),
{
    let c = name[0];
    let first = Branch { label: seq![c], rest: exports::after(s, c) };
    let b = exports::branch(s, c);
    let rest = name.drop_first();
    lemma_last_after(s, name);
    lemma_settled_finds(first, rest);
    let more = b.label.skip(1);
    assert(b.label[0] == b.label.take(1)[0]);
    assert(b.label =~= seq![c] + more);
    assert(name =~= seq![c] + rest);
    assert(starts(b.label, name) == starts(more, rest)) by {
        if starts(b.label, name) {
            assert(rest.take(more.len() as int) =~= name.take(b.label.len() as int).skip(1));
        }
        if starts(more, rest) {
            assert(name.take(b.label.len() as int) =~= seq![c] + rest.take(more.len() as int));
        }
    }
    if starts(b.label, name) {
        assert(name.skip(b.label.len() as int) =~= rest.skip(more.len() as int));
    }
}

/// What the edges for the bytes from `c` on lead to for a name.
spec fn below_leads(s: Suffixes, c: nat, next: nat, name: Seq<u8>) -> bool {
    let below = exports::trie_below(s, c, next);
    let b = exports::branch(s, name[0]);
    match matching_edge(below.edges, name, 0) {
        Some(j) => {
            let (label, child) = below.edges[j];
            let own = exports::trie_nodes(b.rest, child);
            &&& 0 <= j < below.edges.len()
            &&& label == b.label && starts(b.label, name)
            &&& exports::after(s, name[0]).len() > 0
            &&& next <= child && child + own.len() <= next + below.nodes.len()
            &&& below.nodes.subrange(child - next, child - next + own.len()) == own
        },
        None => name[0] < c || exports::after(s, name[0]).len() == 0 || !starts(b.label, name),
    }
}

proof fn lemma_matching_edge_front(
    e: (Seq<u8>, nat),
    edges: Seq<(Seq<u8>, nat)>,
    name: Seq<u8>,
    k: nat,
)
    requires
        k <= edges.len(),
    ensures
        matching_edge(seq![e] + edges, name, k + 1) == match matching_edge(edges, name, k) {
            Some(j) => Some(j + 1),
            None => None,
        },
    decreases edges.len() - k,
{
    let all = seq![e] + edges;
    if k < edges.len() {
        assert(all[k as int + 1] == edges[k as int]);
        lemma_matching_edge_front(e, edges, name, k + 1);
    }
}

proof fn lemma_below_leads(s: Suffixes, c: nat, next: nat, name: Seq<u8>)
    requires
        name.len() > 0,
    ensures
        below_leads(s, c, next, name),
        name[0] < c ==> matching_edge(exports::trie_below(s, c, next).edges, name, 0) is None,
    decreases
            (if c < 256 {
                (256 - c) as nat
            } else {
                0
            }),
{
    if c < 256 {
        let below = exports::trie_below(s, c, next);
        if exports::after(s, c as u8).len() == 0 {
            lemma_below_leads(s, c + 1, next, name);
        } else {
            let b = exports::branch(s, c as u8);
            let own = exports::trie_nodes(b.rest, next);
            let more = exports::trie_below(s, c + 1, next + own.len());
            let e = (b.label, next);
            lemma_below_leads(s, c + 1, next + own.len(), name);
            lemma_matching_edge_front(e, more.edges, name, 0);
            lemma_label_start(s, c as u8);
            assert(below.edges[0] == e);
            if name[0] == c as u8 {
                if starts(b.label, name) {
                    assert(below.nodes.subrange(0, own.len() as int) =~= own);
                }
            } else {
                if starts(b.label, name) {
                    assert(name[0] == name.take(b.label.len() as int)[0]);
                }
                match matching_edge(more.edges, name, 0) {
                    Some(j) => {
                        let (label, child) = more.edges[j];
                        let theirs = exports::trie_nodes(exports::branch(s, name[0]).rest, child);
                        let at = child - (next + own.len());
                        assert(below.edges[j + 1] == more.edges[j]);
                        assert(below.nodes.subrange(
                            child - next,
                            child - next + theirs.len(),
                        ) =~= more.nodes.subrange(at, at + theirs.len()));
                    },
                    None => {},
                }
            }
        }
    }
}

proof fn lemma_label_start(s: Suffixes, c: u8)
    ensures
        exports::branch(s, c).label.len() > 0,
        exports::branch(s, c).label[0] == c,
{
    let first = Branch { label: seq![c], rest: exports::after(s, c) };
    lemma_settled_finds(first, seq![]);
    assert(exports::branch(s, c).label[0] == exports::branch(s, c).label.take(1)[0]);
}

proof fn lemma_trie_find(
    all: Seq<TrieNodeModel>,
    s: Suffixes,
    base: nat,
    name: Seq<u8>,
    steps: nat,
)
    requires
        base + exports::trie_nodes(s, base).len() <= all.len(),
        all.subrange(base as int, (base + exports::trie_nodes(s, base).len()) as int)
            == exports::trie_nodes(s, base),
        name.len() < steps,
    ensures
        trie_find(all, base, name, steps) == last_address(s, name),
    decreases steps,
{
    let own = exports::trie_nodes(s, base);
    let below = exports::trie_below(s, 0, base + 1);
    assert(own.len() == 1 + below.nodes.len());
    assert(all[base as int] == own[0]) by {
        assert(all.subrange(base as int, (base + own.len()) as int)[0] == own[0]);
    }
    if name.len() == 0 {
        lemma_ended_is_last(s, name);
    } else {
        lemma_branch_finds(s, name);
        lemma_below_leads(s, 0, base + 1, name);
        match matching_edge(below.edges, name, 0) {
            Some(j) => {
                let (label, child) = below.edges[j];
                let b = exports::branch(s, name[0]);
                let theirs = exports::trie_nodes(b.rest, child);
                let rest = name.skip(label.len() as int);
                assert(all.subrange(child as int, (child + theirs.len()) as int) =~= theirs) by {
                    let from = child - (base + 1);
                    assert forall|i: int| 0 <= i < theirs.len() implies all[child + i]
                        == theirs[i] by {
                        assert(below.nodes.subrange(from, from + theirs.len())[i] == theirs[i]);
                        assert(own[1 + from + i] == below.nodes[from + i]);
                        assert(all.subrange(base as int, (base + own.len()) as int)[1 + from + i]
                            == own[1 + from + i]);
                    }
                }
                lemma_trie_find(all, b.rest, child, rest, (steps - 1) as nat);
            },
            None => {
                if exports::after(s, name[0]).len() == 0 {
                    lemma_last_after(s, name);
                }
            },
        }
    }
}

/// Every export is found in the trie, with its address, and nothing else is. Of several exports
/// with one name the last is found.
pub proof fn law_trie_finds_exports(s: Suffixes, name: Seq<u8>)
    ensures
        trie_find(exports::trie_nodes(s, 0), 0, name, name.len() + 1) == last_address(s, name),
{
    let nodes = exports::trie_nodes(s, 0);
    assert(nodes.subrange(0, nodes.len() as int) =~= nodes);
    lemma_trie_find(nodes, s, 0, name, name.len() + 1);
}

} // verus!

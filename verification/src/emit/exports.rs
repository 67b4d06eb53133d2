//! The export trie: the names that an image exports, with their addresses, as a tree in which
//! names share what they start with.
use vstd::prelude::*;
use vstd::string::*;
use vstd::utf8::*;
use crate::bytes::push_bytes;
use crate::emit::leb;
use crate::emit::leb::{push_uleb128, uleb128_size};
use crate::model;

verus! {

/// Names, or what is left of them, with their addresses.
pub type Suffixes = Seq<(Seq<u8>, u64)>;

/// How many bytes the names have together.
pub open spec fn weight(s: Suffixes) -> nat
    decreases s.len(),
{
    if s.len() == 0 {
        0
    } else {
        weight(s.drop_last()) + s.last().0.len()
    }
}

/// What is left of the names that start with the byte `c`.
pub open spec fn after(s: Suffixes, c: u8) -> Suffixes
    decreases s.len(),
{
    if s.len() == 0 {
        seq![]
    } else {
        let before = after(s.drop_last(), c);
        let (name, address) = s.last();
        if name.len() > 0 && name[0] == c {
            before.push((name.drop_first(), address))
        } else {
            before
        }
    }
}

/// The address of the name that has ended; of several the last one.
pub open spec fn ended(s: Suffixes) -> Option<u64>
    decreases s.len(),
{
    if s.len() == 0 {
        None
    } else if s.last().0.len() == 0 {
        Some(s.last().1)
    } else {
        ended(s.drop_last())
    }
}

/// Whether all names go on with the byte `c`.
pub open spec fn all_go_on(s: Suffixes, c: u8) -> bool {
    s.len() > 0 && forall|i: int|
        0 <= i < s.len() ==> (#[trigger] s[i]).0.len() > 0 && s[i].0[0] == c
}

/// What is left of the names has fewer bytes, by one for each of them.
pub proof fn lemma_after_weight(s: Suffixes, c: u8)
    ensures
        weight(after(s, c)) + after(s, c).len() <= weight(s),
        all_go_on(s, c) ==> weight(after(s, c)) + s.len() == weight(s) && after(s, c).len()
            == s.len(),
    decreases s.len(),
{
    if s.len() > 0 {
        let t = s.drop_last();
        lemma_after_weight(t, c);
        let before = after(t, c);
        let (name, address) = s.last();
        if name.len() > 0 && name[0] == c {
            assert(before.push((name.drop_first(), address)).drop_last() =~= before);
        }
        if all_go_on(s, c) {
            assert(s.last() == s[s.len() - 1]);
            if t.len() > 0 {
                assert forall|i: int| 0 <= i < t.len() implies (#[trigger] t[i]).0.len() > 0
                    && t[i].0[0] == c by {
                    assert(t[i] == s[i]);
                }
            }
        }
    }
}

/// A label, and what is left of the names behind it.
pub struct Branch {
    pub label: Seq<u8>,
    pub rest: Suffixes,
}

/// `b` with its label made longer while all names go on with the same byte.
pub open spec fn settled(b: Branch) -> Branch
    decreases weight(b.rest),
{
    let c = b.rest[0].0[0];
    if all_go_on(b.rest, c) {
        proof {
            lemma_after_weight(b.rest, c);
        }
        settled(Branch { label: b.label.push(c), rest: after(b.rest, c) })
    } else {
        b
    }
}

/// The branch for the names that start with the byte `c`.
pub open spec fn branch(s: Suffixes, c: u8) -> Branch {
    settled(Branch { label: seq![c], rest: after(s, c) })
}

/// Making a label longer leaves fewer bytes of the names.
pub proof fn lemma_settled_weight(b: Branch)
    ensures
        weight(settled(b).rest) <= weight(b.rest),
        settled(b).label.len() >= b.label.len(),
        settled(b).rest.len() == b.rest.len(),
        weight(settled(b).rest) + (settled(b).label.len() - b.label.len()) * b.rest.len()
            == weight(b.rest),
    decreases weight(b.rest),
{
    let c = b.rest[0].0[0];
    if all_go_on(b.rest, c) {
        lemma_after_weight(b.rest, c);
        let next = Branch { label: b.label.push(c), rest: after(b.rest, c) };
        lemma_settled_weight(next);
        let n = b.rest.len() as int;
        let k = settled(next).label.len() - next.label.len();
        assert((k + 1) * n == k * n + n) by (nonlinear_arith);
    } else {
        assert(0 * b.rest.len() == 0) by (nonlinear_arith);
    }
}

/// A node of the trie: the address of the name that ends at it, and the labels and numbers of the
/// nodes below it.
pub struct TrieNodeModel {
    pub terminal: Option<u64>,
    pub edges: Seq<(Seq<u8>, nat)>,
}

/// The edges of a node, and all nodes below it.
pub struct Below {
    pub edges: Seq<(Seq<u8>, nat)>,
    pub nodes: Seq<TrieNodeModel>,
}

/// The nodes for names of which these are left, numbered from `base` on: the node itself, and
/// then, byte by byte, those below it.
pub open spec fn trie_nodes(s: Suffixes, base: nat) -> Seq<TrieNodeModel>
    decreases weight(s), 257nat,
{
    let below = trie_below(s, 0, base + 1);
    seq![TrieNodeModel { terminal: ended(s), edges: below.edges }] + below.nodes
}

/// What stands below a node for the bytes from `c` on, numbered from `next` on.
pub open spec fn trie_below(s: Suffixes, c: nat, next: nat) -> Below
    decreases
            weight(s),
            (if c < 256 {
                (256 - c) as nat
            } else {
                0
            }),
{
    if c >= 256 {
        Below { edges: seq![], nodes: seq![] }
    } else if after(s, c as u8).len() == 0 {
        trie_below(s, c + 1, next)
    } else {
        let b = branch(s, c as u8);
        proof {
            lemma_after_weight(s, c as u8);
            lemma_settled_weight(Branch { label: seq![c as u8], rest: after(s, c as u8) });
        }
        let own = trie_nodes(b.rest, next);
        let more = trie_below(s, c + 1, next + own.len());
        Below { edges: seq![(b.label, next)] + more.edges, nodes: own + more.nodes }
    }
}

/// How many bytes describe the name that ends at a node.
pub open spec fn terminal_len(node: TrieNodeModel) -> nat {
    match node.terminal {
        Some(address) => 1 + leb::uleb(address as nat).len(),
        None => 0,
    }
}

/// The first `k` edges of a node, where the nodes stand at the given offsets.
pub open spec fn edge_bytes(edges: Seq<(Seq<u8>, nat)>, offs: Seq<nat>, k: nat) -> Seq<u8>
    decreases k,
{
    if k == 0 {
        seq![]
    } else {
        let (label, child) = edges[k - 1];
        edge_bytes(edges, offs, (k - 1) as nat) + label + seq![0u8] + leb::uleb(offs[child as int])
    }
}

/// A node, where the nodes stand at the given offsets.
pub open spec fn node_bytes(node: TrieNodeModel, offs: Seq<nat>) -> Seq<u8> {
    leb::uleb(terminal_len(node)) + (match node.terminal {
        Some(address) => seq![0u8] + leb::uleb(address as nat),
        None => seq![],
    }) + seq![node.edges.len() as u8] + edge_bytes(node.edges, offs, node.edges.len())
}

/// The first `n` nodes, one behind the other.
pub open spec fn trie_bytes(nodes: Seq<TrieNodeModel>, offs: Seq<nat>, n: nat) -> Seq<u8>
    decreases n,
{
    if n == 0 {
        seq![]
    } else {
        trie_bytes(nodes, offs, (n - 1) as nat) + node_bytes(nodes[n - 1], offs)
    }
}

/// Where the nodes stand one behind the other, as long as they are with the given offsets.
pub open spec fn next_offsets(nodes: Seq<TrieNodeModel>, offs: Seq<nat>) -> Seq<nat> {
    Seq::new(nodes.len(), |i: int| trie_bytes(nodes, offs, i as nat).len())
}

/// The offsets after `k` passes: at first all are zero.
pub open spec fn passes(nodes: Seq<TrieNodeModel>, k: nat) -> Seq<nat>
    decreases k,
{
    if k == 0 {
        Seq::new(nodes.len(), |i: int| 0nat)
    } else {
        next_offsets(nodes, passes(nodes, (k - 1) as nat))
    }
}

/// Whether the offsets do not change any more after `k` passes.
pub open spec fn passes_settle(nodes: Seq<TrieNodeModel>, k: nat) -> bool {
    passes(nodes, k + 1) == passes(nodes, k)
}

/// The names of the exports, as bytes.
pub open spec fn export_suffixes(exports: Seq<(Seq<char>, u64)>) -> Suffixes {
    Seq::new(exports.len(), |i: int| (encode_utf8(exports[i].0), exports[i].1))
}

/// Whether some bytes are the trie of the exports: its nodes with settled offsets.
pub open spec fn is_export_trie(exports: Seq<(Seq<char>, u64)>, b: Seq<u8>) -> bool {
    if exports.len() == 0 {
        b == seq![0u8, 0u8]
    } else {
        let nodes = trie_nodes(export_suffixes(exports), 0);
        exists|k: nat|
            #[trigger] passes_settle(nodes, k) && b == trie_bytes(
                nodes,
                passes(nodes, k),
                nodes.len(),
            )
    }
}

/// A node of the trie.
pub struct TrieNode {
    pub terminal: Option<u64>,
    pub edges: Vec<(Vec<u8>, usize)>,
}

/// The view of edges.
pub open spec fn edge_models(edges: Seq<(Vec<u8>, usize)>) -> Seq<(Seq<u8>, nat)> {
    Seq::new(edges.len(), |i: int| (edges[i].0@, edges[i].1 as nat))
}

impl View for TrieNode {
    type V = TrieNodeModel;

    open spec fn view(&self) -> TrieNodeModel {
        TrieNodeModel { terminal: self.terminal, edges: edge_models(self.edges@) }
    }
}

fn names_after<'a>(s: &Vec<(&'a [u8], u64)>, c: u8) -> (r: Vec<(&'a [u8], u64)>)
    ensures
        model::views(r@) == after(model::views(s@), c),
{
    broadcast use model::group_views;
    let ghost all = model::views(s@);
    let mut out: Vec<(&'a [u8], u64)> = Vec::new();
    let mut i: usize = 0;
    assert(all.subrange(0, 0) =~= seq![]);
    while i < s.len()
        invariant
            i <= s@.len(),
            all == model::views(s@),
            model::views(out@) == after(all.subrange(0, i as int), c),
        decreases s@.len() - i,
    {
        broadcast use model::group_views;
        let name = s[i].0;
        assert(all[i as int] == (name@, s@[i as int].1));
        let ghost next = all.subrange(0, i + 1);
        assert(next.drop_last() =~= all.subrange(0, i as int));
        assert(next.last() == all[i as int]);
        if name.len() > 0 && name[0] == c {
            let rest = vstd::slice::slice_subrange(name, 1, name.len());
            assert(rest@ =~= name@.drop_first());
            out.push((rest, s[i].1));
        }
        i = i + 1;
    }
    assert(all.subrange(0, s@.len() as int) =~= all);
    out
}

fn ended_address(s: &Vec<(&[u8], u64)>) -> (r: Option<u64>)
    ensures
        r == ended(model::views(s@)),
{
    let ghost all = model::views(s@);
    let mut found: Option<u64> = None;
    let mut i: usize = 0;
    while i < s.len()
        invariant
            i <= s@.len(),
            all == model::views(s@),
            found == ended(all.subrange(0, i as int)),
        decreases s@.len() - i,
    {
        assert(all[i as int] == (s@[i as int].0@, s@[i as int].1));
        let ghost next = all.subrange(0, i + 1);
        assert(next.drop_last() =~= all.subrange(0, i as int));
        assert(next.last() == all[i as int]);
        if s[i].0.len() == 0 {
            found = Some(s[i].1);
        }
        i = i + 1;
    }
    assert(all.subrange(0, s@.len() as int) =~= all);
    found
}

fn common_byte(s: &Vec<(&[u8], u64)>) -> (r: Option<u8>)
    ensures
        r matches Some(c) ==> c == model::views(s@)[0].0[0] && all_go_on(model::views(s@), c),
        r is None ==> !all_go_on(model::views(s@), model::views(s@)[0].0[0]),
{
    let ghost all = model::views(s@);
    assert(all.len() == s@.len());
    if s.len() == 0 {
        return None;
    }
    assert(all[0] == (s@[0].0@, s@[0].1));
    if s[0].0.len() == 0 {
        return None;
    }
    let c: u8 = s[0].0[0];
    let mut i: usize = 0;
    while i < s.len()
        invariant
            i <= s@.len(),
            s@.len() > 0,
            all == model::views(s@),
            c == all[0].0[0],
            forall|k: int| 0 <= k < i ==> (#[trigger] all[k]).0.len() > 0 && all[k].0[0] == c,
        decreases s@.len() - i,
    {
        assert(all[i as int] == (s@[i as int].0@, s@[i as int].1));
        if s[i].0.len() == 0 || s[i].0[0] != c {
            return None;
        }
        i = i + 1;
    }
    Some(c)
}

fn take_branch<'a>(s: &Vec<(&'a [u8], u64)>, c: u8, first: Vec<(&'a [u8], u64)>) -> (r: (
    Vec<u8>,
    Vec<(&'a [u8], u64)>,
))
    requires
        model::views(first@) == after(model::views(s@), c),
    ensures
        r.0@ == branch(model::views(s@), c).label,
        model::views(r.1@) == branch(model::views(s@), c).rest,
{
    let mut label: Vec<u8> = Vec::new();
    label.push(c);
    assert(label@ =~= seq![c]);
    let mut rest = first;
    let ghost goal = branch(model::views(s@), c);
    loop
        invariant_except_break
            settled(Branch { label: label@, rest: model::views(rest@) }) == goal,
        ensures
            label@ == goal.label,
            model::views(rest@) == goal.rest,
        decreases weight(model::views(rest@)),
    {
        match common_byte(&rest) {
            Some(b) => {
                proof {
                    lemma_after_weight(model::views(rest@), b);
                }
                rest = names_after(&rest, b);
                label.push(b);
            },
            None => {
                break;
            },
        }
    }
    (label, rest)
}

fn add_nodes<'a>(s: &Vec<(&'a [u8], u64)>, nodes: &mut Vec<TrieNode>)
    ensures
        model::views(final(nodes)@) == model::views(old(nodes)@) + trie_nodes(
            model::views(s@),
            old(nodes)@.len(),
        ),
    decreases weight(model::views(s@)),
{
    broadcast use model::group_views;
    let ghost names = model::views(s@);
    let ghost before = model::views(nodes@);
    let ghost base = nodes@.len();
    let idx: usize = nodes.len();
    let terminal: Option<u64> = ended_address(s);
    nodes.push(TrieNode { terminal, edges: Vec::new() });
    let mut edges: Vec<(Vec<u8>, usize)> = Vec::new();
    let ghost below = trie_below(names, 0, base + 1);
    let ghost mut done: Seq<TrieNodeModel> = seq![];
    let ghost blank = model::views(nodes@).last();
    assert(model::views(nodes@) =~= before.push(blank) + done);
    assert(edge_models(edges@) =~= seq![]);
    assert(edge_models(edges@) + below.edges =~= below.edges);
    assert(done + below.nodes =~= below.nodes);
    let mut c: usize = 0;
    while c < 256
        invariant
            c <= 256,
            names == model::views(s@),
            base == before.len(),
            idx == base,
            model::views(nodes@) == before.push(blank) + done,
            below == trie_below(names, 0, base + 1),
            edge_models(edges@) + trie_below(names, c as nat, base + 1 + done.len()).edges
                == below.edges,
            done + trie_below(names, c as nat, base + 1 + done.len()).nodes == below.nodes,
        decreases 256 - c,
    {
        broadcast use model::group_views;
        let first = names_after(s, c as u8);
        assert(model::views(first@).len() == first@.len());
        if first.len() > 0 {
            let ghost rest_before = trie_below(names, c as nat, base + 1 + done.len());
            let (label, rest) = take_branch(s, c as u8, first);
            let child: usize = nodes.len();
            assert(model::views(nodes@).len() == nodes@.len());
            assert(child == base + 1 + done.len());
            proof {
                lemma_after_weight(names, c as u8);
                lemma_settled_weight(
                    Branch { label: seq![c as u8], rest: after(names, c as u8) },
                );
            }
            let ghost own = trie_nodes(model::views(rest@), child as nat);
            add_nodes(&rest, nodes);
            let ghost edges_before = edge_models(edges@);
            let ghost text = label@;
            edges.push((label, child));
            proof {
                let more = trie_below(names, (c + 1) as nat, child as nat + own.len());
                assert(edge_models(edges@) =~= edges_before.push((text, child as nat)));
                assert(edge_models(edges@) + more.edges =~= edges_before + rest_before.edges);
                assert((done + own) + more.nodes =~= done + rest_before.nodes);
                assert(model::views(nodes@) =~= before.push(blank) + (done + own));
                done = done + own;
            }
        }
        c = c + 1;
    }
    proof {
        let end = trie_below(names, 256, base + 1 + done.len());
        assert(edge_models(edges@) + end.edges =~= edge_models(edges@));
        assert(done + end.nodes =~= done);
    }
    let ghost filled = nodes@;
    assert(model::views(nodes@).len() == nodes@.len());
    nodes.set(idx, TrieNode { terminal, edges });
    proof {
        let own = trie_nodes(names, base);
        assert(model::views(nodes@) =~= before + own) by {
            assert forall|i: int| 0 <= i < nodes@.len() implies model::views(nodes@)[i] == (before
                + own)[i] by {
                assert(model::views(filled)[i] == (before.push(blank) + done)[i]);
            }
        }
    }
}

/// Whether the edges lead to nodes with numbers from `low` up to `high`.
pub open spec fn edges_between(edges: Seq<(Seq<u8>, nat)>, low: nat, high: nat) -> bool {
    forall|i: int| 0 <= i < edges.len() ==> low <= (#[trigger] edges[i]).1 < high
}

/// Whether all edges lead to nodes with numbers up to `high`.
pub open spec fn nodes_between(nodes: Seq<TrieNodeModel>, low: nat, high: nat) -> bool {
    forall|i: int| 0 <= i < nodes.len() ==> edges_between((#[trigger] nodes[i]).edges, low, high)
}

proof fn lemma_nodes_between(s: Suffixes, base: nat)
    ensures
        trie_nodes(s, base).len() > 0,
        nodes_between(trie_nodes(s, base), base, base + trie_nodes(s, base).len()),
    decreases weight(s), 257nat,
{
    lemma_below_between(s, 0, base + 1);
    let below = trie_below(s, 0, base + 1);
    let own = trie_nodes(s, base);
    assert(own.len() == 1 + below.nodes.len());
    assert forall|i: int| 0 <= i < own.len() implies edges_between(
        (#[trigger] own[i]).edges,
        base,
        base + own.len(),
    ) by {
        if i > 0 {
            assert(own[i] == below.nodes[i - 1]);
        }
    }
}

proof fn lemma_below_between(s: Suffixes, c: nat, next: nat)
    ensures
        ({
            let below = trie_below(s, c, next);
            &&& edges_between(below.edges, next, next + below.nodes.len())
            &&& nodes_between(below.nodes, next, next + below.nodes.len())
        }),
    decreases
            weight(s),
            (if c < 256 {
                (256 - c) as nat
            } else {
                0
            }),
{
    if c < 256 {
        if after(s, c as u8).len() == 0 {
            lemma_below_between(s, c + 1, next);
        } else {
            let b = branch(s, c as u8);
            lemma_after_weight(s, c as u8);
            lemma_settled_weight(Branch { label: seq![c as u8], rest: after(s, c as u8) });
            let own = trie_nodes(b.rest, next);
            lemma_nodes_between(b.rest, next);
            let more = trie_below(s, c + 1, next + own.len());
            lemma_below_between(s, c + 1, next + own.len());
            let below = trie_below(s, c, next);
            assert forall|i: int| 0 <= i < below.edges.len() implies next <= (
            #[trigger] below.edges[i]).1 < next + below.nodes.len() by {
                if i > 0 {
                    assert(below.edges[i] == more.edges[i - 1]);
                }
            }
            assert forall|i: int| 0 <= i < below.nodes.len() implies edges_between(
                (#[trigger] below.nodes[i]).edges,
                next,
                next + below.nodes.len(),
            ) by {
                if i < own.len() {
                    assert(below.nodes[i] == own[i]);
                } else {
                    assert(below.nodes[i] == more.nodes[i - own.len()]);
                }
            }
        }
    }
}

/// Offsets, as numbers.
pub open spec fn offset_numbers(offs: Seq<usize>) -> Seq<nat> {
    Seq::new(offs.len(), |i: int| offs[i] as nat)
}

fn push_node(out: &mut Vec<u8>, node: &TrieNode, offs: &Vec<usize>)
    requires
        edges_between(node@.edges, 0, offs@.len()),
    ensures
        final(out)@ == old(out)@ + node_bytes(node@, offset_numbers(offs@)),
{
    let ghost numbers = offset_numbers(offs@);
    let ghost edges = node@.edges;
    let mut b: Vec<u8> = Vec::new();
    match node.terminal {
        Some(address) => {
            let size: usize = uleb128_size(0) + uleb128_size(address);
            proof {
                assert(leb::uleb(0).len() == 1);
            }
            push_uleb128(&mut b, size as u64);
            let ghost head = b@;
            assert(head =~= leb::uleb(terminal_len(node@)));
            push_uleb128(&mut b, 0);
            push_uleb128(&mut b, address);
            assert(b@ =~= head + (seq![0u8] + leb::uleb(address as nat)));
        },
        None => {
            push_uleb128(&mut b, 0);
            assert(b@ =~= leb::uleb(terminal_len(node@)) + seq![]);
        },
    }
    b.push(node.edges.len() as u8);
    assert(edges.len() == node.edges@.len());
    let mut body: Vec<u8> = Vec::new();
    let mut k: usize = 0;
    while k < node.edges.len()
        invariant
            k <= node.edges@.len(),
            edges == node@.edges,
            numbers == offset_numbers(offs@),
            edges_between(edges, 0, offs@.len()),
            body@ == edge_bytes(edges, numbers, k as nat),
        decreases node.edges@.len() - k,
    {
        let ghost before = body@;
        assert(edges[k as int] == (node.edges@[k as int].0@, node.edges@[k as int].1 as nat));
        push_bytes(&mut body, node.edges[k].0.as_slice());
        body.push(0);
        push_uleb128(&mut body, offs[node.edges[k].1] as u64);
        assert(body@ =~= before + edges[k as int].0 + seq![0u8] + leb::uleb(
            numbers[edges[k as int].1 as int],
        ));
        k = k + 1;
    }
    push_bytes(&mut b, body.as_slice());
    push_bytes(out, b.as_slice());
}

fn lay_out(nodes: &Vec<TrieNode>, offs: &Vec<usize>) -> (r: (Vec<u8>, Vec<usize>))
    requires
        offs@.len() == nodes@.len(),
        nodes_between(model::views(nodes@), 0, nodes@.len()),
    ensures
        r.0@ == trie_bytes(model::views(nodes@), offset_numbers(offs@), nodes@.len()),
        offset_numbers(r.1@) == next_offsets(model::views(nodes@), offset_numbers(offs@)),
{
    let ghost models = model::views(nodes@);
    let ghost numbers = offset_numbers(offs@);
    let mut out: Vec<u8> = Vec::new();
    let mut next: Vec<usize> = Vec::new();
    let mut i: usize = 0;
    while i < nodes.len()
        invariant
            i <= nodes@.len(),
            offs@.len() == nodes@.len(),
            models == model::views(nodes@),
            numbers == offset_numbers(offs@),
            nodes_between(models, 0, nodes@.len()),
            out@ == trie_bytes(models, numbers, i as nat),
            next@.len() == i,
            forall|j: int|
                0 <= j < i ==> #[trigger] next@[j] == trie_bytes(models, numbers, j as nat).len(),
        decreases nodes@.len() - i,
    {
        assert(models[i as int] == nodes@[i as int]@);
        next.push(out.len());
        push_node(&mut out, &nodes[i], offs);
        i = i + 1;
    }
    assert(offset_numbers(next@) =~= next_offsets(models, numbers));
    (out, next)
}

/// Whether no offset in `a` is larger than that in `b`.
spec fn at_most(a: Seq<nat>, b: Seq<nat>) -> bool {
    a.len() == b.len() && forall|i: int| 0 <= i < a.len() ==> #[trigger] a[i] <= b[i]
}

proof fn lemma_uleb_grows(v: nat, w: nat)
    requires
        v <= w,
    ensures
        leb::uleb(v).len() <= leb::uleb(w).len(),
    decreases w,
{
    if w >= 128 {
        leb::law_uleb_round_trip(w / 128);
        if v >= 128 {
            assert(v / 128 <= w / 128);
            lemma_uleb_grows(v / 128, w / 128);
        }
    }
}

proof fn lemma_edges_grow(edges: Seq<(Seq<u8>, nat)>, a: Seq<nat>, b: Seq<nat>, k: nat)
    requires
        k <= edges.len(),
        edges_between(edges, 0, a.len()),
        at_most(a, b),
    ensures
        edge_bytes(edges, a, k).len() <= edge_bytes(edges, b, k).len(),
    decreases k,
{
    if k > 0 {
        lemma_edges_grow(edges, a, b, (k - 1) as nat);
        let (label, child) = edges[k - 1];
        assert(0 <= child < a.len());
        assert(a[child as int] <= b[child as int]);
        lemma_uleb_grows(a[child as int], b[child as int]);
    }
}

proof fn lemma_trie_grows(nodes: Seq<TrieNodeModel>, a: Seq<nat>, b: Seq<nat>, n: nat)
    requires
        n <= nodes.len(),
        nodes_between(nodes, 0, a.len()),
        at_most(a, b),
    ensures
        trie_bytes(nodes, a, n).len() <= trie_bytes(nodes, b, n).len(),
    decreases n,
{
    if n > 0 {
        lemma_trie_grows(nodes, a, b, (n - 1) as nat);
        let node = nodes[n - 1];
        assert(edges_between(node.edges, 0, a.len()));
        lemma_edges_grow(node.edges, a, b, node.edges.len());
    }
}

proof fn lemma_passes_grow(nodes: Seq<TrieNodeModel>, k: nat)
    requires
        nodes_between(nodes, 0, nodes.len()),
    ensures
        at_most(passes(nodes, k), passes(nodes, k + 1)),
    decreases k,
{
    if k > 0 {
        lemma_passes_grow(nodes, (k - 1) as nat);
        let a = passes(nodes, (k - 1) as nat);
        let b = passes(nodes, k);
        assert forall|i: int| 0 <= i < nodes.len() implies #[trigger] passes(nodes, k)[i] <= passes(
            nodes,
            k + 1,
        )[i] by {
            lemma_trie_grows(nodes, a, b, i as nat);
        }
    }
}

/// The sum of the first `n` offsets.
spec fn offset_total(s: Seq<nat>, n: nat) -> nat
    decreases n,
{
    if n == 0 {
        0
    } else {
        offset_total(s, (n - 1) as nat) + s[n - 1]
    }
}

proof fn lemma_total_grows(a: Seq<nat>, b: Seq<nat>, n: nat)
    requires
        at_most(a, b),
        n <= a.len(),
    ensures
        offset_total(a, n) <= offset_total(b, n),
        (exists|i: int| 0 <= i < n && a[i] != b[i]) ==> offset_total(a, n) < offset_total(b, n),
    decreases n,
{
    if n > 0 {
        lemma_total_grows(a, b, (n - 1) as nat);
        assert(a[n - 1] <= b[n - 1]);
        if exists|i: int| 0 <= i < n && a[i] != b[i] {
            let i = choose|i: int| 0 <= i < n && a[i] != b[i];
            if i < n - 1 {
                assert(0 <= i < n - 1 && a[i] != b[i]);
            }
        }
    }
}

proof fn lemma_total_bound(s: Seq<nat>, n: nat)
    requires
        n <= s.len(),
        forall|i: int| 0 <= i < s.len() ==> #[trigger] s[i] <= usize::MAX,
    ensures
        offset_total(s, n) <= n * usize::MAX,
    decreases n,
{
    if n > 0 {
        lemma_total_bound(s, (n - 1) as nat);
        assert((n - 1) * usize::MAX + usize::MAX == n * usize::MAX) by (nonlinear_arith);
    }
}

fn same_offsets(a: &Vec<usize>, b: &Vec<usize>) -> (r: bool)
    requires
        a@.len() == b@.len(),
    ensures
        r == (a@ == b@),
{
    let mut i: usize = 0;
    while i < a.len()
        invariant
            i <= a@.len(),
            a@.len() == b@.len(),
            forall|k: int| 0 <= k < i ==> a@[k] == b@[k],
        decreases a@.len() - i,
    {
        if a[i] != b[i] {
            return false;
        }
        i = i + 1;
    }
    assert(a@ =~= b@);
    true
}

fn settle_offsets(nodes: &Vec<TrieNode>) -> (r: Vec<u8>)
    requires
        nodes_between(model::views(nodes@), 0, nodes@.len()),
    ensures
        ({
            let models = model::views(nodes@);
            exists|k: nat|
                #[trigger] passes_settle(models, k) && r@ == trie_bytes(
                    models,
                    passes(models, k),
                    models.len(),
                )
        }),
{
    let ghost models = model::views(nodes@);
    let ghost most: int = models.len() * usize::MAX;
    let mut offs: Vec<usize> = vec![0usize; nodes.len()];
    let ghost mut k: nat = 0;
    assert(offset_numbers(offs@) =~= passes(models, 0));
    loop
        invariant
            models == model::views(nodes@),
            most == models.len() * usize::MAX,
            nodes_between(models, 0, nodes@.len()),
            offs@.len() == nodes@.len(),
            offset_numbers(offs@) == passes(models, k),
        decreases most - offset_total(passes(models, k), models.len()),
    {
        let (out, next) = lay_out(nodes, &offs);
        assert(next@.len() == offset_numbers(next@).len());
        if same_offsets(&offs, &next) {
            assert(passes_settle(models, k));
            return out;
        }
        proof {
            let a = passes(models, k);
            let b = passes(models, k + 1);
            assert(b == offset_numbers(next@));
            lemma_passes_grow(models, k);
            if forall|i: int| 0 <= i < a.len() ==> a[i] == b[i] {
                assert forall|i: int| 0 <= i < offs@.len() implies offs@[i] == next@[i] by {
                    assert(a[i] == b[i]);
                    assert(offset_numbers(offs@)[i] == offset_numbers(next@)[i]);
                }
                assert(offs@ =~= next@);
            }
            lemma_total_grows(a, b, models.len());
            lemma_total_bound(b, models.len());
            k = k + 1;
        }
        offs = next;
    }
}

/// Builds the trie of the exports. Of several with one name the last counts.
pub fn build_export_trie(exports: &[(String, u64)]) -> (r: Vec<u8>)
    ensures
        is_export_trie(model::views(exports@), r@),
{
    broadcast use model::group_views;
    let ghost models = model::views(exports@);
    if exports.len() == 0 {
        let r: Vec<u8> = vec![0, 0];
        assert(r@ =~= seq![0u8, 0u8]);
        return r;
    }
    let mut names: Vec<(&[u8], u64)> = Vec::new();
    let mut i: usize = 0;
    while i < exports.len()
        invariant
            i <= exports@.len(),
            models == model::views(exports@),
            names@.len() == i,
            forall|k: int|
                0 <= k < i ==> (#[trigger] names@[k]).0@ == encode_utf8(models[k].0) && names@[k].1
                    == models[k].1,
        decreases exports@.len() - i,
    {
        assert(models[i as int] == (exports@[i as int].0@, exports@[i as int].1));
        names.push((exports[i].0.as_str().as_bytes(), exports[i].1));
        i = i + 1;
    }
    assert(model::views(names@) =~= export_suffixes(models));
    let mut nodes: Vec<TrieNode> = Vec::new();
    add_nodes(&names, &mut nodes);
    proof {
        let own = trie_nodes(export_suffixes(models), 0);
        assert(model::views(nodes@) =~= own);
        lemma_nodes_between(export_suffixes(models), 0);
    }
    settle_offsets(&nodes)
}

} // verus!

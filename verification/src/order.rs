//! Sorted sequences of addresses and names.
use vstd::prelude::*;
use crate::model;
use crate::names;
use crate::text;
use crate::text::{str_eq, str_less};

verus! {

/// The position of the first element that is not below `a`.
pub open spec fn addr_slot(s: Seq<u64>, a: u64, i: int) -> int
    decreases s.len() - i,
{
    if i < 0 || i >= s.len() || s[i] >= a {
        i
    } else {
        addr_slot(s, a, i + 1)
    }
}

/// An ascending sequence with `a` among its elements.
pub open spec fn insert_addr(s: Seq<u64>, a: u64) -> Seq<u64> {
    let k = addr_slot(s, a, 0);
    if k < s.len() && s[k] == a {
        s
    } else {
        s.insert(k, a)
    }
}

/// Whether the elements ascend, none occurring twice.
pub open spec fn addrs_ascend(s: Seq<u64>) -> bool {
    forall|i: int, j: int| 0 <= i < j < s.len() ==> s[i] < s[j]
}

proof fn lemma_addr_slot(s: Seq<u64>, a: u64, i: int)
    requires
        0 <= i <= s.len(),
    ensures
        i <= addr_slot(s, a, i) <= s.len(),
        forall|k: int| i <= k < addr_slot(s, a, i) ==> s[k] < a,
        addr_slot(s, a, i) < s.len() ==> s[addr_slot(s, a, i)] >= a,
    decreases s.len() - i,
{
    if i < s.len() && s[i] < a {
        lemma_addr_slot(s, a, i + 1);
    }
}

/// Inserting keeps the order, keeps what was there and adds `a` alone.
pub proof fn law_insert_addr(s: Seq<u64>, a: u64, x: u64)
    requires
        addrs_ascend(s),
    ensures
        addrs_ascend(insert_addr(s, a)),
        insert_addr(s, a).contains(x) <==> s.contains(x) || x == a,
{
    lemma_addr_slot(s, a, 0);
    let k = addr_slot(s, a, 0);
    let t = insert_addr(s, a);
    if k < s.len() && s[k] == a {
    } else {
        assert(t[k] == a);
        if s.contains(x) {
            let i = s.index_of(x);
            assert(t[if i < k { i } else { i + 1 }] == x);
        }
        if t.contains(x) && x != a {
            let i = t.index_of(x);
            assert(s[if i < k { i } else { i - 1 }] == x);
        }
    }
}

/// Inserts `a` into an ascending vector.
pub fn add_addr(v: &mut Vec<u64>, a: u64)
    ensures
        final(v)@ == insert_addr(old(v)@, a),
{
    let n: usize = v.len();
    let mut i: usize = 0;
    while i < n && v[i] < a
        invariant
            i <= n,
            n == v@.len(),
            addr_slot(v@, a, 0) == addr_slot(v@, a, i as int),
        decreases n - i,
    {
        i = i + 1;
    }
    if i < n && v[i] == a {
        return;
    }
    v.insert(i, a);
}

/// The position of the first name that stands behind `x`.
pub open spec fn name_slot(s: Seq<Seq<char>>, x: Seq<char>, i: int) -> int
    decreases s.len() - i,
{
    if i < 0 || i >= s.len() || text::text_less(x, s[i]) {
        i
    } else {
        name_slot(s, x, i + 1)
    }
}

/// The names in ascending order.
pub open spec fn sort_names(s: Seq<Seq<char>>) -> Seq<Seq<char>>
    decreases s.len(),
{
    if s.len() == 0 {
        seq![]
    } else {
        let t = sort_names(s.drop_last());
        t.insert(name_slot(t, s.last(), 0), s.last())
    }
}

/// Whether no name stands before an earlier one.
pub open spec fn names_sorted(s: Seq<Seq<char>>) -> bool {
    forall|i: int, j: int| 0 <= i < j < s.len()
        ==> !text::text_less(#[trigger] s[j], #[trigger] s[i])
}

proof fn lemma_name_slot(s: Seq<Seq<char>>, x: Seq<char>, i: int)
    requires
        0 <= i <= s.len(),
    ensures
        i <= name_slot(s, x, i) <= s.len(),
        forall|k: int| i <= k < name_slot(s, x, i) ==> !text::text_less(x, #[trigger] s[k]),
        name_slot(s, x, i) < s.len() ==> text::text_less(x, s[name_slot(s, x, i)]),
    decreases s.len() - i,
{
    if i < s.len() && !text::text_less(x, s[i]) {
        lemma_name_slot(s, x, i + 1);
    }
}

proof fn lemma_insert_name_sorted(t: Seq<Seq<char>>, x: Seq<char>)
    requires
        names_sorted(t),
    ensures
        names_sorted(t.insert(name_slot(t, x, 0), x)),
        0 <= name_slot(t, x, 0) <= t.len(),
{
    lemma_name_slot(t, x, 0);
    let k = name_slot(t, x, 0);
    let r = t.insert(k, x);
    assert forall|i: int,
        j: int| 0 <= i < j < r.len() implies !text::text_less(#[trigger] r[j], #[trigger] r[i]) by {
        if i < k && j < k {
        } else if i < k && j == k {
        } else if i < k {
            assert(r[j] == t[j - 1]);
        } else if i == k {
            // x stands before t[k], which no later element stands before.
            if text::text_less(t[j - 1], x) {
                names::lemma_text_less_transitive(t[j - 1], x, t[k]);
                names::lemma_text_less_irreflexive(t[k]);
            }
        } else {
            assert(r[j] == t[j - 1] && r[i] == t[i - 1]);
        }
    }
}

/// Sorting gives the same names in ascending order.
pub proof fn law_sort_names(s: Seq<Seq<char>>)
    ensures
        names_sorted(sort_names(s)),
        sort_names(s).to_multiset() == s.to_multiset(),
        sort_names(s).len() == s.len(),
    decreases s.len(),
{
    broadcast use vstd::seq_lib::group_to_multiset_ensures;
    if s.len() > 0 {
        let t = sort_names(s.drop_last());
        law_sort_names(s.drop_last());
        lemma_insert_name_sorted(t, s.last());
        assert(s =~= s.drop_last().push(s.last()));
        vstd::seq_lib::to_multiset_insert(t, name_slot(t, s.last(), 0), s.last());
    }
}

/// The names in ascending order.
pub fn sorted_names(names: &Vec<String>) -> (r: Vec<String>)
    ensures
        model::views(r@) == sort_names(model::views(names@)),
{
    broadcast use model::group_views;
    let mut out: Vec<String> = Vec::new();
    let mut i: usize = 0;
    assert(model::views(names@).subrange(0, 0) =~= seq![]);
    while i < names.len()
        invariant
            i <= names@.len(),
            model::views(out@) == sort_names(model::views(names@).subrange(0, i as int)),
        decreases names@.len() - i,
    {
        let n: usize = out.len();
        let mut k: usize = 0;
        while k < n && !str_less(names[i].as_str(), out[k].as_str())
            invariant
                k <= n,
                n == out@.len(),
                i < names@.len(),
                name_slot(model::views(out@), names@[i as int]@, 0) == name_slot(
                    model::views(out@),
                    names@[i as int]@,
                    k as int,
                ),
            decreases n - k,
        {
            k = k + 1;
        }
        let ghost before = out@;
        out.insert(k, names[i].clone());
        proof {
            let s = model::views(names@).subrange(0, i + 1);
            assert(s.drop_last() =~= model::views(names@).subrange(0, i as int));
            assert(s.last() == names@[i as int]@);
            assert(model::views(out@) =~= model::views(before).insert(k as int, names@[i as int]@));
        }
        i = i + 1;
    }
    assert(model::views(names@).subrange(0, names@.len() as int) =~= model::views(names@));
    out
}

/// A place that the dynamic linker fills: its address, the symbol, whether the symbol may be
/// missing, and what is added to its address.
pub type Bind = (u64, Seq<char>, bool, i64);

/// The order of places: by address, then by symbol.
pub open spec fn bind_less(a: Bind, b: Bind) -> bool {
    a.0 < b.0 || a.0 == b.0 && text::text_less(a.1, b.1)
}

/// The position of the first element that stands behind `x`.
pub open spec fn bind_slot(s: Seq<Bind>, x: Bind, i: int) -> int
    decreases s.len() - i,
{
    if i < 0 || i >= s.len() || bind_less(x, s[i]) {
        i
    } else {
        bind_slot(s, x, i + 1)
    }
}

/// The places in ascending order; those that are not ordered stay as they are.
pub open spec fn sort_binds(s: Seq<Bind>) -> Seq<Bind>
    decreases s.len(),
{
    if s.len() == 0 {
        seq![]
    } else {
        let t = sort_binds(s.drop_last());
        t.insert(bind_slot(t, s.last(), 0), s.last())
    }
}

/// The places without those that equal the one before.
pub open spec fn dedup_binds(s: Seq<Bind>) -> Seq<Bind>
    decreases s.len(),
{
    if s.len() == 0 {
        seq![]
    } else {
        let t = dedup_binds(s.drop_last());
        if t.len() > 0 && t.last() == s.last() {
            t
        } else {
            t.push(s.last())
        }
    }
}

/// Whether no place stands before an earlier one.
pub open spec fn binds_sorted(s: Seq<Bind>) -> bool {
    forall|i: int, j: int| 0 <= i < j < s.len() ==> !bind_less(#[trigger] s[j], #[trigger] s[i])
}

proof fn lemma_bind_less_transitive(a: Bind, b: Bind, c: Bind)
    requires
        bind_less(a, b),
        bind_less(b, c),
    ensures
        bind_less(a, c),
{
    if a.0 == b.0 && b.0 == c.0 {
        names::lemma_text_less_transitive(a.1, b.1, c.1);
    }
}

proof fn lemma_bind_slot(s: Seq<Bind>, x: Bind, i: int)
    requires
        0 <= i <= s.len(),
    ensures
        i <= bind_slot(s, x, i) <= s.len(),
        forall|k: int| i <= k < bind_slot(s, x, i) ==> !bind_less(x, #[trigger] s[k]),
        bind_slot(s, x, i) < s.len() ==> bind_less(x, s[bind_slot(s, x, i)]),
    decreases s.len() - i,
{
    if i < s.len() && !bind_less(x, s[i]) {
        lemma_bind_slot(s, x, i + 1);
    }
}

/// Sorting gives the same places in ascending order.
pub proof fn law_sort_binds(s: Seq<Bind>)
    ensures
        binds_sorted(sort_binds(s)),
        sort_binds(s).to_multiset() == s.to_multiset(),
    decreases s.len(),
{
    broadcast use vstd::seq_lib::group_to_multiset_ensures;
    if s.len() > 0 {
        let t = sort_binds(s.drop_last());
        law_sort_binds(s.drop_last());
        let x = s.last();
        lemma_bind_slot(t, x, 0);
        let k = bind_slot(t, x, 0);
        let r = t.insert(k, x);
        assert(s =~= s.drop_last().push(x));
        vstd::seq_lib::to_multiset_insert(t, k, x);
        assert forall|i: int,
            j: int| 0 <= i < j < r.len() implies !bind_less(#[trigger] r[j], #[trigger] r[i]) by {
            if i < k && j > k {
                assert(r[j] == t[j - 1]);
            } else if i == k {
                if bind_less(t[j - 1], x) {
                    lemma_bind_less_transitive(t[j - 1], x, t[k]);
                    names::lemma_text_less_irreflexive(t[k].1);
                }
            } else if i > k {
                assert(r[j] == t[j - 1] && r[i] == t[i - 1]);
            }
        }
    }
}

fn bind_before(a: &(u64, String, bool, i64), b: &(u64, String, bool, i64)) -> (r: bool)
    ensures
        r == bind_less(a@, b@),
{
    a.0 < b.0 || a.0 == b.0 && str_less(a.1.as_str(), b.1.as_str())
}

/// The places in ascending order, without those that equal the one before.
pub fn sorted_binds(binds: &Vec<(u64, String, bool, i64)>) -> (r: Vec<(u64, String, bool, i64)>)
    ensures
        model::views(r@) == dedup_binds(sort_binds(model::views(binds@))),
{
    broadcast use model::group_views;
    let mut out: Vec<(u64, String, bool, i64)> = Vec::new();
    let mut i: usize = 0;
    assert(model::views(binds@).subrange(0, 0) =~= seq![]);
    while i < binds.len()
        invariant
            i <= binds@.len(),
            model::views(out@) == sort_binds(model::views(binds@).subrange(0, i as int)),
        decreases binds@.len() - i,
    {
        let n: usize = out.len();
        let mut k: usize = 0;
        while k < n && !bind_before(&binds[i], &out[k])
            invariant
                k <= n,
                n == out@.len(),
                i < binds@.len(),
                bind_slot(model::views(out@), binds@[i as int]@, 0) == bind_slot(
                    model::views(out@),
                    binds@[i as int]@,
                    k as int,
                ),
            decreases n - k,
        {
            k = k + 1;
        }
        let ghost before = out@;
        let b = (binds[i].0, binds[i].1.clone(), binds[i].2, binds[i].3);
        out.insert(k, b);
        proof {
            let s = model::views(binds@).subrange(0, i + 1);
            assert(s.drop_last() =~= model::views(binds@).subrange(0, i as int));
            assert(s.last() == binds@[i as int]@);
            assert(model::views(out@) =~= model::views(before).insert(k as int, binds@[i as int]@));
        }
        i = i + 1;
    }
    assert(model::views(binds@).subrange(0, binds@.len() as int) =~= model::views(binds@));
    let mut kept: Vec<(u64, String, bool, i64)> = Vec::new();
    let mut j: usize = 0;
    assert(model::views(out@).subrange(0, 0) =~= seq![]);
    while j < out.len()
        invariant
            j <= out@.len(),
            model::views(kept@) == dedup_binds(model::views(out@).subrange(0, j as int)),
        decreases out@.len() - j,
    {
        let n: usize = kept.len();
        let same: bool = n > 0 && kept[n - 1].0 == out[j].0 && str_eq(
            kept[n - 1].1.as_str(),
            out[j].1.as_str(),
        ) && kept[n - 1].2 == out[j].2 && kept[n - 1].3 == out[j].3;
        proof {
            let s = model::views(out@).subrange(0, j + 1);
            assert(s.drop_last() =~= model::views(out@).subrange(0, j as int));
            assert(s.last() == out@[j as int]@);
            if n > 0 {
                assert(model::views(kept@).last() == kept@[n - 1]@);
            }
        }
        if !same {
            kept.push((out[j].0, out[j].1.clone(), out[j].2, out[j].3));
        }
        j = j + 1;
    }
    assert(model::views(out@).subrange(0, out@.len() as int) =~= model::views(out@));
    kept
}

} // verus!

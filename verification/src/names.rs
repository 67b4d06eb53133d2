//! Maps from names to values.
use vstd::prelude::*;
use vstd::utf8::*;
use crate::model;
use crate::text;
use crate::text::{str_eq, str_less};

verus! {

/// No string stands before itself.
pub proof fn lemma_bytes_less_irreflexive(a: Seq<u8>, i: int)
    ensures
        !text::bytes_less(a, a, i),
    decreases a.len() - i,
{
    if 0 <= i < a.len() {
        lemma_bytes_less_irreflexive(a, i + 1);
    }
}

/// The order of byte strings is transitive.
pub proof fn lemma_bytes_less_transitive(a: Seq<u8>, b: Seq<u8>, c: Seq<u8>, i: int)
    requires
        text::bytes_less(a, b, i),
        text::bytes_less(b, c, i),
    ensures
        text::bytes_less(a, c, i),
    decreases c.len() - i,
{
    if 0 <= i < c.len() && i < a.len() && i < b.len() && a[i] == b[i] && b[i] == c[i] {
        lemma_bytes_less_transitive(a, b, c, i + 1);
    }
}

/// Of two different byte strings one stands before the other.
pub proof fn lemma_bytes_less_total(a: Seq<u8>, b: Seq<u8>, i: int)
    requires
        0 <= i <= a.len(),
        i <= b.len(),
        a.subrange(0, i) == b.subrange(0, i),
    ensures
        a == b || text::bytes_less(a, b, i) || text::bytes_less(b, a, i),
    decreases a.len() - i,
{
    if i < a.len() && i < b.len() && a[i] == b[i] {
        assert(a.subrange(0, i + 1) =~= a.subrange(0, i).push(a[i]));
        assert(b.subrange(0, i + 1) =~= b.subrange(0, i).push(b[i]));
        lemma_bytes_less_total(a, b, i + 1);
    } else if i == a.len() && i == b.len() {
        assert(a =~= a.subrange(0, i));
        assert(b =~= b.subrange(0, i));
    }
}

/// The order of strings is strict.
pub proof fn lemma_text_less_irreflexive(a: Seq<char>)
    ensures
        !text::text_less(a, a),
{
    lemma_bytes_less_irreflexive(encode_utf8(a), 0);
}

/// The order of strings is transitive.
pub proof fn lemma_text_less_transitive(a: Seq<char>, b: Seq<char>, c: Seq<char>)
    requires
        text::text_less(a, b),
        text::text_less(b, c),
    ensures
        text::text_less(a, c),
{
    lemma_bytes_less_transitive(encode_utf8(a), encode_utf8(b), encode_utf8(c), 0);
}

/// The order of strings is total.
pub proof fn lemma_text_less_total(a: Seq<char>, b: Seq<char>)
    ensures
        a == b || text::text_less(a, b) || text::text_less(b, a),
{
    let x = encode_utf8(a);
    let y = encode_utf8(b);
    assert(x.subrange(0, 0) =~= y.subrange(0, 0));
    lemma_bytes_less_total(x, y, 0);
    text::lemma_bytes_inj(a, b);
}

/// Whether the names of the entries ascend.
pub open spec fn names_ascend<V>(s: Seq<(String, V)>) -> bool {
    forall|i: int, j: int| 0 <= i < j < s.len()
        ==> text::text_less((#[trigger] s[i]).0@, (#[trigger] s[j]).0@)
}

/// The position of `k` among the entries.
pub open spec fn entry_of<V>(s: Seq<(String, V)>, k: Seq<char>) -> int {
    choose|i: int| 0 <= i < s.len() && (#[trigger] s[i]).0@ == k
}

/// The map that the entries stand for.
pub open spec fn map_of<V>(s: Seq<(String, V)>) -> Map<Seq<char>, V> {
    Map::new(
        |k: Seq<char>| exists|i: int| 0 <= i < s.len() && (#[trigger] s[i]).0@ == k,
        |k: Seq<char>| s[entry_of(s, k)].1,
    )
}

/// Each entry is found under its name.
pub proof fn lemma_entry<V>(s: Seq<(String, V)>, i: int)
    requires
        names_ascend(s),
        0 <= i < s.len(),
    ensures
        map_of(s).dom().contains(s[i].0@),
        map_of(s)[s[i].0@] == s[i].1,
{
    let j = entry_of(s, s[i].0@);
    assert(0 <= j < s.len() && s[j].0@ == s[i].0@);
    lemma_text_less_irreflexive(s[i].0@);
    if i < j {
        assert(text::text_less(s[i].0@, s[j].0@));
    } else if j < i {
        assert(text::text_less(s[j].0@, s[i].0@));
    }
}

/// Replacing or adding one entry changes the map under its name only.
proof fn lemma_entries_change<V>(s: Seq<(String, V)>, t: Seq<(String, V)>, at: int, found: bool)
    requires
        names_ascend(s),
        names_ascend(t),
        0 <= at < t.len(),
        found ==> t == s.update(at, t[at]) && s[at].0@ == t[at].0@ && at < s.len(),
        !found ==> t == s.insert(at, t[at]) && at <= s.len(),
    ensures
        map_of(t) == map_of(s).insert(t[at].0@, t[at].1),
{
    let k = t[at].0@;
    let m = map_of(s).insert(k, t[at].1);
    lemma_entry(t, at);
    assert forall|q: Seq<char>| #[trigger] map_of(t).dom().contains(q) implies m.dom().contains(q)
        && m[q] == map_of(t)[q] by {
        let i = entry_of(t, q);
        assert(0 <= i < t.len() && t[i].0@ == q);
        if q != k {
            let j = if found || i < at { i } else { i - 1 };
            assert(s[j] == t[i]);
            lemma_entry(s, j);
            lemma_entry(t, i);
        }
    }
    assert forall|q: Seq<char>| #[trigger] m.dom().contains(q) implies map_of(t).dom().contains(q) by {
        if q != k {
            let j = entry_of(s, q);
            assert(0 <= j < s.len() && s[j].0@ == q);
            let i = if found || j < at { j } else { j + 1 };
            assert(s[j] == t[i]);
            lemma_entry(t, i);
        }
    }
    assert(map_of(t) =~= m);
}

/// A map from names to values, kept in the order of the names.
#[derive(Debug)]
pub struct NameMap<V> {
    entries: Vec<(String, V)>,
}

impl<V> View for NameMap<V> {
    type V = Map<Seq<char>, V>;

    closed spec fn view(&self) -> Map<Seq<char>, V> {
        map_of(self.entries@)
    }
}

impl<V> NameMap<V> {
    #[verifier::type_invariant]
    closed spec fn ordered(&self) -> bool {
        names_ascend(self.entries@)
    }

    /// An empty map.
    pub fn new() -> (r: Self)
        ensures
            r@ == Map::<Seq<char>, V>::empty(),
    {
        let r = NameMap { entries: Vec::new() };
        assert(r@ =~= Map::<Seq<char>, V>::empty());
        r
    }

    /// The position at which `k` stands or would stand.
    fn slot(&self, k: &str) -> (r: usize)
        ensures
            r <= self.entries@.len(),
            forall|i: int| 0 <= i < r ==> text::text_less((#[trigger] self.entries@[i]).0@, k@),
            forall|i: int| r <= i < self.entries@.len()
                ==> !text::text_less((#[trigger] self.entries@[i]).0@, k@),
    {
        proof {
            use_type_invariant(self);
        }
        let mut lo: usize = 0;
        let mut hi: usize = self.entries.len();
        while lo < hi
            invariant
                lo <= hi <= self.entries@.len(),
                names_ascend(self.entries@),
                forall|i: int| 0 <= i < lo
                    ==> text::text_less((#[trigger] self.entries@[i]).0@, k@),
                forall|i: int| hi <= i < self.entries@.len()
                    ==> !text::text_less((#[trigger] self.entries@[i]).0@, k@),
            decreases hi - lo,
        {
            let mid: usize = lo + (hi - lo) / 2;
            if str_less(self.entries[mid].0.as_str(), k) {
                assert forall|i: int| 0 <= i < mid
                    + 1 implies text::text_less((#[trigger] self.entries@[i]).0@, k@) by {
                    if i < mid {
                        lemma_text_less_transitive(self.entries@[i].0@,
                            self.entries@[mid as int].0@, k@);
                    }
                }
                lo = mid + 1;
            } else {
                assert forall|i: int| mid <= i < self.entries@.len() implies !text::text_less(
                    (#[trigger] self.entries@[i]).0@,
                    k@,
                ) by {
                    if i > mid && text::text_less(self.entries@[i].0@, k@) {
                        lemma_text_less_transitive(self.entries@[mid as int].0@,
                            self.entries@[i].0@, k@);
                    }
                }
                hi = mid;
            }
        }
        lo
    }

    /// The value under `k`.
    pub fn get(&self, k: &str) -> (r: Option<&V>)
        ensures
            match r {
                Some(v) => self@.dom().contains(k@) && self@[k@] == *v,
                None => !self@.dom().contains(k@),
            },
    {
        proof {
            use_type_invariant(self);
        }
        let at: usize = self.slot(k);
        proof {
            assert forall|i: int| 0 <= i < self.entries@.len()
                && i != at implies (#[trigger] self.entries@[i]).0@ != k@ by {
                if i < at {
                    lemma_text_less_irreflexive(k@);
                } else if self.entries@[i].0@ == k@ {
                    assert(text::text_less(self.entries@[at as int].0@, self.entries@[i].0@));
                }
            }
        }
        if at < self.entries.len() && str_eq(self.entries[at].0.as_str(), k) {
            proof {
                lemma_entry(self.entries@, at as int);
            }
            Some(&self.entries[at].1)
        } else {
            None
        }
    }

    /// The entries, in the order of the names.
    pub fn entries(&self) -> (r: &Vec<(String, V)>)
        ensures
            map_of(r@) == self@,
            names_ascend(r@),
    {
        proof {
            use_type_invariant(self);
        }
        &self.entries
    }

    /// Whether there is a value under `k`.
    pub fn contains_key(&self, k: &str) -> (r: bool)
        ensures
            r == self@.dom().contains(k@),
    {
        self.get(k).is_some()
    }

    /// Takes away what stands under `k`.
    pub fn remove(&mut self, k: &str)
        ensures
            final(self)@ == old(self)@.remove(k@),
    {
        proof {
            use_type_invariant(&*self);
        }
        let at: usize = self.slot(k);
        let ghost before = self.entries@;
        let found: bool = at < self.entries.len() && str_eq(self.entries[at].0.as_str(), k);
        if !found {
            proof {
                assert forall|i: int| 0 <= i < before.len() implies (#[trigger] before[i]).0@ != k@ by {
                    lemma_text_less_irreflexive(k@);
                    if i > at && before[i].0@ == k@ {
                        assert(text::text_less(before[at as int].0@, before[i].0@));
                    }
                }
                assert(self@.remove(k@) =~= self@);
            }
            return;
        }
        let mut entries: Vec<(String, V)> = Vec::new();
        std::mem::swap(&mut self.entries, &mut entries);
        entries.remove(at);
        proof {
            lemma_entries_remove(before, at as int);
        }
        std::mem::swap(&mut self.entries, &mut entries);
    }

    /// Puts `v` under `k`, in place of what stood there.
    pub fn insert(&mut self, k: String, v: V)
        ensures
            final(self)@ == old(self)@.insert(k@, v),
    {
        proof {
            use_type_invariant(&*self);
        }
        let at: usize = self.slot(k.as_str());
        let found: bool = at < self.entries.len()
            && str_eq(self.entries[at].0.as_str(), k.as_str());
        let ghost before = self.entries@;
        proof {
            lemma_text_less_irreflexive(k@);
            assert forall|i: int| 0 <= i < before.len()
                && i != at implies (#[trigger] before[i]).0@ != k@ by {
                if i > at && before[i].0@ == k@ {
                    assert(text::text_less(before[at as int].0@, before[i].0@));
                }
            }
        }
        let mut entries: Vec<(String, V)> = Vec::new();
        std::mem::swap(&mut self.entries, &mut entries);
        if found {
            entries[at] = (k, v);
        } else {
            proof {
                assert forall|i: int| at <= i < before.len() implies text::text_less(k@,
                    (#[trigger] before[i]).0@) by {
                    lemma_text_less_total(k@, before[i].0@);
                    if at < i {
                        assert(text::text_less(before[at as int].0@, before[i].0@));
                    }
                }
            }
            entries.insert(at, (k, v));
        }
        proof {
            lemma_entries_change(before, entries@, at as int, found);
        }
        std::mem::swap(&mut self.entries, &mut entries);
    }
}

proof fn lemma_entries_remove<V>(s: Seq<(String, V)>, at: int)
    requires
        names_ascend(s),
        0 <= at < s.len(),
    ensures
        names_ascend(s.remove(at)),
        map_of(s.remove(at)) == map_of(s).remove(s[at].0@),
{
    let t = s.remove(at);
    let k = s[at].0@;
    let m = map_of(s).remove(k);
    assert forall|i: int,
        j: int| 0 <= i < j < t.len() implies text::text_less((#[trigger] t[i]).0@,
            (#[trigger] t[j]).0@) by {
        let a = if i < at { i } else { i + 1 };
        let b = if j < at { j } else { j + 1 };
        assert(text::text_less(s[a].0@, s[b].0@));
    }
    assert forall|q: Seq<char>| #[trigger] map_of(t).dom().contains(q) implies m.dom().contains(q)
        && m[q] == map_of(t)[q] by {
        let i = entry_of(t, q);
        assert(0 <= i < t.len() && t[i].0@ == q);
        let j = if i < at { i } else { i + 1 };
        assert(s[j] == t[i]);
        lemma_entry(s, j);
        lemma_entry(t, i);
        lemma_text_less_irreflexive(k);
        if j < at {
            assert(text::text_less(s[j].0@, s[at].0@));
        } else {
            assert(text::text_less(s[at].0@, s[j].0@));
        }
    }
    assert forall|q: Seq<char>| #[trigger] m.dom().contains(q) implies map_of(t).dom().contains(q) by {
        let j = entry_of(s, q);
        assert(0 <= j < s.len() && s[j].0@ == q);
        let i = if j < at { j } else { j - 1 };
        assert(s[j] == t[i]);
        lemma_entry(t, i);
    }
    assert(map_of(t) =~= m);
}

impl<V: Copy> Clone for NameMap<V> {
    fn clone(&self) -> (r: Self)
        ensures
            r@ == self@,
    {
        proof {
            use_type_invariant(self);
        }
        let mut entries: Vec<(String, V)> = Vec::new();
        let mut i: usize = 0;
        while i < self.entries.len()
            invariant
                i <= self.entries@.len(),
                entries@ == self.entries@.subrange(0, i as int),
            decreases self.entries@.len() - i,
        {
            entries.push((self.entries[i].0.clone(), self.entries[i].1));
            assert(entries@ =~= self.entries@.subrange(0, i + 1));
            i = i + 1;
        }
        assert(entries@ =~= self.entries@);
        NameMap { entries }
    }
}

/// `s`, with `x` behind it unless it is there already.
pub open spec fn add_name(s: Seq<Seq<char>>, x: Seq<char>) -> Seq<Seq<char>> {
    if s.contains(x) {
        s
    } else {
        s.push(x)
    }
}

/// Different names in the order in which they were added.
#[derive(Debug)]
pub struct NameList {
    items: Vec<String>,
    index: NameMap<usize>,
}

impl View for NameList {
    type V = Seq<Seq<char>>;

    closed spec fn view(&self) -> Seq<Seq<char>> {
        model::views(self.items@)
    }
}

impl NameList {
    #[verifier::type_invariant]
    closed spec fn indexed(&self) -> bool {
        &&& forall|x: Seq<char>|
            self.index@.dom().contains(x) <==> #[trigger] model::views(self.items@).contains(x)
        &&& model::views(self.items@).no_duplicates()
    }

    /// No names.
    pub fn new() -> (r: Self)
        ensures
            r@ == Seq::<Seq<char>>::empty(),
    {
        broadcast use model::group_views;
        NameList { items: Vec::new(), index: NameMap::new() }
    }

    /// Whether `name` is among the names.
    pub fn contains(&self, name: &str) -> (r: bool)
        ensures
            r == self@.contains(name@),
    {
        proof {
            use_type_invariant(self);
        }
        self.index.contains_key(name)
    }

    /// Adds `name` unless it is there; whether it was added.
    pub fn insert(&mut self, name: String) -> (r: bool)
        ensures
            final(self)@ == add_name(old(self)@, name@),
            r == !old(self)@.contains(name@),
    {
        broadcast use model::group_views;
        proof {
            use_type_invariant(&*self);
        }
        if self.index.contains_key(name.as_str()) {
            return false;
        }
        let mut list = NameList::new();
        std::mem::swap(self, &mut list);
        let NameList { items: mut names, index: mut at } = list;
        let ghost before = model::views(names@);
        at.insert(name.clone(), names.len());
        names.push(name);
        proof {
            let after = before.push(name@);
            assert(!before.contains(name@));
            assert forall|i: int, j: int| 0 <= i < after.len() && 0 <= j < after.len()
                && i != j implies after[i]
                != after[j] by {
                if i < before.len() && j < before.len() {
                    assert(before[i] != before[j]);
                } else if i < before.len() {
                    assert(before.contains(before[i]));
                } else {
                    assert(before.contains(before[j]));
                }
            }
            assert forall|x: Seq<char>| at@.dom().contains(x) <==> #[trigger] model::views(names@).contains(x) by {
                if before.contains(x) {
                    let i = before.index_of(x);
                    assert(after[i] == x);
                }
                assert(after[before.len() as int] == name@);
                if after.contains(x) && x != name@ {
                    let i = after.index_of(x);
                    assert(before[i] == x);
                }
            }
        }
        *self = NameList { items: names, index: at };
        true
    }

    /// The names, in their order; none occurs twice.
    pub fn names(&self) -> (r: &Vec<String>)
        ensures
            model::views(r@) == self@,
            self@.no_duplicates(),
    {
        proof {
            use_type_invariant(self);
        }
        &self.items
    }

    /// The names, in their order.
    pub fn into_names(self) -> (r: Vec<String>)
        ensures
            model::views(r@) == self@,
    {
        self.items
    }

    /// How many names there are.
    pub fn len(&self) -> (r: usize)
        ensures
            r == self@.len(),
    {
        self.items.len()
    }
}

/// Adding keeps every name in its place and adds at most the one.
pub proof fn law_add_name(s: Seq<Seq<char>>, x: Seq<char>, y: Seq<char>)
    ensures
        add_name(s, x).contains(y) <==> s.contains(y) || x == y,
        s.no_duplicates() ==> add_name(s, x).no_duplicates(),
        s.is_prefix_of(add_name(s, x)),
{
    let t = s.push(x);
    assert(t[s.len() as int] == x);
    if s.contains(y) {
        let i = s.index_of(y);
        assert(t[i] == y);
    }
    if t.contains(y) && x != y {
        let i = t.index_of(y);
        assert(s[i] == y);
    }
}

/// Copies of the names.
pub fn clone_names(names: &Vec<String>) -> (r: Vec<String>)
    ensures
        model::views(r@) == model::views(names@),
{
    broadcast use model::group_views;
    let mut out: Vec<String> = Vec::new();
    let mut i: usize = 0;
    while i < names.len()
        invariant
            i <= names@.len(),
            out@ == names@.subrange(0, i as int),
        decreases names@.len() - i,
    {
        out.push(names[i].clone());
        assert(out@ =~= names@.subrange(0, i + 1));
        i = i + 1;
    }
    assert(out@ =~= names@);
    out
}

/// A set of names.
#[derive(Debug, Clone)]
pub struct NameSet {
    map: NameMap<bool>,
}

impl View for NameSet {
    type V = Set<Seq<char>>;

    closed spec fn view(&self) -> Set<Seq<char>> {
        self.map@.dom()
    }
}

impl NameSet {
    /// The empty set.
    pub fn new() -> (r: Self)
        ensures
            r@ == Set::<Seq<char>>::empty(),
    {
        let r = NameSet { map: NameMap::new() };
        assert(r@ =~= Set::<Seq<char>>::empty());
        r
    }

    /// Whether `name` is in the set.
    pub fn contains(&self, name: &str) -> (r: bool)
        ensures
            r == self@.contains(name@),
    {
        self.map.contains_key(name)
    }

    /// Adds `name`.
    pub fn insert(&mut self, name: String)
        ensures
            final(self)@ == old(self)@.insert(name@),
    {
        self.map.insert(name, true);
        assert(self@ =~= old(self)@.insert(name@));
    }

    /// Adds all names of `other`.
    pub fn add_all(&mut self, other: &NameSet)
        ensures
            final(self)@ == old(self)@.union(other@),
    {
        let entries = other.map.entries();
        let ghost before = self@;
        let mut i: usize = 0;
        while i < entries.len()
            invariant
                i <= entries@.len(),
                map_of(entries@) == other.map@,
                forall|k: Seq<char>| #[trigger]
                    self@.contains(k) <==> before.contains(k) || exists|j: int|
                        0 <= j < i && (#[trigger] entries@[j]).0@ == k,
            decreases entries@.len() - i,
        {
            let ghost prior = self@;
            let ghost key = entries@[i as int].0@;
            self.insert(entries[i].0.clone());
            assert forall|k: Seq<char>| #[trigger] self@.contains(k) <==> before.contains(k)
                || exists|j: int|
                0 <= j < i + 1 && (#[trigger] entries@[j]).0@ == k by {
                if k == key {
                    assert(entries@[i as int].0@ == k);
                } else {
                    assert(self@.contains(k) <==> prior.contains(k));
                }
            }
            i = i + 1;
        }
        proof {
            assert forall|k: Seq<char>| self@.contains(k) <==> before.union(other@).contains(k) by {
                if other@.contains(k) {
                    let j = entry_of(entries@, k);
                    assert(0 <= j < entries@.len() && entries@[j].0@ == k);
                }
            }
            assert(self@ =~= before.union(other@));
        }
    }

    /// Takes away all names of `other`.
    pub fn remove_all(&mut self, other: &NameSet)
        ensures
            final(self)@ == old(self)@.difference(other@),
    {
        let entries = other.map.entries();
        let ghost before = self@;
        let mut i: usize = 0;
        while i < entries.len()
            invariant
                i <= entries@.len(),
                map_of(entries@) == other.map@,
                forall|k: Seq<char>| #[trigger]
                    self@.contains(k) <==> before.contains(k) && !(exists|j: int|
                        0 <= j < i && (#[trigger] entries@[j]).0@ == k),
            decreases entries@.len() - i,
        {
            let ghost prior = self@;
            let ghost key = entries@[i as int].0@;
            self.map.remove(entries[i].0.as_str());
            assert forall|k: Seq<char>| #[trigger] self@.contains(k) <==> before.contains(k)
                && !(exists|j: int|
                0 <= j < i + 1 && (#[trigger] entries@[j]).0@ == k) by {
                if k == key {
                    assert(entries@[i as int].0@ == k);
                } else {
                    assert(self@.contains(k) <==> prior.contains(k));
                }
            }
            i = i + 1;
        }
        proof {
            assert forall|k: Seq<char>| self@.contains(k) <==> before.difference(other@).contains(k) by {
                if other@.contains(k) {
                    let j = entry_of(entries@, k);
                    assert(0 <= j < entries@.len() && entries@[j].0@ == k);
                }
            }
            assert(self@ =~= before.difference(other@));
        }
    }

    /// Whether no name is in both sets.
    pub fn is_disjoint(&self, other: &NameSet) -> (r: bool)
        ensures
            r == self@.disjoint(other@),
    {
        let entries = self.map.entries();
        let mut i: usize = 0;
        while i < entries.len()
            invariant
                i <= entries@.len(),
                map_of(entries@) == self.map@,
                forall|j: int| 0 <= j < i ==> !other@.contains((#[trigger] entries@[j]).0@),
            decreases entries@.len() - i,
        {
            if other.contains(entries[i].0.as_str()) {
                assert(map_of(entries@).dom().contains(entries@[i as int].0@));
                return false;
            }
            i = i + 1;
        }
        proof {
            assert forall|k: Seq<char>| self@.contains(k) implies !other@.contains(k) by {
                let j = entry_of(entries@, k);
                assert(0 <= j < entries@.len() && entries@[j].0@ == k);
            }
        }
        true
    }
}

} // verus!

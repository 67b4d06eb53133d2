//! The sections that the dynamic linker reads: the procedure linkage table, the
//! dynamic symbols with their strings and their hash table, and the table that
//! points to them.
use vstd::prelude::*;
use vstd::string::*;
use vstd::utf8::*;
use crate::bytes;
use crate::bytes::{push_bytes, push_u16, push_u32, push_u64, push_zeros};
use crate::elf::{RelaEntry, Symbol};
use crate::model;
use crate::text;

verus! {

/// One step of the hash that ELF hash tables use.
pub open spec fn hash_step(h: u32, b: u8) -> u32 {
    let shifted = (h << 4).wrapping_add(b as u32);
    let top = shifted & 0xf000_0000;
    (if top != 0 {
        shifted ^ (top >> 24)
    } else {
        shifted
    }) & !top
}

/// The hash of the first `n` bytes of a name.
pub open spec fn sysv_hash(name: Seq<u8>, n: nat) -> u32
    decreases n,
{
    if n == 0 {
        0
    } else {
        hash_step(sysv_hash(name, (n - 1) as nat), name[n - 1])
    }
}

/// The hash of a name.
pub fn elf_hash(name: &[u8]) -> (r: u32)
    ensures
        r == sysv_hash(name@, name@.len()),
{
    let mut h: u32 = 0;
    let mut i: usize = 0;
    while i < name.len()
        invariant
            i <= name@.len(),
            h == sysv_hash(name@, i as nat),
        decreases name@.len() - i,
    {
        h = (h << 4).wrapping_add(name[i] as u32);
        let g: u32 = h & 0xf000_0000;
        if g != 0 {
            h = h ^ (g >> 24);
        }
        h = h & !g;
        i = i + 1;
    }
    h
}

/// A hash table: the head of the chain of each bucket, and the successor of each symbol.
pub struct HashTable {
    pub buckets: Seq<u32>,
    pub chains: Seq<u32>,
}

/// The bucket of a name in a table with `n` buckets.
pub open spec fn bucket_of(name: Seq<char>, n: nat) -> int {
    let bytes = encode_utf8(name);
    sysv_hash(bytes, bytes.len()) as int % n as int
}

/// The table of the first `k` of the names; the symbol `i + 1` has the name `i`.
pub open spec fn hash_table(names: Seq<Seq<char>>, k: nat) -> HashTable
    decreases k,
{
    let size = names.len() + 1;
    if k == 0 {
        HashTable {
            buckets: Seq::new(size, |i: int| 0u32),
            chains: Seq::new(size, |i: int| 0u32),
        }
    } else {
        let t = hash_table(names, (k - 1) as nat);
        let b = bucket_of(names[k - 1], size);
        HashTable {
            buckets: t.buckets.update(b, k as u32),
            chains: t.chains.update(k as int, t.buckets[b]),
        }
    }
}

/// The bytes of the first `n` words.
pub open spec fn word_bytes(s: Seq<u32>, n: nat) -> Seq<u8>
    decreases n,
{
    if n == 0 {
        seq![]
    } else {
        word_bytes(s, (n - 1) as nat) + bytes::le32(s[n - 1])
    }
}

/// The bytes of the hash table of the names.
pub open spec fn hash_bytes(names: Seq<Seq<char>>) -> Seq<u8> {
    let t = hash_table(names, names.len());
    let size = names.len() + 1;
    bytes::le32(size as u32) + bytes::le32(size as u32) + word_bytes(t.buckets, size)
        + word_bytes(t.chains, size)
}

fn push_words(out: &mut Vec<u8>, words: &Vec<u32>)
    ensures
        final(out)@ == old(out)@ + word_bytes(words@, words@.len()),
{
    let mut i: usize = 0;
    assert(out@ =~= old(out)@ + word_bytes(words@, 0));
    while i < words.len()
        invariant
            i <= words@.len(),
            out@ == old(out)@ + word_bytes(words@, i as nat),
        decreases words@.len() - i,
    {
        push_u32(out, words[i]);
        assert(out@ =~= old(out)@ + word_bytes(words@, (i + 1) as nat));
        i = i + 1;
    }
}

/// Builds the hash table of the dynamic symbols. The symbol `i + 1` has the name `i`; the symbol
/// zero is reserved.
pub fn build_sysv_hash(names: &Vec<String>) -> (r: Vec<u8>)
    requires
        names@.len() < u32::MAX,
    ensures
        r@ == hash_bytes(model::views(names@)),
{
    let n: usize = names.len();
    let size: u32 = n as u32 + 1;
    let mut buckets: Vec<u32> = vec![0u32; size as usize];
    let mut chains: Vec<u32> = vec![0u32; size as usize];
    assert(buckets@ =~= hash_table(model::views(names@), 0).buckets);
    assert(chains@ =~= hash_table(model::views(names@), 0).chains);
    let mut i: usize = 0;
    while i < n
        invariant
            i <= n,
            n == names@.len(),
            size == n + 1,
            buckets@.len() == size,
            chains@.len() == size,
            buckets@ == hash_table(model::views(names@), i as nat).buckets,
            chains@ == hash_table(model::views(names@), i as nat).chains,
        decreases n - i,
    {
        assert(model::views(names@)[i as int] == names@[i as int]@);
        let h: u32 = elf_hash(names[i].as_str().as_bytes());
        let b: usize = (h % size) as usize;
        chains[i + 1] = buckets[b];
        buckets[b] = (i + 1) as u32;
        i = i + 1;
    }
    let mut out: Vec<u8> = Vec::new();
    push_u32(&mut out, size);
    push_u32(&mut out, size);
    push_words(&mut out, &buckets);
    push_words(&mut out, &chains);
    assert(out@ =~= hash_bytes(model::views(names@)));
    out
}

/// The strings of the first `n` dynamic symbols, behind that of the C library.
pub open spec fn dynstr_bytes(names: Seq<Seq<char>>, n: nat) -> Seq<u8>
    decreases n,
{
    if n == 0 {
        seq![0u8] + encode_utf8("libc.so.6"@) + seq![0u8]
    } else {
        dynstr_bytes(names, (n - 1) as nat) + encode_utf8(names[n - 1]) + seq![0u8]
    }
}

/// A dynamic symbol: a global function that is defined elsewhere.
pub open spec fn dynsym_entry(name_offset: u32) -> Seq<u8> {
    bytes::le32(name_offset) + seq![0x12u8, 0u8] + bytes::le16(0) + bytes::le64(0) + bytes::le64(0)
}

/// The reserved symbol and the first `n` dynamic symbols.
pub open spec fn dynsym_bytes(names: Seq<Seq<char>>, n: nat) -> Seq<u8>
    decreases n,
{
    if n == 0 {
        bytes::zeros(24)
    } else {
        dynsym_bytes(names, (n - 1) as nat) + dynsym_entry(
            dynstr_bytes(names, (n - 1) as nat).len() as u32,
        )
    }
}

/// The relocation that fills the slot of the dynamic symbol `i + 1`.
pub open spec fn jump_slot(got: u64, i: nat) -> Seq<u8> {
    bytes::le64((got + 24 + i * 8) as u64) + bytes::le64((((i + 1) as u64) << 32) | 7)
        + bytes::le64(0)
}

/// The relocations of the first `n` slots behind the three reserved ones.
pub open spec fn rela_plt_bytes(got: u64, n: nat) -> Seq<u8>
    decreases n,
{
    if n == 0 {
        seq![]
    } else {
        rela_plt_bytes(got, (n - 1) as nat) + jump_slot(got, (n - 1) as nat)
    }
}

/// Builds the bytes of the dynamic symbols and of their strings.
pub fn build_dynamic_symbols(names: &Vec<String>) -> (r: (Vec<u8>, Vec<u8>))
    ensures
        r.0@ == dynsym_bytes(model::views(names@), names@.len()),
        r.1@ == dynstr_bytes(model::views(names@), names@.len()),
{
    let mut dynstr: Vec<u8> = Vec::new();
    dynstr.push(0);
    push_bytes(&mut dynstr, "libc.so.6".as_bytes());
    dynstr.push(0);
    assert(dynstr@ =~= dynstr_bytes(model::views(names@), 0));
    let mut dynsym: Vec<u8> = Vec::new();
    push_zeros(&mut dynsym, 24);
    assert(dynsym@ =~= dynsym_bytes(model::views(names@), 0));
    let mut i: usize = 0;
    while i < names.len()
        invariant
            i <= names@.len(),
            dynsym@ == dynsym_bytes(model::views(names@), i as nat),
            dynstr@ == dynstr_bytes(model::views(names@), i as nat),
        decreases names@.len() - i,
    {
        assert(model::views(names@)[i as int] == names@[i as int]@);
        let ghost before = dynsym@;
        let ghost strings = dynstr@;
        push_u32(&mut dynsym, dynstr.len() as u32);
        dynsym.push(0x12);
        dynsym.push(0);
        push_u16(&mut dynsym, 0);
        push_u64(&mut dynsym, 0);
        push_u64(&mut dynsym, 0);
        assert(dynsym@ =~= before + dynsym_entry(strings.len() as u32));
        push_bytes(&mut dynstr, names[i].as_str().as_bytes());
        dynstr.push(0);
        assert(dynstr@ =~= dynstr_bytes(model::views(names@), (i + 1) as nat));
        i = i + 1;
    }
    (dynsym, dynstr)
}

/// Builds the relocations of `n` slots.
pub fn build_rela_plt(got: u64, n: usize) -> (r: Vec<u8>)
    requires
        got + 24 + n * 8 <= u64::MAX,
        n < u32::MAX,
    ensures
        r@ == rela_plt_bytes(got, n as nat),
{
    let mut out: Vec<u8> = Vec::new();
    let mut i: usize = 0;
    while i < n
        invariant
            i <= n,
            n < u32::MAX,
            got + 24 + n * 8 <= u64::MAX,
            out@ == rela_plt_bytes(got, i as nat),
        decreases n - i,
    {
        let ghost before = out@;
        push_u64(&mut out, got + 24 + i as u64 * 8);
        push_u64(&mut out, (((i + 1) as u64) << 32) | 7);
        push_u64(&mut out, 0);
        assert(out@ =~= before + jump_slot(got, i as nat));
        i = i + 1;
    }
    out
}

/// Where the dynamic linker finds what it needs.
pub struct DynamicPlaces {
    pub got: u64,
    pub dynsym: u64,
    pub dynstr: u64,
    pub dynstr_size: u64,
    pub rela_plt: u64,
    pub rela_plt_size: u64,
    pub hash: u64,
}

/// One entry of the dynamic table.
pub open spec fn dyn_entry(tag: u64, value: u64) -> Seq<u8> {
    bytes::le64(tag) + bytes::le64(value)
}

/// The dynamic table. It has all symbols bound when the image is loaded.
pub open spec fn dynamic_table(p: DynamicPlaces) -> Seq<u8> {
    dyn_entry(4, p.hash) + dyn_entry(1, 1) + dyn_entry(5, p.dynstr) + dyn_entry(6, p.dynsym)
        + dyn_entry(10, p.dynstr_size) + dyn_entry(11, 24) + dyn_entry(3, p.got) + dyn_entry(
        2,
        p.rela_plt_size,
    ) + dyn_entry(20, 7) + dyn_entry(23, p.rela_plt) + dyn_entry(24, 0) + dyn_entry(30, 0x8)
        + dyn_entry(0x6ffffffb, 0x1) + dyn_entry(0, 0)
}

fn push_dyn(out: &mut Vec<u8>, tag: u64, value: u64)
    ensures
        final(out)@ == old(out)@ + dyn_entry(tag, value),
{
    push_u64(out, tag);
    push_u64(out, value);
    assert(out@ =~= old(out)@ + dyn_entry(tag, value));
}

/// Builds the dynamic table.
pub fn build_dynamic_section_content(p: &DynamicPlaces) -> (r: Vec<u8>)
    ensures
        r@ == dynamic_table(*p),
{
    let mut out: Vec<u8> = Vec::new();
    push_dyn(&mut out, 4, p.hash);
    push_dyn(&mut out, 1, 1);
    push_dyn(&mut out, 5, p.dynstr);
    push_dyn(&mut out, 6, p.dynsym);
    push_dyn(&mut out, 10, p.dynstr_size);
    push_dyn(&mut out, 11, 24);
    push_dyn(&mut out, 3, p.got);
    push_dyn(&mut out, 2, p.rela_plt_size);
    push_dyn(&mut out, 20, 7);
    push_dyn(&mut out, 23, p.rela_plt);
    push_dyn(&mut out, 24, 0);
    push_dyn(&mut out, 30, 0x8);
    push_dyn(&mut out, 0x6ffffffb, 0x1);
    push_dyn(&mut out, 0, 0);
    assert(out@ =~= dynamic_table(*p));
    out
}

/// The distance from the end of an instruction to its target, modulo 2^32.
pub open spec fn rel32(target: int, next: int) -> u32 {
    ((target - next) % 0x1_0000_0000) as u32
}

/// The distance from the end of an instruction to its target, modulo 2^32.
pub fn low_difference(target: u64, next: u64) -> (r: u32)
    ensures
        r == rel32(target as int, next as int),
{
    let m: u64 = 0x1_0000_0000;
    let x: u64 = target % m;
    let y: u64 = next % m;
    proof {
        vstd::arithmetic::div_mod::lemma_sub_mod_noop(target as int, next as int, m as int);
    }
    if x >= y {
        proof {
            vstd::arithmetic::div_mod::lemma_small_mod((x - y) as nat, m as nat);
        }
        (x - y) as u32
    } else {
        proof {
            vstd::arithmetic::div_mod::lemma_mod_add_multiples_vanish(x as int - y as int,
                m as int);
            vstd::arithmetic::div_mod::lemma_small_mod((x - y + m) as nat, m as nat);
        }
        (m - (y - x)) as u32
    }
}

/// A distance leads from the end of an instruction to its target, where that is less than 2 GiB
/// away.
pub proof fn law_distance_leads_to_target(target: int, next: int)
    requires
        -0x8000_0000 <= target - next < 0x8000_0000,
    ensures
        next + bytes::signed32(rel32(target, next)) == target,
{
    let d = target - next;
    if d >= 0 {
        vstd::arithmetic::div_mod::lemma_small_mod(d as nat, 0x1_0000_0000);
    } else {
        vstd::arithmetic::div_mod::lemma_mod_add_multiples_vanish(d, 0x1_0000_0000);
        vstd::arithmetic::div_mod::lemma_small_mod((d + 0x1_0000_0000) as nat, 0x1_0000_0000);
    }
}

/// The first entry of the procedure linkage table, 16 bytes long.
pub open spec fn plt_head(plt: u64, got: u64) -> Seq<u8> {
    seq![0xffu8, 0x35u8] + bytes::le32(rel32(got + 8, plt + 6)) + seq![0xffu8, 0x25u8]
        + bytes::le32(
        rel32(got + 16, plt + 12),
    ) + seq![0x90u8, 0x90u8, 0x90u8, 0x90u8]
}

/// The entry `i` of the procedure linkage table, 16 bytes long: it jumps through the slot `i`
/// behind the three reserved ones.
pub open spec fn plt_entry(plt: u64, got: u64, i: nat) -> Seq<u8> {
    let at = plt + 16 + i * 16;
    seq![0xffu8, 0x25u8] + bytes::le32(rel32((got + 24 + i * 8) as int, (at + 6) as int))
        + seq![0x68u8]
        + bytes::le32(i as u32) + seq![0xe9u8] + bytes::le32(rel32(plt as int, (at + 11) as int))
}

/// The head and the first `n` entries of the procedure linkage table.
pub open spec fn plt_bytes(plt: u64, got: u64, n: nat) -> Seq<u8>
    decreases n,
{
    if n == 0 {
        plt_head(plt, got)
    } else {
        plt_bytes(plt, got, (n - 1) as nat) + plt_entry(plt, got, (n - 1) as nat)
    }
}

/// Builds the procedure linkage table.
pub fn build_plt(plt: u64, got: u64, n: usize) -> (r: Vec<u8>)
    requires
        plt + 16 + n * 16 <= u64::MAX,
        got + 24 + n * 8 <= u64::MAX,
        n < u32::MAX,
    ensures
        r@ == plt_bytes(plt, got, n as nat),
{
    let mut out: Vec<u8> = Vec::new();
    out.push(0xff);
    out.push(0x35);
    push_u32(&mut out, low_difference(got + 8, plt + 6));
    out.push(0xff);
    out.push(0x25);
    push_u32(&mut out, low_difference(got + 16, plt + 12));
    out.push(0x90);
    out.push(0x90);
    out.push(0x90);
    out.push(0x90);
    assert(out@ =~= plt_head(plt, got));
    let mut i: usize = 0;
    while i < n
        invariant
            i <= n,
            n < u32::MAX,
            plt + 16 + n * 16 <= u64::MAX,
            got + 24 + n * 8 <= u64::MAX,
            out@ == plt_bytes(plt, got, i as nat),
        decreases n - i,
    {
        let at: u64 = plt + 16 + i as u64 * 16;
        let slot: u64 = got + 24 + i as u64 * 8;
        let ghost before = out@;
        out.push(0xff);
        out.push(0x25);
        push_u32(&mut out, low_difference(slot, at + 6));
        out.push(0x68);
        push_u32(&mut out, i as u32);
        out.push(0xe9);
        push_u32(&mut out, low_difference(plt, at + 11));
        assert(out@ =~= before + plt_entry(plt, got, i as nat));
        i = i + 1;
    }
    out
}

proof fn lemma_word_bytes(s: Seq<u32>, n: nat, i: int)
    requires
        0 <= i < n <= s.len(),
    ensures
        word_bytes(s, n).len() == 4 * n,
        word_bytes(s, n).subrange(4 * i, 4 * i + 4) == bytes::le32(s[i]),
    decreases n,
{
    broadcast use bytes::group_le_len;
    lemma_word_bytes_len(s, (n - 1) as nat);
    if i < n - 1 {
        lemma_word_bytes(s, (n - 1) as nat, i);
    }
    let before = word_bytes(s, (n - 1) as nat);
    assert(word_bytes(s, n).subrange(4 * i, 4 * i + 4) =~= if i < n - 1 {
        before.subrange(4 * i, 4 * i + 4)
    } else {
        bytes::le32(s[i])
    });
}

proof fn lemma_word_bytes_len(s: Seq<u32>, n: nat)
    ensures
        word_bytes(s, n).len() == 4 * n,
    decreases n,
{
    broadcast use bytes::group_le_len;
    if n > 0 {
        lemma_word_bytes_len(s, (n - 1) as nat);
    }
}

proof fn lemma_hash_table_shape(names: Seq<Seq<char>>, k: nat)
    requires
        k <= names.len() < u32::MAX,
    ensures
        hash_table(names, k).buckets.len() == names.len() + 1,
        hash_table(names, k).chains.len() == names.len() + 1,
        forall|b: int|
            0 <= b <= names.len() ==> (#[trigger] hash_table(names, k).buckets[b]) as int <= k,
        forall|i: int|
            0 < i <= names.len() ==> ((#[trigger] hash_table(names, k).chains[i]) as int) < i,
    decreases k,
{
    if k > 0 {
        lemma_hash_table_shape(names, (k - 1) as nat);
        let t = hash_table(names, (k - 1) as nat);
        let b = bucket_of(names[k - 1], names.len() + 1);
        assert(0 <= b < names.len() + 1) by (nonlinear_arith)
            requires
                b == sysv_hash(encode_utf8(names[k - 1]),
                    encode_utf8(names[k - 1]).len()) as int % (
                names.len() + 1) as int,
                names.len() >= 0,
        ;
        assert(t.buckets[b] as int <= k - 1);
    }
}

/// What a walk along the chain from the symbol `i` on finds under a name, in at most `steps`
/// steps: the number of the symbol, or zero.
pub open spec fn chain_walk(
    table: Seq<u8>,
    names: Seq<Seq<char>>,
    name: Seq<char>,
    i: nat,
    steps: nat,
) -> nat
    decreases steps,
{
    if i == 0 || steps == 0 {
        0
    } else if names[i - 1] == name {
        i
    } else {
        let size = bytes::u32_at(table, 0);
        chain_walk(
            table,
            names,
            name,
            bytes::u32_at(table, 8 + 4 * size + 4 * i) as nat,
            (steps - 1) as nat,
        )
    }
}

/// What a dynamic linker finds under a name in the bytes of a hash table: the number of the
/// symbol, or zero.
pub open spec fn hash_lookup(table: Seq<u8>, names: Seq<Seq<char>>, name: Seq<char>) -> nat {
    let size = bytes::u32_at(table, 0);
    let head = bytes::u32_at(table, 8 + 4 * bucket_of(name, size as nat));
    chain_walk(table, names, name, head as nat, bytes::u32_at(table, 4) as nat)
}

spec fn table_walk(
    t: HashTable,
    names: Seq<Seq<char>>,
    name: Seq<char>,
    i: nat,
    steps: nat,
) -> nat
    decreases steps,
{
    if i == 0 || steps == 0 {
        0
    } else if names[i - 1] == name {
        i
    } else {
        table_walk(t, names, name, t.chains[i as int] as nat, (steps - 1) as nat)
    }
}

proof fn lemma_walk_kept(names: Seq<Seq<char>>, name: Seq<char>, k: nat, i: nat, steps: nat)
    requires
        0 < k <= names.len() < u32::MAX,
        i < k,
        i <= steps,
    ensures
        table_walk(hash_table(names, k), names, name, i, steps) == table_walk(
            hash_table(names, (k - 1) as nat),
            names,
            name,
            i,
            steps,
        ),
    decreases steps,
{
    lemma_hash_table_shape(names, k);
    lemma_hash_table_shape(names, (k - 1) as nat);
    if i > 0 && names[i - 1] != name {
        let next = hash_table(names, (k - 1) as nat).chains[i as int];
        assert(hash_table(names, k).chains[i as int] == next);
        lemma_walk_kept(names, name, k, next as nat, (steps - 1) as nat);
    }
}

proof fn lemma_walk_longer(t: HashTable, names: Seq<Seq<char>>, name: Seq<char>, i: nat, steps: nat)
    requires
        table_walk(t, names, name, i, steps) != 0,
    ensures
        table_walk(t, names, name, i, steps + 1) == table_walk(t, names, name, i, steps),
    decreases steps,
{
    if i > 0 && steps > 0 && names[i - 1] != name {
        lemma_walk_longer(t, names, name, t.chains[i as int] as nat, (steps - 1) as nat);
    }
}

proof fn lemma_table_finds(names: Seq<Seq<char>>, k: nat, j: int)
    requires
        0 <= j < k <= names.len() < u32::MAX,
        names.no_duplicates(),
    ensures
        table_walk(
            hash_table(names, k),
            names,
            names[j],
            hash_table(names, k).buckets[bucket_of(names[j], names.len() + 1)] as nat,
            k,
        ) == j + 1,
    decreases k,
{
    lemma_hash_table_shape(names, k);
    lemma_hash_table_shape(names, (k - 1) as nat);
    let size = names.len() + 1;
    let t = hash_table(names, (k - 1) as nat);
    let b = bucket_of(names[j], size);
    let b_new = bucket_of(names[k - 1], size);
    assert(0 <= b < size && 0 <= b_new < size) by (nonlinear_arith)
        requires
            b == sysv_hash(encode_utf8(names[j]), encode_utf8(names[j]).len()) as int % size as int,
            b_new == sysv_hash(encode_utf8(names[k - 1]), encode_utf8(names[k - 1]).len()) as int
                % size as int,
            size > 0,
    ;
    if j < k - 1 {
        lemma_table_finds(names, (k - 1) as nat, j);
        let head = t.buckets[b] as nat;
        lemma_walk_kept(names, names[j], k, head, (k - 1) as nat);
        assert(names[k - 1] != names[j]);
        if b != b_new {
            lemma_walk_longer(hash_table(names, k), names, names[j], head, (k - 1) as nat);
        }
    }
}

proof fn lemma_chain_walk(names: Seq<Seq<char>>, name: Seq<char>, i: nat, steps: nat)
    requires
        names.len() < u32::MAX,
        i <= names.len(),
    ensures
        chain_walk(hash_bytes(names), names, name, i, steps) == table_walk(
            hash_table(names, names.len()),
            names,
            name,
            i,
            steps,
        ),
    decreases steps,
{
    if i > 0 && steps > 0 && names[i - 1] != name {
        lemma_hash_words(names, 0, i as int);
        lemma_hash_table_shape(names, names.len());
        let next = hash_table(names, names.len()).chains[i as int];
        lemma_chain_walk(names, name, next as nat, (steps - 1) as nat);
    }
}

proof fn lemma_hash_words(names: Seq<Seq<char>>, b: int, i: int)
    requires
        names.len() < u32::MAX,
        0 <= b <= names.len(),
        0 <= i <= names.len(),
    ensures
        hash_bytes(names).len() == 16 + 8 * names.len(),
        bytes::u32_at(hash_bytes(names), 0) == names.len() + 1,
        bytes::u32_at(hash_bytes(names), 4) == names.len() + 1,
        bytes::u32_at(hash_bytes(names), 8 + 4 * b) == hash_table(names, names.len()).buckets[b],
        bytes::u32_at(hash_bytes(names), 8 + 4 * (names.len() + 1) + 4 * i) == hash_table(
            names,
            names.len(),
        ).chains[i],
{
    broadcast use bytes::group_le_len;
    let t = hash_table(names, names.len());
    let size = names.len() + 1;
    let all = hash_bytes(names);
    lemma_hash_table_shape(names, names.len());
    lemma_word_bytes(t.buckets, size, b);
    lemma_word_bytes(t.chains, size, i);
    assert(all.subrange(0, 4) =~= bytes::le32(size as u32));
    assert(all.subrange(4, 8) =~= bytes::le32(size as u32));
    assert(all.subrange(8 + 4 * b, 8 + 4 * b + 4) =~= word_bytes(t.buckets, size).subrange(
        4 * b,
        4 * b + 4,
    ));
    let at = 8 + 4 * size + 4 * i;
    assert(all.subrange(at, at + 4) =~= word_bytes(t.chains, size).subrange(4 * i, 4 * i + 4));
    bytes::lemma_read_u32(all, 0, size as u32);
    bytes::lemma_read_u32(all, 4, size as u32);
    bytes::lemma_read_u32(all, 8 + 4 * b, t.buckets[b]);
    bytes::lemma_read_u32(all, at, t.chains[i]);
}

/// Every name is found in the hash table: a dynamic linker that reads its bytes comes to the
/// symbol `j + 1` for the name `j`.
pub proof fn law_hash_table_finds_names(names: Seq<Seq<char>>, j: int)
    requires
        names.len() < u32::MAX,
        names.no_duplicates(),
        0 <= j < names.len(),
    ensures
        hash_lookup(hash_bytes(names), names, names[j]) == j + 1,
{
    let size = names.len() + 1;
    let b = bucket_of(names[j], size);
    assert(0 <= b < size) by (nonlinear_arith)
        requires
            b == sysv_hash(encode_utf8(names[j]), encode_utf8(names[j]).len()) as int % size as int,
            size > 0,
    ;
    lemma_hash_words(names, b, 0);
    lemma_hash_table_shape(names, names.len());
    lemma_table_finds(names, names.len(), j);
    let t = hash_table(names, names.len());
    let head = t.buckets[b] as nat;
    lemma_walk_longer(t, names, names[j], head, names.len());
    lemma_chain_walk(names, names[j], head, size);
}

/// The symbol that a walk comes to after `d` steps along the chain of the bucket `b`, in the bytes
/// of a hash table; zero from its end on.
pub open spec fn chain_at(table: Seq<u8>, b: int, d: nat) -> nat
    decreases d,
{
    if d == 0 {
        bytes::u32_at(table, 8 + 4 * b) as nat
    } else {
        let size = bytes::u32_at(table, 0);
        bytes::u32_at(table, 8 + 4 * size + 4 * chain_at(table, b, (d - 1) as nat)) as nat
    }
}

spec fn node_at(t: HashTable, b: int, d: nat) -> nat
    decreases d,
{
    if d == 0 {
        t.buckets[b] as nat
    } else {
        t.chains[node_at(t, b, (d - 1) as nat) as int] as nat
    }
}

proof fn lemma_bucket_range(name: Seq<char>, size: nat)
    requires
        size > 0,
    ensures
        0 <= bucket_of(name, size) < size,
{
    let h = sysv_hash(encode_utf8(name), encode_utf8(name).len()) as int;
    assert(0 <= h % (size as int) < size) by (nonlinear_arith)
        requires
            size > 0,
    ;
}

/// Every symbol in a chain has its bucket in common with the head.
proof fn lemma_buckets_agree(names: Seq<Seq<char>>, k: nat)
    requires
        k <= names.len() < u32::MAX,
    ensures
        ({
            let t = hash_table(names, k);
            let size = names.len() + 1;
            &&& t.chains[0] == 0
            &&& forall|i: int| k < i <= names.len() ==> #[trigger] t.chains[i] == 0
            &&& forall|b: int|
                0 <= b <= names.len() && (#[trigger] t.buckets[b]) > 0 ==> bucket_of(
                    names[t.buckets[b] - 1],
                    size,
                ) == b
            &&& forall|i: int|
                0 < i <= k && (#[trigger] t.chains[i]) > 0 ==> bucket_of(
                    names[t.chains[i] - 1],
                    size,
                ) == bucket_of(names[i - 1], size)
        }),
    decreases k,
{
    lemma_hash_table_shape(names, k);
    if k > 0 {
        lemma_buckets_agree(names, (k - 1) as nat);
        lemma_hash_table_shape(names, (k - 1) as nat);
        lemma_bucket_range(names[k - 1], names.len() + 1);
        let before = hash_table(names, (k - 1) as nat);
        let t = hash_table(names, k);
        let size = names.len() + 1;
        let b_new = bucket_of(names[k - 1], size);
        assert(t.chains[k as int] == before.buckets[b_new]);
        assert forall|b: int| 0 <= b <= names.len() && (#[trigger] t.buckets[b]) > 0 implies
            bucket_of(names[t.buckets[b] - 1], size) == b by {
            if b != b_new {
                assert(t.buckets[b] == before.buckets[b]);
            }
        }
        assert forall|i: int| 0 < i <= k && (#[trigger] t.chains[i]) > 0 implies bucket_of(
            names[t.chains[i] - 1],
            size,
        ) == bucket_of(names[i - 1], size) by {
            if i < k {
                assert(t.chains[i] == before.chains[i]);
            }
        }
        assert forall|i: int| k < i <= names.len() implies #[trigger] t.chains[i] == 0 by {
            assert(t.chains[i] == before.chains[i]);
        }
    }
}

proof fn lemma_node_in_range(names: Seq<Seq<char>>, k: nat, b: int, d: nat)
    requires
        k <= names.len() < u32::MAX,
        0 <= b <= names.len(),
    ensures
        node_at(hash_table(names, k), b, d) <= k,
        node_at(hash_table(names, k), b, d) > 0 ==> bucket_of(
            names[node_at(hash_table(names, k), b, d) - 1],
            names.len() + 1,
        ) == b,
        d > 0 && node_at(hash_table(names, k), b, (d - 1) as nat) > 0 ==> node_at(
            hash_table(names, k),
            b,
            d,
        ) < node_at(hash_table(names, k), b, (d - 1) as nat),
        d > 0 && node_at(hash_table(names, k), b, (d - 1) as nat) == 0 ==> node_at(
            hash_table(names, k),
            b,
            d,
        ) == 0,
    decreases d,
{
    let t = hash_table(names, k);
    lemma_hash_table_shape(names, k);
    lemma_buckets_agree(names, k);
    if d == 0 {
        assert(t.buckets[b] as int <= k);
    } else {
        lemma_node_in_range(names, k, b, (d - 1) as nat);
        let i = node_at(t, b, (d - 1) as nat) as int;
        assert(t.chains[i] as int <= i);
    }
}

proof fn lemma_node_kept(names: Seq<Seq<char>>, k: nat, b: int, d: nat)
    requires
        0 < k <= names.len() < u32::MAX,
        0 <= b <= names.len(),
    ensures
        ({
            let old_node = node_at(hash_table(names, (k - 1) as nat), b, d);
            if b == bucket_of(names[k - 1], names.len() + 1) {
                node_at(hash_table(names, k), b, d + 1) == old_node
            } else {
                node_at(hash_table(names, k), b, d) == old_node
            }
        }),
    decreases d,
{
    let before = hash_table(names, (k - 1) as nat);
    let t = hash_table(names, k);
    lemma_hash_table_shape(names, k);
    lemma_hash_table_shape(names, (k - 1) as nat);
    lemma_bucket_range(names[k - 1], names.len() + 1);
    if d == 0 {
        if b == bucket_of(names[k - 1], names.len() + 1) {
            assert(node_at(t, b, 0) == k);
            assert(node_at(t, b, 1) == t.chains[node_at(t, b, 0) as int]);
        }
    } else {
        lemma_node_kept(names, k, b, (d - 1) as nat);
        lemma_node_in_range(names, (k - 1) as nat, b, (d - 1) as nat);
    }
}

proof fn lemma_node_reached(names: Seq<Seq<char>>, k: nat, i: int) -> (d: nat)
    requires
        0 < i <= k <= names.len() < u32::MAX,
    ensures
        node_at(hash_table(names, k), bucket_of(names[i - 1], names.len() + 1), d) == i,
    decreases k,
{
    let b = bucket_of(names[i - 1], names.len() + 1);
    lemma_bucket_range(names[i - 1], names.len() + 1);
    lemma_hash_table_shape(names, (k - 1) as nat);
    if i == k {
        0
    } else {
        let d = lemma_node_reached(names, (k - 1) as nat, i);
        lemma_node_kept(names, k, b, d);
        if b == bucket_of(names[k - 1], names.len() + 1) {
            d + 1
        } else {
            d
        }
    }
}

proof fn lemma_nodes_differ(names: Seq<Seq<char>>, k: nat, b: int, c: nat, d: nat)
    requires
        k <= names.len() < u32::MAX,
        0 <= b <= names.len(),
        c < d,
        node_at(hash_table(names, k), b, d) > 0,
    ensures
        node_at(hash_table(names, k), b, c) > node_at(hash_table(names, k), b, d),
    decreases d,
{
    lemma_node_in_range(names, k, b, d);
    if c < d - 1 {
        lemma_nodes_differ(names, k, b, c, (d - 1) as nat);
    }
}

proof fn lemma_chain_at(names: Seq<Seq<char>>, b: int, d: nat)
    requires
        names.len() < u32::MAX,
        0 <= b <= names.len(),
    ensures
        chain_at(hash_bytes(names), b, d) == node_at(hash_table(names, names.len()), b, d),
    decreases d,
{
    if d == 0 {
        lemma_hash_words(names, b, 0);
    } else {
        lemma_chain_at(names, b, (d - 1) as nat);
        lemma_node_in_range(names, names.len(), b, (d - 1) as nat);
        let i = node_at(hash_table(names, names.len()), b, (d - 1) as nat);
        lemma_hash_words(names, b, i as int);
    }
}

/// The bytes of a hash table give as many buckets as symbols, the reserved one counted, and the
/// reserved symbol ends every chain.
pub proof fn law_hash_table_has_its_size(names: Seq<Seq<char>>)
    requires
        names.len() < u32::MAX,
    ensures
        ({
            let table = hash_bytes(names);
            let size = names.len() + 1;
            &&& table.len() == 8 + 8 * size
            &&& bytes::u32_at(table, 0) == size
            &&& bytes::u32_at(table, 4) == size
            &&& bytes::u32_at(table, (8 + 4 * size) as int) == 0
        }),
{
    lemma_hash_words(names, 0, 0);
    lemma_buckets_agree(names, names.len());
}

/// Every symbol lies on exactly one chain of the hash table, and there at one place, whether or
/// not names occur twice: a walk along the chain of the bucket of its name comes to it before the
/// end, and no other walk does.
pub proof fn law_symbols_lie_on_one_chain(names: Seq<Seq<char>>, i: int) -> (d: nat)
    requires
        names.len() < u32::MAX,
        0 < i <= names.len(),
    ensures
        ({
            let table = hash_bytes(names);
            let size = names.len() + 1;
            let own = bucket_of(names[i - 1], size);
            &&& 0 <= own < size
            &&& chain_at(table, own, d) == i
            &&& forall|c: nat| c < d ==> #[trigger] chain_at(table, own, c) != 0
            &&& forall|b: int, c: nat|
                0 <= b < size && #[trigger] chain_at(table, b, c) == i ==> b == own && c == d
        }),
{
    let n = names.len();
    let table = hash_bytes(names);
    let own = bucket_of(names[i - 1], n + 1);
    lemma_bucket_range(names[i - 1], n + 1);
    let d = lemma_node_reached(names, n, i);
    lemma_chain_at(names, own, d);
    assert forall|c: nat| c < d implies #[trigger] chain_at(table, own, c) != 0 by {
        lemma_chain_at(names, own, c);
        lemma_nodes_differ(names, n, own, c, d);
    }
    assert forall|b: int, c: nat|
        0 <= b < n + 1 && #[trigger] chain_at(table, b, c) == i implies b == own && c == d by {
        lemma_chain_at(names, b, c);
        lemma_node_in_range(names, n, b, c);
        if c < d {
            lemma_nodes_differ(names, n, own, c, d);
        } else if d < c {
            lemma_nodes_differ(names, n, own, d, c);
        }
    }
    d
}

proof fn lemma_dynstr_prefix(names: Seq<Seq<char>>, m: nat, n: nat)
    requires
        m <= n <= names.len(),
    ensures
        dynstr_bytes(names, m).len() <= dynstr_bytes(names, n).len(),
        dynstr_bytes(names, n).subrange(0, dynstr_bytes(names, m).len() as int) == dynstr_bytes(
            names,
            m,
        ),
    decreases n,
{
    let a = dynstr_bytes(names, m);
    if m < n {
        lemma_dynstr_prefix(names, m, (n - 1) as nat);
        let c = dynstr_bytes(names, (n - 1) as nat);
        assert(dynstr_bytes(names, n).subrange(0, a.len() as int) =~= c.subrange(0,
            a.len() as int));
    } else {
        assert(dynstr_bytes(names, n).subrange(0, a.len() as int) =~= a);
    }
}

proof fn lemma_dynsym_entry(names: Seq<Seq<char>>, n: nat, i: int)
    requires
        0 <= i < n <= names.len(),
    ensures
        dynsym_bytes(names, n).len() == 24 + 24 * n,
        dynsym_bytes(names, n).subrange(24 + 24 * i, 48 + 24 * i) == dynsym_entry(
            dynstr_bytes(names, i as nat).len() as u32,
        ),
    decreases n,
{
    broadcast use bytes::group_le_len;
    if n > 1 {
        lemma_dynsym_entry(names, (n - 1) as nat, if i < n - 1 { i } else { 0 });
    }
    let before = dynsym_bytes(names, (n - 1) as nat);
    assert(before.len() == 24 * n);
    assert(dynsym_bytes(names, n).subrange(24 + 24 * i, 48 + 24 * i) =~= if i < n - 1 {
        before.subrange(24 + 24 * i, 48 + 24 * i)
    } else {
        dynsym_entry(dynstr_bytes(names, i as nat).len() as u32)
    });
}

/// The dynamic symbol `i + 1` points to the name `i`, which a zero byte ends. The dynamic symbol
/// zero is blank.
pub proof fn law_dynamic_symbols_have_their_names(names: Seq<Seq<char>>, i: int)
    requires
        0 <= i < names.len(),
        dynstr_bytes(names, names.len()).len() <= u32::MAX,
    ensures
        ({
            let symbols = dynsym_bytes(names, names.len());
            let strings = dynstr_bytes(names, names.len());
            let at = bytes::u32_at(symbols, 24 * (i + 1));
            let name = encode_utf8(names[i]);
            &&& symbols.len() == 24 * (names.len() + 1)
            &&& symbols.subrange(0, 24) == bytes::zeros(24)
            &&& at + name.len() < strings.len()
            &&& strings.subrange(at as int, at + name.len()) == name
            &&& strings[at + name.len()] == 0
        }),
{
    broadcast use bytes::group_le_len;
    let n = names.len();
    let symbols = dynsym_bytes(names, n);
    let strings = dynstr_bytes(names, n);
    let name = encode_utf8(names[i]);
    lemma_dynsym_entry(names, n, i);
    lemma_dynstr_prefix(names, (i + 1) as nat, n);
    lemma_dynstr_prefix(names, i as nat, n);
    let at: int = dynstr_bytes(names, i as nat).len() as int;
    let entry = symbols.subrange(24 + 24 * i, 48 + 24 * i);
    assert(symbols.subrange(24 * (i + 1), 24 * (i + 1) + 4) =~= entry.subrange(0, 4));
    assert(entry.subrange(0, 4) =~= bytes::le32(at as u32));
    bytes::lemma_read_u32(symbols, 24 * (i + 1), at as u32);
    let upto = dynstr_bytes(names, (i + 1) as nat);
    assert(strings.subrange(at, at + name.len()) =~= upto.subrange(
        at as int,
        at + name.len(),
    )) by {
        assert forall|k: int| 0 <= k < upto.len() implies strings[k] == upto[k] by {
            assert(strings.subrange(0, upto.len() as int)[k] == upto[k]);
        }
    }
    assert(upto.subrange(at, at + name.len()) =~= name);
    assert(strings[at + name.len()] == 0) by {
        assert(strings.subrange(0, upto.len() as int)[at + name.len()] == upto[at + name.len()]);
    }
    lemma_dynsym_head(names, n);
}

proof fn lemma_dynsym_head(names: Seq<Seq<char>>, n: nat)
    requires
        n <= names.len(),
    ensures
        dynsym_bytes(names, n).len() >= 24,
        dynsym_bytes(names, n).subrange(0, 24) == bytes::zeros(24),
    decreases n,
{
    if n == 0 {
        assert(dynsym_bytes(names, n).subrange(0, 24) =~= bytes::zeros(24));
    } else {
        lemma_dynsym_head(names, (n - 1) as nat);
        let before = dynsym_bytes(names, (n - 1) as nat);
        assert(dynsym_bytes(names, n).subrange(0, 24) =~= before.subrange(0, 24));
    }
}

proof fn lemma_rela_plt(got: u64, n: nat, i: int)
    requires
        0 <= i < n,
    ensures
        rela_plt_bytes(got, n).len() == 24 * n,
        rela_plt_bytes(got, n).subrange(24 * i, 24 * i + 24) == jump_slot(got, i as nat),
    decreases n,
{
    broadcast use bytes::group_le_len;
    if n > 1 {
        lemma_rela_plt(got, (n - 1) as nat, if i < n - 1 { i } else { 0 });
    }
    let before = rela_plt_bytes(got, (n - 1) as nat);
    assert(before.len() == 24 * (n - 1));
    assert(rela_plt_bytes(got, n).subrange(24 * i, 24 * i + 24) =~= if i < n - 1 {
        before.subrange(24 * i, 24 * i + 24)
    } else {
        jump_slot(got, i as nat)
    });
}

/// The relocation `i` fills the slot `i` behind the three reserved ones, and names the dynamic
/// symbol `i + 1`, the number zero being reserved.
pub proof fn law_relocations_fill_slots(got: u64, n: nat, i: int)
    requires
        0 <= i < n < u32::MAX,
        got + 24 + n * 8 <= u64::MAX,
    ensures
        ({
            let relocations = rela_plt_bytes(got, n);
            &&& relocations.len() == 24 * n
            &&& bytes::u64_at(relocations, 24 * i) == got + 24 + 8 * i
            &&& bytes::u64_at(relocations, 24 * i + 8) >> 32 == i + 1
            &&& bytes::u64_at(relocations, 24 * i + 8) & 0xffff_ffff == 7
            &&& bytes::u64_at(relocations, 24 * i + 16) == 0
        }),
{
    broadcast use bytes::group_le_len;
    let all = rela_plt_bytes(got, n);
    lemma_rela_plt(got, n, i);
    let entry = all.subrange(24 * i, 24 * i + 24);
    let info: u64 = (((i + 1) as u64) << 32) | 7;
    assert(all.subrange(24 * i, 24 * i + 8) =~= entry.subrange(0, 8));
    assert(entry.subrange(0, 8) =~= bytes::le64((got + 24 + i * 8) as u64));
    assert(all.subrange(24 * i + 8, 24 * i + 16) =~= entry.subrange(8, 16));
    assert(entry.subrange(8, 16) =~= bytes::le64(info));
    assert(all.subrange(24 * i + 16, 24 * i + 24) =~= entry.subrange(16, 24));
    assert(entry.subrange(16, 24) =~= bytes::le64(0));
    bytes::lemma_read_u64(all, 24 * i, (got + 24 + i * 8) as u64);
    bytes::lemma_read_u64(all, 24 * i + 8, info);
    bytes::lemma_read_u64(all, 24 * i + 16, 0);
    let x: u64 = (i + 1) as u64;
    assert(((x << 32) | 7) >> 32 == x && ((x << 32) | 7) & 0xffff_ffff == 7) by (bit_vector)
        requires
            x <= 0xffff_ffffu64,
    ;
}

/// What is written for the names is read back: the symbol `i + 1` is a global function that is
/// defined elsewhere, and its name in the strings is the name `i`.
pub proof fn law_dynamic_symbols_are_read_back(names: Seq<Seq<char>>, i: int)
    requires
        0 <= i < names.len(),
        !names[i].contains('\0'),
        dynstr_bytes(names, names.len()).len() <= u32::MAX,
    ensures
        ({
            let symbols = dynsym_bytes(names, names.len());
            let strings = dynstr_bytes(names, names.len());
            let sym = crate::elf::elf_symbol_at(symbols, 24 * (i + 1));
            &&& symbols.len() == 24 * (names.len() + 1)
            &&& symbols.subrange(0, 24) == bytes::zeros(24)
            &&& sym is Ok
            &&& sym->Ok_0 == (Symbol {
                name_offset: sym->Ok_0.name_offset,
                bind: 1,
                sym_type: 2,
                st_shndx: 0,
                st_value: 0,
                st_size: 0,
            })
            &&& crate::elf::strtab_string(strings, sym->Ok_0.name_offset) == Some(names[i])
        }),
{
    broadcast use bytes::group_le_len;
    let n = names.len();
    let symbols = dynsym_bytes(names, n);
    let strings = dynstr_bytes(names, n);
    let name = encode_utf8(names[i]);
    let off = 24 * (i + 1);
    law_dynamic_symbols_have_their_names(names, i);
    lemma_dynsym_entry(names, n, i);
    lemma_dynstr_prefix(names, 0, i as nat);
    let at = bytes::u32_at(symbols, off);
    let entry = symbols.subrange(off, off + 24);
    let start = dynstr_bytes(names, i as nat).len();
    lemma_dynstr_prefix(names, i as nat, n);
    assert(entry.subrange(0, 4) =~= bytes::le32(start as u32));
    assert(symbols.subrange(off, off + 4) =~= entry.subrange(0, 4));
    bytes::lemma_read_u32(symbols, off, start as u32);
    assert(at == start);
    assert(symbols[off + 4] == entry[4] && entry[4] == 0x12);
    assert(symbols.subrange(off + 6, off + 8) =~= entry.subrange(6, 8));
    assert(entry.subrange(6, 8) =~= bytes::le16(0));
    bytes::lemma_read_u16(symbols, off + 6, 0);
    assert(symbols.subrange(off + 8, off + 16) =~= entry.subrange(8, 16));
    assert(entry.subrange(8, 16) =~= bytes::le64(0));
    bytes::lemma_read_u64(symbols, off + 8, 0);
    assert(symbols.subrange(off + 16, off + 24) =~= entry.subrange(16, 24));
    assert(entry.subrange(16, 24) =~= bytes::le64(0));
    bytes::lemma_read_u64(symbols, off + 16, 0);
    assert(0x12u8 >> 4 == 1 && 0x12u8 & 0xf == 2) by (bit_vector);
    text::lemma_no_zero_bytes(names[i]);
    bytes::lemma_first_zero(strings, at as int);
    let end = bytes::first_zero(strings, at as int);
    assert(end == at + name.len()) by {
        if end < at + name.len() {
            let k = end - at;
            assert(strings.subrange(at as int, at + name.len())[k] == strings[end]);
            assert(name.contains(name[k]));
        }
    }
    encode_utf8_valid_utf8(names[i]);
    encode_utf8_decode_utf8(names[i]);
}

/// The relocations that are written are read back: the relocation `i` fills the slot `i` behind
/// the three reserved ones with the address of the symbol `i + 1`.
pub proof fn law_slot_relocations_are_read_back(got: u64, n: nat, i: int)
    requires
        0 <= i < n < u32::MAX,
        got + 24 + n * 8 <= u64::MAX,
    ensures
        rela_plt_bytes(got, n).len() == 24 * n,
        crate::elf::rela_at(rela_plt_bytes(got, n), 24 * i) == Ok::<RelaEntry, Seq<char>>(
            RelaEntry {
                r_offset: (got + 24 + 8 * i) as u64,
                r_sym: (i + 1) as u32,
                r_type: 7,
                r_addend: 0,
            },
        ),
{
    law_relocations_fill_slots(got, n, i);
    assert(0u64 as i64 == 0) by (bit_vector);
}

/// The head of the procedure linkage table and each of its entries have sixteen bytes.
pub proof fn lemma_plt_len(plt: u64, got: u64, n: nat)
    ensures
        plt_bytes(plt, got, n).len() == 16 + 16 * n,
    decreases n,
{
    broadcast use bytes::group_le_len;
    if n > 0 {
        lemma_plt_len(plt, got, (n - 1) as nat);
    }
}

proof fn lemma_plt_entry(plt: u64, got: u64, n: nat, i: int)
    requires
        0 <= i < n,
    ensures
        plt_bytes(plt, got, n).len() == 16 + 16 * n,
        plt_bytes(plt, got, n).subrange(16 + 16 * i, 32 + 16 * i) == plt_entry(plt, got, i as nat),
    decreases n,
{
    broadcast use bytes::group_le_len;
    if n > 1 {
        lemma_plt_entry(plt, got, (n - 1) as nat, if i < n - 1 { i } else { 0 });
    }
    let before = plt_bytes(plt, got, (n - 1) as nat);
    assert(before.len() == 16 * n);
    assert(plt_bytes(plt, got, n).subrange(16 + 16 * i, 32 + 16 * i) =~= if i < n - 1 {
        before.subrange(16 + 16 * i, 32 + 16 * i)
    } else {
        plt_entry(plt, got, i as nat)
    });
}

/// The entry `i` of the procedure linkage table, sixteen bytes behind the one before it, jumps
/// through the slot `i` behind the three reserved ones: the displacement, counted from the end of
/// the instruction, leads there.
pub proof fn law_entries_jump_through_slots(plt: u64, got: u64, n: nat, i: int)
    requires
        0 <= i < n < u32::MAX,
        plt + 16 + n * 16 <= u64::MAX,
        got + 24 + n * 8 <= u64::MAX,
        plt <= got,
        got + 24 + n * 8 <= plt + 0x8000_0000,
    ensures
        ({
            let table = plt_bytes(plt, got, n);
            let at = 16 + 16 * i;
            &&& table.len() == 16 + 16 * n
            &&& table[at] == 0xff && table[at + 1] == 0x25
            &&& plt + at + 6 + bytes::signed32(bytes::u32_at(table, at + 2)) == got + 24 + 8 * i
        }),
{
    broadcast use bytes::group_le_len;
    let table = plt_bytes(plt, got, n);
    let at = 16 + 16 * i;
    lemma_plt_entry(plt, got, n, i);
    let entry = table.subrange(at, at + 16);
    let rel = rel32((got + 24 + i * 8) as int, (plt + 16 + i * 16 + 6) as int);
    assert(entry =~= plt_entry(plt, got, i as nat));
    assert(entry[0] == 0xff && entry[1] == 0x25);
    assert(table[at] == entry[0] && table[at + 1] == entry[1]);
    assert(table.subrange(at + 2, at + 6) =~= entry.subrange(2, 6));
    assert(entry.subrange(2, 6) =~= bytes::le32(rel));
    bytes::lemma_read_u32(table, at + 2, rel);
    law_distance_leads_to_target((got + 24 + i * 8) as int, (plt + 16 + i * 16 + 6) as int);
}

/// What a loader finds under a tag in the bytes of a dynamic table, from the entry `i` on: the
/// value of the first entry with that tag in front of the null tag that ends the table.
pub open spec fn table_value(table: Seq<u8>, tag: u64, i: nat) -> Option<u64>
    decreases table.len() - 16 * i,
{
    if 16 * i + 16 > table.len() || bytes::u64_at(table, (16 * i) as int) == 0 {
        None
    } else if bytes::u64_at(table, (16 * i) as int) == tag {
        Some(bytes::u64_at(table, (16 * i + 8) as int))
    } else {
        table_value(table, tag, i + 1)
    }
}

spec fn entries_bytes(list: Seq<(u64, u64)>, n: nat) -> Seq<u8>
    decreases n,
{
    if n == 0 {
        seq![]
    } else {
        entries_bytes(list, (n - 1) as nat) + dyn_entry(list[n - 1].0, list[n - 1].1)
    }
}

proof fn lemma_entries_bytes(list: Seq<(u64, u64)>, n: nat, i: int)
    requires
        0 <= i < n <= list.len(),
    ensures
        entries_bytes(list, n).len() == 16 * n,
        bytes::u64_at(entries_bytes(list, n), 16 * i) == list[i].0,
        bytes::u64_at(entries_bytes(list, n), 16 * i + 8) == list[i].1,
    decreases n,
{
    broadcast use bytes::group_le_len;
    let before = entries_bytes(list, (n - 1) as nat);
    let all = entries_bytes(list, n);
    if n > 1 {
        lemma_entries_bytes(list, (n - 1) as nat, if i < n - 1 { i } else { 0 });
    }
    assert(before.len() == 16 * (n - 1));
    if i < n - 1 {
        reveal(bytes::u64_at);
        assert(forall|k: int| 0 <= k < before.len() ==> all[k] == before[k]);
    } else {
        assert(all.subrange(16 * i, 16 * i + 8) =~= bytes::le64(list[i].0));
        assert(all.subrange(16 * i + 8, 16 * i + 16) =~= bytes::le64(list[i].1));
        bytes::lemma_read_u64(all, 16 * i, list[i].0);
        bytes::lemma_read_u64(all, 16 * i + 8, list[i].1);
    }
}

spec fn table_entries(p: DynamicPlaces) -> Seq<(u64, u64)> {
    seq![
        (4u64, p.hash),
        (1u64, 1u64),
        (5u64, p.dynstr),
        (6u64, p.dynsym),
        (10u64, p.dynstr_size),
        (11u64, 24u64),
        (3u64, p.got),
        (2u64, p.rela_plt_size),
        (20u64, 7u64),
        (23u64, p.rela_plt),
        (24u64, 0u64),
        (30u64, 8u64),
        (0x6ffffffbu64, 1u64),
        (0u64, 0u64),
    ]
}

proof fn lemma_table_entries(p: DynamicPlaces)
    ensures
        dynamic_table(p) == entries_bytes(table_entries(p), 14),
{
    let l = table_entries(p);
    reveal_with_fuel(entries_bytes, 15);
    assert(dynamic_table(p) =~= entries_bytes(l, 14));
}

proof fn lemma_table_value(list: Seq<(u64, u64)>, tag: u64, i: nat, k: int)
    requires
        i <= k < list.len(),
        list[k].0 == tag,
        tag != 0,
        forall|j: int| i <= j < k ==> list[j].0 != tag && list[j].0 != 0,
    ensures
        table_value(entries_bytes(list, list.len()), tag, i) == Some(list[k].1),
    decreases k - i,
{
    lemma_entries_bytes(list, list.len(), i as int);
    if i < k {
        assert(list[i as int].0 != tag);
        lemma_table_value(list, tag, i + 1, k);
    }
}

/// What a loader finds in a dynamic table: the places of the hash table, the strings, the symbols,
/// the slots and the relocations of the slots, and the sizes of the strings and the relocations.
/// The relocations have addends, a symbol has 24 bytes, the needed library is named at the offset
/// one in the strings, and all symbols are bound when the image is loaded.
pub proof fn law_dynamic_table_tells_places(p: DynamicPlaces)
    ensures
        ({
            let t = dynamic_table(p);
            &&& table_value(t, 4, 0) == Some(p.hash)
            &&& table_value(t, 1, 0) == Some(1u64)
            &&& table_value(t, 5, 0) == Some(p.dynstr)
            &&& table_value(t, 6, 0) == Some(p.dynsym)
            &&& table_value(t, 10, 0) == Some(p.dynstr_size)
            &&& table_value(t, 11, 0) == Some(24u64)
            &&& table_value(t, 3, 0) == Some(p.got)
            &&& table_value(t, 2, 0) == Some(p.rela_plt_size)
            &&& table_value(t, 20, 0) == Some(7u64)
            &&& table_value(t, 23, 0) == Some(p.rela_plt)
            &&& table_value(t, 24, 0) is Some
            &&& table_value(t, 30, 0) == Some(8u64)
            &&& table_value(t, 0x6ffffffb, 0) == Some(1u64)
            &&& t.len() == 224
            &&& bytes::u64_at(t, 208) == 0 && bytes::u64_at(t, 216) == 0
        }),
{
    let l = table_entries(p);
    lemma_table_entries(p);
    lemma_table_value(l, 4, 0, 0);
    lemma_table_value(l, 1, 0, 1);
    lemma_table_value(l, 5, 0, 2);
    lemma_table_value(l, 6, 0, 3);
    lemma_table_value(l, 10, 0, 4);
    lemma_table_value(l, 11, 0, 5);
    lemma_table_value(l, 3, 0, 6);
    lemma_table_value(l, 2, 0, 7);
    lemma_table_value(l, 20, 0, 8);
    lemma_table_value(l, 23, 0, 9);
    lemma_table_value(l, 24, 0, 10);
    lemma_table_value(l, 30, 0, 11);
    lemma_table_value(l, 0x6ffffffb, 0, 12);
    lemma_entries_bytes(l, 14, 13);
}

/// The strings of the dynamic symbols hold the name of the C library at the offset one.
pub proof fn law_strings_name_the_library(names: Seq<Seq<char>>)
    ensures
        crate::elf::strtab_string(dynstr_bytes(names, names.len()), 1) == Some("libc.so.6"@),
{
    let strings = dynstr_bytes(names, names.len());
    let first = dynstr_bytes(names, 0);
    let name = encode_utf8("libc.so.6"@);
    lemma_dynstr_prefix(names, 0, names.len());
    reveal_strlit("libc.so.6");
    assert(!"libc.so.6"@.contains('\0'));
    text::lemma_no_zero_bytes("libc.so.6"@);
    assert forall|k: int| 0 <= k < first.len() implies strings[k] == first[k] by {
        assert(strings.subrange(0, first.len() as int)[k] == first[k]);
    }
    bytes::lemma_first_zero(strings, 1);
    let end = bytes::first_zero(strings, 1);
    assert(end == 1 + name.len()) by {
        assert(first[(1 + name.len()) as int] == 0);
        if end < 1 + name.len() {
            assert(first[end] == name[end - 1]);
            assert(name.contains(name[end - 1]));
        }
    }
    assert(strings.subrange(1, end) =~= name);
    encode_utf8_valid_utf8("libc.so.6"@);
    encode_utf8_decode_utf8("libc.so.6"@);
}

} // verus!

use crate::block::Block;
use lru::LruCache;
use vstd::prelude::*;

verus! {

/// Represent a cached block in the LRU cache.
#[derive(Clone, Copy)]
pub struct CachedBlock {
    /// Bool indicating whether this block should be written to device when flushing.
    pub dirty: bool,
    /// The data of this block.
    pub data: Block,
}

#[verifier::external_type_specification]
#[verifier::external_body]
#[verifier::reject_recursive_types(K)]
#[verifier::reject_recursive_types(V)]
#[verifier::reject_recursive_types(S)]
pub struct ExLruCache<K, V, S>(lru::LruCache<K, V, S>);

#[verifier::external_type_specification]
#[verifier::external_body]
pub struct ExDefaultHasher(lru::DefaultHasher);

/// The entries of a table, from the least recently used to the most recently used.
pub uninterp spec fn lru_entries(c: LruCache<u64, CachedBlock>) -> Seq<(u64, CachedBlock)>;

/// The number of entries a table was created to hold at most.
pub uninterp spec fn lru_capacity(c: LruCache<u64, CachedBlock>) -> usize;

/// `k` is the key of one of the entries.
pub open spec fn has_key(s: Seq<(u64, CachedBlock)>, k: u64) -> bool {
    exists|i: int| 0 <= i < s.len() && s[i].0 == k
}

/// The position of the entry with key `k`.
pub open spec fn key_index(s: Seq<(u64, CachedBlock)>, k: u64) -> int {
    choose|i: int| 0 <= i < s.len() && s[i].0 == k
}

/// No two entries share a key.
pub open spec fn keys_unique(s: Seq<(u64, CachedBlock)>) -> bool {
    forall|i: int, j: int| 0 <= i < s.len() && 0 <= j < s.len() && i != j ==> s[i].0 != s[j].0
}

/// Distinct keys, and no more entries than the capacity.
pub open spec fn table_valid(c: LruCache<u64, CachedBlock>) -> bool {
    keys_unique(lru_entries(c)) && lru_entries(c).len() <= lru_capacity(c)
}

/// With distinct keys, the position of a key is the one that holds it.
pub proof fn lemma_key_index(s: Seq<(u64, CachedBlock)>, i: int)
    requires
        keys_unique(s),
        0 <= i < s.len(),
    ensures
        has_key(s, s[i].0),
        key_index(s, s[i].0) == i,
{
    assert(has_key(s, s[i].0));
}

/// Relies on lru::LruCache::new: an empty table bounded by `cap`.
#[verifier::external_body]
pub fn table_new(cap: usize) -> (r: LruCache<u64, CachedBlock>)
    ensures
        lru_entries(r) == Seq::<(u64, CachedBlock)>::empty(),
        lru_capacity(r) == cap,
{
    LruCache::new(cap)
}

/// Relies on lru::LruCache::len: the number of entries.
#[verifier::external_body]
pub fn table_len(c: &LruCache<u64, CachedBlock>) -> (r: usize)
    ensures
        r == lru_entries(*c).len(),
{
    c.len()
}

/// Relies on lru::LruCache::cap: the bound the table was created with.
#[verifier::external_body]
pub fn table_cap(c: &LruCache<u64, CachedBlock>) -> (r: usize)
    ensures
        r == lru_capacity(*c),
{
    c.cap()
}

/// Relies on lru::LruCache::contains: whether an entry has key `k`, order untouched.
#[verifier::external_body]
pub fn table_contains(c: &LruCache<u64, CachedBlock>, k: u64) -> (r: bool)
    ensures
        r == has_key(lru_entries(*c), k),
{
    c.contains(&k)
}

/// Relies on lru::LruCache::get: the value of key `k`, which becomes the most
/// recently used entry.
#[verifier::external_body]
pub fn table_get(c: &mut LruCache<u64, CachedBlock>, k: u64) -> (r: Option<CachedBlock>)
    requires
        table_valid(*old(c)),
    ensures
        lru_capacity(*final(c)) == lru_capacity(*old(c)),
        table_valid(*final(c)),
        !has_key(lru_entries(*old(c)), k) ==> r is None && lru_entries(*final(c)) == lru_entries(
            *old(c),
        ),
        has_key(lru_entries(*old(c)), k) ==> r == Some(
            lru_entries(*old(c))[key_index(lru_entries(*old(c)), k)].1,
        ) && lru_entries(*final(c)) == lru_entries(*old(c)).remove(
            key_index(lru_entries(*old(c)), k),
        ).push((k, r->Some_0)),
{
    c.get(&k).copied()
}

/// Relies on lru::LruCache::peek_lru: the least recently used entry, order untouched.
#[verifier::external_body]
pub fn table_peek_lru(c: &LruCache<u64, CachedBlock>) -> (r: Option<(u64, CachedBlock)>)
    ensures
        lru_entries(*c).len() == 0 ==> r is None,
        lru_entries(*c).len() > 0 ==> r == Some(lru_entries(*c)[0]),
{
    c.peek_lru().map(|(k, v)| (*k, *v))
}

/// Relies on lru::LruCache::pop_lru: removes and returns the least recently used entry.
#[verifier::external_body]
pub fn table_pop_lru(c: &mut LruCache<u64, CachedBlock>) -> (r: Option<(u64, CachedBlock)>)
    requires
        table_valid(*old(c)),
    ensures
        lru_capacity(*final(c)) == lru_capacity(*old(c)),
        table_valid(*final(c)),
        lru_entries(*old(c)).len() == 0 ==> r is None && lru_entries(*final(c)) == lru_entries(
            *old(c),
        ),
        lru_entries(*old(c)).len() > 0 ==> r == Some(lru_entries(*old(c))[0]) && lru_entries(
            *final(c),
        ) == lru_entries(*old(c)).drop_first(),
{
    c.pop_lru()
}

/// The entries after `(k, v)` is put into a table with entries `s` and capacity
/// `cap`: the entry becomes the most recently used one; a new key takes the
/// place of the least recently used entry when the table is full, and is
/// dropped when the capacity is zero.
pub open spec fn put_outcome(s: Seq<(u64, CachedBlock)>, cap: usize, k: u64, v: CachedBlock) -> Seq<
    (u64, CachedBlock),
> {
    if has_key(s, k) {
        s.remove(key_index(s, k)).push((k, v))
    } else if cap == 0 {
        s
    } else if s.len() >= cap {
        s.drop_first().push((k, v))
    } else {
        s.push((k, v))
    }
}

/// Relies on lru::LruCache::put: see `put_outcome`.
#[verifier::external_body]
pub fn table_put(c: &mut LruCache<u64, CachedBlock>, k: u64, v: CachedBlock)
    requires
        table_valid(*old(c)),
    ensures
        lru_capacity(*final(c)) == lru_capacity(*old(c)),
        table_valid(*final(c)),
        lru_entries(*final(c)) == put_outcome(lru_entries(*old(c)), lru_capacity(*old(c)), k, v),
{
    c.put(k, v);
}

/// Relies on lru::LruCache::iter: every entry, from the most recently used to
/// the least recently used.
#[verifier::external_body]
pub fn table_entries(c: &LruCache<u64, CachedBlock>) -> (r: Vec<(u64, CachedBlock)>)
    ensures
        r@ == lru_entries(*c).reverse(),
{
    c.iter().map(|(k, v)| (*k, *v)).collect()
}

/// Relies on lru::LruCache::peek_mut: replaces the value of key `k`, order untouched.
#[verifier::external_body]
pub fn table_replace(c: &mut LruCache<u64, CachedBlock>, k: u64, v: CachedBlock)
    requires
        table_valid(*old(c)),
    ensures
        lru_capacity(*final(c)) == lru_capacity(*old(c)),
        table_valid(*final(c)),
        has_key(lru_entries(*old(c)), k) ==> lru_entries(*final(c)) == lru_entries(
            *old(c),
        ).update(key_index(lru_entries(*old(c)), k), (k, v)),
        !has_key(lru_entries(*old(c)), k) ==> lru_entries(*final(c)) == lru_entries(*old(c)),
{
    if let Some(slot) = c.peek_mut(&k) {
        *slot = v;
    }
}

} // verus!

//! The order in which cached files were last used.
use vstd::prelude::*;
use lru::LruCache;

verus! {

/// The cache type of the crate `lru`, as an opaque type.
#[verifier::external_type_specification]
#[verifier::external_body]
#[verifier::reject_recursive_types(K)]
#[verifier::reject_recursive_types(V)]
#[verifier::reject_recursive_types(S)]
pub struct ExLruCache<K, V, S>(LruCache<K, V, S>);

/// The hasher that such a cache uses, as an opaque type.
#[verifier::external_type_specification]
#[verifier::external_body]
pub struct ExDefaultHasher(lru::DefaultHasher);

/// The keys and values in a cache, the least recently used first.
pub uninterp spec fn lru_entries(cache: LruCache<u64, u64>) -> Seq<(u64, u64)>;

/// The number of entries that a cache was made to hold.
pub uninterp spec fn lru_cap(cache: LruCache<u64, u64>) -> nat;

/// Calls `LruCache::unbounded` of the crate `lru`. The claim: the cache is
/// empty, and its capacity is the largest there is.
#[verifier::external_body]
pub(crate) fn new_lru() -> (r: LruCache<u64, u64>)
    ensures
        lru_entries(r) == Seq::<(u64, u64)>::empty(),
        lru_cap(r) == usize::MAX,
{
    LruCache::unbounded()
}

/// Calls `LruCache::len` of the crate `lru`. The claim: it is the number of
/// entries.
#[verifier::external_body]
pub(crate) fn lru_len(cache: &LruCache<u64, u64>) -> (r: usize)
    ensures
        r == lru_entries(*cache).len(),
{
    cache.len()
}

/// Calls `LruCache::put` of the crate `lru`. The claim: the entry with the key
/// gets the value, or a new entry does, and is then the most recently used;
/// the value that the key had before is returned, and the other entries keep
/// their order.
#[verifier::external_body]
pub(crate) fn lru_put(cache: &mut LruCache<u64, u64>, key: u64, value: u64) -> (r: Option<u64>)
    requires
        lru_entries(*old(cache)).len() < lru_cap(*old(cache)),
    ensures
        lru_cap(*final(cache)) == lru_cap(*old(cache)),
        match r {
            Some(before) => exists|i: int|
                0 <= i < lru_entries(*old(cache)).len() && #[trigger] lru_entries(*old(cache))[i] == (
                    key,
                    before,
                ) && lru_entries(*final(cache)) == lru_entries(*old(cache)).remove(i).push(
                    (key, value),
                ),
            None => (forall|i: int|
                0 <= i < lru_entries(*old(cache)).len() ==> (#[trigger] lru_entries(*old(cache))[i]).0
                    != key) && lru_entries(*final(cache)) == lru_entries(*old(cache)).push(
                (key, value),
            ),
        },
{
    cache.put(key, value)
}

/// Calls `LruCache::get` of the crate `lru`. The claim: the value of the key is
/// returned, and its entry is then the most recently used; without an entry
/// nothing changes.
#[verifier::external_body]
pub(crate) fn lru_get(cache: &mut LruCache<u64, u64>, key: u64) -> (r: Option<u64>)
    ensures
        lru_cap(*final(cache)) == lru_cap(*old(cache)),
        match r {
            Some(value) => exists|i: int|
                0 <= i < lru_entries(*old(cache)).len() && #[trigger] lru_entries(*old(cache))[i] == (
                    key,
                    value,
                ) && lru_entries(*final(cache)) == lru_entries(*old(cache)).remove(i).push(
                    (key, value),
                ),
            None => (forall|i: int|
                0 <= i < lru_entries(*old(cache)).len() ==> (#[trigger] lru_entries(*old(cache))[i]).0
                    != key) && lru_entries(*final(cache)) == lru_entries(*old(cache)),
        },
{
    cache.get(&key).copied()
}

/// Calls `LruCache::pop_lru` of the crate `lru`. The claim: the least recently
/// used entry is removed and returned; none where the cache is empty.
#[verifier::external_body]
pub(crate) fn lru_pop(cache: &mut LruCache<u64, u64>) -> (r: Option<(u64, u64)>)
    ensures
        lru_cap(*final(cache)) == lru_cap(*old(cache)),
        match r {
            Some(entry) => lru_entries(*old(cache)).len() > 0 && entry == lru_entries(
                *old(cache),
            )[0] && lru_entries(*final(cache)) == lru_entries(*old(cache)).skip(1),
            None => lru_entries(*old(cache)).len() == 0 && lru_entries(*final(cache)).len() == 0,
        },
{
    cache.pop_lru()
}

} // verus!

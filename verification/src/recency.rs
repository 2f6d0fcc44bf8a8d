//! The recency-ordered map under the cache: `lru::LruCache`, described by the
//! sequence of its slots and called through contracts that state what each
//! method does to that sequence.

use vstd::prelude::*;
use lru::LruCache;
use std::num::NonZeroUsize;
use crate::keyed::{has_key, index_of, to_front, Key};

verus! {

/// A compressed payload with the time, in milliseconds, at which it was stored.
pub struct CacheEntry {
    pub(crate) data: Vec<u8>,
    pub(crate) inserted_at: i64,
}

/// The slots of an `LruCache` as keys with their entries, the most recently
/// used first.
pub uninterp spec fn lru_slots(list: LruCache<String, CacheEntry>) -> Seq<(Key, CacheEntry)>;

/// The number of slots that an `LruCache` was made to hold: what
/// `LruCache::cap` returns.
pub uninterp spec fn lru_limit(list: LruCache<String, CacheEntry>) -> nat;

/// Calls `LruCache::sparse`: an empty list that holds at most `limit` slots.
#[verifier::external_body]
pub(crate) fn lru_with_limit(limit: usize) -> (list: LruCache<String, CacheEntry>)
    requires
        limit > 0,
    ensures
        lru_slots(list) == Seq::<(Key, CacheEntry)>::empty(),
        lru_limit(list) == limit,
{
    LruCache::sparse(NonZeroUsize::new(limit).unwrap())
}

/// Calls `LruCache::unbounded`: an empty list whose limit is the largest `usize`.
#[verifier::external_body]
pub(crate) fn lru_unbounded() -> (list: LruCache<String, CacheEntry>)
    ensures
        lru_slots(list) == Seq::<(Key, CacheEntry)>::empty(),
        lru_limit(list) == usize::MAX,
{
    LruCache::unbounded()
}

/// Calls `LruCache::len`: the number of slots.
#[verifier::external_body]
pub(crate) fn lru_len(list: &LruCache<String, CacheEntry>) -> (n: usize)
    ensures
        n == lru_slots(*list).len(),
{
    list.len()
}

/// Calls `LruCache::peek`: the entry of `key`, if the list holds one. The order
/// of the slots is not touched.
#[verifier::external_body]
pub(crate) fn lru_peek<'a>(list: &'a LruCache<String, CacheEntry>, key: &str) -> (found: Option<&'a CacheEntry>)
    ensures
        found is Some <==> has_key(lru_slots(*list), key@),
        found is Some ==> *found->Some_0 == lru_slots(*list)[index_of(lru_slots(*list), key@)].1,
{
    list.peek(key)
}

/// Calls `LruCache::promote`: moves the slot of `key` to the front and says
/// whether there was one.
#[verifier::external_body]
pub(crate) fn lru_promote(list: &mut LruCache<String, CacheEntry>, key: &str) -> (found: bool)
    ensures
        found == has_key(lru_slots(*old(list)), key@),
        lru_limit(*final(list)) == lru_limit(*old(list)),
        lru_slots(*final(list)) == if found {
            to_front(lru_slots(*old(list)), index_of(lru_slots(*old(list)), key@))
        } else {
            lru_slots(*old(list))
        },
{
    list.promote(key)
}

/// Calls `LruCache::pop`: takes the slot of `key` out and returns its entry, if
/// there was one.
#[verifier::external_body]
pub(crate) fn lru_pop(list: &mut LruCache<String, CacheEntry>, key: &str) -> (taken: Option<CacheEntry>)
    ensures
        taken is Some <==> has_key(lru_slots(*old(list)), key@),
        lru_limit(*final(list)) == lru_limit(*old(list)),
        taken is Some ==> taken->Some_0 == lru_slots(*old(list))[index_of(lru_slots(*old(list)), key@)].1
            && lru_slots(*final(list)) == lru_slots(*old(list)).remove(
            index_of(lru_slots(*old(list)), key@),
        ),
        taken is None ==> lru_slots(*final(list)) == lru_slots(*old(list)),
{
    list.pop(key)
}

/// Calls `LruCache::pop_lru`: takes the last slot out and returns it, if the
/// list is not empty.
#[verifier::external_body]
pub(crate) fn lru_pop_last(list: &mut LruCache<String, CacheEntry>) -> (taken: Option<(String, CacheEntry)>)
    ensures
        taken is Some <==> lru_slots(*old(list)).len() > 0,
        lru_limit(*final(list)) == lru_limit(*old(list)),
        taken is Some ==> (taken->Some_0.0@, taken->Some_0.1) == lru_slots(*old(list)).last()
            && lru_slots(*final(list)) == lru_slots(*old(list)).drop_last(),
        taken is None ==> lru_slots(*final(list)) == lru_slots(*old(list)),
{
    list.pop_lru()
}

/// Calls `LruCache::push` with a key that the list does not hold: the new slot
/// goes to the front. A list that was full first loses its last slot, which is
/// returned.
#[verifier::external_body]
pub(crate) fn lru_push(list: &mut LruCache<String, CacheEntry>, key: String, entry: CacheEntry) -> (evicted: Option<(String, CacheEntry)>)
    requires
        !has_key(lru_slots(*old(list)), key@),
    ensures
        lru_limit(*final(list)) == lru_limit(*old(list)),
        evicted is Some <==> lru_slots(*old(list)).len() == lru_limit(*old(list)),
        evicted is Some ==> (evicted->Some_0.0@, evicted->Some_0.1) == lru_slots(*old(list)).last()
            && lru_slots(*final(list)) == seq![(key@, entry)] + lru_slots(*old(list)).drop_last(),
        evicted is None ==> lru_slots(*final(list)) == seq![(key@, entry)] + lru_slots(*old(list)),
{
    list.push(key, entry)
}

} // verus!

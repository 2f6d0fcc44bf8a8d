//! The map of the buckets that a limiter keeps: `dashmap::DashMap`, described
//! by the finite map that it holds and called through contracts that state
//! what each method does to that map. The limiter owns its map, so every call
//! has it alone.

use vstd::prelude::*;
use dashmap::DashMap;
use crate::token_bucket::{LimiterConfig, RateLimit};

verus! {

/// What a bucket is kept under: the client and the code of the route class.
pub type BucketKey = (Seq<char>, u8);

/// The buckets that a limiter keeps.
pub type Buckets = Map<BucketKey, RateLimit>;

/// The concurrent map in which a limiter keeps its buckets.
pub type BucketMap = DashMap<(String, u8), RateLimit>;

/// The buckets that a `DashMap` holds, each under its key.
pub uninterp spec fn buckets_of(map: BucketMap) -> Buckets;

/// What a sweep leaves of `buckets`: those that are not full again at `now`,
/// each with the refill that is due committed.
pub open spec fn swept(buckets: Buckets, now: u64, config: LimiterConfig) -> Buckets {
    Map::new(
        |key: BucketKey| buckets.contains_key(key) && !buckets[key].recovered(now, config),
        |key: BucketKey| buckets[key].refilled(now, config),
    )
}

/// Calls `DashMap::new`: a map that holds nothing.
#[verifier::external_body]
pub(crate) fn buckets_new() -> (fresh: BucketMap)
    ensures
        buckets_of(fresh) == Buckets::empty(),
{
    DashMap::new()
}

/// Calls `DashMap::len`: the number of buckets.
#[verifier::external_body]
pub(crate) fn buckets_len(map: &BucketMap) -> (n: usize)
    ensures
        n == buckets_of(*map).len(),
{
    map.len()
}

/// Calls `DashMap::get`: a copy of the bucket of the key, if there is one.
#[verifier::external_body]
pub(crate) fn buckets_get(map: &BucketMap, client: &str, class: u8) -> (found: Option<RateLimit>)
    ensures
        found == if buckets_of(*map).contains_key((client@, class)) {
            Some(buckets_of(*map)[(client@, class)])
        } else {
            None
        },
{
    map.get(&(client.to_string(), class)).map(|found| *found)
}

/// Calls `DashMap::insert`: the key now has this bucket, whatever it had.
#[verifier::external_body]
pub(crate) fn buckets_insert(map: &mut BucketMap, client: String, class: u8, bucket: RateLimit)
    ensures
        buckets_of(*final(map)) == buckets_of(*old(map)).insert((client@, class), bucket),
{
    map.insert((client, class), bucket);
}

/// Calls `DashMap::remove`: the key has no bucket any more.
#[verifier::external_body]
pub(crate) fn buckets_remove(map: &mut BucketMap, client: &str, class: u8)
    ensures
        buckets_of(*final(map)) == buckets_of(*old(map)).remove((client@, class)),
{
    map.remove(&(client.to_string(), class));
}

/// Calls `DashMap::retain` with `RateLimit::sweep` as the predicate: each
/// bucket is visited once, changed as `sweep` changes it, and kept exactly
/// where `sweep` says so.
#[verifier::external_body]
pub(crate) fn buckets_retain(map: &mut BucketMap, now: u64, config: &LimiterConfig)
    requires
        config.wf(),
    ensures
        buckets_of(*final(map)) == swept(buckets_of(*old(map)), now, *config),
{
    map.retain(|_, bucket| bucket.sweep(now, config));
}

/// Calls `DashMap::iter` and copies what it yields: every bucket with
/// its key, in no order that could be relied on.
#[verifier::external_body]
pub(crate) fn buckets_entries(map: &BucketMap) -> (entries: Vec<(String, u8, RateLimit)>)
    ensures
        forall|i: int|
            0 <= i < entries@.len() ==> buckets_of(*map).contains_key(
                ((#[trigger] entries@[i]).0@, entries@[i].1),
            ) && buckets_of(*map)[(entries@[i].0@, entries@[i].1)] == entries@[i].2,
        forall|key: BucketKey| #[trigger]
            buckets_of(*map).contains_key(key) ==> exists|i: int|
                0 <= i < entries@.len() && ((#[trigger] entries@[i]).0@, entries@[i].1) == key,
{
    map.iter().map(|entry| (entry.key().0.clone(), entry.key().1, *entry.value())).collect()
}

} // verus!

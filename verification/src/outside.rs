//! The types of other crates that values of this library hold or hand on.
//! Each is opaque here: what is known of one is said where it is used.

use vstd::prelude::*;

verus! {

/// `lru::LruCache`: a map that keeps its entries in the order of their last
/// use. Its contents are named in `recency`.
#[verifier::external_type_specification]
#[verifier::external_body]
#[verifier::reject_recursive_types(K)]
#[verifier::reject_recursive_types(V)]
#[verifier::reject_recursive_types(S)]
pub struct ExLruCache<K, V, S>(lru::LruCache<K, V, S>);

/// `lru::DefaultHasher`: the hasher that an `LruCache` is made with. Nothing is
/// said of it.
#[verifier::external_type_specification]
#[verifier::external_body]
pub struct ExLruHasher(lru::DefaultHasher);

/// `dashmap::DashMap`: a hash map in shards. Its contents are named in
/// `bucket_map`.
#[verifier::external_type_specification]
#[verifier::external_body]
#[verifier::reject_recursive_types(K)]
#[verifier::reject_recursive_types(V)]
#[verifier::reject_recursive_types(S)]
pub struct ExDashMap<K, V, S>(dashmap::DashMap<K, V, S>);

/// `std::time::Instant`: a reading of the monotonic clock. It is handed on
/// unread.
#[verifier::external_type_specification]
#[verifier::external_body]
pub struct ExInstant(std::time::Instant);

/// `lz4_flex::block::DecompressError`: why a block did not decompress. Only
/// its presence is read.
#[verifier::external_type_specification]
#[verifier::external_body]
pub struct ExDecompressError(lz4_flex::block::DecompressError);

} // verus!

//! Core of a caching relay: a bounded, expiring, compressed response cache and a
//! self-cleaning token-bucket admission controller, with the decisions of the
//! request pipeline that joins them.

pub mod compression;
pub mod keyed;
pub mod outside;
pub mod recency;
pub mod cache_state;
pub mod cache;
pub mod token_bucket;
pub mod bucket_map;
pub mod rate_limit;
pub mod expiry;
pub mod key_extractor;
pub mod rate_tracker;
pub mod relay;
pub mod routes;

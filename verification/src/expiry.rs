//! Entries that carry their own time to live, for a cache that expires each
//! entry by the duration it was stored with.

use vstd::prelude::*;
use std::time::{Duration, Instant};
use crate::compression::{
    compress_data, extract_data, lz4_compressed, extracted, CacheError, MAX_VALUE_LEN,
};

verus! {

/// A compressed payload with the time it may live.
pub struct ExpireEntry {
    duration: Duration,
    value: Vec<u8>,
}

impl ExpireEntry {
    /// The time that the entry may live.
    pub closed spec fn lifetime(&self) -> Duration {
        self.duration
    }

    /// The payload.
    pub closed spec fn payload(&self) -> Seq<u8> {
        self.value@
    }

    /// An entry that holds `value` as it is and may live for `duration`.
    pub fn new(duration: Duration, value: Vec<u8>) -> (entry: ExpireEntry)
        ensures
            entry.lifetime() == duration,
            entry.payload() == value@,
    {
        ExpireEntry { duration, value }
    }

    /// An entry that holds the compressed form of `value`. Fails exactly when
    /// `value` is too long to be compressed.
    pub fn pack(duration: Duration, value: &[u8]) -> (r: Result<ExpireEntry, CacheError>)
        ensures
            value@.len() > MAX_VALUE_LEN ==> r is Err && r->Err_0 == CacheError::CompressionFailed,
            value@.len() <= MAX_VALUE_LEN ==> r is Ok && r->Ok_0.lifetime() == duration
                && r->Ok_0.payload() == lz4_compressed(value@) && extracted(r->Ok_0.payload())
                == Some(value@),
    {
        match compress_data(value) {
            Ok(packed) => Ok(ExpireEntry::new(duration, packed)),
            Err(e) => Err(e),
        }
    }

    /// The value that the payload decompresses to; `None` where it does not.
    pub fn unpack(&self) -> (value: Option<Vec<u8>>)
        ensures
            match extracted(self.payload()) {
                Some(raw) => value is Some && value->Some_0@ == raw,
                None => value is None,
            },
    {
        match extract_data(self.value.as_slice()) {
            Ok(raw) => Some(raw),
            Err(_) => None,
        }
    }

    /// The time that the entry may live.
    pub fn duration(&self) -> (duration: Duration)
        ensures
            duration == self.lifetime(),
    {
        self.duration
    }

    /// The payload as it is stored.
    pub fn value(&self) -> (value: &Vec<u8>)
        ensures
            value@ == self.payload(),
    {
        &self.value
    }
}

/// The expiry policy: every entry lives for the duration it was stored with.
pub struct Expire;

impl Expire {
    /// The time to live of an entry that has just been created: its own
    /// duration, whatever the key and the time of creation.
    pub fn expire_after_create(&self, key: &String, value: &ExpireEntry, created_at: Instant) -> (ttl: Option<Duration>)
        ensures
            ttl == Some(value.lifetime()),
    {
        Some(value.duration)
    }
}

} // verus!

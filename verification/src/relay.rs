//! The decisions of the request pipeline: admission, then the cache, then the
//! provider on a miss, then the cache again. The fetch itself is the caller's:
//! `begin` says whether one is needed, `complete` takes what it brought.

use vstd::prelude::*;
use crate::cache::{Cache, CacheLookup};
use crate::cache_state::{CacheState, Lookup};
use crate::compression::{lz4_compressed, MAX_VALUE_LEN};
use crate::rate_limit::{bucket_of, is_sweep, sweep_due, touched, RateLimiter, RouteClass};

verus! {

/// The status of a reply that carries a payload.
pub const STATUS_OK: u16 = 200;

/// The status of a reply to a client that is out of tokens.
pub const STATUS_TOO_MANY_REQUESTS: u16 = 429;

/// The status of a reply where the provider gave none that can be passed on.
pub const STATUS_INTERNAL_ERROR: u16 = 500;

/// What the provider answered to a fetch.
#[derive(Debug, PartialEq, Eq)]
pub enum Upstream {
    /// A payload, already in the form in which it is served and cached.
    Success(Vec<u8>),
    /// A refusal, with its status.
    Rejected(u16),
    /// No answer.
    Unavailable,
}

/// What the client is told.
#[derive(Debug, PartialEq, Eq)]
pub enum Reply {
    /// A payload from the cache.
    Cached(Vec<u8>),
    /// A payload that was just fetched.
    Fetched(Vec<u8>),
    /// The client is out of tokens.
    RateLimited,
    /// The provider refused, with this status.
    UpstreamRejected(u16),
    /// The provider did not answer.
    UpstreamUnavailable,
}

/// Why a payload has to be fetched.
#[derive(Clone, Copy, Debug, PartialEq, Eq, Structural)]
pub enum Miss {
    /// The cache had no entry, or one that had expired.
    NotCached,
    /// The cache had a fresh entry that did not decode. It has been purged.
    Corrupt,
}

/// What the pipeline does after admission and lookup.
#[derive(Debug, PartialEq, Eq)]
pub enum Step {
    /// Nothing is left to do but to reply.
    Respond(Reply),
    /// The payload has to be fetched; `complete` takes the answer.
    FetchUpstream(Miss),
}

/// `status` is one that a reply may carry.
pub open spec fn is_reply_status(status: u16) -> bool {
    100 <= status <= 599
}

impl Reply {
    /// The status that goes with the reply: 200 with a payload, 429 for a
    /// client out of tokens, the provider's own status where it refused with
    /// one that a reply may carry, and 500 otherwise.
    pub open spec fn status_of(self) -> u16 {
        match self {
            Reply::Cached(_) => STATUS_OK,
            Reply::Fetched(_) => STATUS_OK,
            Reply::RateLimited => STATUS_TOO_MANY_REQUESTS,
            Reply::UpstreamRejected(status) => if is_reply_status(status) {
                status
            } else {
                STATUS_INTERNAL_ERROR
            },
            Reply::UpstreamUnavailable => STATUS_INTERNAL_ERROR,
        }
    }

    /// The status that goes with the reply.
    pub fn status(&self) -> (status: u16)
        ensures
            status == self.status_of(),
    {
        match self {
            Reply::Cached(_) => STATUS_OK,
            Reply::Fetched(_) => STATUS_OK,
            Reply::RateLimited => STATUS_TOO_MANY_REQUESTS,
            Reply::UpstreamRejected(status) => {
                if 100 <= *status && *status <= 599 {
                    *status
                } else {
                    STATUS_INTERNAL_ERROR
                }
            },
            Reply::UpstreamUnavailable => STATUS_INTERNAL_ERROR,
        }
    }
}

/// `step` and `after` are what the lookup of an admitted request makes of the
/// cache `before`: a fresh entry that decodes is the reply; every other lookup
/// asks for a fetch, and a fresh entry that does not decode is purged first.
pub open spec fn is_lookup_step(
    before: CacheState,
    key: Seq<char>,
    ttl: int,
    clock: int,
    step: Step,
    after: CacheState,
) -> bool {
    match before.lookup(key, ttl, clock) {
        Lookup::Found(value) => step matches Step::Respond(Reply::Cached(payload)) && payload@
            == value && after == before.after_lookup(key, ttl, clock),
        Lookup::Missing => step == Step::FetchUpstream(Miss::NotCached) && after
            == before.after_lookup(key, ttl, clock),
        Lookup::CorruptEntry => step == Step::FetchUpstream(Miss::Corrupt) && after
            == before.after_lookup(key, ttl, clock).remove(key),
    }
}

/// The lookup of a request that has been admitted: the first half of the
/// pipeline without the admission check, for a caller whose requests are
/// admitted before they reach it. `clock` is the time of the cache's clock, in
/// milliseconds.
pub fn lookup(cache: &mut Cache, key: &str, ttl: i64, clock: i64) -> (step: Step)
    requires
        old(cache).wf(),
    ensures
        final(cache).wf(),
        is_lookup_step(old(cache)@, key@, ttl as int, clock as int, step, final(cache)@),
{
    match cache.get(key, ttl, clock) {
        CacheLookup::Found(payload) => Step::Respond(Reply::Cached(payload)),
        CacheLookup::Missing => Step::FetchUpstream(Miss::NotCached),
        CacheLookup::CorruptEntry => {
            cache.remove(key);
            Step::FetchUpstream(Miss::Corrupt)
        },
    }
}

/// The first half of a request: the admission check, and for an admitted
/// request the lookup. A rejected request leaves the cache untouched. `now` is
/// the time of the limiter's clock, `clock` that of the cache's, both in
/// milliseconds.
pub fn begin(
    limiter: &mut RateLimiter,
    cache: &mut Cache,
    client_id: &str,
    class: RouteClass,
    key: &str,
    ttl: i64,
    now: u64,
    clock: i64,
) -> (step: Step)
    requires
        old(limiter).wf(),
        old(cache).wf(),
    ensures
        final(limiter).wf(),
        final(cache).wf(),
        old(limiter)@.within_cap() ==> final(limiter)@.within_cap(),
        final(limiter)@.config == old(limiter)@.config,
        if sweep_due(old(limiter)@.buckets.len(), old(limiter)@.config) {
            is_sweep(
                touched(old(limiter)@.buckets, (client_id@, class.tag()), now, old(limiter)@.config),
                final(limiter)@.buckets,
                now,
                old(limiter)@.config,
            )
        } else {
            final(limiter)@.buckets == touched(
                old(limiter)@.buckets,
                (client_id@, class.tag()),
                now,
                old(limiter)@.config,
            )
        },
        if bucket_of(old(limiter)@.buckets, (client_id@, class.tag()), now, old(limiter)@.config).admits(
            now,
            old(limiter)@.config,
        ) {
            is_lookup_step(old(cache)@, key@, ttl as int, clock as int, step, final(cache)@)
        } else {
            step == Step::Respond(Reply::RateLimited) && final(cache)@ == old(cache)@
        },
{
    if !limiter.allow(client_id, class, now) {
        return Step::Respond(Reply::RateLimited);
    }
    lookup(cache, key, ttl, clock)
}

/// The second half of a request that had to fetch: a payload is cached under
/// `key`, stamped `clock`, and served; one that cannot be compressed is served
/// all the same and the cache stays as it was. A refusal and a missing answer
/// are passed on and leave the cache as it was.
pub fn complete(cache: &mut Cache, key: String, upstream: Upstream, clock: i64) -> (reply: Reply)
    requires
        old(cache).wf(),
    ensures
        final(cache).wf(),
        match upstream {
            Upstream::Success(body) => reply matches Reply::Fetched(payload) && payload@ == body@
                && final(cache)@ == if body@.len() <= MAX_VALUE_LEN {
                old(cache)@.insert(key@, Some(body@), lz4_compressed(body@).len(), clock as int)
            } else {
                old(cache)@
            },
            Upstream::Rejected(status) => reply == Reply::UpstreamRejected(status) && final(cache)@
                == old(cache)@,
            Upstream::Unavailable => reply == Reply::UpstreamUnavailable && final(cache)@ == old(
                cache,
            )@,
        },
{
    match upstream {
        Upstream::Success(body) => {
            let _ = cache.insert(key, body.as_slice(), clock);
            Reply::Fetched(body)
        },
        Upstream::Rejected(status) => Reply::UpstreamRejected(status),
        Upstream::Unavailable => Reply::UpstreamUnavailable,
    }
}

} // verus!

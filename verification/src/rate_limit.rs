//! The admission controller: one token bucket for each client and route class,
//! kept only while it is not full, with a sweep that forgets the buckets that
//! have recovered and holds the number of the others under a cap.

use vstd::prelude::*;
use crate::bucket_map::{
    buckets_entries, buckets_get, buckets_insert, buckets_len, buckets_new, buckets_of,
    buckets_remove, buckets_retain, swept, BucketKey, BucketMap, Buckets,
};
use crate::token_bucket::{
    lemma_refill_is_idempotent, lemma_refill_keeps_tokens, LimiterConfig, RateLimit,
};

verus! {

/// The classes of routes. Each has a bucket of its own for every client.
#[derive(Clone, Copy, Debug, PartialEq, Eq, Structural)]
pub enum RouteClass {
    /// The bulk routes: whole profiles.
    Profile,
    /// The light routes: one counter of a player.
    Secrets,
}

impl RouteClass {
    /// The number under which the buckets of the class are kept.
    pub open spec fn tag(self) -> u8 {
        match self {
            RouteClass::Profile => 0,
            RouteClass::Secrets => 1,
        }
    }

    /// The number under which the buckets of the class are kept.
    pub fn code(self) -> (code: u8)
        ensures
            code == self.tag(),
    {
        match self {
            RouteClass::Profile => 0,
            RouteClass::Secrets => 1,
        }
    }
}

/// The two buckets of one client.
#[derive(Clone, Copy, Debug, PartialEq, Eq, Structural)]
pub struct RateLimits {
    pub profile: RateLimit,
    pub secrets: RateLimit,
}

impl RateLimits {
    /// The buckets of a client that has not been seen: both full, as of `now`.
    pub fn new(now: u64, config: &LimiterConfig) -> (limits: RateLimits)
        ensures
            limits.profile == RateLimit::full(now, *config),
            limits.secrets == RateLimit::full(now, *config),
    {
        RateLimits { profile: RateLimit::new(now, config), secrets: RateLimit::new(now, config) }
    }

    /// The bucket of `class`.
    pub fn of(&self, class: RouteClass) -> (bucket: RateLimit)
        ensures
            bucket == match class {
                RouteClass::Profile => self.profile,
                RouteClass::Secrets => self.secrets,
            },
    {
        match class {
            RouteClass::Profile => self.profile,
            RouteClass::Secrets => self.secrets,
        }
    }
}

/// The bucket that a request under `key` at `now` is measured against: the one
/// that is kept, or a full one where none is.
pub open spec fn bucket_of(buckets: Buckets, key: BucketKey, now: u64, config: LimiterConfig) -> RateLimit {
    if buckets.contains_key(key) {
        buckets[key]
    } else {
        RateLimit::full(now, config)
    }
}

/// The buckets after a request under `key` at `now`.
pub open spec fn touched(buckets: Buckets, key: BucketKey, now: u64, config: LimiterConfig) -> Buckets {
    buckets.insert(key, bucket_of(buckets, key, now, config).after_allow(now, config))
}

/// No bucket of `buckets` was refilled before the one of `key`.
pub open spec fn is_oldest(buckets: Buckets, key: BucketKey) -> bool {
    &&& buckets.contains_key(key)
    &&& forall|other: BucketKey| #[trigger]
        buckets.contains_key(other) ==> buckets[key].last_refill <= buckets[other].last_refill
}

/// `after` is what a sweep at `now` may leave of `before`: the buckets that are
/// not full again, refilled; less one of the oldest of them where they are more
/// than the cap.
pub open spec fn is_sweep(before: Buckets, after: Buckets, now: u64, config: LimiterConfig) -> bool {
    if swept(before, now, config).len() > config.max_cache_size {
        exists|victim: BucketKey| #[trigger]
            is_oldest(swept(before, now, config), victim) && after == swept(
                before,
                now,
                config,
            ).remove(victim)
    } else {
        after == swept(before, now, config)
    }
}

/// A request that found `kept` buckets is followed by a sweep.
pub open spec fn sweep_due(kept: nat, config: LimiterConfig) -> bool {
    config.ip_threshold == 0 || kept % (config.ip_threshold as nat) == 0 || kept
        >= config.max_cache_size
}

/// What a limiter stands for: its buckets and its configuration.
pub struct LimiterState {
    pub buckets: Buckets,
    pub config: LimiterConfig,
}

impl LimiterState {
    /// Finitely many buckets, none above the maximum.
    pub open spec fn wf(self) -> bool {
        &&& self.config.wf()
        &&& self.buckets.dom().finite()
        &&& forall|key: BucketKey| #[trigger]
            self.buckets.contains_key(key) ==> self.buckets[key].wf(self.config)
    }

    /// No more buckets than the cap. A limiter starts within its cap, and
    /// neither a request nor a sweep takes it out.
    pub open spec fn within_cap(self) -> bool {
        self.buckets.len() <= self.config.max_cache_size
    }
}

/// The admission controller.
pub struct RateLimiter {
    map: BucketMap,
    config: LimiterConfig,
}

impl View for RateLimiter {
    type V = LimiterState;

    closed spec fn view(&self) -> LimiterState {
        LimiterState { buckets: buckets_of(self.map), config: self.config }
    }
}

/// What a sweep leaves is part of what it found, refilled and within bounds.
pub proof fn lemma_swept(buckets: Buckets, now: u64, config: LimiterConfig)
    requires
        config.wf(),
        buckets.dom().finite(),
        forall|key: BucketKey| #[trigger] buckets.contains_key(key) ==> buckets[key].wf(config),
    ensures
        swept(buckets, now, config).dom().finite(),
        swept(buckets, now, config).len() <= buckets.len(),
        forall|key: BucketKey| #[trigger]
            swept(buckets, now, config).contains_key(key) ==> swept(buckets, now, config)[key].wf(
                config,
            ),
{
    let kept = swept(buckets, now, config);
    assert(kept.dom().subset_of(buckets.dom()));
    vstd::set_lib::lemma_len_subset(kept.dom(), buckets.dom());
    assert forall|key: BucketKey| #[trigger] kept.contains_key(key) implies kept[key].wf(config) by {
        lemma_refill_keeps_tokens(buckets[key], now, config);
    }
}

/// Sweep safety: every bucket that a sweep keeps was there before, has the
/// refill committed and is below the maximum. Every bucket that it drops would
/// have been full again, but for one: where more than the cap were left,
/// exactly one bucket more is dropped, one among the oldest of them, while
/// still below the maximum.
pub proof fn lemma_sweep_safety(before: Buckets, after: Buckets, now: u64, config: LimiterConfig)
    requires
        config.wf(),
        before.dom().finite(),
        forall|key: BucketKey| #[trigger] before.contains_key(key) ==> before[key].wf(config),
        is_sweep(before, after, now, config),
    ensures
        forall|key: BucketKey| #[trigger]
            after.contains_key(key) ==> before.contains_key(key) && after[key]
                == before[key].refilled(now, config) && after[key].tokens < config.maximum_tokens,
        swept(before, now, config).len() <= config.max_cache_size ==> forall|key: BucketKey|
            before.contains_key(key) && !(#[trigger] after.contains_key(key))
                ==> before[key].refilled(now, config).tokens >= config.maximum_tokens,
        forall|one: BucketKey, other: BucketKey|
            before.contains_key(one) && !(#[trigger] after.contains_key(one))
                && !before[one].recovered(now, config) && before.contains_key(other) && !(
            #[trigger] after.contains_key(other)) && !before[other].recovered(now, config) ==> one
                == other,
        after.dom().finite(),
        after.len() <= before.len(),
        before.len() <= config.max_cache_size + 1 ==> after.len() <= config.max_cache_size,
        swept(before, now, config).len() <= config.max_cache_size ==> after == swept(
            before,
            now,
            config,
        ),
        swept(before, now, config).len() > config.max_cache_size ==> after.len() == swept(
            before,
            now,
            config,
        ).len() - 1,
{
    lemma_swept(before, now, config);
}

/// A sweep does not lose track of a client that is being limited: a bucket
/// that is short of tokens at `now` is kept, with its refill committed, unless
/// more buckets than the cap are short of tokens and it is among the oldest.
pub proof fn lemma_sweep_keeps_limited_bucket(
    before: Buckets,
    after: Buckets,
    key: BucketKey,
    now: u64,
    config: LimiterConfig,
)
    requires
        config.wf(),
        is_sweep(before, after, now, config),
        before.contains_key(key),
        !before[key].recovered(now, config),
    ensures
        swept(before, now, config).len() <= config.max_cache_size ==> after.contains_key(key),
        !is_oldest(swept(before, now, config), key) ==> after.contains_key(key),
        after.contains_key(key) ==> after[key] == before[key].refilled(now, config),
{
}

/// A second sweep at the same instant changes nothing: what a sweep left
/// within the cap is what another sweep at that instant leaves of it.
pub proof fn lemma_second_sweep_changes_nothing(
    before: Buckets,
    between: Buckets,
    after: Buckets,
    now: u64,
    config: LimiterConfig,
)
    requires
        config.wf(),
        is_sweep(before, between, now, config),
        between.len() <= config.max_cache_size,
        is_sweep(between, after, now, config),
    ensures
        after == between,
{
    assert(swept(between, now, config) =~= between) by {
        assert forall|key: BucketKey| #[trigger] between.contains_key(key) implies !between[key].recovered(
            now,
            config,
        ) && between[key].refilled(now, config) == between[key] by {
            lemma_refill_is_idempotent(before[key], now, config);
        }
    }
}

impl RateLimiter {
    /// The limiter stands for a well-formed state.
    pub open spec fn wf(&self) -> bool {
        self@.wf()
    }

    /// A limiter that has seen no client.
    pub fn new(config: LimiterConfig) -> (limiter: RateLimiter)
        requires
            config.wf(),
        ensures
            limiter.wf(),
            limiter@.within_cap(),
            limiter@.config == config,
            limiter@.buckets == Buckets::empty(),
    {
        RateLimiter { map: buckets_new(), config }
    }

    /// The number of buckets kept.
    pub fn len(&self) -> (n: usize)
        requires
            self.wf(),
        ensures
            n == self@.buckets.len(),
    {
        buckets_len(&self.map)
    }

    /// The configuration that the limiter was made with.
    pub fn config(&self) -> (config: LimiterConfig)
        ensures
            config == self@.config,
    {
        self.config
    }

    /// The buckets that the next requests of `client_id` at `now` are measured
    /// against, before any refill.
    pub fn limits(&self, client_id: &str, now: u64) -> (limits: RateLimits)
        requires
            self.wf(),
        ensures
            limits.profile == bucket_of(
                self@.buckets,
                (client_id@, RouteClass::Profile.tag()),
                now,
                self@.config,
            ),
            limits.secrets == bucket_of(
                self@.buckets,
                (client_id@, RouteClass::Secrets.tag()),
                now,
                self@.config,
            ),
    {
        let profile = match buckets_get(&self.map, client_id, RouteClass::Profile.code()) {
            Some(bucket) => bucket,
            None => RateLimit::new(now, &self.config),
        };
        let secrets = match buckets_get(&self.map, client_id, RouteClass::Secrets.code()) {
            Some(bucket) => bucket,
            None => RateLimit::new(now, &self.config),
        };
        RateLimits { profile, secrets }
    }

    /// Decides a request of `client_id` for a route of `class` at `now`. The
    /// bucket of the pair, a full one on first contact, is refilled and pays
    /// one token where it has one. A sweep follows where the number of buckets
    /// that the request found calls for one.
    pub fn allow(&mut self, client_id: &str, class: RouteClass, now: u64) -> (admitted: bool)
        requires
            old(self).wf(),
        ensures
            final(self).wf(),
            old(self)@.within_cap() ==> final(self)@.within_cap(),
            final(self)@.config == old(self)@.config,
            admitted == bucket_of(
                old(self)@.buckets,
                (client_id@, class.tag()),
                now,
                old(self)@.config,
            ).admits(now, old(self)@.config),
            if sweep_due(old(self)@.buckets.len(), old(self)@.config) {
                is_sweep(
                    touched(old(self)@.buckets, (client_id@, class.tag()), now, old(self)@.config),
                    final(self)@.buckets,
                    now,
                    old(self)@.config,
                )
            } else {
                final(self)@.buckets == touched(
                    old(self)@.buckets,
                    (client_id@, class.tag()),
                    now,
                    old(self)@.config,
                )
            },
    {
        let kept = buckets_len(&self.map);
        let code = class.code();
        let mut bucket = match buckets_get(&self.map, client_id, code) {
            Some(bucket) => bucket,
            None => RateLimit::new(now, &self.config),
        };
        let admitted = bucket.allow(now, &self.config);
        buckets_insert(&mut self.map, client_id.to_string(), code, bucket);
        let due = self.config.ip_threshold == 0 || kept % self.config.ip_threshold == 0 || kept
            >= self.config.max_cache_size;
        if due {
            self.clean_cache(now);
        }
        admitted
    }

    /// Sweeps at `now`: forgets every bucket that would be full again, commits
    /// the refill that is due to the others, and, where more than the cap are
    /// left, forgets one of those that were refilled longest ago. A limiter
    /// that held at most one bucket more than the cap is within the cap after.
    pub fn clean_cache(&mut self, now: u64)
        requires
            old(self).wf(),
        ensures
            final(self).wf(),
            final(self)@.config == old(self)@.config,
            is_sweep(old(self)@.buckets, final(self)@.buckets, now, old(self)@.config),
            final(self)@.buckets.len() <= old(self)@.buckets.len(),
            old(self)@.buckets.len() <= old(self)@.config.max_cache_size + 1
                ==> final(self)@.within_cap(),
    {
        let ghost before = buckets_of(self.map);
        proof {
            lemma_swept(before, now, self.config);
        }
        buckets_retain(&mut self.map, now, &self.config);
        let ghost kept = buckets_of(self.map);
        if buckets_len(&self.map) > self.config.max_cache_size {
            let entries = buckets_entries(&self.map);
            proof {
                if entries@.len() == 0 {
                    assert(kept.dom() =~= Set::<BucketKey>::empty()) by {
                        assert forall|key: BucketKey| !kept.dom().contains(key) by {
                            if kept.contains_key(key) {
                                let i = choose|i: int|
                                    0 <= i < entries@.len() && ((#[trigger] entries@[i]).0@, entries@[i].1)
                                        == key;
                            }
                        }
                    }
                }
            }
            let mut oldest: usize = 0;
            let mut i: usize = 1;
            while i < entries.len()
                invariant
                    0 <= oldest < i <= entries@.len(),
                    forall|j: int|
                        0 <= j < i ==> entries@[oldest as int].2.last_refill <= (
                        #[trigger] entries@[j]).2.last_refill,
                decreases entries@.len() - i,
            {
                if entries[i].2.last_refill < entries[oldest].2.last_refill {
                    oldest = i;
                }
                i = i + 1;
            }
            let ghost victim = (entries@[oldest as int].0@, entries@[oldest as int].1);
            proof {
                assert(is_oldest(kept, victim)) by {
                    assert forall|other: BucketKey| #[trigger] kept.contains_key(other) implies kept[victim].last_refill
                        <= kept[other].last_refill by {
                        let j = choose|j: int|
                            0 <= j < entries@.len() && ((#[trigger] entries@[j]).0@, entries@[j].1)
                                == other;
                        assert(entries@[oldest as int].2.last_refill <= entries@[j].2.last_refill);
                    }
                }
            }
            buckets_remove(&mut self.map, entries[oldest].0.as_str(), entries[oldest].1);
        }
    }
}

} // verus!

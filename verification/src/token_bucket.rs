//! One token bucket: a whole number of tokens, refilled in proportion to the
//! time since the last refill and never beyond the maximum.

use vstd::prelude::*;
use vstd::arithmetic::div_mod::{
    lemma_basic_div, lemma_div_is_ordered, lemma_div_multiples_vanish,
    lemma_div_multiples_vanish_fancy, lemma_div_pos_is_pos, lemma_fundamental_div_mod,
    lemma_mod_bound,
};
use vstd::arithmetic::mul::{
    lemma_mul_inequality, lemma_mul_is_commutative, lemma_mul_is_distributive_sub_other_way,
    lemma_mul_nonnegative,
};

verus! {

/// The tokens of a full bucket; one comes back every `TIME_WINDOW / MAXIMUM_TOKENS`.
pub const MAXIMUM_TOKENS: u64 = 5;

/// The time, in milliseconds, in which an empty bucket fills up.
pub const TIME_WINDOW: u64 = 30_000;

/// A sweep is due whenever the number of buckets kept is a multiple of this.
pub const IP_THRESHOLD: usize = 25;

/// A sweep is due whenever this many buckets are kept, and leaves no more.
pub const MAX_CACHE_SIZE: usize = 100;

/// The numbers that a limiter is set up with. Times are in milliseconds.
#[derive(Clone, Copy, Debug, PartialEq, Eq, Structural)]
pub struct LimiterConfig {
    /// The tokens of a full bucket.
    pub maximum_tokens: u64,
    /// The time in which an empty bucket fills up.
    pub time_window: u64,
    /// A sweep is due whenever the number of buckets kept is a multiple of
    /// this; with 0, after every request.
    pub ip_threshold: usize,
    /// A sweep is due whenever this many buckets are kept, and leaves no more.
    pub max_cache_size: usize,
}

impl LimiterConfig {
    /// A bucket holds at least one token and takes some time to fill.
    pub open spec fn wf(self) -> bool {
        self.maximum_tokens > 0 && self.time_window > 0
    }

    /// The configuration of the named constants.
    pub fn standard() -> (config: LimiterConfig)
        ensures
            config.wf(),
            config == (LimiterConfig {
                maximum_tokens: MAXIMUM_TOKENS,
                time_window: TIME_WINDOW,
                ip_threshold: IP_THRESHOLD,
                max_cache_size: MAX_CACHE_SIZE,
            }),
    {
        LimiterConfig {
            maximum_tokens: MAXIMUM_TOKENS,
            time_window: TIME_WINDOW,
            ip_threshold: IP_THRESHOLD,
            max_cache_size: MAX_CACHE_SIZE,
        }
    }

    /// Whether a limiter can be set up with this configuration.
    pub fn is_valid(&self) -> (valid: bool)
        ensures
            valid == self.wf(),
    {
        self.maximum_tokens > 0 && self.time_window > 0
    }
}

/// The state of one bucket.
#[derive(Clone, Copy, Debug, PartialEq, Eq, Structural)]
pub struct RateLimit {
    /// The tokens left.
    pub tokens: u64,
    /// The time up to which the refills have been counted, in milliseconds.
    pub last_refill: u64,
}

impl RateLimit {
    /// A bucket never holds more than the maximum.
    pub open spec fn wf(self, config: LimiterConfig) -> bool {
        self.tokens <= config.maximum_tokens
    }

    /// The bucket of a client that has not been seen: full, as of `now`.
    pub open spec fn full(now: u64, config: LimiterConfig) -> RateLimit {
        RateLimit { tokens: config.maximum_tokens, last_refill: now }
    }

    /// The time since the last refill; 0 where the clock has not advanced.
    pub open spec fn elapsed(self, now: u64) -> int {
        if now >= self.last_refill {
            now - self.last_refill
        } else {
            0
        }
    }

    /// The whole tokens that the elapsed time has earned.
    pub open spec fn tokens_due(self, now: u64, config: LimiterConfig) -> int {
        self.elapsed(now) * config.maximum_tokens / (config.time_window as int)
    }

    /// The time that earning `tokens_due` has taken, in whole milliseconds and
    /// never less than it took: a part of a millisecond counts as one. What is
    /// left of the elapsed time counts towards the next token, and is always
    /// less than the time of one token.
    pub open spec fn time_consumed(self, now: u64, config: LimiterConfig) -> int {
        (self.tokens_due(now, config) * config.time_window + config.maximum_tokens - 1) / (
        config.maximum_tokens as int)
    }

    /// The bucket after the refill that is due at `now`.
    pub open spec fn refilled(self, now: u64, config: LimiterConfig) -> RateLimit {
        RateLimit {
            tokens: if self.tokens + self.tokens_due(now, config) >= config.maximum_tokens {
                config.maximum_tokens
            } else {
                (self.tokens + self.tokens_due(now, config)) as u64
            },
            last_refill: (self.last_refill + self.time_consumed(now, config)) as u64,
        }
    }

    /// A request at `now` finds a token.
    pub open spec fn admits(self, now: u64, config: LimiterConfig) -> bool {
        self.refilled(now, config).tokens > 0
    }

    /// The bucket after a request at `now`: refilled, and one token down where
    /// there was one.
    pub open spec fn after_allow(self, now: u64, config: LimiterConfig) -> RateLimit {
        let refilled = self.refilled(now, config);
        if refilled.tokens > 0 {
            RateLimit { tokens: (refilled.tokens - 1) as u64, last_refill: refilled.last_refill }
        } else {
            refilled
        }
    }

    /// At `now` the bucket would be full again: it can be forgotten.
    pub open spec fn recovered(self, now: u64, config: LimiterConfig) -> bool {
        self.refilled(now, config).tokens >= config.maximum_tokens
    }

    /// A full bucket as of `now`.
    pub fn new(now: u64, config: &LimiterConfig) -> (bucket: RateLimit)
        ensures
            bucket == RateLimit::full(now, *config),
            bucket.wf(*config),
    {
        RateLimit { tokens: config.maximum_tokens, last_refill: now }
    }

    /// Adds the tokens that are due at `now` and moves `last_refill` on by the
    /// time that they took, rounded up to a whole millisecond.
    pub fn refill(&mut self, now: u64, config: &LimiterConfig)
        requires
            config.wf(),
        ensures
            *final(self) == old(self).refilled(now, *config),
            final(self).wf(*config),
            old(self).last_refill <= now ==> old(self).last_refill <= final(self).last_refill
                <= now,
            old(self).last_refill > now ==> final(self).last_refill == old(self).last_refill,
            in_burst(final(self).last_refill, now, *config),
    {
        proof {
            lemma_refill_is_idempotent(*self, now, *config);
        }
        let elapsed: u64 = if now >= self.last_refill {
            now - self.last_refill
        } else {
            0
        };
        proof {
            lemma_refill_bounds(elapsed as int, config.maximum_tokens as int, config.time_window as int);
        }
        let earned: u128 = (elapsed as u128) * (config.maximum_tokens as u128);
        let due: u128 = earned / (config.time_window as u128);
        let spent: u128 = (due * (config.time_window as u128) + (config.maximum_tokens as u128
            - 1)) / (config.maximum_tokens as u128);
        if self.tokens >= config.maximum_tokens || due >= (config.maximum_tokens - self.tokens) as u128 {
            self.tokens = config.maximum_tokens;
        } else {
            self.tokens = self.tokens + (due as u64);
        }
        self.last_refill = self.last_refill + (spent as u64);
    }

    /// Decides a request at `now`: refills, then takes a token if there is one.
    pub fn allow(&mut self, now: u64, config: &LimiterConfig) -> (admitted: bool)
        requires
            config.wf(),
        ensures
            admitted == old(self).admits(now, *config),
            *final(self) == old(self).after_allow(now, *config),
            final(self).wf(*config),
            admitted ==> final(self).tokens < config.maximum_tokens,
            old(self).last_refill <= now ==> old(self).last_refill <= final(self).last_refill
                <= now,
            in_burst(final(self).last_refill, now, *config),
    {
        self.refill(now, config);
        if self.tokens > 0 {
            self.tokens = self.tokens - 1;
            true
        } else {
            false
        }
    }

    /// The part of a sweep that concerns one bucket: says whether the bucket has
    /// to be kept, and if so commits the refill that is due. A bucket that
    /// would be full again is left as it is, to be dropped.
    pub fn sweep(&mut self, now: u64, config: &LimiterConfig) -> (keep: bool)
        requires
            config.wf(),
        ensures
            keep == !old(self).recovered(now, *config),
            keep ==> *final(self) == old(self).refilled(now, *config),
            !keep ==> *final(self) == *old(self),
            keep ==> final(self).wf(*config),
    {
        let mut next = *self;
        next.refill(now, config);
        if next.tokens < config.maximum_tokens {
            *self = next;
            true
        } else {
            false
        }
    }
}

/// The arithmetic of a refill over an elapsed time `e`, with `m` tokens to a
/// window of `w`: the time that the earned tokens took, rounded up, is no more
/// than `e` and no less than they took, and what is left of `e` earns nothing.
pub proof fn lemma_refill_bounds(e: int, m: int, w: int)
    requires
        0 <= e,
        0 < m,
        0 < w,
    ensures
        0 <= e * m,
        e <= u64::MAX && m <= u64::MAX ==> e * m + m - 1 <= u128::MAX,
        0 <= e * m / w <= e * m,
        0 <= (e * m / w) * w <= e * m,
        e * m < (e * m / w) * w + w,
        0 <= ((e * m / w) * w + m - 1) / m <= e,
        (((e * m / w) * w + m - 1) / m) * m >= (e * m / w) * w,
        0 <= (e - ((e * m / w) * w + m - 1) / m) * m < w,
        (e - ((e * m / w) * w + m - 1) / m) * m / w == 0,
{
    let p = e * m;
    let due = p / w;
    lemma_mul_nonnegative(e, m);
    lemma_div_pos_is_pos(p, w);
    lemma_fundamental_div_mod(p, w);
    lemma_mod_bound(p, w);
    lemma_mul_is_commutative(w, due);
    assert(due * w <= p);
    assert(p < due * w + w);
    lemma_mul_nonnegative(due, w);
    assert(due <= p) by (nonlinear_arith)
        requires
            due * w <= p,
            0 <= due,
            1 <= w,
    ;
    let n = due * w + m - 1;
    let spent = n / m;
    lemma_div_pos_is_pos(n, m);
    lemma_div_is_ordered(n, p + m - 1, m);
    lemma_mul_is_commutative(e, m);
    lemma_div_multiples_vanish_fancy(e, m - 1, m);
    assert(spent <= e);
    lemma_fundamental_div_mod(n, m);
    lemma_mod_bound(n, m);
    lemma_mul_is_commutative(m, spent);
    assert(spent * m >= due * w);
    lemma_mul_is_distributive_sub_other_way(m, e, spent);
    assert((e - spent) * m == p - spent * m);
    lemma_mul_nonnegative(e - spent, m);
    lemma_basic_div((e - spent) * m, w);
    if e <= u64::MAX && m <= u64::MAX {
        assert(e * m <= 0xffff_ffff_ffff_ffff * 0xffff_ffff_ffff_ffff) by (nonlinear_arith)
            requires
                0 <= e <= 0xffff_ffff_ffff_ffff,
                0 <= m <= 0xffff_ffff_ffff_ffff,
        ;
    }
}

impl RateLimit {
    /// The bucket after requests at `times`, one after another.
    pub open spec fn after_requests(self, times: Seq<u64>, config: LimiterConfig) -> RateLimit
        decreases times.len(),
    {
        if times.len() == 0 {
            self
        } else {
            self.after_requests(times.drop_last(), config).after_allow(times.last(), config)
        }
    }
}

/// `t` is so soon after `start` that no token has been earned since.
pub open spec fn in_burst(start: u64, t: u64, config: LimiterConfig) -> bool {
    (t - start) * config.maximum_tokens < config.time_window
}

/// A refill never takes tokens away, keeps the bucket within the maximum, and
/// moves `last_refill` forward, never past `now`.
pub proof fn lemma_refill_keeps_tokens(bucket: RateLimit, now: u64, config: LimiterConfig)
    requires
        config.wf(),
        bucket.wf(config),
    ensures
        bucket.refilled(now, config).wf(config),
        bucket.after_allow(now, config).wf(config),
        bucket.refilled(now, config).tokens >= bucket.tokens,
        bucket.after_allow(now, config).tokens + 1 >= bucket.tokens,
        0 <= bucket.time_consumed(now, config) <= bucket.elapsed(now),
{
    lemma_refill_bounds(
        bucket.elapsed(now),
        config.maximum_tokens as int,
        config.time_window as int,
    );
}

/// No time earns a token twice: after a refill at `now`, the time that is not
/// yet counted is less than the time of one token, so that a second refill at
/// the same instant changes nothing.
pub proof fn lemma_refill_is_idempotent(bucket: RateLimit, now: u64, config: LimiterConfig)
    requires
        config.wf(),
    ensures
        bucket.refilled(now, config).refilled(now, config) == bucket.refilled(now, config),
        bucket.last_refill <= now ==> bucket.last_refill <= bucket.refilled(now, config).last_refill
            <= now,
        in_burst(bucket.refilled(now, config).last_refill, now, config),
        bucket.refilled(now, config).tokens_due(now, config) == 0,
{
    let m = config.maximum_tokens as int;
    let w = config.time_window as int;
    let e = bucket.elapsed(now);
    lemma_refill_bounds(e, m, w);
    let once = bucket.refilled(now, config);
    if bucket.last_refill <= now {
        assert(once.elapsed(now) == e - bucket.time_consumed(now, config));
    } else {
        assert(e == 0);
        assert(e * m == 0);
        assert(once.last_refill == bucket.last_refill);
        assert((now - once.last_refill) * m < w) by (nonlinear_arith)
            requires
                now - once.last_refill < 0,
                m > 0,
                w > 0,
        ;
    }
    assert(once.tokens_due(now, config) == 0);
    lemma_no_token_no_change(once, now, config);
}

/// A refill that finds no token due leaves a bucket within the maximum as it is.
proof fn lemma_no_token_no_change(bucket: RateLimit, now: u64, config: LimiterConfig)
    requires
        config.wf(),
        bucket.tokens <= config.maximum_tokens,
        bucket.tokens_due(now, config) == 0,
    ensures
        bucket.refilled(now, config) == bucket,
{
    assert(0 * config.time_window == 0);
    lemma_basic_div(config.maximum_tokens - 1, config.maximum_tokens as int);
}

/// Before a token is due, a refill finds none.
proof fn lemma_in_burst_earns_nothing(bucket: RateLimit, t: u64, config: LimiterConfig)
    requires
        config.wf(),
        in_burst(bucket.last_refill, t, config),
    ensures
        bucket.tokens_due(t, config) == 0,
{
    let e = bucket.elapsed(t);
    if t >= bucket.last_refill {
        lemma_mul_nonnegative(e, config.maximum_tokens as int);
        lemma_basic_div(e * config.maximum_tokens, config.time_window as int);
    } else {
        assert(e * config.maximum_tokens == 0);
        lemma_basic_div(0, config.time_window as int);
    }
}

/// After a request at `now` the bucket is within the maximum, below it where
/// the request was admitted; `last_refill` has not moved back nor past `now`;
/// and the time not yet counted is less than the time of one token.
pub proof fn lemma_request_leaves_less_than_a_token(
    bucket: RateLimit,
    now: u64,
    config: LimiterConfig,
)
    requires
        config.wf(),
        bucket.last_refill <= now,
    ensures
        bucket.after_allow(now, config).tokens <= config.maximum_tokens,
        bucket.admits(now, config) ==> bucket.after_allow(now, config).tokens
            < config.maximum_tokens,
        bucket.last_refill <= bucket.after_allow(now, config).last_refill <= now,
        (now - bucket.after_allow(now, config).last_refill) * config.maximum_tokens
            < config.time_window,
        now - bucket.after_allow(now, config).last_refill <= config.time_window
            / config.maximum_tokens,
        config.time_window % config.maximum_tokens == 0 ==> now - bucket.after_allow(
            now,
            config,
        ).last_refill < config.time_window / config.maximum_tokens,
{
    lemma_refill_is_idempotent(bucket, now, config);
    let left = now - bucket.after_allow(now, config).last_refill;
    let m = config.maximum_tokens as int;
    let w = config.time_window as int;
    lemma_mul_is_commutative(left, m);
    lemma_div_multiples_vanish(left, m);
    lemma_div_is_ordered(m * left, w, m);
    if w % m == 0 {
        lemma_fundamental_div_mod(w, m);
        let g = w / m;
        assert(left < g) by (nonlinear_arith)
            requires
                left * m < m * g,
                m > 0,
        ;
    }
}

/// Saturation in general: of the requests that reach a bucket before its next
/// token is due, exactly as many are admitted as it holds tokens; every one
/// after them is rejected, and `last_refill` stays where it is.
pub proof fn lemma_bucket_saturates(bucket: RateLimit, times: Seq<u64>, config: LimiterConfig)
    requires
        config.wf(),
        bucket.wf(config),
        forall|i: int|
            0 <= i < times.len() ==> in_burst(bucket.last_refill, #[trigger] times[i], config),
    ensures
        bucket.after_requests(times, config).last_refill == bucket.last_refill,
        bucket.after_requests(times, config).tokens == if times.len() <= bucket.tokens {
            bucket.tokens - times.len()
        } else {
            0
        },
        forall|k: int|
            0 <= k < times.len() ==> (bucket.after_requests(#[trigger] times.take(k), config).admits(
                times[k],
                config,
            ) <==> k < bucket.tokens),
    decreases times.len(),
{
    if times.len() > 0 {
        let init = times.drop_last();
        let t = times.last();
        lemma_bucket_saturates(bucket, init, config);
        let prev = bucket.after_requests(init, config);
        assert(in_burst(bucket.last_refill, times[times.len() - 1], config));
        lemma_in_burst_earns_nothing(prev, t, config);
        lemma_no_token_no_change(prev, t, config);
        assert forall|k: int| 0 <= k < times.len() implies (bucket.after_requests(
            #[trigger] times.take(k),
            config,
        ).admits(times[k], config) <==> k < bucket.tokens) by {
            if k < init.len() {
                assert(times.take(k) =~= init.take(k));
                assert(times[k] == init[k]);
            } else {
                assert(times.take(k) =~= init);
            }
        }
    }
}

/// Saturation: of the requests that reach a fresh bucket before its first
/// token is due, exactly the first `maximum_tokens` are admitted; every one
/// after them is rejected.
pub proof fn lemma_fresh_bucket_saturates(start: u64, times: Seq<u64>, config: LimiterConfig)
    requires
        config.wf(),
        forall|i: int| 0 <= i < times.len() ==> in_burst(start, #[trigger] times[i], config),
    ensures
        RateLimit::full(start, config).after_requests(times, config).last_refill == start,
        RateLimit::full(start, config).after_requests(times, config).tokens == if times.len()
            <= config.maximum_tokens {
            config.maximum_tokens - times.len()
        } else {
            0
        },
        forall|k: int|
            0 <= k < times.len() ==> (RateLimit::full(start, config).after_requests(
                #[trigger] times.take(k),
                config,
            ).admits(times[k], config) <==> k < config.maximum_tokens),
{
    lemma_bucket_saturates(RateLimit::full(start, config), times, config);
}

/// Refill: a bucket that has been idle for the time window is full again,
/// however far it had been drained.
pub proof fn lemma_idle_bucket_recovers(bucket: RateLimit, now: u64, config: LimiterConfig)
    requires
        config.wf(),
        now - bucket.last_refill >= config.time_window,
    ensures
        bucket.refilled(now, config).tokens == config.maximum_tokens,
        bucket.recovered(now, config),
        bucket.admits(now, config),
{
    let e = bucket.elapsed(now);
    let m = config.maximum_tokens as int;
    let w = config.time_window as int;
    lemma_mul_inequality(w, e, m);
    lemma_div_is_ordered(w * m, e * m, w);
    lemma_div_multiples_vanish(m, w);
}

/// Requests at one instant: of the requests that reach a bucket at `now`, one
/// after another, exactly as many are admitted as the bucket holds tokens once
/// it is refilled at `now`. However long the bucket was idle, that is never
/// more than the maximum.
pub proof fn lemma_requests_at_one_instant(
    bucket: RateLimit,
    now: u64,
    requests: nat,
    config: LimiterConfig,
)
    requires
        config.wf(),
    ensures
        bucket.refilled(now, config).tokens <= config.maximum_tokens,
        bucket.after_requests(Seq::new(requests, |i: int| now), config).admits(now, config)
            <==> requests < bucket.refilled(now, config).tokens,
        requests > 0 ==> bucket.after_requests(Seq::new(requests, |i: int| now), config)
            == (RateLimit {
            tokens: if requests <= bucket.refilled(now, config).tokens {
                (bucket.refilled(now, config).tokens - requests) as u64
            } else {
                0
            },
            last_refill: bucket.refilled(now, config).last_refill,
        }),
    decreases requests,
{
    let times = Seq::new(requests, |i: int| now);
    let once = bucket.refilled(now, config);
    lemma_refill_is_idempotent(bucket, now, config);
    if requests == 0 {
        assert(bucket.after_requests(times, config) == bucket);
    } else {
        let init = Seq::new((requests - 1) as nat, |i: int| now);
        assert(times.drop_last() =~= init);
        lemma_requests_at_one_instant(bucket, now, (requests - 1) as nat, config);
        let prev = bucket.after_requests(init, config);
        if requests == 1 {
            assert(prev == bucket);
        } else {
            lemma_in_burst_earns_nothing(prev, now, config);
            lemma_no_token_no_change(prev, now, config);
        }
        let next = prev.after_allow(now, config);
        lemma_in_burst_earns_nothing(next, now, config);
        lemma_no_token_no_change(next, now, config);
    }
}

/// Refill: after the time window has passed idle, exactly the next
/// `maximum_tokens` requests are admitted where they all come at once, and
/// the one after them is rejected.
pub proof fn lemma_idle_bucket_admits_exactly_maximum(
    bucket: RateLimit,
    now: u64,
    requests: nat,
    config: LimiterConfig,
)
    requires
        config.wf(),
        now - bucket.last_refill >= config.time_window,
    ensures
        bucket.after_requests(Seq::new(requests, |i: int| now), config).admits(now, config)
            <==> requests < config.maximum_tokens,
{
    lemma_idle_bucket_recovers(bucket, now, config);
    lemma_requests_at_one_instant(bucket, now, requests, config);
}

/// Forgetting is safe: a bucket that would be full again at `now` is full at
/// every later time too, so that the next request finds as many tokens in it
/// as in the full bucket that stands in for a client that is not kept.
pub proof fn lemma_recovered_bucket_counts_as_absent(
    bucket: RateLimit,
    now: u64,
    later: u64,
    config: LimiterConfig,
)
    requires
        config.wf(),
        bucket.recovered(now, config),
        now <= later,
    ensures
        bucket.recovered(later, config),
        bucket.refilled(later, config).tokens == RateLimit::full(later, config).refilled(
            later,
            config,
        ).tokens,
        bucket.admits(later, config) == RateLimit::full(later, config).admits(later, config),
        bucket.after_allow(later, config).tokens == RateLimit::full(later, config).after_allow(
            later,
            config,
        ).tokens,
{
    let m = config.maximum_tokens as int;
    let w = config.time_window as int;
    lemma_mul_inequality(bucket.elapsed(now), bucket.elapsed(later), m);
    lemma_div_is_ordered(bucket.elapsed(now) * m, bucket.elapsed(later) * m, w);
    lemma_refill_bounds(0, m, w);
}

} // verus!

use relay_core::cache::{Cache, CacheLookup};
use relay_core::expiry::{Expire, ExpireEntry};
use relay_core::key_extractor::{ClientIp, KeyExtractionError, RealKeyExtractor};
use relay_core::rate_limit::{RateLimiter, RouteClass};
use relay_core::rate_tracker::RateTracker;
use relay_core::relay::{begin, complete, lookup, Miss, Reply, Step, Upstream};
use relay_core::routes::{cache_key, normalize_id};
use relay_core::token_bucket::LimiterConfig;
use std::time::{Duration, Instant};

#[test]
fn miss_is_fetched_cached_and_served_from_the_cache() {
    let mut limiter = RateLimiter::new(LimiterConfig::standard());
    let mut cache = Cache::new(8);
    let step = begin(&mut limiter, &mut cache, "1.1.1.1", RouteClass::Profile, "id by P", 600_000, 0, 0);
    assert_eq!(step, Step::FetchUpstream(Miss::NotCached));
    let body = b"{\"profiles\":[]}".to_vec();
    let reply = complete(&mut cache, "id by P".to_string(), Upstream::Success(body.clone()), 5);
    assert_eq!(reply, Reply::Fetched(body.clone()));
    assert_eq!(reply.status(), 200);
    let step = begin(&mut limiter, &mut cache, "1.1.1.1", RouteClass::Profile, "id by P", 600_000, 10, 10);
    assert_eq!(step, Step::Respond(Reply::Cached(body)));
    let step = begin(&mut limiter, &mut cache, "1.1.1.1", RouteClass::Profile, "id by P", 600_000, 20, 600_005);
    assert_eq!(step, Step::FetchUpstream(Miss::NotCached));
    assert_eq!(cache.len(), 0);
}

#[test]
fn client_out_of_tokens_is_told_so_and_the_cache_is_not_read() {
    let config = LimiterConfig { maximum_tokens: 1, time_window: 1_000, ip_threshold: 25, max_cache_size: 100 };
    let mut limiter = RateLimiter::new(config);
    let mut cache = Cache::new(8);
    cache.insert("k".to_string(), b"v", 0).unwrap();
    let first = begin(&mut limiter, &mut cache, "c", RouteClass::Secrets, "k", 10, 0, 5);
    assert_eq!(first, Step::Respond(Reply::Cached(b"v".to_vec())));
    let second = begin(&mut limiter, &mut cache, "c", RouteClass::Secrets, "k", 10, 0, 50);
    assert_eq!(second, Step::Respond(Reply::RateLimited));
    assert_eq!(Reply::RateLimited.status(), 429);
    assert_eq!(cache.len(), 1);
}

#[test]
fn corrupt_entry_is_purged_and_fetched_again() {
    let mut limiter = RateLimiter::new(LimiterConfig::standard());
    let mut cache = Cache::new(8);
    cache.insert_compressed("k".to_string(), vec![0xff; 9], 0);
    assert_eq!(cache.len(), 1);
    let step = begin(&mut limiter, &mut cache, "c", RouteClass::Secrets, "k", 100, 0, 1);
    assert_eq!(step, Step::FetchUpstream(Miss::Corrupt));
    assert_eq!(cache.len(), 0);
    let reply = complete(&mut cache, "k".to_string(), Upstream::Success(b"42".to_vec()), 2);
    assert_eq!(reply, Reply::Fetched(b"42".to_vec()));
    assert_eq!(cache.len(), 1);
    assert_eq!(cache.get("k", 100, 3), CacheLookup::Found(b"42".to_vec()));
}

#[test]
fn removal_takes_out_the_entry_of_the_key_alone() {
    let mut cache = Cache::with_budget(1_000);
    cache.insert("a".to_string(), b"1", 0).unwrap();
    cache.insert("b".to_string(), b"22", 0).unwrap();
    let left = cache.stored_bytes().unwrap();
    assert!(cache.remove("a"));
    assert!(!cache.remove("a"));
    assert_eq!(cache.len(), 1);
    assert!(cache.stored_bytes().unwrap() < left);
    assert_eq!(cache.get("a", 10, 1), CacheLookup::Missing);
    assert_eq!(cache.get("b", 10, 1), CacheLookup::Found(b"22".to_vec()));
}

#[test]
fn refusal_of_the_provider_is_passed_on_with_its_status() {
    let mut cache = Cache::new(8);
    let reply = complete(&mut cache, "k".to_string(), Upstream::Rejected(404), 0);
    assert_eq!(reply, Reply::UpstreamRejected(404));
    assert_eq!(reply.status(), 404);
    assert_eq!(cache.len(), 0);
    assert_eq!(Reply::UpstreamRejected(599).status(), 599);
    assert_eq!(Reply::UpstreamRejected(100).status(), 100);
    assert_eq!(Reply::UpstreamRejected(600).status(), 500);
    assert_eq!(Reply::UpstreamRejected(99).status(), 500);
    assert_eq!(Reply::UpstreamRejected(0).status(), 500);
}

#[test]
fn missing_answer_of_the_provider_is_an_internal_error() {
    let mut cache = Cache::new(8);
    let reply = complete(&mut cache, "k".to_string(), Upstream::Unavailable, 0);
    assert_eq!(reply, Reply::UpstreamUnavailable);
    assert_eq!(reply.status(), 500);
    assert_eq!(cache.len(), 0);
    assert_eq!(Reply::Cached(Vec::new()).status(), 200);
}

#[test]
fn cache_key_joins_the_plain_identity_and_the_class() {
    assert_eq!(normalize_id("0a1b-2c3d--4e"), "0a1b2c3d4e");
    assert_eq!(normalize_id("-"), "");
    assert_eq!(
        cache_key("d8d5a923-7b20-43d8-883b-1150148d6955", RouteClass::Profile),
        "d8d5a9237b2043d8883b1150148d6955 by P"
    );
    assert_eq!(cache_key("abc", RouteClass::Secrets), "abc by S");
    assert_eq!(cache_key("a-b-c", RouteClass::Secrets), cache_key("abc", RouteClass::Secrets));
    assert_ne!(cache_key("abc", RouteClass::Profile), cache_key("abc", RouteClass::Secrets));
}

#[test]
fn class_of_a_route_goes_by_the_start_of_its_path() {
    assert_eq!(RouteClass::of_path("/secrets/abc"), RouteClass::Secrets);
    assert_eq!(RouteClass::of_path("/secrets/"), RouteClass::Secrets);
    assert_eq!(RouteClass::of_path("/secrets"), RouteClass::Profile);
    assert_eq!(RouteClass::of_path("/get/secrets/abc"), RouteClass::Profile);
    assert_eq!(RouteClass::of_path(""), RouteClass::Profile);
}

#[test]
fn entry_keeps_its_duration_and_payload() {
    let entry = ExpireEntry::new(Duration::from_secs(600), vec![1, 2, 3]);
    assert_eq!(entry.duration(), Duration::from_secs(600));
    assert_eq!(entry.value(), &vec![1, 2, 3]);
    assert_eq!(entry.unpack(), None);
}

#[test]
fn packed_entry_unpacks_to_the_value() {
    let value = b"some payload, some payload, some payload".to_vec();
    let entry = ExpireEntry::pack(Duration::from_secs(60), &value).unwrap();
    assert_ne!(entry.value(), &value);
    assert_eq!(entry.duration(), Duration::from_secs(60));
    assert_eq!(entry.unpack(), Some(value));
}

#[test]
fn entry_expires_after_its_own_duration() {
    let entry = ExpireEntry::new(Duration::from_millis(1_500), Vec::new());
    let ttl = Expire.expire_after_create(&"key".to_string(), &entry, Instant::now());
    assert_eq!(ttl, Some(Duration::from_millis(1_500)));
}

#[test]
fn key_of_a_request_is_the_address_of_the_client() {
    let extractor = RealKeyExtractor;
    assert_eq!(extractor.extract(Some(ClientIp::V4(0x7f00_0001))), Ok(ClientIp::V4(0x7f00_0001)));
    assert_eq!(extractor.extract(Some(ClientIp::V6(1))), Ok(ClientIp::V6(1)));
    assert_eq!(extractor.extract(None), Err(KeyExtractionError::NoRemoteAddress));
    assert_eq!(KeyExtractionError::NoRemoteAddress.message(), "No remote address");
}

#[test]
fn tracker_counts_and_starts_anew_after_five_minutes() {
    let mut tracker = RateTracker::new(1_000);
    assert_eq!(tracker.requests(), 0);
    tracker.inc(2_000);
    tracker.inc(301_999);
    assert_eq!(tracker, RateTracker { requests: 2, restart_time: 1_000 });
    assert_eq!(tracker.elapsed(301_999), 300_999);
    tracker.inc(302_000);
    assert_eq!(tracker, RateTracker { requests: 1, restart_time: 302_000 });
    assert_eq!(tracker.elapsed(0), 0);
    tracker.reset(5);
    assert_eq!(tracker, RateTracker { requests: 0, restart_time: 5 });
}

#[test]
fn tracker_wraps_its_count() {
    let mut tracker = RateTracker { requests: u64::MAX, restart_time: 0 };
    tracker.inc(0);
    assert_eq!(tracker.requests(), 0);
}

#[test]
fn lookup_of_an_admitted_request_serves_purges_or_asks_for_a_fetch() {
    let mut cache = Cache::new(4);
    assert_eq!(lookup(&mut cache, "k", 100, 0), Step::FetchUpstream(Miss::NotCached));
    cache.insert("k".to_string(), b"v", 0).unwrap();
    assert_eq!(lookup(&mut cache, "k", 100, 99), Step::Respond(Reply::Cached(b"v".to_vec())));
    assert_eq!(lookup(&mut cache, "k", 100, 100), Step::FetchUpstream(Miss::NotCached));
    assert_eq!(cache.len(), 0);
    cache.insert_compressed("k".to_string(), vec![5, 0, 0], 0);
    assert_eq!(cache.len(), 1);
    assert_eq!(lookup(&mut cache, "k", 100, 1), Step::FetchUpstream(Miss::Corrupt));
    assert_eq!(cache.len(), 0);
}

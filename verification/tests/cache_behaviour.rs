use relay_core::cache::{Cache, CacheLookup, CACHE_SIZE};
use relay_core::compression::{compress_data, extract_data, CacheError, MAX_VALUE_LEN};

#[test]
fn round_trip_restores_the_input() {
    let input = b"Hello people, what's up?".to_vec();
    let packed = compress_data(&input).unwrap();
    assert_ne!(packed, input);
    assert_eq!(extract_data(&packed), Ok(input));
}

#[test]
fn round_trip_restores_the_empty_input() {
    let packed = compress_data(&[]).unwrap();
    assert!(!packed.is_empty());
    assert_eq!(extract_data(&packed), Ok(Vec::new()));
}

#[test]
fn round_trip_restores_every_byte_value() {
    let mut input: Vec<u8> = Vec::new();
    for round in 0..40u32 {
        for byte in 0..=255u8 {
            input.push(byte.wrapping_mul(round as u8 + 1));
        }
    }
    let packed = compress_data(&input).unwrap();
    assert_eq!(extract_data(&packed), Ok(input));
}

#[test]
fn compressed_form_starts_with_the_length() {
    let packed = compress_data(&[7u8; 300]).unwrap();
    assert_eq!(&packed[..4], &[44u8, 1, 0, 0][..]);
    assert!(packed.len() < 300);
}

#[test]
fn malformed_payload_is_reported_as_corrupt() {
    assert_eq!(extract_data(&[1, 2, 3]), Err(CacheError::CorruptEntry));
    assert_eq!(extract_data(&[]), Err(CacheError::CorruptEntry));
    assert_eq!(extract_data(&[9, 0, 0, 0, 0xff, 0xff]), Err(CacheError::CorruptEntry));
}

#[test]
fn fresh_entry_is_found_unchanged() {
    let mut cache = Cache::new(4);
    let value = b"{\"profiles\":[1,2,3]}".to_vec();
    assert_eq!(cache.insert("k".to_string(), &value, 1_000), Ok(()));
    assert_eq!(cache.get("k", 500, 1_000), CacheLookup::Found(value.clone()));
    assert_eq!(cache.get("k", 500, 1_499), CacheLookup::Found(value));
    assert_eq!(cache.len(), 1);
}

#[test]
fn entry_expires_when_its_age_reaches_the_ttl() {
    let mut cache = Cache::new(4);
    cache.insert("k".to_string(), b"v", 1_000).unwrap();
    assert_eq!(cache.get("k", 500, 1_500), CacheLookup::Missing);
    assert_eq!(cache.len(), 0);
}

#[test]
fn expired_entry_is_purged_for_later_lookups() {
    let mut cache = Cache::new(4);
    cache.insert("k".to_string(), b"v", 0).unwrap();
    assert_eq!(cache.get("k", 10, 11), CacheLookup::Missing);
    assert_eq!(cache.get("k", 1_000_000, 11), CacheLookup::Missing);
    assert_eq!(cache.get("k", 1_000_000, 0), CacheLookup::Missing);
}

#[test]
fn ttl_is_chosen_by_each_lookup() {
    let mut cache = Cache::new(4);
    cache.insert("k".to_string(), b"v", 0).unwrap();
    assert_eq!(cache.get("k", 60_000, 30_000), CacheLookup::Found(b"v".to_vec()));
    assert_eq!(cache.get("k", 10_000, 30_000), CacheLookup::Missing);
    assert_eq!(cache.get("k", 60_000, 30_000), CacheLookup::Missing);
}

#[test]
fn lookup_survives_the_widest_clock_values() {
    let mut cache = Cache::new(2);
    cache.insert("k".to_string(), b"v", i64::MIN).unwrap();
    assert_eq!(cache.get("k", i64::MAX, i64::MAX), CacheLookup::Missing);
    cache.insert("k".to_string(), b"v", i64::MAX).unwrap();
    assert_eq!(cache.get("k", 0, i64::MIN), CacheLookup::Found(b"v".to_vec()));
    assert_eq!(cache.get("k", -1, i64::MAX), CacheLookup::Missing);
}

#[test]
fn absent_key_is_missing_and_nothing_changes() {
    let mut cache = Cache::new(2);
    cache.insert("a".to_string(), b"1", 0).unwrap();
    cache.insert("b".to_string(), b"2", 0).unwrap();
    assert_eq!(cache.get("zzz", 100, 1), CacheLookup::Missing);
    assert_eq!(cache.len(), 2);
    cache.insert("c".to_string(), b"3", 0).unwrap();
    assert_eq!(cache.get("a", 100, 1), CacheLookup::Missing);
    assert_eq!(cache.get("b", 100, 1), CacheLookup::Found(b"2".to_vec()));
}

#[test]
fn one_insert_past_capacity_evicts_the_first_inserted() {
    let capacity = 5usize;
    let mut cache = Cache::new(capacity);
    for i in 0..=capacity {
        cache.insert(format!("key{}", i), format!("value{}", i).as_bytes(), i as i64).unwrap();
    }
    assert_eq!(cache.len(), capacity);
    assert_eq!(cache.get("key0", 1_000, 10), CacheLookup::Missing);
    for i in 1..=capacity {
        assert_eq!(
            cache.get(&format!("key{}", i), 1_000, 10),
            CacheLookup::Found(format!("value{}", i).into_bytes())
        );
    }
}

#[test]
fn capacity_two_evicts_the_untouched_entry() {
    let mut cache = Cache::new(2);
    cache.insert("a".to_string(), b"X", 0).unwrap();
    cache.insert("b".to_string(), b"Y", 1).unwrap();
    assert_eq!(cache.get("a", 1_000, 2), CacheLookup::Found(b"X".to_vec()));
    cache.insert("c".to_string(), b"Z", 3).unwrap();
    assert_eq!(cache.len(), 2);
    assert_eq!(cache.get("b", 1_000, 4), CacheLookup::Missing);
    assert_eq!(cache.get("a", 1_000, 4), CacheLookup::Found(b"X".to_vec()));
    assert_eq!(cache.get("c", 1_000, 4), CacheLookup::Found(b"Z".to_vec()));
}

#[test]
fn cache_of_one_entry_keeps_the_latest() {
    let mut cache = Cache::new(1);
    cache.insert("a".to_string(), b"X", 0).unwrap();
    assert_eq!(cache.get("a", 10, 1), CacheLookup::Found(b"X".to_vec()));
    cache.insert("b".to_string(), b"Y", 2).unwrap();
    assert_eq!(cache.len(), 1);
    assert_eq!(cache.get("a", 10, 3), CacheLookup::Missing);
    assert_eq!(cache.get("b", 10, 3), CacheLookup::Found(b"Y".to_vec()));
}

#[test]
fn reinsertion_replaces_the_entry_and_its_time() {
    let mut cache = Cache::new(2);
    cache.insert("a".to_string(), b"old", 0).unwrap();
    cache.insert("b".to_string(), b"other", 0).unwrap();
    cache.insert("a".to_string(), b"new", 100).unwrap();
    assert_eq!(cache.len(), 2);
    assert_eq!(cache.get("a", 50, 120), CacheLookup::Found(b"new".to_vec()));
    cache.insert("c".to_string(), b"third", 130).unwrap();
    assert_eq!(cache.get("b", 1_000, 140), CacheLookup::Missing);
    assert_eq!(cache.get("a", 1_000, 140), CacheLookup::Found(b"new".to_vec()));
}

#[test]
fn default_cache_holds_the_default_number_of_entries() {
    let mut cache = Cache::create();
    assert_eq!(CACHE_SIZE, 125);
    for i in 0..126 {
        cache.insert(format!("{}", i), &[i as u8], 0).unwrap();
    }
    assert_eq!(cache.len(), 125);
    assert_eq!(cache.get("0", 10, 1), CacheLookup::Missing);
    assert_eq!(cache.get("1", 10, 1), CacheLookup::Found(vec![1]));
    assert_eq!(cache.stored_bytes(), None);
}

#[test]
fn payload_that_does_not_decompress_is_a_corrupt_entry() {
    let mut cache = Cache::new(2);
    cache.insert_compressed("bad".to_string(), vec![1, 2, 3], 0);
    assert_eq!(cache.get("bad", 100, 1), CacheLookup::CorruptEntry);
    assert_eq!(cache.len(), 1);
    assert_eq!(cache.get("bad", 100, 100), CacheLookup::Missing);
    assert_eq!(cache.len(), 0);
}

#[test]
fn compressed_payload_is_stored_as_it_is() {
    let mut cache = Cache::with_budget(1_000);
    let packed = compress_data(b"payload").unwrap();
    let size = packed.len();
    cache.insert_compressed("k".to_string(), packed, 5);
    assert_eq!(cache.stored_bytes(), Some(size));
    assert_eq!(cache.get("k", 10, 6), CacheLookup::Found(b"payload".to_vec()));
}

#[test]
fn memory_bound_is_kept_after_every_insert() {
    let budget = 200usize;
    let mut cache = Cache::with_budget(budget);
    for i in 0..50u32 {
        let value: Vec<u8> = (0..(i * 7 % 90)).map(|b| (b * 31 + i) as u8).collect();
        let size = compress_data(&value).unwrap().len();
        cache.insert(format!("k{}", i), &value, i as i64).unwrap();
        let stored = cache.stored_bytes().unwrap();
        assert!(stored <= budget);
        assert!(stored >= size);
        assert_eq!(cache.get(&format!("k{}", i), 10, i as i64), CacheLookup::Found(value));
    }
    assert!(cache.len() > 1);
}

#[test]
fn memory_bound_evicts_least_recent_entries_until_the_new_one_fits() {
    let one = compress_data(&[1u8]).unwrap().len();
    let mut cache = Cache::with_budget(4 * one);
    for key in ["a", "b", "c", "d"] {
        cache.insert(key.to_string(), &[1u8], 0).unwrap();
    }
    assert_eq!(cache.len(), 4);
    assert_eq!(cache.stored_bytes(), Some(4 * one));
    assert_eq!(cache.get("a", 100, 1), CacheLookup::Found(vec![1]));
    let big: Vec<u8> = (0..10u32).map(|b| (b * 37 + 11) as u8).collect();
    let big_size = compress_data(&big).unwrap().len();
    assert!(big_size > 2 * one && big_size <= 3 * one);
    cache.insert("big".to_string(), &big, 2).unwrap();
    assert_eq!(cache.len(), 2);
    assert_eq!(cache.stored_bytes(), Some(one + big_size));
    assert_eq!(cache.get("b", 100, 3), CacheLookup::Missing);
    assert_eq!(cache.get("c", 100, 3), CacheLookup::Missing);
    assert_eq!(cache.get("d", 100, 3), CacheLookup::Missing);
    assert_eq!(cache.get("a", 100, 3), CacheLookup::Found(vec![1]));
    assert_eq!(cache.get("big", 100, 3), CacheLookup::Found(big));
}

#[test]
fn payload_larger_than_the_budget_is_not_stored() {
    let one = compress_data(&[1u8]).unwrap().len();
    let mut cache = Cache::with_budget(2 * one);
    cache.insert("a".to_string(), &[1u8], 0).unwrap();
    cache.insert("b".to_string(), &[1u8], 0).unwrap();
    let big: Vec<u8> = (0..200u32).map(|b| (b * 37 + 11) as u8).collect();
    assert!(compress_data(&big).unwrap().len() > 2 * one);
    assert_eq!(cache.insert("big".to_string(), &big, 1), Ok(()));
    assert_eq!(cache.len(), 0);
    assert_eq!(cache.stored_bytes(), Some(0));
    assert_eq!(cache.get("big", 100, 1), CacheLookup::Missing);
    assert_eq!(cache.get("a", 100, 1), CacheLookup::Missing);
}

#[test]
fn memory_bound_counts_a_replaced_entry_once() {
    let mut cache = Cache::with_budget(1_000);
    cache.insert("k".to_string(), &[1u8; 10], 0).unwrap();
    let second: Vec<u8> = (0..100u32).map(|b| (b * 37 + 11) as u8).collect();
    cache.insert("k".to_string(), &second, 1).unwrap();
    assert_eq!(cache.len(), 1);
    assert_eq!(cache.stored_bytes(), Some(compress_data(&second).unwrap().len()));
}

#[test]
fn memory_bound_gives_back_the_bytes_of_an_expired_entry() {
    let mut cache = Cache::with_budget(1_000);
    cache.insert("k".to_string(), b"value", 0).unwrap();
    cache.insert("l".to_string(), b"other", 0).unwrap();
    let other = compress_data(b"other").unwrap().len();
    assert_eq!(cache.get("k", 10, 10), CacheLookup::Missing);
    assert_eq!(cache.stored_bytes(), Some(other));
    assert_eq!(cache.len(), 1);
}

#[test]
fn budget_of_zero_stores_nothing() {
    let mut cache = Cache::with_budget(0);
    assert_eq!(cache.insert("k".to_string(), b"", 0), Ok(()));
    assert_eq!(cache.len(), 0);
    assert_eq!(cache.get("k", 10, 0), CacheLookup::Missing);
}

#[test]
fn payload_that_claims_too_much_is_corrupt() {
    assert_eq!(extract_data(&[0xff; 9]), Err(CacheError::CorruptEntry));
    assert_eq!(extract_data(&[0x01, 0x00, 0x00, 0x04, 0x00]), Err(CacheError::CorruptEntry));
    assert_eq!(extract_data(&[0xff, 0xff, 0xff, 0xff]), Err(CacheError::CorruptEntry));
}

#[test]
fn payload_may_claim_up_to_the_longest_value() {
    assert_eq!(MAX_VALUE_LEN, 64 * 1024 * 1024);
    assert_eq!(extract_data(&[0x00, 0x00, 0x00, 0x04]), Err(CacheError::CorruptEntry));
    assert_eq!(extract_data(&[0x00, 0x00, 0x00, 0x00, 0x00]), Ok(Vec::new()));
}

#[test]
fn value_longer_than_the_longest_is_not_compressed() {
    let long = vec![0u8; MAX_VALUE_LEN as usize + 1];
    assert_eq!(compress_data(&long), Err(CacheError::CompressionFailed));
    let mut cache = Cache::new(2);
    cache.insert("k".to_string(), b"old", 0).unwrap();
    assert_eq!(cache.insert("k".to_string(), &long, 1), Err(CacheError::CompressionFailed));
    assert_eq!(cache.len(), 1);
    assert_eq!(cache.get("k", 10, 2), CacheLookup::Found(b"old".to_vec()));
}

#[test]
fn longest_value_is_compressed_and_restored() {
    let long = vec![0u8; MAX_VALUE_LEN as usize];
    let packed = compress_data(&long).unwrap();
    assert!(packed.len() < long.len());
    assert_eq!(extract_data(&packed), Ok(long));
}

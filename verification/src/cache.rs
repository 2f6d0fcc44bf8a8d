//! The expiring cache: compressed payloads in a recency-ordered map, bound by
//! the number of entries or by the total size of the payloads, with expiry
//! decided at the time of each lookup.

use vstd::prelude::*;
use lru::LruCache;
use crate::cache_state::{
    lemma_insert_keeps_bounds, lemma_lookup_keeps_bounds, lemma_remove_keeps_bounds,
    lemma_total_size_push_front,
    lemma_total_size_remove, lemma_trim_to, total_size, trim_to, CacheState, Lookup,
    Stored,
};
use crate::compression::{
    compress_data, extract_data, lz4_compressed, extracted, CacheError, MAX_VALUE_LEN,
};
use crate::keyed::{
    distinct_keys, has_key, index_of, key_at, lemma_drop_last_keeps_distinct,
    lemma_index_of_unique, lemma_push_front_keeps_distinct, lemma_remove_keeps_distinct,
    lemma_to_front_keeps_distinct, to_front, without_key, Key,
};
use crate::recency::{
    lru_len, lru_limit, lru_peek, lru_pop, lru_pop_last, lru_promote, lru_push, lru_slots,
    lru_unbounded, lru_with_limit, CacheEntry,
};

verus! {

/// The number of entries of a cache made by `Cache::create`.
pub const CACHE_SIZE: usize = 125;

/// What a lookup found.
#[derive(Debug, PartialEq, Eq)]
pub enum CacheLookup {
    /// A fresh entry: the value as it was inserted.
    Found(Vec<u8>),
    /// No entry under the key, or one that had expired and is now removed.
    Missing,
    /// A fresh entry whose payload cannot be decompressed. The entry stays.
    CorruptEntry,
}

impl View for CacheLookup {
    type V = Lookup;

    open spec fn view(&self) -> Lookup {
        match self {
            CacheLookup::Found(value) => Lookup::Found(value@),
            CacheLookup::Missing => Lookup::Missing,
            CacheLookup::CorruptEntry => Lookup::CorruptEntry,
        }
    }
}

/// A bounded, expiring cache of compressed byte payloads.
pub struct Cache {
    map: LruCache<String, CacheEntry>,
    /// The budget of a cache bound by memory.
    budget: Option<usize>,
    /// The total size of the payloads of a cache bound by memory; 0 otherwise.
    stored_bytes: usize,
}

/// What an entry stands for in the model.
pub closed spec fn stored_of(entry: CacheEntry) -> Stored {
    Stored {
        value: extracted(entry.data@),
        size: entry.data@.len(),
        inserted_at: entry.inserted_at as int,
    }
}

/// The slots of the map as entries of the model.
pub closed spec fn stored_view(slots: Seq<(Key, CacheEntry)>) -> Seq<(Key, Stored)> {
    Seq::new(slots.len(), |i: int| (slots[i].0, stored_of(slots[i].1)))
}

proof fn lemma_view_keys(slots: Seq<(Key, CacheEntry)>)
    ensures
        stored_view(slots).len() == slots.len(),
        distinct_keys(slots) ==> distinct_keys(stored_view(slots)),
        forall|key: Key| has_key(stored_view(slots), key) <==> has_key(slots, key),
        forall|key: Key|
            distinct_keys(slots) && has_key(slots, key) ==> index_of(stored_view(slots), key)
                == index_of(slots, key),
{
    let v = stored_view(slots);
    assert forall|key: Key| has_key(v, key) <==> has_key(slots, key) by {
        if has_key(v, key) {
            let i = index_of(v, key);
            assert(key_at(slots, key, i));
        }
        if has_key(slots, key) {
            let i = index_of(slots, key);
            assert(key_at(v, key, i));
        }
    }
    if distinct_keys(slots) {
        assert forall|i: int, j: int| 0 <= i < j < v.len() implies (#[trigger] v[i]).0 != (#[trigger] v[j]).0 by {
            assert(slots[i].0 != slots[j].0);
        }
        assert forall|key: Key| has_key(slots, key) implies index_of(v, key) == index_of(slots, key) by {
            let i = index_of(slots, key);
            assert(key_at(v, key, i));
            lemma_index_of_unique(v, key, i);
        }
    }
}

proof fn lemma_view_remove(slots: Seq<(Key, CacheEntry)>, i: int)
    requires
        0 <= i < slots.len(),
    ensures
        stored_view(slots.remove(i)) == stored_view(slots).remove(i),
        to_front(stored_view(slots), i) == stored_view(to_front(slots, i)),
{
    assert(stored_view(slots.remove(i)) =~= stored_view(slots).remove(i));
    assert(to_front(stored_view(slots), i) =~= stored_view(to_front(slots, i)));
}

proof fn lemma_view_drop_last(slots: Seq<(Key, CacheEntry)>)
    requires
        slots.len() > 0,
    ensures
        stored_view(slots.drop_last()) == stored_view(slots).drop_last(),
{
    assert(stored_view(slots.drop_last()) =~= stored_view(slots).drop_last());
}

proof fn lemma_view_push_front(slots: Seq<(Key, CacheEntry)>, key: Key, entry: CacheEntry)
    ensures
        stored_view(seq![(key, entry)] + slots) == seq![(key, stored_of(entry))] + stored_view(slots),
{
    assert(stored_view(seq![(key, entry)] + slots) =~= seq![(key, stored_of(entry))] + stored_view(
        slots,
    ));
}

proof fn lemma_view_without(slots: Seq<(Key, CacheEntry)>, key: Key)
    requires
        distinct_keys(slots),
    ensures
        stored_view(without_key(slots, key)) == without_key(stored_view(slots), key),
{
    lemma_view_keys(slots);
    if has_key(slots, key) {
        lemma_view_remove(slots, index_of(slots, key));
    }
}

impl View for Cache {
    type V = CacheState;

    closed spec fn view(&self) -> CacheState {
        CacheState {
            entries: stored_view(lru_slots(self.map)),
            capacity: lru_limit(self.map),
            budget: match self.budget {
                Some(b) => Some(b as nat),
                None => None,
            },
        }
    }
}

impl Cache {
    /// The map holds no key twice and no more slots than its limit, and the
    /// byte counter of a cache bound by memory is the sum of its payload sizes,
    /// within the budget.
    pub closed spec fn wf(&self) -> bool {
        &&& distinct_keys(lru_slots(self.map))
        &&& self@.wf()
        &&& match self.budget {
            Some(_) => self.stored_bytes == total_size(self@.entries),
            None => self.stored_bytes == 0,
        }
    }

    /// A well-formed cache stands for a well-formed state.
    pub proof fn lemma_wf_state(&self)
        requires
            self.wf(),
        ensures
            self@.wf(),
    {
    }

    /// An empty cache that holds at most `capacity` entries.
    pub fn new(capacity: usize) -> (cache: Cache)
        requires
            capacity > 0,
        ensures
            cache.wf(),
            cache@.wf(),
            cache@ == CacheState::empty(capacity as nat, None),
    {
        let cache = Cache { map: lru_with_limit(capacity), budget: None, stored_bytes: 0 };
        proof {
            assert(stored_view(lru_slots(cache.map)) =~= Seq::<(Key, Stored)>::empty());
        }
        cache
    }

    /// An empty cache of `CACHE_SIZE` entries.
    pub fn create() -> (cache: Cache)
        ensures
            cache.wf(),
            cache@.wf(),
            cache@ == CacheState::empty(CACHE_SIZE as nat, None),
    {
        Cache::new(CACHE_SIZE)
    }

    /// An empty cache whose payloads take at most `max_bytes` in all. The number
    /// of its entries is bound by the machine alone.
    pub fn with_budget(max_bytes: usize) -> (cache: Cache)
        ensures
            cache.wf(),
            cache@.wf(),
            cache@ == CacheState::empty(usize::MAX as nat, Some(max_bytes as nat)),
    {
        let cache = Cache { map: lru_unbounded(), budget: Some(max_bytes), stored_bytes: 0 };
        proof {
            assert(stored_view(lru_slots(cache.map)) =~= Seq::<(Key, Stored)>::empty());
        }
        cache
    }

    /// The number of entries, expired ones included.
    pub fn len(&self) -> (n: usize)
        requires
            self.wf(),
        ensures
            n == self@.entries.len(),
    {
        proof {
            lemma_view_keys(lru_slots(self.map));
        }
        lru_len(&self.map)
    }

    /// The total size of the stored payloads, where the cache is bound by memory.
    pub fn stored_bytes(&self) -> (total: Option<usize>)
        requires
            self.wf(),
        ensures
            match self@.budget {
                Some(_) => total == Some(total_size(self@.entries) as usize) && total_size(
                    self@.entries,
                ) <= usize::MAX,
                None => total is None,
            },
    {
        match self.budget {
            Some(_) => Some(self.stored_bytes),
            None => None,
        }
    }

    /// Stores the compressed form of `value` under `key`, stamped `now`, and
    /// makes it the most recently used entry. Fails, and changes nothing, exactly
    /// when `value` is too long to be compressed. `Ok` says that the value was
    /// compressed and the cache brought up to date, which for a cache bound by
    /// memory and a payload larger than its whole budget means that every entry
    /// is evicted and the payload is not stored.
    pub fn insert(&mut self, key: String, value: &[u8], now: i64) -> (r: Result<(), CacheError>)
        requires
            old(self).wf(),
        ensures
            final(self).wf(),
            final(self)@.wf(),
            value@.len() > MAX_VALUE_LEN ==> r == Err::<(), CacheError>(CacheError::CompressionFailed)
                && final(self)@ == old(self)@,
            value@.len() <= MAX_VALUE_LEN ==> r is Ok && final(self)@ == old(self)@.insert(
                key@,
                Some(value@),
                lz4_compressed(value@).len(),
                now as int,
            ),
    {
        match compress_data(value) {
            Ok(payload) => {
                self.insert_compressed(key, payload, now);
                Ok(())
            },
            Err(e) => Err(e),
        }
    }

    /// Stores `payload`, which is already compressed, under `key`, stamped `now`,
    /// and makes it the most recently used entry. An older entry of the key goes
    /// first; a cache bound by memory then evicts its least recently used
    /// entries until the payload fits. A payload larger than the whole budget
    /// never fits: every entry is evicted for it, and it is not stored.
    pub fn insert_compressed(&mut self, key: String, payload: Vec<u8>, now: i64)
        requires
            old(self).wf(),
        ensures
            final(self).wf(),
            final(self)@.wf(),
            final(self)@ == old(self)@.insert(
                key@,
                extracted(payload@),
                payload@.len(),
                now as int,
            ),
    {
        let ghost before = self@;
        let ghost slots0 = lru_slots(self.map);
        let ghost item = (
            key@,
            Stored { value: extracted(payload@), size: payload@.len(), inserted_at: now as int },
        );
        let size = payload.len();
        let entry = CacheEntry { data: payload, inserted_at: now };
        proof {
            lemma_view_keys(slots0);
            lemma_view_without(slots0, key@);
            lemma_insert_keeps_bounds(before, key@, item.1.value, item.1.size, now as int);
            if has_key(slots0, key@) {
                lemma_remove_keeps_distinct(slots0, index_of(slots0, key@));
                lemma_total_size_remove(stored_view(slots0), index_of(slots0, key@));
            }
        }
        let gone = lru_pop(&mut self.map, key.as_str());
        let ghost rest = lru_slots(self.map);
        assert(rest == without_key(slots0, key@));
        assert(stored_of(entry) == item.1);
        match self.budget {
            None => {
                proof {
                    lemma_view_keys(rest);
                    lemma_view_push_front(rest, key@, entry);
                    if rest.len() > 0 {
                        lemma_view_drop_last(rest);
                        lemma_drop_last_keeps_distinct(rest);
                        lemma_view_push_front(rest.drop_last(), key@, entry);
                    }
                }
                let _ = lru_push(&mut self.map, key, entry);
                proof {
                    lemma_cache_slots_distinct(lru_slots(self.map), rest, key@, entry);
                }
            },
            Some(budget) => {
                if let Some(old_entry) = gone {
                    self.stored_bytes = self.stored_bytes - old_entry.data.len();
                }
                let ghost room = budget - size;
                while size > budget - self.stored_bytes && lru_len(&self.map) > 0
                    invariant
                        self.budget == Some(budget),
                        lru_limit(self.map) == before.capacity,
                        lru_slots(self.map).len() <= before.capacity,
                        distinct_keys(lru_slots(self.map)),
                        !has_key(lru_slots(self.map), key@),
                        self.stored_bytes == total_size(stored_view(lru_slots(self.map))),
                        self.stored_bytes <= budget,
                        room == budget - size,
                        trim_to(stored_view(lru_slots(self.map)), room) == trim_to(
                            stored_view(rest),
                            room,
                        ),
                    decreases lru_slots(self.map).len(),
                {
                    let ghost cur = lru_slots(self.map);
                    proof {
                        lemma_view_keys(cur);
                        lemma_view_drop_last(cur);
                        lemma_drop_last_keeps_distinct(cur);
                    }
                    match lru_pop_last(&mut self.map) {
                        Some((_, last)) => {
                            self.stored_bytes = self.stored_bytes - last.data.len();
                        },
                        None => {},
                    }
                }
                let ghost kept = lru_slots(self.map);
                proof {
                    lemma_view_keys(kept);
                    lemma_trim_to(stored_view(kept), room);
                    if kept.len() == 0 {
                        assert(stored_view(kept) =~= Seq::<(Key, Stored)>::empty());
                    }
                    assert(trim_to(stored_view(rest), room) == stored_view(kept)) by {
                        lemma_trim_to(stored_view(rest), room);
                    }
                }
                if size <= budget - self.stored_bytes {
                    proof {
                        lemma_view_push_front(kept, key@, entry);
                        lemma_total_size_push_front(stored_view(kept), item);
                        if kept.len() > 0 {
                            lemma_view_drop_last(kept);
                            lemma_drop_last_keeps_distinct(kept);
                            lemma_view_push_front(kept.drop_last(), key@, entry);
                            lemma_total_size_push_front(stored_view(kept.drop_last()), item);
                        }
                    }
                    let evicted = lru_push(&mut self.map, key, entry);
                    if let Some((_, last)) = evicted {
                        self.stored_bytes = self.stored_bytes - last.data.len();
                    }
                    self.stored_bytes = self.stored_bytes + size;
                    proof {
                        lemma_cache_slots_distinct(lru_slots(self.map), kept, key@, entry);
                    }
                }
            },
        }
    }

    /// Looks `key` up at time `now`, for a caller that accepts entries younger
    /// than `ttl` milliseconds. A fresh entry becomes the most recently used one
    /// and is returned decompressed; an entry whose age has reached `ttl` is
    /// removed.
    pub fn get(&mut self, key: &str, ttl: i64, now: i64) -> (found: CacheLookup)
        requires
            old(self).wf(),
        ensures
            final(self).wf(),
            final(self)@.wf(),
            found@ == old(self)@.lookup(key@, ttl as int, now as int),
            final(self)@ == old(self)@.after_lookup(key@, ttl as int, now as int),
    {
        let ghost before = self@;
        let ghost slots0 = lru_slots(self.map);
        proof {
            lemma_view_keys(slots0);
            lemma_lookup_keeps_bounds(before, key@, ttl as int, now as int);
        }
        if !lru_promote(&mut self.map, key) {
            return CacheLookup::Missing;
        }
        let ghost at = index_of(slots0, key@);
        let ghost slots1 = lru_slots(self.map);
        proof {
            lemma_view_remove(slots0, at);
            lemma_to_front_keeps_distinct(slots0, at);
            lemma_index_of_unique(slots1, key@, 0);
            lemma_view_keys(slots1);
            lemma_view_remove(slots1, 0);
            lemma_total_size_remove(stored_view(slots0), at);
            lemma_total_size_push_front(stored_view(slots0).remove(at), stored_view(slots0)[at]);
            assert(slots1.remove(0) =~= slots0.remove(at));
        }
        if let Some(entry) = lru_peek(&self.map, key) {
            if (now as i128) - (entry.inserted_at as i128) < (ttl as i128) {
                return match extract_data(entry.data.as_slice()) {
                    Ok(value) => CacheLookup::Found(value),
                    Err(_) => CacheLookup::CorruptEntry,
                };
            }
        }
        let gone = lru_pop(&mut self.map, key);
        if let Some(old_entry) = gone {
            if self.budget.is_some() {
                self.stored_bytes = self.stored_bytes - old_entry.data.len();
            }
        }
        proof {
            lemma_remove_keeps_distinct(slots1, 0);
        }
        CacheLookup::Missing
    }

    /// Takes the entry of `key` out, expired or not, and says whether there
    /// was one.
    pub fn remove(&mut self, key: &str) -> (found: bool)
        requires
            old(self).wf(),
        ensures
            final(self).wf(),
            final(self)@.wf(),
            found == old(self)@.holds(key@),
            final(self)@ == old(self)@.remove(key@),
    {
        let ghost slots0 = lru_slots(self.map);
        proof {
            lemma_view_keys(slots0);
            lemma_view_without(slots0, key@);
            lemma_remove_keeps_bounds(self@, key@);
            if has_key(slots0, key@) {
                lemma_remove_keeps_distinct(slots0, index_of(slots0, key@));
                lemma_total_size_remove(stored_view(slots0), index_of(slots0, key@));
            }
        }
        match lru_pop(&mut self.map, key) {
            Some(old_entry) => {
                if self.budget.is_some() {
                    self.stored_bytes = self.stored_bytes - old_entry.data.len();
                }
                true
            },
            None => false,
        }
    }
}

proof fn lemma_cache_slots_distinct(after: Seq<(Key, CacheEntry)>, rest: Seq<(Key, CacheEntry)>, key: Key, entry: CacheEntry)
    requires
        distinct_keys(rest),
        !has_key(rest, key),
        after == seq![(key, entry)] + rest || (rest.len() > 0 && after == seq![(key, entry)]
            + rest.drop_last()),
    ensures
        distinct_keys(after),
{
    if after == seq![(key, entry)] + rest {
        lemma_push_front_keeps_distinct(rest, (key, entry));
    } else {
        lemma_drop_last_keeps_distinct(rest);
        if has_key(rest.drop_last(), key) {
            let i = index_of(rest.drop_last(), key);
            assert(key_at(rest, key, i));
        }
        lemma_push_front_keeps_distinct(rest.drop_last(), (key, entry));
    }
}

} // verus!

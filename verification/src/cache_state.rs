//! The cache as a mathematical value: a recency-ordered sequence of stored
//! values with a bound on their number and, optionally, on their total size.

use vstd::prelude::*;
use crate::keyed::{
    distinct_keys, has_key, index_of, key_at, lemma_drop_last_keeps_distinct,
    lemma_index_of_unique, lemma_push_front_keeps_distinct, lemma_remove_keeps_distinct,
    lemma_to_front_keeps_distinct, to_front, without_key, Key,
};

verus! {

/// What the cache holds under one key.
pub struct Stored {
    /// The value that the payload decodes to; `None` where it does not decode.
    pub value: Option<Seq<u8>>,
    /// The length of the compressed payload, which counts against the budget.
    pub size: nat,
    /// The time of insertion, in milliseconds.
    pub inserted_at: int,
}

/// The result of a lookup.
pub enum Lookup {
    /// A fresh entry, decoded.
    Found(Seq<u8>),
    /// No entry, or one that had expired.
    Missing,
    /// A fresh entry whose payload does not decode.
    CorruptEntry,
}

/// The state of a cache. `entries` are ordered by recency, the most recently
/// used first; the last is the next to be evicted.
pub struct CacheState {
    pub entries: Seq<(Key, Stored)>,
    /// The largest number of entries.
    pub capacity: nat,
    /// The largest total size of the payloads, where the cache is bound by memory.
    pub budget: Option<nat>,
}

/// The sum of the payload sizes of `s`.
pub open spec fn total_size(s: Seq<(Key, Stored)>) -> nat
    decreases s.len(),
{
    if s.len() == 0 {
        0
    } else {
        total_size(s.drop_last()) + s.last().1.size
    }
}

/// `s` after evicting from its least recently used end until what is left takes
/// no more than `room`.
pub open spec fn trim_to(s: Seq<(Key, Stored)>, room: int) -> Seq<(Key, Stored)>
    decreases s.len(),
{
    if s.len() == 0 || total_size(s) <= room {
        s
    } else {
        trim_to(s.drop_last(), room)
    }
}

/// `s` with `item` put in front; a full `s` first loses its least recently
/// used entry.
pub open spec fn put_front(s: Seq<(Key, Stored)>, capacity: nat, item: (Key, Stored)) -> Seq<
    (Key, Stored),
> {
    if s.len() == capacity {
        seq![item] + s.drop_last()
    } else {
        seq![item] + s
    }
}

impl CacheState {
    /// No key twice, no more entries than the capacity, no more bytes than the budget.
    pub open spec fn wf(self) -> bool {
        &&& self.capacity > 0
        &&& self.entries.len() <= self.capacity
        &&& distinct_keys(self.entries)
        &&& (self.budget matches Some(b) ==> total_size(self.entries) <= b)
    }

    /// An empty cache.
    pub open spec fn empty(capacity: nat, budget: Option<nat>) -> CacheState {
        CacheState { entries: Seq::empty(), capacity, budget }
    }

    /// The cache has an entry for `key`, expired or not.
    pub open spec fn holds(self, key: Key) -> bool {
        has_key(self.entries, key)
    }

    /// The entry of `key`.
    pub open spec fn stored(self, key: Key) -> Stored {
        self.entries[index_of(self.entries, key)].1
    }

    /// The entry of `key` is there and younger than `ttl` at `now`.
    pub open spec fn fresh(self, key: Key, ttl: int, now: int) -> bool {
        self.holds(key) && now - self.stored(key).inserted_at < ttl
    }

    /// The state after storing, at `now`, a payload of `size` bytes that decodes
    /// to `value`. An older entry of the key goes first. A cache bound by memory
    /// then evicts from its least recently used end until the payload fits. A
    /// payload larger than the whole budget never fits: every entry is evicted
    /// for it, and it is not stored.
    pub open spec fn insert(self, key: Key, value: Option<Seq<u8>>, size: nat, now: int) -> CacheState {
        let rest = without_key(self.entries, key);
        let item = (key, Stored { value, size, inserted_at: now });
        let entries = match self.budget {
            None => put_front(rest, self.capacity, item),
            Some(b) => if size <= b {
                put_front(trim_to(rest, b - size), self.capacity, item)
            } else {
                Seq::empty()
            },
        };
        CacheState { entries, capacity: self.capacity, budget: self.budget }
    }

    /// The state after the entry of `key`, if there is one, is taken out.
    pub open spec fn remove(self, key: Key) -> CacheState {
        CacheState {
            entries: without_key(self.entries, key),
            capacity: self.capacity,
            budget: self.budget,
        }
    }

    /// What a lookup of `key` at `now` returns, for entries younger than `ttl`.
    pub open spec fn lookup(self, key: Key, ttl: int, now: int) -> Lookup {
        if self.fresh(key, ttl, now) {
            match self.stored(key).value {
                Some(value) => Lookup::Found(value),
                None => Lookup::CorruptEntry,
            }
        } else {
            Lookup::Missing
        }
    }

    /// The state after that lookup: a fresh entry has moved to the front, an
    /// expired one is gone.
    pub open spec fn after_lookup(self, key: Key, ttl: int, now: int) -> CacheState {
        if !self.holds(key) {
            self
        } else if self.fresh(key, ttl, now) {
            CacheState {
                entries: to_front(self.entries, index_of(self.entries, key)),
                capacity: self.capacity,
                budget: self.budget,
            }
        } else {
            CacheState {
                entries: self.entries.remove(index_of(self.entries, key)),
                capacity: self.capacity,
                budget: self.budget,
            }
        }
    }
}

/// Taking an entry out lowers the total by its size.
pub proof fn lemma_total_size_remove(s: Seq<(Key, Stored)>, i: int)
    requires
        0 <= i < s.len(),
    ensures
        total_size(s.remove(i)) + s[i].1.size == total_size(s),
    decreases s.len(),
{
    if i == s.len() - 1 {
        assert(s.remove(i) =~= s.drop_last());
    } else {
        lemma_total_size_remove(s.drop_last(), i);
        assert(s.remove(i).drop_last() =~= s.drop_last().remove(i));
        assert(s.remove(i).last() == s.last());
    }
}

/// Putting an entry in front raises the total by its size.
pub proof fn lemma_total_size_push_front(s: Seq<(Key, Stored)>, item: (Key, Stored))
    ensures
        total_size(seq![item] + s) == total_size(s) + item.1.size,
    decreases s.len(),
{
    let r = seq![item] + s;
    if s.len() == 0 {
        assert(r.drop_last() =~= Seq::<(Key, Stored)>::empty());
        assert(total_size(r.drop_last()) == 0);
    } else {
        lemma_total_size_push_front(s.drop_last(), item);
        assert(r.drop_last() =~= seq![item] + s.drop_last());
        assert(r.last() == s.last());
    }
}

/// What `trim_to` leaves is a front part of `s` that fits, or nothing.
pub proof fn lemma_trim_to(s: Seq<(Key, Stored)>, room: int)
    ensures
        trim_to(s, room).len() <= s.len(),
        trim_to(s, room) == s.take(trim_to(s, room).len() as int),
        trim_to(s, room).len() == 0 || total_size(trim_to(s, room)) <= room,
        room < 0 ==> trim_to(s, room).len() == 0,
        total_size(s) <= room ==> trim_to(s, room) == s,
        total_size(trim_to(s, room)) <= total_size(s),
    decreases s.len(),
{
    if s.len() == 0 || total_size(s) <= room {
        assert(s.take(s.len() as int) =~= s);
    } else {
        lemma_trim_to(s.drop_last(), room);
        let t = trim_to(s.drop_last(), room);
        assert(s.drop_last().take(t.len() as int) =~= s.take(t.len() as int));
    }
}

/// A front part of a sequence with distinct keys has distinct keys, all of them keys of the whole.
pub proof fn lemma_take_keeps_distinct(s: Seq<(Key, Stored)>, n: int)
    requires
        distinct_keys(s),
        0 <= n <= s.len(),
    ensures
        distinct_keys(s.take(n)),
        forall|key: Key| has_key(s.take(n), key) ==> has_key(s, key),
{
    let t = s.take(n);
    assert forall|i: int, j: int| 0 <= i < j < t.len() implies (#[trigger] t[i]).0 != (#[trigger] t[j]).0 by {
        assert(t[i] == s[i] && t[j] == s[j]);
    }
    assert forall|key: Key| has_key(t, key) implies has_key(s, key) by {
        let i = index_of(t, key);
        assert(t[i] == s[i]);
        assert(key_at(s, key, i));
    }
}

/// `without_key` leaves distinct keys, none of them `key`, and no more entries or bytes.
pub proof fn lemma_without_key(s: Seq<(Key, Stored)>, key: Key)
    requires
        distinct_keys(s),
    ensures
        distinct_keys(without_key(s, key)),
        !has_key(without_key(s, key), key),
        without_key(s, key).len() <= s.len(),
        total_size(without_key(s, key)) <= total_size(s),
        forall|other: Key| other != key ==> (has_key(without_key(s, key), other) <==> has_key(s, other)),
{
    if has_key(s, key) {
        let i = index_of(s, key);
        lemma_remove_keeps_distinct(s, i);
        lemma_total_size_remove(s, i);
    }
}

/// `put_front` keeps a well-formed sequence within its capacity, with the new entry in front.
pub proof fn lemma_put_front(s: Seq<(Key, Stored)>, capacity: nat, item: (Key, Stored))
    requires
        distinct_keys(s),
        !has_key(s, item.0),
        s.len() <= capacity,
        capacity > 0,
    ensures
        distinct_keys(put_front(s, capacity, item)),
        put_front(s, capacity, item).len() <= capacity,
        key_at(put_front(s, capacity, item), item.0, 0),
        total_size(put_front(s, capacity, item)) <= total_size(s) + item.1.size,
{
    if s.len() == capacity {
        lemma_drop_last_keeps_distinct(s);
        lemma_push_front_keeps_distinct(s.drop_last(), item);
        lemma_total_size_push_front(s.drop_last(), item);
    } else {
        lemma_push_front_keeps_distinct(s, item);
        lemma_total_size_push_front(s, item);
    }
}

/// What an insert stores is first: where the payload fits the budget, the
/// new entry is the most recently used one, under its key alone.
pub proof fn lemma_inserted_is_first(s: CacheState, key: Key, value: Option<Seq<u8>>, size: nat, now: int)
    requires
        s.wf(),
        s.budget matches Some(b) ==> size <= b,
    ensures
        s.insert(key, value, size, now).wf(),
        key_at(s.insert(key, value, size, now).entries, key, 0),
        s.insert(key, value, size, now).entries[0].1 == (Stored { value, size, inserted_at: now }),
        s.insert(key, value, size, now).holds(key),
        index_of(s.insert(key, value, size, now).entries, key) == 0,
        s.insert(key, value, size, now).stored(key) == (Stored { value, size, inserted_at: now }),
{
    let rest = without_key(s.entries, key);
    let item = (key, Stored { value, size, inserted_at: now });
    lemma_without_key(s.entries, key);
    match s.budget {
        None => {
            lemma_put_front(rest, s.capacity, item);
        },
        Some(b) => {
            let kept = trim_to(rest, b - size);
            lemma_trim_to(rest, b - size);
            lemma_take_keeps_distinct(rest, kept.len() as int);
            lemma_put_front(kept, s.capacity, item);
            if kept.len() == 0 {
                assert(total_size(kept) == 0);
            }
        },
    }
    lemma_index_of_unique(s.insert(key, value, size, now).entries, key, 0);
}

/// Every insert leaves the cache well formed: within its capacity and, where
/// it is bound by memory, within its budget.
pub proof fn lemma_insert_keeps_bounds(s: CacheState, key: Key, value: Option<Seq<u8>>, size: nat, now: int)
    requires
        s.wf(),
    ensures
        s.insert(key, value, size, now).wf(),
        s.insert(key, value, size, now).capacity == s.capacity,
        s.insert(key, value, size, now).budget == s.budget,
        s.budget matches Some(b) ==> total_size(s.insert(key, value, size, now).entries) <= b,
{
    if s.budget matches Some(b) && size > b {
        assert(total_size(Seq::<(Key, Stored)>::empty()) == 0);
    } else {
        lemma_inserted_is_first(s, key, value, size, now);
    }
}

/// Taking an entry out leaves the cache well formed, and without the key.
pub proof fn lemma_remove_keeps_bounds(s: CacheState, key: Key)
    requires
        s.wf(),
    ensures
        s.remove(key).wf(),
        !s.remove(key).holds(key),
{
    lemma_without_key(s.entries, key);
}

/// Every lookup leaves the cache well formed.
pub proof fn lemma_lookup_keeps_bounds(s: CacheState, key: Key, ttl: int, now: int)
    requires
        s.wf(),
    ensures
        s.after_lookup(key, ttl, now).wf(),
{
    if s.holds(key) {
        let i = index_of(s.entries, key);
        lemma_remove_keeps_distinct(s.entries, i);
        lemma_total_size_remove(s.entries, i);
        if s.fresh(key, ttl, now) {
            lemma_to_front_keeps_distinct(s.entries, i);
            lemma_total_size_push_front(s.entries.remove(i), s.entries[i]);
        }
    }
}

impl CacheState {
    /// The state after inserting `items` one after another, the first first.
    pub open spec fn insert_all(self, items: Seq<(Key, Stored)>) -> CacheState
        decreases items.len(),
    {
        if items.len() == 0 {
            self
        } else {
            let last = items.last();
            self.insert_all(items.drop_last()).insert(
                last.0,
                last.1.value,
                last.1.size,
                last.1.inserted_at,
            )
        }
    }
}

/// Freshness: a value that was inserted is returned unchanged by a lookup of its
/// key made while its age is below the ttl. In a cache bound by memory this is
/// said of payloads that fit the budget; larger ones are never stored.
pub proof fn lemma_fresh_lookup_returns_inserted(
    s: CacheState,
    key: Key,
    value: Seq<u8>,
    size: nat,
    inserted: int,
    ttl: int,
    now: int,
)
    requires
        s.wf(),
        now - inserted < ttl,
        s.budget matches Some(b) ==> size <= b,
    ensures
        s.insert(key, Some(value), size, inserted).lookup(key, ttl, now) == Lookup::Found(value),
        s.insert(key, Some(value), size, inserted).after_lookup(key, ttl, now).holds(key),
{
    let after = s.insert(key, Some(value), size, inserted);
    lemma_inserted_is_first(s, key, Some(value), size, inserted);
    lemma_to_front_keeps_distinct(after.entries, 0);
}

/// Expiry: a lookup made when the age of an entry has reached the ttl returns
/// `Missing` and removes the entry, so that every later lookup of the key, with
/// whatever ttl, returns `Missing` too.
pub proof fn lemma_expired_lookup_purges(
    s: CacheState,
    key: Key,
    ttl: int,
    now: int,
    later_ttl: int,
    later: int,
)
    requires
        s.wf(),
        s.holds(key),
        now - s.stored(key).inserted_at >= ttl,
    ensures
        s.lookup(key, ttl, now) == Lookup::Missing,
        !s.after_lookup(key, ttl, now).holds(key),
        s.after_lookup(key, ttl, now).lookup(key, later_ttl, later) == Lookup::Missing,
{
    lemma_remove_keeps_distinct(s.entries, index_of(s.entries, key));
}

/// Expiry after an insert: once the ttl has elapsed since a value was inserted,
/// a lookup of its key returns `Missing`, and so does the one after it.
pub proof fn lemma_expired_lookup_after_insert(
    s: CacheState,
    key: Key,
    value: Seq<u8>,
    size: nat,
    inserted: int,
    ttl: int,
    now: int,
    later_ttl: int,
    later: int,
)
    requires
        s.wf(),
        now - inserted >= ttl,
    ensures
        s.insert(key, Some(value), size, inserted).lookup(key, ttl, now) == Lookup::Missing,
        s.insert(key, Some(value), size, inserted).after_lookup(key, ttl, now).lookup(
            key,
            later_ttl,
            later,
        ) == Lookup::Missing,
{
    let after = s.insert(key, Some(value), size, inserted);
    lemma_insert_keeps_bounds(s, key, Some(value), size, inserted);
    if after.holds(key) {
        if s.budget matches Some(b) && size > b {
            assert(!key_at(after.entries, key, index_of(after.entries, key)));
        }
        lemma_inserted_is_first(s, key, Some(value), size, inserted);
        lemma_expired_lookup_purges(after, key, ttl, now, later_ttl, later);
    }
}

/// Eviction: inserting a new key into a full cache that is bound by the number
/// of its entries evicts the least recently used entry and no other, so that
/// the number of entries stays at the capacity.
pub proof fn lemma_overflow_evicts_least_recent(
    s: CacheState,
    key: Key,
    value: Option<Seq<u8>>,
    size: nat,
    now: int,
)
    requires
        s.wf(),
        s.budget is None,
        s.entries.len() == s.capacity,
        !s.holds(key),
    ensures
        s.insert(key, value, size, now).entries == seq![
            (key, Stored { value, size, inserted_at: now }),
        ] + s.entries.drop_last(),
        s.insert(key, value, size, now).entries.len() == s.capacity,
        !s.insert(key, value, size, now).holds(s.entries.last().0),
        forall|other: Key|
            other != s.entries.last().0 && s.holds(other) ==> s.insert(key, value, size, now).holds(
                other,
            ),
{
    let item = (key, Stored { value, size, inserted_at: now });
    lemma_drop_last_keeps_distinct(s.entries);
    assert(!has_key(s.entries.drop_last(), key)) by {
        if has_key(s.entries.drop_last(), key) {
            let i = index_of(s.entries.drop_last(), key);
            assert(key_at(s.entries, key, i));
        }
    }
    lemma_push_front_keeps_distinct(s.entries.drop_last(), item);
    assert(key_at(s.entries, s.entries.last().0, s.entries.len() - 1));
}

/// Eviction spares what was touched: in a cache of two or more entries that is
/// bound by their number, an entry that a lookup has just found fresh is still
/// there after the insert of a new key that follows.
pub proof fn lemma_touched_entry_survives_overflow(
    s: CacheState,
    touched: Key,
    ttl: int,
    touched_at: int,
    key: Key,
    value: Option<Seq<u8>>,
    size: nat,
    now: int,
)
    requires
        s.wf(),
        s.budget is None,
        s.capacity >= 2,
        s.fresh(touched, ttl, touched_at),
        !s.holds(key),
    ensures
        s.after_lookup(touched, ttl, touched_at).insert(key, value, size, now).holds(touched),
        s.entries.len() == s.capacity && s.entries.last().0 != touched ==> !s.after_lookup(
            touched,
            ttl,
            touched_at,
        ).insert(key, value, size, now).holds(s.entries.last().0),
{
    let i = index_of(s.entries, touched);
    let mid = s.after_lookup(touched, ttl, touched_at);
    let item = (key, Stored { value, size, inserted_at: now });
    lemma_to_front_keeps_distinct(s.entries, i);
    assert(!has_key(mid.entries, key));
    let end = mid.insert(key, value, size, now);
    if mid.entries.len() == mid.capacity {
        assert(end.entries == seq![item] + mid.entries.drop_last());
        assert(end.entries[1] == mid.entries[0]);
        assert(key_at(end.entries, touched, 1));
        if s.entries.last().0 != touched {
            assert(i < s.entries.len() - 1);
            assert(mid.entries.last() == s.entries.last());
            lemma_overflow_evicts_least_recent(mid, key, value, size, now);
        }
    } else {
        assert(end.entries == seq![item] + mid.entries);
        assert(end.entries[1] == mid.entries[0]);
        assert(key_at(end.entries, touched, 1));
    }
}

/// Filling: after inserting items with distinct keys into an empty cache that
/// is bound by the number of its entries, the cache holds the last `capacity`
/// of them, the latest first. After `capacity + 1` inserts exactly `capacity`
/// entries remain, and the one that is gone is the first that was inserted.
pub proof fn lemma_fill_keeps_latest(capacity: nat, items: Seq<(Key, Stored)>)
    requires
        capacity > 0,
        distinct_keys(items),
    ensures
        CacheState::empty(capacity, None).insert_all(items).wf(),
        CacheState::empty(capacity, None).insert_all(items).capacity == capacity,
        CacheState::empty(capacity, None).insert_all(items).budget == None::<nat>,
        CacheState::empty(capacity, None).insert_all(items).entries.len() == if items.len()
            <= capacity {
            items.len()
        } else {
            capacity
        },
        forall|j: int|
            0 <= j < CacheState::empty(capacity, None).insert_all(items).entries.len()
                ==> #[trigger] CacheState::empty(capacity, None).insert_all(items).entries[j]
                == items[items.len() - 1 - j],
        items.len() == capacity + 1 ==> !CacheState::empty(capacity, None).insert_all(items).holds(
            items[0].0,
        ),
    decreases items.len(),
{
    let start = CacheState::empty(capacity, None);
    let end = start.insert_all(items);
    if items.len() == 0 {
    } else {
        let last = items.last();
        let init = items.drop_last();
        assert(distinct_keys(init)) by {
            assert forall|i: int, j: int| 0 <= i < j < init.len() implies (#[trigger] init[i]).0 != (#[trigger] init[j]).0 by {
                assert(init[i] == items[i] && init[j] == items[j]);
            }
        }
        lemma_fill_keeps_latest(capacity, init);
        let prev = start.insert_all(init);
        assert(!has_key(prev.entries, last.0)) by {
            if has_key(prev.entries, last.0) {
                let j = index_of(prev.entries, last.0);
                assert(prev.entries[j] == init[init.len() - 1 - j]);
                assert(items[init.len() - 1 - j].0 != items[items.len() - 1].0);
            }
        }
        lemma_insert_keeps_bounds(prev, last.0, last.1.value, last.1.size, last.1.inserted_at);
        let item = (last.0, Stored { value: last.1.value, size: last.1.size, inserted_at: last.1.inserted_at });
        assert(item == last);
        assert(end.entries == put_front(prev.entries, capacity, item));
        assert forall|j: int| 0 <= j < end.entries.len() implies #[trigger] end.entries[j] == items[items.len() - 1 - j] by {
            if j > 0 {
                assert(end.entries[j] == prev.entries[j - 1]);
            }
        }
        if items.len() == capacity + 1 {
            assert(!has_key(end.entries, items[0].0)) by {
                if has_key(end.entries, items[0].0) {
                    let j = index_of(end.entries, items[0].0);
                    assert(end.entries[j] == items[items.len() - 1 - j]);
                    assert(items[0].0 != items[items.len() - 1 - j].0);
                }
            }
        }
    }
}

} // verus!

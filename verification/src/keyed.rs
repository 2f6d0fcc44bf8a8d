//! Sequences of keyed items in which no key occurs twice: the vocabulary in
//! which the recency list and its model are described.

use vstd::prelude::*;

verus! {

/// The key of an item: the text of a cache key.
pub type Key = Seq<char>;

/// `s` holds `key` at index `i`.
pub open spec fn key_at<V>(s: Seq<(Key, V)>, key: Key, i: int) -> bool {
    0 <= i < s.len() && s[i].0 == key
}

/// Some item of `s` has the key `key`.
pub open spec fn has_key<V>(s: Seq<(Key, V)>, key: Key) -> bool {
    exists|i: int| key_at(s, key, i)
}

/// An index at which `s` holds `key`; the only one where the keys are distinct.
pub open spec fn index_of<V>(s: Seq<(Key, V)>, key: Key) -> int {
    choose|i: int| key_at(s, key, i)
}

/// No key occurs twice in `s`.
pub open spec fn distinct_keys<V>(s: Seq<(Key, V)>) -> bool {
    forall|i: int, j: int| 0 <= i < j < s.len() ==> (#[trigger] s[i]).0 != (#[trigger] s[j]).0
}

/// `s` with the item at `i` moved to the front.
pub open spec fn to_front<V>(s: Seq<(Key, V)>, i: int) -> Seq<(Key, V)> {
    seq![s[i]] + s.remove(i)
}

/// `s` without the item of `key`, if it holds one.
pub open spec fn without_key<V>(s: Seq<(Key, V)>, key: Key) -> Seq<(Key, V)> {
    if has_key(s, key) {
        s.remove(index_of(s, key))
    } else {
        s
    }
}

/// Where the keys are distinct, the index of a key is the index at which it is seen.
pub proof fn lemma_index_of_unique<V>(s: Seq<(Key, V)>, key: Key, i: int)
    requires
        distinct_keys(s),
        key_at(s, key, i),
    ensures
        has_key(s, key),
        index_of(s, key) == i,
{
    let j = index_of(s, key);
    assert(key_at(s, key, j));
    if j < i {
        assert(s[j].0 != s[i].0);
    } else if i < j {
        assert(s[i].0 != s[j].0);
    }
}

/// Removing an item keeps the keys distinct, and removes no other key.
pub proof fn lemma_remove_keeps_distinct<V>(s: Seq<(Key, V)>, i: int)
    requires
        distinct_keys(s),
        0 <= i < s.len(),
    ensures
        distinct_keys(s.remove(i)),
        !has_key(s.remove(i), s[i].0),
        forall|key: Key| key != s[i].0 ==> (has_key(s.remove(i), key) <==> has_key(s, key)),
{
    let r = s.remove(i);
    assert forall|a: int, b: int| 0 <= a < b < r.len() implies (#[trigger] r[a]).0 != (#[trigger] r[b]).0 by {
        let a0 = if a < i { a } else { a + 1 };
        let b0 = if b < i { b } else { b + 1 };
        assert(r[a] == s[a0] && r[b] == s[b0]);
        assert(s[a0].0 != s[b0].0);
    }
    assert forall|j: int| !key_at(r, s[i].0, j) by {
        if 0 <= j < r.len() {
            let j0 = if j < i { j } else { j + 1 };
            assert(r[j] == s[j0]);
            if j0 < i {
                assert(s[j0].0 != s[i].0);
            } else {
                assert(s[i].0 != s[j0].0);
            }
        }
    }
    assert forall|key: Key| key != s[i].0 implies (has_key(r, key) <==> has_key(s, key)) by {
        if has_key(r, key) {
            let j = index_of(r, key);
            let j0 = if j < i { j } else { j + 1 };
            assert(r[j] == s[j0]);
            assert(key_at(s, key, j0));
        }
        if has_key(s, key) {
            let j0 = index_of(s, key);
            let j = if j0 < i { j0 } else { j0 - 1 };
            assert(r[j] == s[j0]);
            assert(key_at(r, key, j));
        }
    }
}

/// Dropping the last item keeps the keys distinct and drops only its key.
pub proof fn lemma_drop_last_keeps_distinct<V>(s: Seq<(Key, V)>)
    requires
        distinct_keys(s),
        s.len() > 0,
    ensures
        distinct_keys(s.drop_last()),
        !has_key(s.drop_last(), s.last().0),
        forall|key: Key| key != s.last().0 ==> (has_key(s.drop_last(), key) <==> has_key(s, key)),
{
    assert(s.drop_last() =~= s.remove(s.len() - 1));
    lemma_remove_keeps_distinct(s, s.len() - 1);
}

/// Putting an item with a new key in front keeps the keys distinct.
pub proof fn lemma_push_front_keeps_distinct<V>(s: Seq<(Key, V)>, item: (Key, V))
    requires
        distinct_keys(s),
        !has_key(s, item.0),
    ensures
        distinct_keys(seq![item] + s),
        key_at(seq![item] + s, item.0, 0),
        forall|key: Key| has_key(seq![item] + s, key) <==> (key == item.0 || has_key(s, key)),
{
    let r = seq![item] + s;
    assert forall|a: int, b: int| 0 <= a < b < r.len() implies (#[trigger] r[a]).0 != (#[trigger] r[b]).0 by {
        assert(r[b] == s[b - 1]);
        if a == 0 {
            assert(!key_at(s, item.0, b - 1));
        } else {
            assert(r[a] == s[a - 1]);
            assert(s[a - 1].0 != s[b - 1].0);
        }
    }
    assert forall|key: Key| has_key(r, key) <==> (key == item.0 || has_key(s, key)) by {
        if has_key(r, key) {
            let j = index_of(r, key);
            if j > 0 {
                assert(r[j] == s[j - 1]);
                assert(key_at(s, key, j - 1));
            }
        }
        if key == item.0 {
            assert(key_at(r, key, 0));
        }
        if has_key(s, key) {
            let j = index_of(s, key);
            assert(r[j + 1] == s[j]);
            assert(key_at(r, key, j + 1));
        }
    }
}

/// Moving an item to the front keeps the keys, and keeps them distinct.
pub proof fn lemma_to_front_keeps_distinct<V>(s: Seq<(Key, V)>, i: int)
    requires
        distinct_keys(s),
        0 <= i < s.len(),
    ensures
        distinct_keys(to_front(s, i)),
        to_front(s, i).len() == s.len(),
        key_at(to_front(s, i), s[i].0, 0),
        forall|key: Key| has_key(to_front(s, i), key) <==> has_key(s, key),
{
    lemma_remove_keeps_distinct(s, i);
    lemma_push_front_keeps_distinct(s.remove(i), s[i]);
    assert(key_at(s, s[i].0, i));
}

} // verus!

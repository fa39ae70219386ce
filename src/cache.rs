//! The bounded, least-recently-used store of pending requests, kept in an
//! `lru_time_cache::LruCache`, and its model as a sequence of entries.
use lru_time_cache::LruCache;
use std::collections::BTreeMap;
use vstd::prelude::*;

verus! {

/// One pending request: its identifier and the claims of its senders.
pub type Entry = (u64, Map<u64, u64>);

/// The cache of pending requests that the aggregator keeps.
pub type RequestCache = LruCache<u64, BTreeMap<u64, u64>>;

#[verifier::external_type_specification]
#[verifier::external_body]
#[verifier::reject_recursive_types(Key)]
#[verifier::reject_recursive_types(Value)]
pub struct ExLruCache<Key, Value>(LruCache<Key, Value>);

/// What the cache holds, least recently used first.
pub uninterp spec fn cached_entries(c: RequestCache) -> Seq<Entry>;

/// The capacity that the cache was made with.
pub uninterp spec fn cache_capacity(c: RequestCache) -> nat;

/// Whether some entry of `entries` is for `key`.
pub open spec fn has_key(entries: Seq<Entry>, key: u64) -> bool {
    exists|i: int| 0 <= i < entries.len() && #[trigger] entries[i].0 == key
}

/// The position of the entry for `key`, when there is one.
pub open spec fn key_index(entries: Seq<Entry>, key: u64) -> int {
    choose|i: int| 0 <= i < entries.len() && #[trigger] entries[i].0 == key
}

/// No two entries are for the same key.
pub open spec fn unique_keys(entries: Seq<Entry>) -> bool {
    forall|i: int, j: int|
        0 <= i < j < entries.len() ==> #[trigger] entries[i].0 != #[trigger] entries[j].0
}

/// What is left of `entries` when a new key needs a slot in a cache of
/// capacity `cap`: the least recently used entries go until one slot is free.
pub open spec fn make_room(entries: Seq<Entry>, cap: nat) -> Seq<Entry> {
    if entries.len() >= cap {
        entries.subrange(entries.len() - cap + 1, entries.len() as int)
    } else {
        entries
    }
}

/// With unique keys, the entry for a key is the one at its position.
pub proof fn lemma_key_index(entries: Seq<Entry>, key: u64, i: int)
    requires
        unique_keys(entries),
        0 <= i < entries.len(),
        entries[i].0 == key,
    ensures
        has_key(entries, key),
        key_index(entries, key) == i,
{
    let j = key_index(entries, key);
    assert(entries[j].0 == key);
    if j < i {
        assert(entries[j].0 != entries[i].0);
    } else if i < j {
        assert(entries[i].0 != entries[j].0);
    }
}

/// Making room keeps a suffix of the entries and leaves a free slot.
pub proof fn lemma_make_room(entries: Seq<Entry>, cap: nat)
    requires
        cap >= 1,
        entries.len() <= cap,
        unique_keys(entries),
    ensures
        make_room(entries, cap).len() < cap,
        unique_keys(make_room(entries, cap)),
        make_room(entries, cap) == entries.subrange(
            entries.len() - make_room(entries, cap).len(),
            entries.len() as int,
        ),
        forall|k: u64| has_key(make_room(entries, cap), k) ==> has_key(entries, k),
        make_room(make_room(entries, cap), cap) == make_room(entries, cap),
{
    let kept = make_room(entries, cap);
    let d = entries.len() - kept.len();
    assert(kept =~= entries.subrange(d, entries.len() as int));
    assert forall|k: u64| has_key(kept, k) implies has_key(entries, k) by {
        let i = choose|i: int| 0 <= i < kept.len() && #[trigger] kept[i].0 == k;
        assert(entries[i + d].0 == k);
    }
    assert forall|i: int, j: int| 0 <= i < j < kept.len() implies #[trigger] kept[i].0
        != #[trigger] kept[j].0 by {
        assert(entries[i + d].0 != entries[j + d].0);
    }
}

/// Removing an entry keeps the others unique, and drops only its key.
pub proof fn lemma_remove_entry(entries: Seq<Entry>, i: int)
    requires
        unique_keys(entries),
        0 <= i < entries.len(),
    ensures
        unique_keys(entries.remove(i)),
        !has_key(entries.remove(i), entries[i].0),
        forall|k: u64| has_key(entries.remove(i), k) ==> has_key(entries, k),
{
    let rest = entries.remove(i);
    assert forall|a: int, b: int| 0 <= a < b < rest.len() implies #[trigger] rest[a].0
        != #[trigger] rest[b].0 by {
        let a1 = if a < i { a } else { a + 1 };
        let b1 = if b < i { b } else { b + 1 };
        assert(entries[a1].0 != entries[b1].0);
    }
    assert forall|k: u64| has_key(rest, k) implies has_key(entries, k) by {
        let j = choose|j: int| 0 <= j < rest.len() && #[trigger] rest[j].0 == k;
        let j1 = if j < i { j } else { j + 1 };
        assert(entries[j1].0 == k);
    }
    if has_key(rest, entries[i].0) {
        let j = choose|j: int| 0 <= j < rest.len() && #[trigger] rest[j].0 == entries[i].0;
        let j1 = if j < i { j } else { j + 1 };
        assert(entries[j1].0 == entries[i].0);
    }
}

/// Adding an entry for a key that has none keeps the keys unique.
pub proof fn lemma_push_entry(entries: Seq<Entry>, e: Entry)
    requires
        unique_keys(entries),
        !has_key(entries, e.0),
    ensures
        unique_keys(entries.push(e)),
        has_key(entries.push(e), e.0),
        key_index(entries.push(e), e.0) == entries.len(),
        forall|k: u64| k != e.0 ==> has_key(entries.push(e), k) == has_key(entries, k),
{
    let all = entries.push(e);
    assert forall|a: int, b: int| 0 <= a < b < all.len() implies #[trigger] all[a].0
        != #[trigger] all[b].0 by {
        if b == entries.len() {
            assert(entries[a].0 != e.0);
        }
    }
    assert forall|k: u64| k != e.0 implies has_key(all, k) == has_key(entries, k) by {
        if has_key(all, k) {
            let j = choose|j: int| 0 <= j < all.len() && #[trigger] all[j].0 == k;
            assert(entries[j].0 == k);
        }
        if has_key(entries, k) {
            let j = choose|j: int| 0 <= j < entries.len() && #[trigger] entries[j].0 == k;
            assert(all[j].0 == k);
        }
    }
    lemma_key_index(all, e.0, entries.len() as int);
}

/// Relies on `LruCache::with_capacity`: an empty cache with that capacity.
#[verifier::external_body]
pub(crate) fn cache_with_capacity(capacity: usize) -> (c: RequestCache)
    ensures
        cached_entries(c) == Seq::<Entry>::empty(),
        cache_capacity(c) == capacity,
{
    LruCache::with_capacity(capacity)
}

/// Relies on `LruCache::insert`: an existing key is moved to the most
/// recently used end with its new value; a new key first evicts the least
/// recently used entries while the cache is full, then goes to that end.
/// With a capacity of zero the crate panics on a new key.
#[verifier::external_body]
pub(crate) fn cache_insert(c: &mut RequestCache, key: u64, value: BTreeMap<u64, u64>)
    requires
        cache_capacity(*old(c)) > 0,
    ensures
        cache_capacity(*final(c)) == cache_capacity(*old(c)),
        has_key(cached_entries(*old(c)), key) ==> cached_entries(*final(c)) == cached_entries(
            *old(c),
        ).remove(key_index(cached_entries(*old(c)), key)).push((key, value@)),
        !has_key(cached_entries(*old(c)), key) ==> cached_entries(*final(c)) == make_room(
            cached_entries(*old(c)),
            cache_capacity(*old(c)),
        ).push((key, value@)),
{
    let _ = c.insert(key, value);
}

/// Relies on `LruCache::remove`: the entry for the key leaves the cache and
/// its value is returned; without one, nothing changes.
#[verifier::external_body]
pub(crate) fn cache_remove(c: &mut RequestCache, key: u64) -> (r: Option<BTreeMap<u64, u64>>)
    ensures
        cache_capacity(*final(c)) == cache_capacity(*old(c)),
        r is Some <==> has_key(cached_entries(*old(c)), key),
        has_key(cached_entries(*old(c)), key) ==> {
            let i = key_index(cached_entries(*old(c)), key);
            &&& cached_entries(*final(c)) == cached_entries(*old(c)).remove(i)
            &&& r.unwrap()@ == cached_entries(*old(c))[i].1
        },
        !has_key(cached_entries(*old(c)), key) ==> cached_entries(*final(c)) == cached_entries(
            *old(c),
        ),
{
    c.remove(&key)
}

} // verus!

//! The aggregator: claims about requests from distinct senders, held in a
//! bounded cache until a request reaches its threshold.
use crate::cache::{
    cache_capacity, cache_insert, cache_remove, cache_with_capacity, cached_entries, has_key,
    key_index, lemma_key_index, lemma_make_room, lemma_push_entry, lemma_remove_entry, make_room,
    unique_keys, Entry, RequestCache,
};
use crate::median::{pick_median, resolved_claim};
use std::collections::BTreeMap;
use vstd::prelude::*;

verus! {

/// How many requests an aggregator made by `new` keeps pending at most.
pub const MAX_REQUEST_COUNT: usize = 1000;

/// The claims of `request` in `entries`; none when it has no entry.
pub open spec fn pending_of(entries: Seq<Entry>, request: u64) -> Map<u64, u64> {
    if has_key(entries, request) {
        entries[key_index(entries, request)].1
    } else {
        Map::empty()
    }
}

/// The entries other than that of `request` once `request` has its slot:
/// its old entry leaves its place, or, for a new request, the least recently
/// used entries make room for it.
pub open spec fn others_after(entries: Seq<Entry>, capacity: nat, request: u64) -> Seq<Entry> {
    if has_key(entries, request) {
        entries.remove(key_index(entries, request))
    } else {
        make_room(entries, capacity)
    }
}

/// One submission: the entries after it, and what it returns. The sender's
/// claim is stored over any earlier one of the same sender; once the request
/// has claims from at least `threshold` senders it resolves and its entry
/// goes, else it stays as the most recently used entry.
pub open spec fn step(
    entries: Seq<Entry>,
    capacity: nat,
    threshold: nat,
    request: u64,
    sender: u64,
    claim: u64,
) -> (Seq<Entry>, Option<u64>) {
    let pending = pending_of(entries, request).insert(sender, claim);
    let others = others_after(entries, capacity, request);
    if pending.len() < threshold {
        (others.push((request, pending)), None)
    } else {
        (others, Some(resolved_claim(pending)))
    }
}

/// The entries of a well-formed cache of the given capacity: one per
/// request, each with finitely many claims, and no more than the capacity.
pub open spec fn valid_entries(entries: Seq<Entry>, capacity: nat) -> bool {
    &&& capacity >= 1
    &&& entries.len() <= capacity
    &&& unique_keys(entries)
    &&& forall|i: int| 0 <= i < entries.len() ==> (#[trigger] entries[i]).1.dom().finite()
}

/// Collects claims about requests and resolves each request to the lower
/// median of its claims once enough distinct senders have made one.
pub struct AccountSentinel {
    requests: RequestCache,
}

impl AccountSentinel {
    /// The pending requests, least recently used first.
    pub closed spec fn entries(&self) -> Seq<Entry> {
        cached_entries(self.requests)
    }

    /// How many requests are kept pending at most.
    pub closed spec fn capacity(&self) -> nat {
        cache_capacity(self.requests)
    }

    /// The aggregator's cache is well formed.
    pub open spec fn wf(&self) -> bool {
        valid_entries(self.entries(), self.capacity())
    }

    /// An aggregator that keeps at most `MAX_REQUEST_COUNT` requests pending.
    pub fn new() -> (r: AccountSentinel)
        ensures
            r.wf(),
            r.entries() == Seq::<Entry>::empty(),
            r.capacity() == MAX_REQUEST_COUNT,
    {
        AccountSentinel::with_capacity(MAX_REQUEST_COUNT)
    }

    /// An aggregator that keeps at most `capacity` requests pending.
    pub fn with_capacity(capacity: usize) -> (r: AccountSentinel)
        requires
            capacity >= 1,
        ensures
            r.wf(),
            r.entries() == Seq::<Entry>::empty(),
            r.capacity() == capacity,
    {
        AccountSentinel { requests: cache_with_capacity(capacity) }
    }

    /// Records `claim` from `sender` about `request`, and resolves the
    /// request when claims from at least `threshold` senders are held.
    pub fn add_claim(&mut self, threshold: usize, request: u64, sender: u64, claim: u64) -> (r:
        Option<u64>)
        requires
            old(self).wf(),
        ensures
            final(self).wf(),
            final(self).capacity() == old(self).capacity(),
            (final(self).entries(), r) == step(
                old(self).entries(),
                old(self).capacity(),
                threshold as nat,
                request,
                sender,
                claim,
            ),
    {
        broadcast use vstd::std_specs::btree::group_btree_axioms;

        let ghost e0 = self.entries();
        let ghost cap = self.capacity();
        proof {
            if has_key(e0, request) {
                lemma_remove_entry(e0, key_index(e0, request));
                lemma_key_index(e0, request, key_index(e0, request));
            } else {
                lemma_make_room(e0, cap);
            }
        }
        let mut pending = match cache_remove(&mut self.requests, request) {
            Some(p) => p,
            None => {
                proof {
                    lemma_push_entry(make_room(e0, cap), (request, Map::empty()));
                    assert(make_room(e0, cap).push((request, Map::empty())).remove(
                        make_room(e0, cap).len() as int,
                    ) =~= make_room(e0, cap));
                }
                // A new request takes its slot first, and so evicts the least
                // recently used request when the cache is full, even when it
                // resolves at once.
                cache_insert(&mut self.requests, request, BTreeMap::new());
                let _ = cache_remove(&mut self.requests, request);
                BTreeMap::new()
            },
        };
        pending.insert(sender, claim);
        assert(self.entries() == others_after(e0, cap, request));
        assert(pending@ == pending_of(e0, request).insert(sender, claim));
        if pending.len() < threshold {
            proof {
                if has_key(e0, request) {
                    lemma_make_room(self.entries(), cap);
                }
            }
            cache_insert(&mut self.requests, request, pending);
            None
        } else {
            pick_median(&pending)
        }
    }
}

} // verus!

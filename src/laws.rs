//! What holds of every sequence of submissions, proved over the model that
//! `AccountSentinel::add_claim` follows step by step.
use crate::cache::{
    has_key, key_index, lemma_key_index, lemma_make_room, lemma_push_entry, lemma_remove_entry,
    make_room, Entry,
};
use crate::median::{
    claims_in, lemma_lower_median_single, lemma_resolved_claim_any_listing, lower_median,
};
use crate::sentinel::{others_after, pending_of, step, valid_entries};
use vstd::prelude::*;

verus! {

/// The senders of a sequence of submissions, in order.
pub open spec fn senders_of(subs: Seq<(u64, u64)>) -> Seq<u64> {
    subs.map_values(|p: (u64, u64)| p.0)
}

/// The claims of a sequence of submissions, in order.
pub open spec fn claims_of(subs: Seq<(u64, u64)>) -> Seq<u64> {
    subs.map_values(|p: (u64, u64)| p.1)
}

/// Each sender's latest claim in a sequence of submissions.
pub open spec fn claim_map(subs: Seq<(u64, u64)>) -> Map<u64, u64>
    decreases subs.len(),
{
    if subs.len() == 0 {
        Map::empty()
    } else {
        claim_map(subs.drop_last()).insert(subs.last().0, subs.last().1)
    }
}

/// The entries after submitting `subs` for `request`, one after another.
pub open spec fn replay(
    entries: Seq<Entry>,
    capacity: nat,
    threshold: nat,
    request: u64,
    subs: Seq<(u64, u64)>,
) -> Seq<Entry>
    decreases subs.len(),
{
    if subs.len() == 0 {
        entries
    } else {
        step(
            replay(entries, capacity, threshold, request, subs.drop_last()),
            capacity,
            threshold,
            request,
            subs.last().0,
            subs.last().1,
        ).0
    }
}

/// What the last of the submissions `subs` for `request` returns.
pub open spec fn last_outcome(
    entries: Seq<Entry>,
    capacity: nat,
    threshold: nat,
    request: u64,
    subs: Seq<(u64, u64)>,
) -> Option<u64> {
    step(
        replay(entries, capacity, threshold, request, subs.drop_last()),
        capacity,
        threshold,
        request,
        subs.last().0,
        subs.last().1,
    ).1
}

/// A submission keeps the cache well formed: one entry per request, and no
/// more entries than the capacity.
pub proof fn lemma_step_valid(
    entries: Seq<Entry>,
    capacity: nat,
    threshold: nat,
    request: u64,
    sender: u64,
    claim: u64,
)
    requires
        valid_entries(entries, capacity),
    ensures
        valid_entries(step(entries, capacity, threshold, request, sender, claim).0, capacity),
        step(entries, capacity, threshold, request, sender, claim).1 is None ==> has_key(
            step(entries, capacity, threshold, request, sender, claim).0,
            request,
        ) && pending_of(step(entries, capacity, threshold, request, sender, claim).0, request)
            == pending_of(entries, request).insert(sender, claim),
        step(entries, capacity, threshold, request, sender, claim).1 is Some ==> !has_key(
            step(entries, capacity, threshold, request, sender, claim).0,
            request,
        ),
        forall|k: u64|
            k != request && has_key(step(entries, capacity, threshold, request, sender, claim).0, k)
                ==> has_key(entries, k) && pending_of(
                step(entries, capacity, threshold, request, sender, claim).0,
                k,
            ) == pending_of(entries, k),
{
    let others = others_after(entries, capacity, request);
    let pending = pending_of(entries, request).insert(sender, claim);
    if has_key(entries, request) {
        let i = key_index(entries, request);
        lemma_key_index(entries, request, i);
        lemma_remove_entry(entries, i);
    } else {
        lemma_make_room(entries, capacity);
    }
    assert(!has_key(others, request));
    assert(others.len() < capacity);
    assert forall|i: int| 0 <= i < others.len() implies #[trigger] others[i].1.dom().finite() by {
        if has_key(entries, request) {
            let j = key_index(entries, request);
            if i >= j {
                assert(others[i] == entries[i + 1]);
            }
        } else {
            let d = entries.len() - others.len();
            assert(others[i] == entries[i + d]);
        }
    }
    assert forall|k: u64| k != request && has_key(others, k) implies pending_of(others, k)
        == pending_of(entries, k) by {
        let i = key_index(others, k);
        let j = if has_key(entries, request) {
            if i < key_index(entries, request) {
                i
            } else {
                i + 1
            }
        } else {
            i + entries.len() - others.len()
        };
        assert(others[i] == entries[j]);
        lemma_key_index(entries, k, j);
    }
    if pending.len() < threshold {
        lemma_push_entry(others, (request, pending));
        let all = others.push((request, pending));
        assert forall|i: int| 0 <= i < all.len() implies #[trigger] all[i].1.dom().finite() by {
            if i < others.len() {
                assert(all[i] == others[i]);
            }
        }
        assert forall|k: u64| k != request && has_key(all, k) implies pending_of(all, k)
            == pending_of(others, k) by {
            let i = key_index(others, k);
            lemma_key_index(all, k, i);
        }
    }
}

/// With distinct senders, the claim map holds each sender's claim.
proof fn lemma_claim_map(subs: Seq<(u64, u64)>)
    requires
        senders_of(subs).no_duplicates(),
    ensures
        claim_map(subs).dom() == senders_of(subs).to_set(),
        forall|i: int| 0 <= i < subs.len() ==> claim_map(subs)[#[trigger] subs[i].0] == subs[i].1,
        claim_map(subs).len() == subs.len(),
    decreases subs.len(),
{
    senders_of(subs).unique_seq_to_set();
    if subs.len() > 0 {
        let prefix = subs.drop_last();
        assert(senders_of(prefix) =~= senders_of(subs).drop_last());
        lemma_claim_map(prefix);
        assert(senders_of(subs) =~= senders_of(prefix).push(subs.last().0));
        senders_of(prefix).lemma_push_to_set_commute(subs.last().0);
        assert(claim_map(subs).dom() =~= senders_of(subs).to_set());
        assert forall|i: int| 0 <= i < subs.len() implies claim_map(subs)[#[trigger] subs[i].0]
            == subs[i].1 by {
            if i < subs.len() - 1 {
                assert(senders_of(subs)[i] != senders_of(subs)[subs.len() - 1]);
                assert(prefix[i] == subs[i]);
            }
        }
    } else {
        assert(claim_map(subs).dom() =~= senders_of(subs).to_set());
    }
}

/// Fewer claims than the threshold, from distinct senders, about a request
/// that had no entry, leave it pending with exactly those claims.
proof fn lemma_accumulate(
    entries: Seq<Entry>,
    capacity: nat,
    threshold: nat,
    request: u64,
    subs: Seq<(u64, u64)>,
)
    requires
        valid_entries(entries, capacity),
        !has_key(entries, request),
        senders_of(subs).no_duplicates(),
        subs.len() < threshold,
    ensures
        valid_entries(replay(entries, capacity, threshold, request, subs), capacity),
        pending_of(replay(entries, capacity, threshold, request, subs), request) == claim_map(
            subs,
        ),
    decreases subs.len(),
{
    if subs.len() > 0 {
        let prefix = subs.drop_last();
        assert(senders_of(prefix) =~= senders_of(subs).drop_last());
        lemma_accumulate(entries, capacity, threshold, request, prefix);
        let before = replay(entries, capacity, threshold, request, prefix);
        lemma_claim_map(subs);
        lemma_step_valid(before, capacity, threshold, request, subs.last().0, subs.last().1);
    } else {
        assert(pending_of(entries, request) =~= claim_map(subs));
    }
}

/// For a request with no entry and a threshold `t`: claims from fewer than
/// `t` distinct senders resolve nothing, and the claim of the `t`-th
/// distinct sender resolves the request to the lower median of all `t`
/// claims, whatever other requests the cache holds.
pub proof fn lemma_quorum_resolves_to_median(
    entries: Seq<Entry>,
    capacity: nat,
    threshold: nat,
    request: u64,
    subs: Seq<(u64, u64)>,
)
    requires
        valid_entries(entries, capacity),
        !has_key(entries, request),
        senders_of(subs).no_duplicates(),
        1 <= subs.len() <= threshold,
    ensures
        subs.len() < threshold ==> last_outcome(entries, capacity, threshold, request, subs)
            is None,
        subs.len() == threshold ==> last_outcome(entries, capacity, threshold, request, subs)
            == Some(lower_median(claims_of(subs))),
{
    let prefix = subs.drop_last();
    assert(senders_of(prefix) =~= senders_of(subs).drop_last());
    lemma_accumulate(entries, capacity, threshold, request, prefix);
    lemma_claim_map(subs);
    let m = claim_map(subs);
    senders_of(subs).unique_seq_to_set();
    lemma_resolved_claim_any_listing(m, senders_of(subs));
    assert(claims_in(m, senders_of(subs)) =~= claims_of(subs));
}

/// With a threshold of zero, the first claim about a request resolves it at
/// once, to that claim.
pub proof fn lemma_zero_threshold_resolves_at_once(
    entries: Seq<Entry>,
    capacity: nat,
    request: u64,
    sender: u64,
    claim: u64,
)
    requires
        valid_entries(entries, capacity),
        !has_key(entries, request),
    ensures
        step(entries, capacity, 0, request, sender, claim).1 == Some(claim),
        !has_key(step(entries, capacity, 0, request, sender, claim).0, request),
{
    let pending = pending_of(entries, request).insert(sender, claim);
    assert(pending_of(entries, request) == Map::<u64, u64>::empty());
    let senders = seq![sender];
    assert(senders.to_set() =~= pending.dom()) by {
        assert(senders[0] == sender);
        assert(senders.contains(sender));
    }
    lemma_resolved_claim_any_listing(pending, senders);
    assert(claims_in(pending, senders) =~= seq![claim]);
    lemma_lower_median_single(claim);
    lemma_step_valid(entries, capacity, 0, request, sender, claim);
}

/// A resolved request leaves no state behind: claims about it afterwards
/// need the full threshold of distinct senders again before it resolves.
pub proof fn lemma_resolution_restarts(
    entries: Seq<Entry>,
    capacity: nat,
    threshold: nat,
    request: u64,
    sender: u64,
    claim: u64,
    later: Seq<(u64, u64)>,
)
    requires
        valid_entries(entries, capacity),
        step(entries, capacity, threshold, request, sender, claim).1 is Some,
        senders_of(later).no_duplicates(),
        1 <= later.len() <= threshold,
    ensures
        ({
            let after = step(entries, capacity, threshold, request, sender, claim).0;
            &&& !has_key(after, request)
            &&& pending_of(after, request) == Map::<u64, u64>::empty()
            &&& later.len() < threshold ==> last_outcome(
                after,
                capacity,
                threshold,
                request,
                later,
            ) is None
            &&& later.len() == threshold ==> last_outcome(
                after,
                capacity,
                threshold,
                request,
                later,
            ) == Some(lower_median(claims_of(later)))
        }),
{
    lemma_step_valid(entries, capacity, threshold, request, sender, claim);
    let after = step(entries, capacity, threshold, request, sender, claim).0;
    lemma_quorum_resolves_to_median(after, capacity, threshold, request, later);
}

/// Requests do not share claims: a claim about `b` leaves the claims held
/// about any other request `a` as they were (unless `a` is evicted), and
/// what it returns depends on the claims about `b` alone.
pub proof fn lemma_requests_independent(
    entries: Seq<Entry>,
    other_entries: Seq<Entry>,
    capacity: nat,
    threshold: nat,
    a: u64,
    b: u64,
    sender: u64,
    claim: u64,
)
    requires
        valid_entries(entries, capacity),
        a != b,
        pending_of(entries, b) == pending_of(other_entries, b),
    ensures
        ({
            let after = step(entries, capacity, threshold, b, sender, claim).0;
            has_key(after, a) ==> has_key(entries, a) && pending_of(after, a) == pending_of(
                entries,
                a,
            )
        }),
        step(entries, capacity, threshold, b, sender, claim).1 == step(
            other_entries,
            capacity,
            threshold,
            b,
            sender,
            claim,
        ).1,
{
    lemma_step_valid(entries, capacity, threshold, b, sender, claim);
}

/// A sender that claims again about a pending request replaces its earlier
/// claim; the number of distinct senders stays the same.
pub proof fn lemma_resubmission_overwrites(
    entries: Seq<Entry>,
    capacity: nat,
    threshold: nat,
    request: u64,
    sender: u64,
    claim: u64,
)
    requires
        valid_entries(entries, capacity),
        pending_of(entries, request).contains_key(sender),
        step(entries, capacity, threshold, request, sender, claim).1 is None,
    ensures
        ({
            let after = step(entries, capacity, threshold, request, sender, claim).0;
            &&& pending_of(after, request) == pending_of(entries, request).insert(sender, claim)
            &&& pending_of(after, request).len() == pending_of(entries, request).len()
            &&& pending_of(after, request)[sender] == claim
        }),
{
    lemma_step_valid(entries, capacity, threshold, request, sender, claim);
    let old_pending = pending_of(entries, request);
    assert(has_key(entries, request));
    assert(old_pending.dom().finite());
    assert(old_pending.insert(sender, claim).dom() =~= old_pending.dom());
}

/// When the cache is full, a claim about a new request evicts the least
/// recently used request, never the new one; a later claim about the
/// evicted request starts again from that one claim.
pub proof fn lemma_eviction_of_least_recent(
    entries: Seq<Entry>,
    capacity: nat,
    threshold: nat,
    request: u64,
    sender: u64,
    claim: u64,
    later_threshold: nat,
    later_sender: u64,
    later_claim: u64,
)
    requires
        valid_entries(entries, capacity),
        entries.len() == capacity,
        !has_key(entries, request),
    ensures
        ({
            let evicted = entries[0].0;
            let after = step(entries, capacity, threshold, request, sender, claim);
            let again = step(
                after.0,
                capacity,
                later_threshold,
                evicted,
                later_sender,
                later_claim,
            );
            &&& !has_key(after.0, evicted)
            &&& after.0.len() <= capacity
            &&& after.1 is None ==> has_key(after.0, request)
            &&& pending_of(after.0, evicted) == Map::<u64, u64>::empty()
            &&& later_threshold > 1 ==> pending_of(again.0, evicted) == map![later_sender => later_claim]
        }),
{
    let evicted = entries[0].0;
    lemma_step_valid(entries, capacity, threshold, request, sender, claim);
    let after = step(entries, capacity, threshold, request, sender, claim).0;
    assert(evicted != request);
    let kept = make_room(entries, capacity);
    assert(kept =~= entries.subrange(1, entries.len() as int));
    if has_key(kept, evicted) {
        let i = choose|i: int| 0 <= i < kept.len() && #[trigger] kept[i].0 == evicted;
        assert(entries[i + 1].0 == entries[0].0);
    }
    assert(!has_key(after, evicted));
    lemma_step_valid(after, capacity, later_threshold, evicted, later_sender, later_claim);
    assert(pending_of(after, evicted).insert(later_sender, later_claim) =~= map![later_sender => later_claim]);
    assert(map![later_sender => later_claim].dom() =~= set![later_sender]);
}

} // verus!

//! Resolving a pending request: the lower median of its claims.
use std::collections::BTreeMap;
use vstd::prelude::*;
use vstd::std_specs::btree::spec_values_iter;
use vstd::std_specs::iter::IteratorSpec;
use vstd::relations::{sorted_by, total_ordering};
use vstd::seq_lib::{lemma_sorted_unique, to_multiset_insert, to_multiset_build, to_multiset_len};

verus! {

/// The order in which claims are compared.
pub open spec fn claim_leq() -> spec_fn(u64, u64) -> bool {
    |a: u64, b: u64| a <= b
}

/// The claim at index `(n - 1) / 2` of the `n` claims sorted in increasing
/// order: for an even `n`, the lower of the two middle claims.
pub open spec fn lower_median(claims: Seq<u64>) -> u64 {
    claims.sort_by(claim_leq())[(claims.len() - 1) / 2]
}

/// `senders` lists each sender of `pending` exactly once, in some order.
pub open spec fn lists_senders(pending: Map<u64, u64>, senders: Seq<u64>) -> bool {
    senders.no_duplicates() && senders.to_set() == pending.dom()
}

/// The claims of `pending`, in the order of a listing of its senders.
pub open spec fn claims_in(pending: Map<u64, u64>, senders: Seq<u64>) -> Seq<u64> {
    senders.map_values(|s: u64| pending[s])
}

/// The claim that a pending request resolves to: the lower median of its
/// claims, which does not depend on the order in which they are listed.
pub open spec fn resolved_claim(pending: Map<u64, u64>) -> u64 {
    lower_median(claims_in(pending, choose|senders: Seq<u64>| lists_senders(pending, senders)))
}

/// Claims are totally ordered.
pub proof fn lemma_claim_leq_total()
    ensures
        total_ordering(claim_leq()),
{
}

/// Two listings of the same senders give the same claims, up to order.
proof fn lemma_listings_same_claims(pending: Map<u64, u64>, a: Seq<u64>, b: Seq<u64>)
    requires
        a.no_duplicates(),
        b.no_duplicates(),
        a.to_set() == b.to_set(),
    ensures
        claims_in(pending, a).to_multiset() == claims_in(pending, b).to_multiset(),
    decreases a.len(),
{
    if a.len() == 0 {
        if b.len() > 0 {
            assert(b.to_set().contains(b[0]));
        }
        assert(claims_in(pending, a) =~= claims_in(pending, b));
    } else {
        let x = a.last();
        let a1 = a.drop_last();
        assert(a.to_set().contains(x));
        assert(b.to_set().contains(x));
        let j = choose|j: int| 0 <= j < b.len() && b[j] == x;
        let b1 = b.remove(j);
        assert(a1.to_set() =~= b1.to_set()) by {
            assert forall|y: u64| a1.to_set().contains(y) implies b1.to_set().contains(y) by {
                let k = choose|k: int| 0 <= k < a1.len() && a1[k] == y;
                assert(a.to_set().contains(y));
                let m = choose|m: int| 0 <= m < b.len() && b[m] == y;
                assert(m != j);
                if m < j {
                    assert(b1[m] == y);
                } else {
                    assert(b1[m - 1] == y);
                }
            }
            assert forall|y: u64| b1.to_set().contains(y) implies a1.to_set().contains(y) by {
                let k = choose|k: int| 0 <= k < b1.len() && b1[k] == y;
                let m = if k < j { k } else { k + 1 };
                assert(b[m] == y);
                assert(b.to_set().contains(y));
                let n = choose|n: int| 0 <= n < a.len() && a[n] == y;
                assert(n != a.len() - 1);
                assert(a1[n] == y);
            }
        }
        lemma_listings_same_claims(pending, a1, b1);
        assert(claims_in(pending, a) =~= claims_in(pending, a1).push(pending[x]));
        assert(claims_in(pending, b) =~= claims_in(pending, b1).insert(j, pending[x]));
        to_multiset_build(claims_in(pending, a1), pending[x]);
        to_multiset_insert(claims_in(pending, b1), j, pending[x]);
    }
}

/// Sequences with the same claims, up to order, have the same lower median.
pub proof fn lemma_lower_median_of_permutation(a: Seq<u64>, b: Seq<u64>)
    requires
        a.to_multiset() == b.to_multiset(),
    ensures
        a.sort_by(claim_leq()) == b.sort_by(claim_leq()),
        a.len() == b.len(),
        lower_median(a) == lower_median(b),
{
    lemma_claim_leq_total();
    a.lemma_sort_by_ensures(claim_leq());
    b.lemma_sort_by_ensures(claim_leq());
    lemma_sorted_unique(a.sort_by(claim_leq()), b.sort_by(claim_leq()), claim_leq());
    to_multiset_len(a);
    to_multiset_len(b);
}

/// Any listing of the senders gives the resolved claim.
pub proof fn lemma_resolved_claim_any_listing(pending: Map<u64, u64>, senders: Seq<u64>)
    requires
        lists_senders(pending, senders),
    ensures
        resolved_claim(pending) == lower_median(claims_in(pending, senders)),
        claims_in(pending, senders).len() == pending.dom().len(),
{
    let chosen = choose|s: Seq<u64>| lists_senders(pending, s);
    lemma_listings_same_claims(pending, chosen, senders);
    lemma_lower_median_of_permutation(claims_in(pending, chosen), claims_in(pending, senders));
    senders.unique_seq_to_set();
}

/// A single claim is its own lower median.
pub proof fn lemma_lower_median_single(c: u64)
    ensures
        lower_median(seq![c]) == c,
{
    let one = seq![c];
    lemma_claim_leq_total();
    one.lemma_sort_by_ensures(claim_leq());
    to_multiset_len(one);
    to_multiset_len(one.sort_by(claim_leq()));
    assert(one.sort_by(claim_leq()).contains(one.sort_by(claim_leq())[0]));
    assert(one.contains(one.sort_by(claim_leq())[0]));
}

/// Sorts `claims` in increasing order, by insertion.
pub fn sort_claims(claims: &mut Vec<u64>)
    ensures
        final(claims)@ == old(claims)@.sort_by(claim_leq()),
        final(claims)@.len() == old(claims)@.len(),
{
    let ghost original = claims@;
    let n = claims.len();
    let mut i: usize = 0;
    while i < n
        invariant
            n == claims.len(),
            i <= n,
            claims@.to_multiset() == original.to_multiset(),
            sorted_by(claims@.subrange(0, i as int), claim_leq()),
        decreases n - i,
    {
        proof {
            assert forall|a: int, b: int| 0 <= a < b < i implies claims@[a] <= claims@[b] by {
                assert(claim_leq()(claims@.subrange(0, i as int)[a], claims@.subrange(0, i as int)[b]));
            }
        }
        let mut j: usize = i;
        while j > 0 && claims[j - 1] > claims[j]
            invariant
                n == claims.len(),
                0 <= j <= i < n,
                claims@.to_multiset() == original.to_multiset(),
                forall|a: int, b: int|
                    0 <= a < b <= i && b != j ==> claims@[a] <= claims@[b],
                forall|a: int, b: int|
                    0 <= a < j < b <= i ==> claims@[a] <= claims@[b],
                forall|b: int| j < b <= i ==> claims@[j as int] <= claims@[b],
            decreases j,
        {
            let ghost before = claims@;
            let left = claims[j - 1];
            let right = claims[j];
            claims.set(j - 1, right);
            claims.set(j, left);
            proof {
                broadcast use vstd::multiset::group_multiset_axioms;
                let swapped = before.update(j - 1, right);
                assert(claims@ =~= swapped.update(j as int, left));
                assert(swapped[j as int] == right);
                vstd::seq_lib::to_multiset_update(before, j - 1, right);
                vstd::seq_lib::to_multiset_update(swapped, j as int, left);
                vstd::seq_lib::to_multiset_contains(before, left);
                assert(before[j - 1] == left);
                assert(claims@.to_multiset() =~= before.to_multiset());
            }
            j = j - 1;
        }
        proof {
            assert forall|a: int, b: int| 0 <= a < b < i + 1 implies #[trigger] claim_leq()(
                claims@.subrange(0, i + 1)[a],
                claims@.subrange(0, i + 1)[b],
            ) by {
                if b == j && a < j - 1 {
                    assert(claims@[a] <= claims@[j - 1]);
                }
            }
        }
        i = i + 1;
    }
    proof {
        assert(claims@.subrange(0, n as int) =~= claims@);
        lemma_claim_leq_total();
        original.lemma_sort_by_ensures(claim_leq());
        lemma_sorted_unique(claims@, original.sort_by(claim_leq()), claim_leq());
    }
}

/// The claim that `pending` resolves to, or `None` when it holds no claim.
pub fn pick_median(pending: &BTreeMap<u64, u64>) -> (r: Option<u64>)
    ensures
        pending@.is_empty() ==> r is None,
        !pending@.is_empty() ==> r == Some(resolved_claim(pending@)),
{
    broadcast use vstd::std_specs::btree::group_btree_axioms;
    if pending.is_empty() {
        return None;
    }
    let mut claims: Vec<u64> = Vec::new();
    for c in it: pending.values()
        invariant
            it.seq() == spec_values_iter(pending).remaining(),
            claims@ == it.seq().take(it.index() as int).map_values(|r: &u64| *r),
    {
        claims.push(*c);
    }
    let ghost listed = claims@;
    proof {
        assert(vstd::std_specs::btree::key_obeys_cmp_spec::<u64>());
        assert(exists|senders: Seq<u64>|
            {
                &&& vstd::std_specs::btree::increasing_seq(senders)
                &&& senders.to_set() == pending@.dom()
                &&& senders.no_duplicates()
                &&& spec_values_iter(pending).remaining() == senders.map(|i: int, k: u64| &pending@[k])
            });
        assert(listed =~= spec_values_iter(pending).remaining().map_values(|r: &u64| *r));
        let senders = choose|senders: Seq<u64>|
            {
                &&& vstd::std_specs::btree::increasing_seq(senders)
                &&& senders.to_set() == pending@.dom()
                &&& senders.no_duplicates()
                &&& spec_values_iter(pending).remaining() == senders.map(|i: int, k: u64| &pending@[k])
            };
        assert(listed =~= claims_in(pending@, senders));
        lemma_resolved_claim_any_listing(pending@, senders);
        assert(pending@.dom().len() > 0) by {
            assert(!pending@.dom().is_empty());
        }
    }
    sort_claims(&mut claims);
    let k = (claims.len() - 1) / 2;
    Some(claims[k])
}

} // verus!

use account_sentinel::median::{pick_median, sort_claims};
use account_sentinel::sentinel::AccountSentinel;
use std::collections::BTreeMap;

type Request = u64;
type Name = u64;
type Claim = u64;

fn test_single_request(threshold: usize) {
    let request = 0 as Request;
    let mut sentinel = AccountSentinel::new();

    for i in 0..threshold - 1 {
        assert!(sentinel.add_claim(threshold, request, i as Name, i as Claim).is_none());
    }

    let n = threshold - 1;
    let result = sentinel.add_claim(threshold, request, n as Name, n as Claim);
    assert!(result.is_some());
    assert_eq!(result.unwrap(), ((threshold - 1) / 2) as Claim);

    // Adding more should start accumulating from the beginning.
    for i in threshold..(2 * threshold - 1) {
        assert!(sentinel.add_claim(threshold, request, i as Name, i as Claim).is_none());
    }

    let n = 2 * threshold - 1;
    let result = sentinel.add_claim(threshold, request, n as Name, n as Claim);
    assert!(result.is_some());
    assert_eq!(result.unwrap(), (threshold + (threshold - 1) / 2) as Claim);
}

#[test]
fn zero_threshold() {
    let mut sentinel = AccountSentinel::new();
    assert_eq!(sentinel.add_claim(0, 0 as Request, 0 as Name, 0 as Claim), Some(0 as Claim));
}

#[test]
fn single_request() {
    for threshold in 1..100 {
        test_single_request(threshold);
    }
}

#[test]
fn multi_request() {
    let request_count: u64 = 30;
    let threshold: usize = 10;
    let mut sentinel = AccountSentinel::new();

    for i in 0..threshold - 1 {
        for request in 0..request_count {
            assert!(sentinel.add_claim(threshold, request, i as Name, i as Claim).is_none());
        }
    }

    for request in 0..request_count {
        let n = threshold - 1;
        let result = sentinel.add_claim(threshold, request, n as Name, n as Claim);
        assert!(result.is_some());
        assert_eq!(result.unwrap(), ((threshold - 1) / 2) as Claim);
    }
}

#[test]
fn three_claims_resolve_to_middle() {
    let mut sentinel = AccountSentinel::new();
    assert_eq!(sentinel.add_claim(3, 7, 1, 10), None);
    assert_eq!(sentinel.add_claim(3, 7, 2, 30), None);
    assert_eq!(sentinel.add_claim(3, 7, 3, 20), Some(20));
}

#[test]
fn four_claims_resolve_to_lower_middle() {
    let mut sentinel = AccountSentinel::new();
    assert_eq!(sentinel.add_claim(4, 1, 11, 1), None);
    assert_eq!(sentinel.add_claim(4, 1, 12, 2), None);
    assert_eq!(sentinel.add_claim(4, 1, 13, 3), None);
    assert_eq!(sentinel.add_claim(4, 1, 14, 4), Some(2));
}

#[test]
fn unsorted_claims_resolve_to_lower_median() {
    let mut sentinel = AccountSentinel::new();
    let claims: [u64; 6] = [50, 5, 40, 5, 90, 1];
    for (i, c) in claims.iter().enumerate().take(5) {
        assert_eq!(sentinel.add_claim(6, 3, i as u64, *c), None);
    }
    // sorted: [1, 5, 5, 40, 50, 90]; index 2
    assert_eq!(sentinel.add_claim(6, 3, 5, claims[5]), Some(5));
}

#[test]
fn threshold_one_resolves_each_claim() {
    let mut sentinel = AccountSentinel::new();
    assert_eq!(sentinel.add_claim(1, 9, 1, 77), Some(77));
    assert_eq!(sentinel.add_claim(1, 9, 1, 78), Some(78));
}

#[test]
fn resolution_clears_request() {
    let mut sentinel = AccountSentinel::new();
    assert_eq!(sentinel.add_claim(2, 5, 1, 100), None);
    assert_eq!(sentinel.add_claim(2, 5, 2, 200), Some(100));
    // The same senders start a fresh count.
    assert_eq!(sentinel.add_claim(2, 5, 1, 300), None);
    assert_eq!(sentinel.add_claim(2, 5, 2, 400), Some(300));
}

#[test]
fn requests_do_not_share_claims() {
    let mut sentinel = AccountSentinel::new();
    assert_eq!(sentinel.add_claim(2, 1, 1, 10), None);
    assert_eq!(sentinel.add_claim(2, 2, 2, 20), None);
    assert_eq!(sentinel.add_claim(2, 2, 3, 30), Some(20));
    assert_eq!(sentinel.add_claim(2, 1, 4, 40), Some(10));
}

#[test]
fn resubmission_overwrites_claim() {
    let mut sentinel = AccountSentinel::new();
    assert_eq!(sentinel.add_claim(3, 4, 1, 10), None);
    assert_eq!(sentinel.add_claim(3, 4, 1, 99), None);
    assert_eq!(sentinel.add_claim(3, 4, 2, 50), None);
    // claims are now {1: 99, 2: 50, 3: 60}: sorted [50, 60, 99]
    assert_eq!(sentinel.add_claim(3, 4, 3, 60), Some(60));
}

#[test]
fn least_recent_request_is_evicted() {
    let mut sentinel = AccountSentinel::with_capacity(2);
    assert_eq!(sentinel.add_claim(2, 1, 1, 10), None);
    assert_eq!(sentinel.add_claim(2, 2, 1, 20), None);
    // a third request evicts request 1, the least recently used
    assert_eq!(sentinel.add_claim(2, 3, 1, 30), None);
    // request 1 starts again from one claim
    assert_eq!(sentinel.add_claim(2, 1, 2, 11), None);
    // that evicted request 2; request 3 is still pending
    assert_eq!(sentinel.add_claim(2, 3, 2, 31), Some(30));
    assert_eq!(sentinel.add_claim(2, 1, 3, 12), Some(11));
}

#[test]
fn touching_a_request_protects_it_from_eviction() {
    let mut sentinel = AccountSentinel::with_capacity(2);
    assert_eq!(sentinel.add_claim(3, 1, 1, 10), None);
    assert_eq!(sentinel.add_claim(3, 2, 1, 20), None);
    assert_eq!(sentinel.add_claim(3, 1, 2, 11), None);
    // request 2 is now the least recently used and goes
    assert_eq!(sentinel.add_claim(3, 3, 1, 30), None);
    assert_eq!(sentinel.add_claim(3, 1, 3, 12), Some(11));
    assert_eq!(sentinel.add_claim(3, 2, 2, 21), None);
    assert_eq!(sentinel.add_claim(3, 2, 3, 22), None);
}

#[test]
fn new_request_resolving_at_once_still_evicts() {
    let mut sentinel = AccountSentinel::with_capacity(1);
    assert_eq!(sentinel.add_claim(2, 1, 1, 10), None);
    assert_eq!(sentinel.add_claim(0, 2, 1, 20), Some(20));
    // request 1 was evicted to make room for request 2
    assert_eq!(sentinel.add_claim(2, 1, 2, 11), None);
}

#[test]
fn default_capacity_keeps_a_thousand_requests() {
    let mut sentinel = AccountSentinel::new();
    for request in 0..1000u64 {
        assert_eq!(sentinel.add_claim(3, request, 1, request), None);
    }
    // touching request 0 makes request 1 the least recently used
    assert_eq!(sentinel.add_claim(3, 0, 2, 5), None);
    assert_eq!(sentinel.add_claim(3, 1000, 1, 1000), None);
    // request 1 was evicted: one claim is not enough for a threshold of two
    assert_eq!(sentinel.add_claim(2, 1, 2, 5), None);
    assert_eq!(sentinel.add_claim(2, 3, 2, 5), Some(3));
    assert_eq!(sentinel.add_claim(3, 0, 3, 7), Some(5));
}

#[test]
fn pick_median_of_map() {
    let mut m: BTreeMap<u64, u64> = BTreeMap::new();
    assert_eq!(pick_median(&m), None);
    m.insert(3, 8);
    m.insert(1, 2);
    m.insert(2, 9);
    m.insert(4, 1);
    assert_eq!(pick_median(&m), Some(2));
}

#[test]
fn sort_claims_sorts() {
    let mut v: Vec<u64> = vec![5, 3, 9, 3, 0, u64::MAX];
    sort_claims(&mut v);
    assert_eq!(v, vec![0, 3, 3, 5, 9, u64::MAX]);
    let mut e: Vec<u64> = Vec::new();
    sort_claims(&mut e);
    assert!(e.is_empty());
}

use uqoin_client::coin::Coin;
use uqoin_client::mining::{record_mined, update_resource, CoinReport};
use uqoin_client::resource::{contains_coin, CoinResource};

fn coin(n: u64) -> Coin {
    Coin::from_words([n, n.wrapping_mul(7), 0xAAAA, 0xBBBB])
}

#[test]
fn insert_then_contains() {
    let mut r = CoinResource::new();
    assert!(r.is_empty());
    assert!(r.insert(40, coin(1)));
    assert!(r.insert(10, coin(2)));
    assert_eq!(r.len(), 2);
    assert!(r.contains(40, coin(1)));
    assert!(!r.contains(10, coin(1)));
    assert_eq!(r.order_of_coin(coin(2)), Some(10));
    assert_eq!(r.order_of_coin(coin(3)), None);
}

#[test]
fn insert_twice_is_idempotent() {
    let mut r = CoinResource::new();
    assert!(r.insert(12, coin(5)));
    let once = r.entries().clone();
    assert!(!r.insert(12, coin(5)));
    assert_eq!(r.entries(), &once);
    assert_eq!(r.len(), 1);
}

#[test]
fn coin_never_under_two_orders() {
    let mut r = CoinResource::new();
    assert!(r.insert(12, coin(5)));
    assert!(!r.insert(13, coin(5)));
    assert_eq!(r.entries(), &vec![(12, coin(5))]);
}

#[test]
fn remove_by_order_and_coin() {
    let mut r = CoinResource::new();
    r.insert(3, coin(1));
    r.insert(4, coin(2));
    assert!(!r.remove(4, coin(1)));
    assert_eq!(r.len(), 2);
    assert!(r.remove(3, coin(1)));
    assert_eq!(r.entries(), &vec![(4, coin(2))]);
}

#[test]
fn remove_coins_whatever_order() {
    let mut r = CoinResource::new();
    r.insert(3, coin(1));
    r.insert(4, coin(2));
    r.insert(5, coin(3));
    r.remove_coins(&vec![coin(3), coin(1), coin(9)]);
    assert_eq!(r.entries(), &vec![(4, coin(2))]);
}

#[test]
fn reconcile_removes_common_entries_only() {
    let mut local = CoinResource::new();
    local.insert(40, coin(1));
    local.insert(10, coin(2));
    local.insert(20, coin(3));
    let mut remote = CoinResource::new();
    remote.insert(40, coin(1));
    remote.insert(7, coin(8));
    // same coin under another order is not the same entry
    remote.insert(21, coin(3));
    local.reconcile(&remote);
    assert_eq!(local.entries(), &vec![(10, coin(2)), (20, coin(3))]);
}

#[test]
fn reconcile_with_empty_remote_keeps_all() {
    let mut local = CoinResource::new();
    local.insert(40, coin(1));
    local.reconcile(&CoinResource::new());
    assert_eq!(local.entries(), &vec![(40, coin(1))]);
}

#[test]
fn count_at_least_counts_orders() {
    let mut r = CoinResource::new();
    r.insert(40, coin(1));
    r.insert(35, coin(2));
    r.insert(10, coin(3));
    assert_eq!(r.count_at_least(35), 2);
    assert_eq!(r.count_at_least(0), 3);
    assert_eq!(r.count_at_least(41), 0);
}

#[test]
fn reload_from_saved_entries_is_identical() {
    let mut r = CoinResource::new();
    r.insert(40, coin(1));
    r.insert(10, coin(2));
    r.insert(20, coin(3));
    let saved: Vec<(u64, [u64; 4])> = r.entries().iter().map(|e| (e.0, e.1.to_words())).collect();
    let text = serde_json::to_string(&saved).unwrap();
    let back: Vec<(u64, [u64; 4])> = serde_json::from_str(&text).unwrap();
    let entries: Vec<(u64, Coin)> = back.iter().map(|e| (e.0, Coin::from_words(e.1))).collect();
    let reloaded = CoinResource::from_entries(&entries);
    assert_eq!(reloaded.entries(), r.entries());
}

#[test]
fn from_entries_drops_repeated_coins() {
    let entries = vec![(1, coin(1)), (2, coin(1)), (3, coin(2))];
    let r = CoinResource::from_entries(&entries);
    assert_eq!(r.entries(), &vec![(1, coin(1)), (3, coin(2))]);
}

#[test]
fn mined_coin_is_stored_under_its_order() {
    let mut r = CoinResource::new();
    assert!(record_mined(&mut r, 27, coin(4), 20));
    assert!(r.contains(27, coin(4)));
    assert!(!record_mined(&mut r, 27, coin(4), 20));
    assert_eq!(r.len(), 1);
}

#[test]
fn mined_coin_below_minimum_is_dropped() {
    let mut r = CoinResource::new();
    assert!(!record_mined(&mut r, 19, coin(4), 20));
    assert!(r.is_empty());
}

#[test]
fn spent_coin_leaves_on_next_pass() {
    let mut r = CoinResource::new();
    r.insert(40, coin(1));
    r.insert(10, coin(2));
    let reports = vec![
        CoinReport { coin: coin(1), counter: Some(1) },
        CoinReport { coin: coin(2), counter: Some(0) },
    ];
    let removed = update_resource(&mut r, &reports);
    assert_eq!(removed, vec![(40, coin(1))]);
    assert_eq!(r.entries(), &vec![(10, coin(2))]);
    assert!(!r.contains(40, coin(1)));
}

#[test]
fn unreachable_report_keeps_coin() {
    let mut r = CoinResource::new();
    r.insert(40, coin(1));
    let reports = vec![CoinReport { coin: coin(1), counter: None }];
    let removed = update_resource(&mut r, &reports);
    assert!(removed.is_empty());
    assert_eq!(r.len(), 1);
}

#[test]
fn contains_coin_scans_list() {
    assert!(contains_coin(&vec![coin(1), coin(2)], coin(2)));
    assert!(!contains_coin(&vec![coin(1)], coin(2)));
    assert!(!contains_coin(&vec![], coin(2)));
}

#[test]
fn select_in_range_picks_an_eligible_coin() {
    let mut r = CoinResource::new();
    r.insert(3, coin(1));
    r.insert(8, coin(2));
    r.insert(9, coin(3));
    r.insert(20, coin(4));
    for _ in 0..50 {
        let (order, c) = r.select_in_range(8, 10).unwrap();
        assert!((8..=10).contains(&order));
        assert!(c == coin(2) || c == coin(3));
    }
    assert_eq!(r.select_in_range(4, 7), None);
    assert_eq!(r.select_in_range(20, 20), Some((20, coin(4))));
}

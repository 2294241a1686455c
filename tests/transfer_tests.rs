use uqoin_client::coin::Coin;
use uqoin_client::resource::{get_total_balance, CoinResource};
use uqoin_client::transfer::pick_coins;

fn coin(n: u64) -> Coin {
    Coin::from_words([n, 0, 5, 6])
}

#[test]
fn picks_one_distinct_coin_per_request() {
    let mut w = CoinResource::new();
    w.insert(5, coin(1));
    w.insert(4, coin(2));
    w.insert(4, coin(3));
    let p = pick_coins(&w, &vec![4, 4, 5]).unwrap();
    assert_eq!(p, vec![(4, coin(2)), (4, coin(3)), (5, coin(1))]);
}

#[test]
fn too_many_requests_of_one_order() {
    let mut w = CoinResource::new();
    w.insert(4, coin(2));
    w.insert(5, coin(1));
    assert_eq!(pick_coins(&w, &vec![4, 4]), None);
    assert_eq!(pick_coins(&w, &vec![7]), None);
}

#[test]
fn no_requests_pick_nothing() {
    let w = CoinResource::new();
    assert_eq!(pick_coins(&w, &vec![]), Some(vec![]));
}

#[test]
fn total_balance_sums_powers_of_two() {
    let mut r = CoinResource::new();
    assert_eq!(get_total_balance(&r), Some(0));
    r.insert(0, coin(1));
    r.insert(3, coin(2));
    r.insert(3, coin(3));
    r.insert(10, coin(4));
    assert_eq!(get_total_balance(&r), Some(1 + 8 + 8 + 1024));
}

#[test]
fn total_balance_at_the_edge_of_128_bits() {
    let mut r = CoinResource::new();
    r.insert(127, coin(1));
    assert_eq!(get_total_balance(&r), Some(1u128 << 127));
    r.insert(127, coin(2));
    assert_eq!(get_total_balance(&r), None);
    let mut s = CoinResource::new();
    s.insert(128, coin(1));
    assert_eq!(get_total_balance(&s), None);
}

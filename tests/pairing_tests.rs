use uqoin_client::coin::Coin;
use uqoin_client::pairing::{
    build_candidates, lowest_below, pair_up, prepare_coins, sorted_entries, Candidate,
};
use uqoin_client::resource::CoinResource;

fn coin(n: u64) -> Coin {
    Coin::from_words([n, 3 * n + 1, 17, 19])
}

fn local_cand(order: u64, n: u64) -> Candidate {
    Candidate { order, coin: coin(n), from_wallet: false }
}

#[test]
fn one_pair_from_orders_forty_and_ten() {
    let mut local = CoinResource::new();
    local.insert(40, coin(1));
    local.insert(10, coin(2));
    let mut wallet = CoinResource::new();
    let pairs = prepare_coins(&mut local, &mut wallet, 35, 5);
    assert_eq!(pairs.len(), 1);
    assert_eq!(pairs[0].coin, local_cand(40, 1));
    assert_eq!(pairs[0].fee, local_cand(10, 2));
    assert!(local.is_empty());
}

#[test]
fn sorted_entries_descend_and_filter() {
    let mut local = CoinResource::new();
    local.insert(10, coin(1));
    local.insert(40, coin(2));
    local.insert(3, coin(3));
    local.insert(25, coin(4));
    local.insert(25, coin(5));
    let s = sorted_entries(&local, 5);
    assert_eq!(s, vec![(40, coin(2)), (25, coin(4)), (25, coin(5)), (10, coin(1))]);
}

#[test]
fn candidates_capped_at_twice_the_coin_count() {
    let mut local = CoinResource::new();
    local.insert(40, coin(1));
    for i in 0..6 {
        local.insert(10 + i, coin(10 + i));
    }
    let wallet = CoinResource::new();
    let c = build_candidates(&local, &wallet, 35, 5);
    assert_eq!(c.len(), 2);
    assert_eq!(c[0], local_cand(40, 1));
    assert_eq!(c[1], local_cand(15, 15));
}

#[test]
fn odd_count_borrows_one_wallet_coin_below_median() {
    let mut local = CoinResource::new();
    local.insert(50, coin(1));
    local.insert(45, coin(2));
    local.insert(30, coin(3));
    let mut wallet = CoinResource::new();
    wallet.insert(2, coin(100));
    wallet.insert(8, coin(101));
    wallet.insert(7, coin(102));
    wallet.insert(60, coin(103));
    let c = build_candidates(&local, &wallet, 40, 5);
    // cap is 4: three local coins and the lowest wallet coin at or above 5
    assert_eq!(c.len(), 4);
    assert_eq!(c[3], Candidate { order: 7, coin: coin(102), from_wallet: true });
    let pairs = prepare_coins(&mut local, &mut wallet, 40, 5);
    assert_eq!(pairs.len(), 2);
    assert_eq!((pairs[0].coin.order, pairs[0].fee.order), (50, 30));
    assert_eq!((pairs[1].coin.order, pairs[1].fee.order), (45, 7));
    assert!(local.is_empty());
    assert_eq!(wallet.entries(), &vec![(2, coin(100)), (8, coin(101)), (60, coin(103))]);
}

#[test]
fn even_count_borrows_wallet_coins_two_at_a_time() {
    let mut local = CoinResource::new();
    local.insert(50, coin(1));
    local.insert(45, coin(2));
    let mut wallet = CoinResource::new();
    wallet.insert(6, coin(100));
    wallet.insert(9, coin(101));
    wallet.insert(12, coin(102));
    let c = build_candidates(&local, &wallet, 40, 5);
    // cap 4: two local, then two wallet coins below the order 45
    assert_eq!(c.len(), 4);
    assert_eq!(c[2], Candidate { order: 6, coin: coin(100), from_wallet: true });
    assert_eq!(c[3], Candidate { order: 9, coin: coin(101), from_wallet: true });
    let pairs = prepare_coins(&mut local, &mut wallet, 40, 5);
    assert_eq!(pairs.len(), 2);
    assert_eq!((pairs[0].coin.order, pairs[0].fee.order), (50, 6));
    assert_eq!((pairs[1].coin.order, pairs[1].fee.order), (45, 9));
    assert_eq!(wallet.entries(), &vec![(12, coin(102))]);
}

#[test]
fn no_wallet_coin_leaves_odd_count() {
    let mut local = CoinResource::new();
    local.insert(50, coin(1));
    local.insert(45, coin(2));
    local.insert(30, coin(3));
    let mut wallet = CoinResource::new();
    let pairs = prepare_coins(&mut local, &mut wallet, 40, 5);
    assert_eq!(pairs.len(), 1);
    assert_eq!((pairs[0].coin.order, pairs[0].fee.order), (50, 45));
    assert_eq!(local.entries(), &vec![(30, coin(3))]);
}

#[test]
fn equal_orders_are_not_paired() {
    let mut local = CoinResource::new();
    local.insert(40, coin(1));
    local.insert(40, coin(2));
    let mut wallet = CoinResource::new();
    let pairs = prepare_coins(&mut local, &mut wallet, 35, 5);
    assert!(pairs.is_empty());
    assert_eq!(local.len(), 2);
}

#[test]
fn nothing_above_minimum_gives_no_pairs() {
    let mut local = CoinResource::new();
    local.insert(20, coin(1));
    local.insert(10, coin(2));
    let mut wallet = CoinResource::new();
    wallet.insert(6, coin(3));
    let pairs = prepare_coins(&mut local, &mut wallet, 35, 5);
    assert!(pairs.is_empty());
    assert_eq!(local.len(), 2);
    assert_eq!(wallet.len(), 1);
}

#[test]
fn lowest_below_skips_taken_and_out_of_range() {
    let mut wallet = CoinResource::new();
    wallet.insert(3, coin(1));
    wallet.insert(9, coin(2));
    wallet.insert(6, coin(3));
    wallet.insert(20, coin(4));
    let taken = vec![Candidate { order: 6, coin: coin(3), from_wallet: true }];
    assert_eq!(lowest_below(&wallet, 5, 15, &taken), Some((9, coin(2))));
    assert_eq!(lowest_below(&wallet, 5, 15, &vec![]), Some((6, coin(3))));
    assert_eq!(lowest_below(&wallet, 5, 6, &vec![]), None);
}

#[test]
fn pair_up_zips_halves() {
    let c = vec![local_cand(9, 1), local_cand(8, 2), local_cand(4, 3), local_cand(8, 4)];
    let pairs = pair_up(&c, 0, 0);
    // (9, 4) fits; (8, 8) does not
    assert_eq!(pairs.len(), 1);
    assert_eq!(pairs[0].coin, local_cand(9, 1));
    assert_eq!(pairs[0].fee, local_cand(4, 3));
}

fn next(state: &mut u64) -> u64 {
    *state = state.wrapping_mul(6364136223846793005).wrapping_add(1442695040888963407);
    *state >> 33
}

#[test]
fn random_inputs_keep_pairing_invariants() {
    let mut state: u64 = 12345;
    for round in 0..300u64 {
        let mut local = CoinResource::new();
        let mut wallet = CoinResource::new();
        let n_local = next(&mut state) % 12;
        let n_wallet = next(&mut state) % 8;
        for i in 0..n_local {
            local.insert(next(&mut state) % 60, coin(round * 1000 + i));
        }
        for i in 0..n_wallet {
            wallet.insert(next(&mut state) % 60, coin(round * 1000 + 500 + i));
        }
        let min_fee = next(&mut state) % 10;
        let min_coin = min_fee + next(&mut state) % 40;
        let eligible_coins = local.count_at_least(min_coin);
        let cands = build_candidates(&local, &wallet, min_coin, min_fee);
        assert!(cands.len() <= 2 * eligible_coins);
        let before_local = local.len();
        let before_wallet = wallet.len();
        let pairs = prepare_coins(&mut local, &mut wallet, min_coin, min_fee);
        let mut used_local = 0;
        for p in pairs.iter() {
            assert!(p.fee.order < p.coin.order);
            assert!(p.fee.order >= min_fee);
            assert!(p.coin.order >= min_coin);
            assert!(!p.coin.from_wallet);
            used_local += 1 + if p.fee.from_wallet { 0 } else { 1 };
        }
        assert!(pairs.len() <= eligible_coins);
        assert_eq!(local.len(), before_local - used_local);
        assert_eq!(wallet.len() + (2 * pairs.len() - used_local), before_wallet);
    }
}

#[test]
fn two_at_a_time_needs_two_wallet_coins() {
    let mut local = CoinResource::new();
    local.insert(50, coin(1));
    local.insert(45, coin(2));
    let mut wallet = CoinResource::new();
    wallet.insert(6, coin(100));
    let c = build_candidates(&local, &wallet, 40, 5);
    assert_eq!(c.len(), 2);
}

#[test]
fn two_at_a_time_needs_margin_of_more_than_one() {
    let mut local = CoinResource::new();
    local.insert(50, coin(1));
    local.insert(45, coin(2));
    let mut wallet = CoinResource::new();
    wallet.insert(44, coin(100));
    wallet.insert(44, coin(101));
    let c = build_candidates(&local, &wallet, 40, 5);
    assert_eq!(c.len(), 2);
    wallet.insert(43, coin(102));
    let d = build_candidates(&local, &wallet, 40, 5);
    assert_eq!(d.len(), 4);
    assert_eq!((d[2].order, d[3].order), (43, 44));
}

use vstd::prelude::*;

use crate::coin::Coin;
use crate::resource::{CoinResource, Entry, coins_unique, contains_coin};

verus! {

/// Keeps the numbers equal to `o`.
pub open spec fn equal_to(o: u64) -> spec_fn(u64) -> bool {
    |x: u64| x == o
}

/// Keeps the entries of order `o`.
pub open spec fn order_is(o: u64) -> spec_fn(Entry) -> bool {
    |e: Entry| e.0 == o
}

/// How many times `o` is requested in `orders`.
pub open spec fn times(orders: Seq<u64>, o: u64) -> nat {
    orders.filter(equal_to(o)).len()
}

/// How many coins of order `o` the entries `s` hold.
pub open spec fn held_at(s: Seq<Entry>, o: u64) -> nat {
    s.filter(order_is(o)).len()
}

/// Picks whose orders follow the requested orders have as many entries of
/// order `o` as `o` is requested.
proof fn lemma_picked_count(p: Seq<Entry>, orders: Seq<u64>, o: u64)
    requires
        p.len() == orders.len(),
        forall|j: int| 0 <= j < p.len() ==> p[j].0 == orders[j],
    ensures
        held_at(p, o) == times(orders, o),
    decreases p.len(),
{
    reveal(Seq::filter);
    if p.len() > 0 {
        lemma_picked_count(p.drop_last(), orders.drop_last(), o);
    }
}

/// A prefix requests `o` at most as often as the whole list.
proof fn lemma_times_prefix(orders: Seq<u64>, j: int, o: u64)
    requires
        0 <= j <= orders.len(),
    ensures
        times(orders.subrange(0, j), o) <= times(orders, o),
    decreases orders.len() - j,
{
    if j < orders.len() {
        lemma_times_prefix(orders, j + 1, o);
        crate::resource::lemma_filter_step(orders, j, equal_to(o));
    } else {
        assert(orders.subrange(0, j) =~= orders);
    }
}

/// A sequence without repeated coins whose entries all appear in another
/// such sequence is no longer than it.
proof fn lemma_unique_subset_len(a: Seq<Entry>, b: Seq<Entry>)
    requires
        coins_unique(a),
        coins_unique(b),
        forall|x: Entry| a.contains(x) ==> b.contains(x),
    ensures
        a.len() <= b.len(),
{
    assert(a.no_duplicates());
    assert(b.no_duplicates());
    a.unique_seq_to_set();
    b.unique_seq_to_set();
    assert(a.to_set().subset_of(b.to_set()));
    vstd::set_lib::lemma_len_subset(a.to_set(), b.to_set());
}

/// Picks one coin of each requested order from `wallet`, a different coin
/// for each request, in the order of the requests. `None` when some order
/// is requested more often than the wallet holds coins of it.
pub fn pick_coins(wallet: &CoinResource, orders: &Vec<u64>) -> (r: Option<Vec<Entry>>)
    requires
        wallet.wf(),
    ensures
        match r {
            Some(p) => p@.len() == orders@.len() && coins_unique(p@) && forall|k: int|
                0 <= k < p@.len() ==> p@[k].0 == orders@[k] && wallet@.contains(p@[k]),
            None => exists|o: u64| times(orders@, o) > held_at(wallet@, o),
        },
{
    let entries = wallet.entries();
    let mut picked: Vec<Entry> = Vec::new();
    let mut used: Vec<Coin> = Vec::new();
    let mut k: usize = 0;
    while k < orders.len()
        invariant
            entries@ == wallet@,
            coins_unique(wallet@),
            k <= orders@.len(),
            picked@.len() == k,
            used@.len() == k,
            coins_unique(picked@),
            forall|j: int|
                0 <= j < k ==> picked@[j].0 == orders@[j] && wallet@.contains(picked@[j])
                    && used@[j] == picked@[j].1,
        decreases orders@.len() - k,
    {
        let o = orders[k];
        let mut found: Option<Entry> = None;
        let mut i: usize = 0;
        while i < entries.len()
            invariant_except_break
                found is None,
            invariant
                entries@ == wallet@,
                i <= entries@.len(),
                forall|m: int| 0 <= m < i && entries@[m].0 == o ==> used@.contains(entries@[m].1),
            ensures
                match found {
                    Some(e) => i < entries@.len() && entries@[i as int] == e && e.0 == o
                        && !used@.contains(e.1),
                    None => forall|m: int|
                        0 <= m < entries@.len() && entries@[m].0 == o ==> used@.contains(
                            entries@[m].1,
                        ),
                },
            decreases entries@.len() - i,
        {
            let e = entries[i];
            if e.0 == o && !contains_coin(&used, e.1) {
                found = Some(e);
                break;
            }
            i = i + 1;
        }
        match found {
            Some(e) => {
                proof {
                    assert(wallet@[i as int] == e);
                    assert forall|a: int, b: int|
                        0 <= a < k + 1 && 0 <= b < k + 1 && picked@.push(e)[a].1 == picked@.push(
                            e,
                        )[b].1 implies a == b by {
                        if a < k && b == k {
                            assert(used@[a] == picked@[a].1);
                            assert(used@.contains(used@[a]));
                        }
                        if b < k && a == k {
                            assert(used@[b] == picked@[b].1);
                            assert(used@.contains(used@[b]));
                        }
                    }
                }
                picked.push(e);
                used.push(e.1);
            },
            None => {
                proof {
                    let p = picked@;
                    let w = wallet@.filter(order_is(o));
                    let q = p.filter(order_is(o));
                    crate::resource::lemma_filter_keeps_unique(wallet@, order_is(o));
                    crate::resource::lemma_filter_keeps_unique(p, order_is(o));
                    assert forall|x: Entry| w.contains(x) implies q.contains(x) by {
                        wallet@.lemma_filter_contains_rev(order_is(o), x);
                        let wi = choose|wi: int| 0 <= wi < w.len() && w[wi] == x;
                        wallet@.lemma_filter_pred(order_is(o), wi);
                        let m = choose|m: int| 0 <= m < wallet@.len() && wallet@[m] == x;
                        assert(used@.contains(x.1));
                        let j = choose|j: int| 0 <= j < used@.len() && used@[j] == x.1;
                        let pj = p[j];
                        assert(wallet@.contains(pj));
                        let m2 = choose|m2: int| 0 <= m2 < wallet@.len() && wallet@[m2] == pj;
                        assert(m2 == m);
                        p.lemma_filter_contains(order_is(o), j);
                    }
                    lemma_unique_subset_len(w, q);
                    lemma_picked_count(p, orders@.subrange(0, k as int), o);
                    crate::resource::lemma_filter_step(orders@, k as int, equal_to(o));
                    lemma_times_prefix(orders@, k + 1, o);
                    assert(times(orders@, o) > held_at(wallet@, o));
                }
                return None;
            },
        }
        k = k + 1;
    }
    Some(picked)
}

} // verus!

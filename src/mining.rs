use vstd::prelude::*;

use crate::coin::Coin;
use crate::resource::{
    CoinResource,
    Entry,
    coin_not_in,
    inserted,
    lemma_filter_step,
};

verus! {

/// What the validators reported of one coin: its transfer counter, or
/// `None` when no validator could be reached for it.
#[derive(Clone, Copy, Debug, PartialEq, Eq, Structural)]
pub struct CoinReport {
    pub coin: Coin,
    pub counter: Option<u64>,
}

/// Some report says that `coin` is already registered: its counter is
/// above zero.
pub open spec fn confirmed(reports: Seq<CoinReport>, coin: Coin) -> bool {
    exists|k: int|
        0 <= k < reports.len() && reports[k].coin == coin && match reports[k].counter {
            Some(n) => n > 0,
            None => false,
        }
}

/// Keeps the entries whose coin is reported registered.
pub open spec fn confirmed_entry(reports: Seq<CoinReport>) -> spec_fn(Entry) -> bool {
    |e: Entry| confirmed(reports, e.1)
}

/// Keeps the entries whose coin is not reported registered.
pub open spec fn pending_entry(reports: Seq<CoinReport>) -> spec_fn(Entry) -> bool {
    |e: Entry| !confirmed(reports, e.1)
}

/// Stores a freshly mined coin under its computed order, provided that
/// order meets `min_order`. Returns whether the coin was added.
pub fn record_mined(resource: &mut CoinResource, order: u64, coin: Coin, min_order: u64) -> (r:
    bool)
    requires
        old(resource).wf(),
    ensures
        final(resource).wf(),
        final(resource)@ == (if order >= min_order {
            inserted(old(resource)@, order, coin)
        } else {
            old(resource)@
        }),
        r == (order >= min_order && !crate::resource::has_coin(old(resource)@, coin)),
{
    if order >= min_order {
        resource.insert(order, coin)
    } else {
        false
    }
}

/// The coins that `reports` says are registered.
pub fn confirmed_coins(reports: &Vec<CoinReport>) -> (r: Vec<Coin>)
    ensures
        forall|c: Coin| r@.contains(c) <==> confirmed(reports@, c),
{
    let mut out: Vec<Coin> = Vec::new();
    let mut k: usize = 0;
    while k < reports.len()
        invariant
            k <= reports@.len(),
            forall|c: Coin| out@.contains(c) <==> confirmed(reports@.subrange(0, k as int), c),
        decreases reports@.len() - k,
    {
        let rep = reports[k];
        let ghost before = out@;
        let yes = match rep.counter {
            Some(n) => n > 0,
            None => false,
        };
        if yes {
            out.push(rep.coin);
        }
        proof {
            let s0 = reports@.subrange(0, k as int);
            let s1 = reports@.subrange(0, k + 1);
            assert(s1 =~= s0.push(rep));
            assert forall|c: Coin| out@.contains(c) <==> confirmed(s1, c) by {
                if confirmed(s1, c) {
                    let m = choose|m: int|
                        0 <= m < s1.len() && s1[m].coin == c && match s1[m].counter {
                            Some(n) => n > 0,
                            None => false,
                        };
                    if m < k {
                        assert(s0[m] == s1[m]);
                        assert(before.contains(c));
                        let q = choose|q: int| 0 <= q < before.len() && before[q] == c;
                        assert(out@[q] == c);
                    } else {
                        assert(out@[before.len() as int] == c);
                    }
                }
                if out@.contains(c) {
                    let q = choose|q: int| 0 <= q < out@.len() && out@[q] == c;
                    if q < before.len() {
                        assert(before[q] == c);
                        assert(before.contains(c));
                        let m = choose|m: int|
                            0 <= m < s0.len() && s0[m].coin == c && match s0[m].counter {
                                Some(n) => n > 0,
                                None => false,
                            };
                        assert(s1[m] == s0[m]);
                    } else {
                        assert(s1[k as int] == rep);
                    }
                }
            }
        }
        k = k + 1;
    }
    assert(reports@.subrange(0, reports@.len() as int) =~= reports@);
    out
}

/// One reconciliation pass over per-coin reports: removes from the
/// resource every coin that a validator reports as already registered
/// (counter above zero), and returns the removed entries. Coins with no
/// report, or whose query reached no validator, stay.
pub fn update_resource(resource: &mut CoinResource, reports: &Vec<CoinReport>) -> (removed: Vec<
    Entry,
>)
    requires
        old(resource).wf(),
    ensures
        final(resource).wf(),
        final(resource)@ == old(resource)@.filter(pending_entry(reports@)),
        removed@ == old(resource)@.filter(confirmed_entry(reports@)),
{
    let done = confirmed_coins(reports);
    let ghost s = resource@;
    let ghost p = confirmed_entry(reports@);
    let entries = resource.entries();
    let mut removed: Vec<Entry> = Vec::new();
    let mut i: usize = 0;
    while i < entries.len()
        invariant
            entries@ == s,
            p == confirmed_entry(reports@),
            forall|c: Coin| done@.contains(c) <==> confirmed(reports@, c),
            i <= s.len(),
            removed@ == s.subrange(0, i as int).filter(p),
        decreases s.len() - i,
    {
        let e = entries[i];
        proof {
            lemma_filter_step(s, i as int, p);
        }
        if crate::resource::contains_coin(&done, e.1) {
            removed.push(e);
        }
        i = i + 1;
    }
    assert(s.subrange(0, s.len() as int) =~= s);
    resource.remove_coins(&done);
    assert(coin_not_in(done@) =~= pending_entry(reports@));
    removed
}

} // verus!

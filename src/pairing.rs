use vstd::prelude::*;

use crate::coin::Coin;
use crate::resource::{
    CoinResource,
    Entry,
    coins_unique,
    coin_not_in,
    lemma_filter_keeps_unique,
    lemma_filter_step,
    order_at_least,
};

verus! {

/// A coin considered for pairing: its order, the coin, and whether it was
/// borrowed from the wallet's balance rather than taken from the local
/// resource.
#[derive(Clone, Copy, Debug, PartialEq, Eq, Structural)]
pub struct Candidate {
    pub order: u64,
    pub coin: Coin,
    pub from_wallet: bool,
}

/// A mined coin together with the cheaper fee coin submitted beside it.
#[derive(Clone, Copy, Debug, PartialEq, Eq, Structural)]
pub struct CoinPair {
    pub coin: Candidate,
    pub fee: Candidate,
}

/// Orders do not increase along `s`.
pub open spec fn sorted_desc(s: Seq<Entry>) -> bool {
    forall|i: int, j: int| 0 <= i <= j < s.len() ==> s[i].0 >= s[j].0
}

/// Some candidate of `t` is `coin`.
pub open spec fn taken(t: Seq<Candidate>, coin: Coin) -> bool {
    exists|k: int| 0 <= k < t.len() && t[k].coin == coin
}

/// `e` can be borrowed from the wallet as a fee below `below`.
pub open spec fn borrowable(e: Entry, min_fee: u64, below: u64, t: Seq<Candidate>) -> bool {
    min_fee <= e.0 < below && !taken(t, e.1)
}

/// A pair is admissible: the fee is strictly cheaper than the coin, and
/// both meet their minimum orders.
pub open spec fn pair_fits(min_coin: u64, min_fee: u64) -> spec_fn(CoinPair) -> bool {
    |p: CoinPair| p.fee.order < p.coin.order && p.fee.order >= min_fee && p.coin.order >= min_coin
}

/// The first half of `c` zipped with its second half, position by
/// position.
pub open spec fn halves(c: Seq<Candidate>) -> Seq<CoinPair> {
    Seq::new(c.len() / 2, |i: int| CoinPair { coin: c[i], fee: c[c.len() / 2 + i] })
}

/// The pairs made from the candidate list `c`: the admissible pairs of its
/// two halves.
pub open spec fn pairs_of(c: Seq<Candidate>, min_coin: u64, min_fee: u64) -> Seq<CoinPair> {
    halves(c).filter(pair_fits(min_coin, min_fee))
}

/// `coin` is used by one of `pairs`, on either side, and comes from the
/// wallet exactly when `from_wallet` holds.
pub open spec fn used_in(pairs: Seq<CoinPair>, coin: Coin, from_wallet: bool) -> bool {
    exists|k: int|
        0 <= k < pairs.len() && ((pairs[k].coin.coin == coin && pairs[k].coin.from_wallet
            == from_wallet) || (pairs[k].fee.coin == coin && pairs[k].fee.from_wallet
            == from_wallet))
}

/// Keeps the entries whose coin none of `pairs` uses from the given source.
pub open spec fn unused_by(pairs: Seq<CoinPair>, from_wallet: bool) -> spec_fn(Entry) -> bool {
    |e: Entry| !used_in(pairs, e.1, from_wallet)
}

/// The smaller of two numbers.
pub open spec fn min_nat(a: nat, b: nat) -> nat {
    if a < b {
        a
    } else {
        b
    }
}

/// The eligible entries of `resource`, those of order `min_order_fee` or
/// more, sorted by order from the highest down. Entries of equal order keep
/// the order in which the resource holds them.
pub fn sorted_entries(resource: &CoinResource, min_order_fee: u64) -> (r: Vec<Entry>)
    requires
        resource.wf(),
    ensures
        sorted_desc(r@),
        coins_unique(r@),
        forall|e: Entry| r@.contains(e) <==> (resource@.contains(e) && e.0 >= min_order_fee),
        r@.len() == resource@.filter(order_at_least(min_order_fee)).len(),
{
    let entries = resource.entries();
    let ghost s = entries@;
    let mut out: Vec<Entry> = Vec::new();
    let mut i: usize = 0;
    while i < entries.len()
        invariant
            s == entries@,
            coins_unique(s),
            i <= s.len(),
            sorted_desc(out@),
            coins_unique(out@),
            forall|e: Entry|
                out@.contains(e) <==> (s.subrange(0, i as int).contains(e) && e.0 >= min_order_fee),
            forall|k: int, m: int| 0 <= k < out@.len() && i <= m < s.len() ==> out@[k].1 != s[m].1,
        decreases s.len() - i,
    {
        let e = entries[i];
        proof {
            assert(s.subrange(0, i + 1) =~= s.subrange(0, i as int).push(e));
            assert forall|x: Entry|
                s.subrange(0, i + 1).contains(x) <==> (s.subrange(0, i as int).contains(x) || x
                    == e) by {
                vstd::seq_lib::lemma_seq_contains_after_push(s.subrange(0, i as int), e, x);
            }
        }
        let ghost before_ins = out@;
        if e.0 >= min_order_fee {
            let mut j: usize = 0;
            while j < out.len() && out[j].0 >= e.0
                invariant
                    j <= out@.len(),
                    forall|k: int| 0 <= k < j ==> out@[k].0 >= e.0,
                decreases out@.len() - j,
            {
                j = j + 1;
            }
            let ghost before = out@;
            out.insert(j, e);
            proof {
                assert(out@ == before.insert(j as int, e));
                assert forall|a: int, b: int| 0 <= a <= b < out@.len() implies out@[a].0
                    >= out@[b].0 by {
                    if b > j as int {
                        assert(out@[b] == before[b - 1]);
                        assert(before[j as int].0 < e.0);
                    }
                    if a > j as int {
                        assert(out@[a] == before[a - 1]);
                    }
                }
                assert forall|a: int, b: int|
                    0 <= a < out@.len() && 0 <= b < out@.len() && out@[a].1 == out@[b].1
                        implies a == b by {
                    if a != j as int && b != j as int {
                        let a0 = if a < j { a } else { a - 1 };
                        let b0 = if b < j { b } else { b - 1 };
                        assert(out@[a] == before[a0] && out@[b] == before[b0]);
                    } else if a == j as int && b != j as int {
                        let b0 = if b < j { b } else { b - 1 };
                        assert(out@[b] == before[b0]);
                    } else if b == j as int && a != j as int {
                        let a0 = if a < j { a } else { a - 1 };
                        assert(out@[a] == before[a0]);
                    }
                }
                assert forall|x: Entry| out@.contains(x) <==> (before.contains(x) || x == e) by {
                    if out@.contains(x) {
                        let k = choose|k: int| 0 <= k < out@.len() && out@[k] == x;
                        if k < j {
                            assert(before[k] == x);
                        } else if k > j {
                            assert(before[k - 1] == x);
                        }
                    }
                    if before.contains(x) {
                        let k = choose|k: int| 0 <= k < before.len() && before[k] == x;
                        if k < j {
                            assert(out@[k] == x);
                        } else {
                            assert(out@[k + 1] == x);
                        }
                    }
                    if x == e {
                        assert(out@[j as int] == x);
                    }
                }
                assert forall|k: int, m: int|
                    0 <= k < out@.len() && i + 1 <= m < s.len() implies out@[k].1 != s[m].1 by {
                    if k < j {
                        assert(out@[k] == before[k]);
                    } else if k > j {
                        assert(out@[k] == before[k - 1]);
                    }
                }
            }
        } else {
            proof {
                assert forall|k: int, m: int|
                    0 <= k < out@.len() && i + 1 <= m < s.len() implies out@[k].1 != s[m].1 by {}
            }
        }
        proof {
            assert forall|x: Entry|
                out@.contains(x) <==> (s.subrange(0, i + 1).contains(x) && x.0
                    >= min_order_fee) by {
                vstd::seq_lib::lemma_seq_contains_after_push(s.subrange(0, i as int), e, x);
                if e.0 >= min_order_fee {
                    assert(out@.contains(x) <==> (before_ins.contains(x) || x == e));
                } else {
                    assert(out@ == before_ins);
                }
            }
        }
        i = i + 1;
    }
    proof {
        assert(s.subrange(0, s.len() as int) =~= s);
        let p = order_at_least(min_order_fee);
        let f = s.filter(p);
        lemma_filter_keeps_unique(s, p);
        assert forall|x: Entry| f.contains(x) <==> out@.contains(x) by {
            if f.contains(x) {
                s.lemma_filter_contains_rev(p, x);
                let k = choose|k: int| 0 <= k < f.len() && f[k] == x;
                s.lemma_filter_pred(p, k);
            }
            if out@.contains(x) {
                let k = choose|k: int| 0 <= k < s.len() && s[k] == x;
                s.lemma_filter_contains(p, k);
            }
        }
        lemma_unique_same_len(out@, f);
    }
    out
}

/// Whether some candidate of `t` is `coin`.
pub fn is_taken(t: &Vec<Candidate>, coin: Coin) -> (r: bool)
    ensures
        r == taken(t@, coin),
{
    let mut k: usize = 0;
    while k < t.len()
        invariant
            k <= t@.len(),
            forall|m: int| 0 <= m < k ==> t@[m].coin != coin,
        decreases t@.len() - k,
    {
        if t[k].coin == coin {
            return true;
        }
        k = k + 1;
    }
    false
}

/// The wallet coin to borrow as a fee below `below`: one of the lowest
/// order at or above `min_order_fee` and under `below`, skipping orders that
/// hold no coin and coins already taken.
pub fn lowest_below(
    wallet: &CoinResource,
    min_order_fee: u64,
    below: u64,
    t: &Vec<Candidate>,
) -> (r: Option<Entry>)
    ensures
        match r {
            Some(e) => wallet@.contains(e) && borrowable(e, min_order_fee, below, t@) && forall|
                f: Entry,
            | #[trigger] wallet@.contains(f) && borrowable(f, min_order_fee, below, t@) ==> e.0
                <= f.0,
            None => forall|f: Entry|
                #[trigger] wallet@.contains(f) ==> !borrowable(f, min_order_fee, below, t@),
        },
{
    let entries = wallet.entries();
    let mut best: Option<Entry> = None;
    let mut i: usize = 0;
    while i < entries.len()
        invariant
            entries@ == wallet@,
            i <= entries@.len(),
            match best {
                Some(e) => wallet@.contains(e) && borrowable(e, min_order_fee, below, t@)
                    && forall|k: int|
                    0 <= k < i && borrowable(entries@[k], min_order_fee, below, t@) ==> e.0
                    <= entries@[k].0,
                None => forall|k: int|
                    0 <= k < i ==> !borrowable(entries@[k], min_order_fee, below, t@),
            },
        decreases entries@.len() - i,
    {
        let e = entries[i];
        if min_order_fee <= e.0 && e.0 < below && !is_taken(t, e.1) {
            let better = match best {
                Some(b) => e.0 < b.0,
                None => true,
            };
            if better {
                best = Some(e);
            }
        }
        i = i + 1;
    }
    proof {
        assert forall|f: Entry| #[trigger] wallet@.contains(f) implies (match best {
            Some(e) => borrowable(f, min_order_fee, below, t@) ==> e.0 <= f.0,
            None => !borrowable(f, min_order_fee, below, t@),
        }) by {
            let k = choose|k: int| 0 <= k < entries@.len() && entries@[k] == f;
        }
    }
    best
}

/// No coin appears twice among the candidates `c`.
pub open spec fn distinct_coins(c: Seq<Candidate>) -> bool {
    forall|a: int, b: int| 0 <= a < c.len() && 0 <= b < c.len() && c[a].coin == c[b].coin ==> a == b
}

/// The candidates of `c` from position `n` on are wallet coins of order
/// `min_fee` or more.
pub open spec fn borrowed_from(c: Seq<Candidate>, n: int, wallet: Seq<Entry>, min_fee: u64) -> bool {
    forall|m: int|
        n <= m < c.len() ==> #[trigger] c[m].from_wallet && wallet.contains((c[m].order, c[m].coin))
            && c[m].order >= min_fee
}

/// Appending a wallet coin that was not taken keeps the candidates
/// distinct and borrowed from the wallet past `n`.
proof fn lemma_push_borrowed(
    c: Seq<Candidate>,
    n: int,
    wallet: Seq<Entry>,
    min_fee: u64,
    below: u64,
    e: Entry,
)
    requires
        0 <= n <= c.len(),
        distinct_coins(c),
        borrowed_from(c, n, wallet, min_fee),
        wallet.contains(e),
        borrowable(e, min_fee, below, c),
    ensures
        distinct_coins(c.push(Candidate { order: e.0, coin: e.1, from_wallet: true })),
        borrowed_from(
            c.push(Candidate { order: e.0, coin: e.1, from_wallet: true }),
            n,
            wallet,
            min_fee,
        ),
        c.push(Candidate { order: e.0, coin: e.1, from_wallet: true }).subrange(0, n)
            == c.subrange(0, n),
{
    let d = c.push(Candidate { order: e.0, coin: e.1, from_wallet: true });
    assert forall|a: int, b: int|
        0 <= a < d.len() && 0 <= b < d.len() && d[a].coin == d[b].coin implies a == b by {
        if a < c.len() && b == c.len() {
            assert(c[a].coin != e.1);
        }
        if b < c.len() && a == c.len() {
            assert(c[b].coin != e.1);
        }
    }
    assert(d.subrange(0, n) =~= c.subrange(0, n));
}

/// Positions `m` and `m + 1` of `c` hold two wallet coins borrowed
/// together: both cheaper than the candidate at `m / 2`, which they move to
/// the coin side, the first by more than one order.
pub open spec fn borrowed_pair(c: Seq<Candidate>, m: int) -> bool {
    m + 1 < c.len() && c[m].order + 1 < c[m / 2].order && c[m + 1].order < c[m / 2].order
}

/// The wallet holds no two distinct coins that could be borrowed together
/// for `c`: both below the order of the candidate at the midpoint, one of
/// them by more than one order.
pub open spec fn no_fitting_pair(wallet: Seq<Entry>, min_fee: u64, c: Seq<Candidate>) -> bool {
    let p = c[(c.len() / 2) as int].order;
    forall|f1: Entry, f2: Entry|
        #![trigger wallet.contains(f1), wallet.contains(f2)]
        wallet.contains(f1) && wallet.contains(f2) && f1.1 != f2.1 && borrowable(f1, min_fee, p, c)
            && borrowable(f2, min_fee, p, c) ==> f1.0 + 1 >= p
}

/// A coin is taken by `t` with `x` appended when `x` is that coin or `t`
/// takes it.
proof fn lemma_taken_push(t: Seq<Candidate>, x: Candidate, coin: Coin)
    ensures
        taken(t.push(x), coin) <==> (taken(t, coin) || x.coin == coin),
{
    let u = t.push(x);
    if taken(u, coin) {
        let k = choose|k: int| 0 <= k < u.len() && u[k].coin == coin;
        if k < t.len() {
            assert(t[k] == u[k]);
        }
    }
    if taken(t, coin) {
        let k = choose|k: int| 0 <= k < t.len() && t[k].coin == coin;
        assert(u[k] == t[k]);
    }
    if x.coin == coin {
        assert(u[t.len() as int] == x);
    }
}

/// `c` is a candidate list of one pairing pass over `local` and `wallet`:
/// at most twice as many candidates as local coins of order `min_coin` or
/// more; first the highest eligible local coins, as many as the eligible
/// ones up to that cap, sorted from the highest order down; then, if their
/// count is odd, the cheapest wallet coin below the median whenever the
/// wallet has one; then wallet coins two at a time, each two cheaper than
/// the candidate they move to the coin side, until the cap is reached or
/// the wallet has no such two.
/// No coin appears twice, and every candidate comes from its source with
/// order `min_fee` or more.
pub open spec fn candidates_for(
    c: Seq<Candidate>,
    local: Seq<Entry>,
    wallet: Seq<Entry>,
    min_coin: u64,
    min_fee: u64,
) -> bool {
    let n = min_nat(
        local.filter(order_at_least(min_fee)).len(),
        2 * local.filter(order_at_least(min_coin)).len(),
    );
    &&& c.len() <= 2 * local.filter(order_at_least(min_coin)).len()
    &&& n <= c.len()
    &&& forall|i: int| 0 <= i < c.len() ==> (c[i].from_wallet <==> i >= n)
    &&& (c.len() == n || c.len() % 2 == 0)
    &&& (n % 2 == 1 && (exists|f: Entry|
        #[trigger] wallet.contains(f) && borrowable(
            f,
            min_fee,
            c[(n / 2) as int].order,
            c.subrange(0, n as int),
        )) ==> c.len() > n)
    &&& distinct_coins(c)
    &&& forall|i: int|
        0 <= i < c.len() ==> c[i].order >= min_fee && (if c[i].from_wallet {
            wallet.contains((c[i].order, c[i].coin))
        } else {
            local.contains((c[i].order, c[i].coin))
        })
    &&& forall|i: int, j: int|
        0 <= i <= j < c.len() && !c[j].from_wallet ==> c[i].order >= c[j].order
    &&& forall|e: Entry, i: int|
        local.contains(e) && e.0 >= min_fee && !taken(c, e.1) && 0 <= i < c.len()
            && !c[i].from_wallet ==> c[i].order >= e.0
    &&& (n % 2 == 1 && c.len() > n) ==> (c[n as int].order < c[(n / 2) as int].order && forall|
        f: Entry,
    |
        #[trigger] wallet.contains(f) && borrowable(
            f,
            min_fee,
            c[(n / 2) as int].order,
            c.subrange(0, n as int),
        ) ==> c[n as int].order <= f.0)
    &&& forall|m: int|
        n + n % 2 <= m < c.len() && (m - n - n % 2) % 2 == 0 ==> #[trigger] borrowed_pair(c, m)
    &&& (c.len() % 2 == 0 && 0 < c.len() < 2 * local.filter(order_at_least(min_coin)).len())
        ==> no_fitting_pair(wallet, min_fee, c)
}

/// The candidates of one pairing pass.
///
/// The eligible local coins, sorted by order from the highest down, are
/// cut at twice the number of local coins whose order meets
/// `min_order_coin`. If the count is odd, one wallet coin cheaper than the
/// median candidate is borrowed. While the count is even and below twice
/// that number, wallet coins are borrowed two at a time, as long as the
/// candidate that would move to the coin side exceeds both of them, the
/// cheaper one by more than one order.
pub fn build_candidates(
    local: &CoinResource,
    wallet: &CoinResource,
    min_order_coin: u64,
    min_order_fee: u64,
) -> (r: Vec<Candidate>)
    requires
        local.wf(),
    ensures
        candidates_for(r@, local@, wallet@, min_order_coin, min_order_fee),
{
    let sorted = sorted_entries(local, min_order_fee);
    let k = local.count_at_least(min_order_coin);
    let take: usize = if k > sorted.len() / 2 {
        sorted.len()
    } else {
        2 * k
    };
    let ghost n = take as int;
    let mut cands: Vec<Candidate> = Vec::new();
    let mut i: usize = 0;
    while i < take
        invariant
            take <= sorted@.len(),
            i <= take,
            cands@.len() == i,
            forall|m: int|
                0 <= m < i ==> cands@[m] == (Candidate {
                    order: sorted@[m].0,
                    coin: sorted@[m].1,
                    from_wallet: false,
                }),
        decreases take - i,
    {
        let e = sorted[i];
        cands.push(Candidate { order: e.0, coin: e.1, from_wallet: false });
        i = i + 1;
    }
    let ghost local_part = cands@;
    proof {
        assert forall|a: int, b: int|
            0 <= a < n && 0 <= b < n && local_part[a].coin == local_part[b].coin implies a
                == b by {
            assert(sorted@[a].1 == sorted@[b].1);
        }
        assert(cands@.subrange(0, n) =~= local_part);
    }
    let ghost s = n + n % 2;
    if take % 2 == 1 {
        let median = cands[take / 2].order;
        match lowest_below(wallet, min_order_fee, median, &cands) {
            Some(w) => {
                proof {
                    lemma_push_borrowed(cands@, n, wallet@, min_order_fee, median, w);
                }
                cands.push(Candidate { order: w.0, coin: w.1, from_wallet: true });
                proof {
                    assert(cands@.subrange(0, n) =~= local_part);
                }
            },
            None => {},
        }
    }
    let ghost head = cands@;
    if cands.len() % 2 == 0 {
        while cands.len() > 0 && cands.len() / 2 < k
            invariant
                local_part.len() == n,
                s == n + n % 2,
                s <= cands@.len() <= 2 * k,
                cands@.len() % 2 == 0,
                head.len() == s,
                cands@.subrange(0, s) == head,
                cands@.subrange(0, n) == local_part,
                borrowed_from(cands@, n, wallet@, min_order_fee),
                distinct_coins(cands@),
                forall|m: int|
                    s <= m < cands@.len() && (m - s) % 2 == 0 ==> #[trigger] borrowed_pair(
                        cands@,
                        m,
                    ),
            ensures
                cands@.len() % 2 == 0 && 0 < cands@.len() < 2 * k ==> no_fitting_pair(
                    wallet@,
                    min_order_fee,
                    cands@,
                ),
            decreases 2 * k - cands@.len(),
        {
            let len = cands.len();
            let p = cands[len / 2].order;
            let first = match lowest_below(wallet, min_order_fee, p, &cands) {
                Some(w) => w,
                None => {
                    break;
                },
            };
            if !(first.0 < p && p - first.0 > 1) {
                break;
            }
            let ghost before = cands@;
            let c1 = Candidate { order: first.0, coin: first.1, from_wallet: true };
            proof {
                lemma_push_borrowed(cands@, n, wallet@, min_order_fee, p, first);
            }
            cands.push(c1);
            match lowest_below(wallet, min_order_fee, p, &cands) {
                Some(w) => {
                    proof {
                        lemma_push_borrowed(cands@, n, wallet@, min_order_fee, p, w);
                    }
                    cands.push(Candidate { order: w.0, coin: w.1, from_wallet: true });
                    proof {
                        let c = cands@;
                        assert(c.subrange(0, s) =~= head) by {
                            assert forall|i: int| 0 <= i < s implies c[i] == before[i] by {}
                        }
                        assert(c.subrange(0, n) =~= local_part) by {
                            assert forall|i: int| 0 <= i < n implies c[i] == before[i] by {}
                        }
                        assert(c[(len / 2) as int] == before[(len / 2) as int]);
                        assert(borrowed_pair(c, len as int));
                        assert forall|m: int|
                            s <= m < c.len() && (m - s) % 2 == 0 implies #[trigger] borrowed_pair(
                                c,
                                m,
                            ) by {
                            if m < len {
                                assert(borrowed_pair(before, m));
                                assert(c[m] == before[m] && c[m + 1] == before[m + 1] && c[m / 2]
                                    == before[m / 2]);
                            }
                        }
                    }
                },
                None => {
                    proof {
                        assert forall|f1: Entry, f2: Entry|
                            wallet@.contains(f1) && wallet@.contains(f2) && f1.1 != f2.1
                                && borrowable(f1, min_order_fee, p, before) && borrowable(
                                f2,
                                min_order_fee,
                                p,
                                before,
                            ) implies f1.0 + 1 >= p by {
                            lemma_taken_push(before, c1, f1.1);
                            lemma_taken_push(before, c1, f2.1);
                        }
                    }
                    cands.pop();
                    proof {
                        assert(cands@ =~= before);
                    }
                    break;
                },
            }
        }
    }
    proof {
        let r = cands@;
        if n % 2 == 1 && r.len() > n {
            assert(r.subrange(0, s) == head);
            assert(head.len() == n + 1);
            assert(r[n] == head[n]);
            assert(r[n / 2] == head[n / 2]);
            assert(r.subrange(0, n) == local_part);
        }
    }
    proof {
        let r = cands@;
        assert(r.subrange(0, n) == local_part);
        assert forall|i: int| 0 <= i < n implies r[i] == local_part[i] by {
            assert(r.subrange(0, n)[i] == r[i]);
            assert(sorted@.contains(sorted@[i]));
        }
        assert forall|i: int| 0 <= i < r.len() implies r[i].order >= min_order_fee && (if r[i].from_wallet {
            wallet@.contains((r[i].order, r[i].coin))
        } else {
            local@.contains((r[i].order, r[i].coin))
        }) by {
            if i < n {
                assert(r[i] == local_part[i]);
                assert(sorted@.contains(sorted@[i]));
                assert((r[i].order, r[i].coin) == sorted@[i]);
            } else {
                assert(borrowed_from(r, n, wallet@, min_order_fee));
                assert(r[i].from_wallet);
            }
        }
        assert forall|i: int| n <= i < r.len() implies #[trigger] r[i].from_wallet
            && wallet@.contains((r[i].order, r[i].coin)) && r[i].order >= min_order_fee by {
            assert(borrowed_from(r, n, wallet@, min_order_fee));
        }
        assert forall|e: Entry, i: int|
            local@.contains(e) && e.0 >= min_order_fee && !taken(r, e.1) && 0 <= i < r.len()
                && !r[i].from_wallet implies r[i].order >= e.0 by {
            assert(sorted@.contains(e));
            let q = choose|q: int| 0 <= q < sorted@.len() && sorted@[q] == e;
            if q < n {
                assert(r[q].coin == e.1);
            }
        }
    }
    cands
}

/// Splits the candidates at their midpoint and zips the two halves
/// position by position, the first half on the coin side; keeps the pairs
/// whose fee is strictly cheaper than the coin and whose orders meet their
/// minimums. The others are left unused.
pub fn pair_up(cands: &Vec<Candidate>, min_order_coin: u64, min_order_fee: u64) -> (r: Vec<
    CoinPair,
>)
    ensures
        r@ == pairs_of(cands@, min_order_coin, min_order_fee),
        forall|k: int| 0 <= k < r@.len() ==> #[trigger] pair_fits(min_order_coin, min_order_fee)(r@[k]),
        r@.len() <= cands@.len() / 2,
{
    let ghost hv = halves(cands@);
    let ghost pf = pair_fits(min_order_coin, min_order_fee);
    let len = cands.len();
    let h = len / 2;
    let mut out: Vec<CoinPair> = Vec::new();
    let mut i: usize = 0;
    while i < h
        invariant
            len == cands@.len(),
            h == len / 2,
            hv == halves(cands@),
            pf == pair_fits(min_order_coin, min_order_fee),
            i <= h,
            out@ == hv.subrange(0, i as int).filter(pf),
        decreases h - i,
    {
        let p = CoinPair { coin: cands[i], fee: cands[h + i] };
        proof {
            lemma_filter_step(hv, i as int, pf);
            assert(hv[i as int] == p);
        }
        if p.fee.order < p.coin.order && p.fee.order >= min_order_fee && p.coin.order
            >= min_order_coin {
            out.push(p);
        }
        i = i + 1;
    }
    proof {
        assert(hv.subrange(0, h as int) =~= hv);
        assert forall|k: int| 0 <= k < out@.len() implies #[trigger] pf(out@[k]) by {
            hv.lemma_filter_pred(pf, k);
        }
        hv.lemma_filter_len(pf);
    }
    out
}

/// The coins that `pairs` uses from the given source, in pair order.
fn coins_used(pairs: &Vec<CoinPair>, from_wallet: bool) -> (r: Vec<Coin>)
    ensures
        forall|c: Coin| r@.contains(c) <==> used_in(pairs@, c, from_wallet),
{
    let mut out: Vec<Coin> = Vec::new();
    let mut k: usize = 0;
    while k < pairs.len()
        invariant
            k <= pairs@.len(),
            forall|c: Coin| out@.contains(c) <==> used_in(pairs@.subrange(0, k as int), c, from_wallet),
        decreases pairs@.len() - k,
    {
        let p = pairs[k];
        let ghost before = out@;
        if p.coin.from_wallet == from_wallet {
            out.push(p.coin.coin);
        }
        if p.fee.from_wallet == from_wallet {
            out.push(p.fee.coin);
        }
        proof {
            let s0 = pairs@.subrange(0, k as int);
            let s1 = pairs@.subrange(0, k + 1);
            assert forall|c: Coin| out@.contains(c) <==> used_in(s1, c, from_wallet) by {
                if used_in(s1, c, from_wallet) {
                    let m = choose|m: int|
                        0 <= m < s1.len() && ((s1[m].coin.coin == c && s1[m].coin.from_wallet
                            == from_wallet) || (s1[m].fee.coin == c && s1[m].fee.from_wallet
                            == from_wallet));
                    if m < k {
                        assert(s0[m] == s1[m]);
                        assert(used_in(s0, c, from_wallet));
                        assert(before.contains(c));
                        let q = choose|q: int| 0 <= q < before.len() && before[q] == c;
                        assert(out@[q] == c);
                    } else {
                        assert(s1[m] == p);
                        if p.coin.coin == c && p.coin.from_wallet == from_wallet {
                            assert(out@[before.len() as int] == c);
                        } else {
                            assert(out@[out@.len() - 1] == c);
                        }
                    }
                }
                if out@.contains(c) {
                    let q = choose|q: int| 0 <= q < out@.len() && out@[q] == c;
                    if q < before.len() {
                        assert(before[q] == c);
                        assert(before.contains(c));
                        let m = choose|m: int|
                            0 <= m < s0.len() && ((s0[m].coin.coin == c && s0[m].coin.from_wallet
                                == from_wallet) || (s0[m].fee.coin == c
                                && s0[m].fee.from_wallet == from_wallet));
                        assert(s1[m] == s0[m]);
                    } else {
                        assert(s1[k as int] == p);
                    }
                }
            }
        }
        k = k + 1;
    }
    assert(pairs@.subrange(0, pairs@.len() as int) =~= pairs@);
    out
}

/// One pairing pass: builds the candidates, pairs them, and removes every
/// coin that a pair uses from its source, the local resource or the
/// wallet's balance. Coins left unused stay for the next pass.
pub fn prepare_coins(
    local: &mut CoinResource,
    wallet: &mut CoinResource,
    min_order_coin: u64,
    min_order_fee: u64,
) -> (r: Vec<CoinPair>)
    requires
        old(local).wf(),
        old(wallet).wf(),
    ensures
        final(local).wf(),
        final(wallet).wf(),
        exists|c: Seq<Candidate>|
            #[trigger] candidates_for(c, old(local)@, old(wallet)@, min_order_coin, min_order_fee)
                && r@ == pairs_of(c, min_order_coin, min_order_fee),
        forall|k: int|
            0 <= k < r@.len() ==> r@[k].fee.order < r@[k].coin.order && r@[k].fee.order
                >= min_order_fee && r@[k].coin.order >= min_order_coin,
        r@.len() <= old(local)@.filter(order_at_least(min_order_coin)).len(),
        final(local)@ == old(local)@.filter(unused_by(r@, false)),
        final(wallet)@ == old(wallet)@.filter(unused_by(r@, true)),
{
    let cands = build_candidates(local, wallet, min_order_coin, min_order_fee);
    let pairs = pair_up(&cands, min_order_coin, min_order_fee);
    let local_used = coins_used(&pairs, false);
    let wallet_used = coins_used(&pairs, true);
    local.remove_coins(&local_used);
    wallet.remove_coins(&wallet_used);
    proof {
        assert(coin_not_in(local_used@) =~= unused_by(pairs@, false));
        assert(coin_not_in(wallet_used@) =~= unused_by(pairs@, true));
        assert forall|k: int| 0 <= k < pairs@.len() implies pairs@[k].fee.order
            < pairs@[k].coin.order && pairs@[k].fee.order >= min_order_fee
            && pairs@[k].coin.order >= min_order_coin by {
            assert(pair_fits(min_order_coin, min_order_fee)(pairs@[k]));
        }
    }
    pairs
}

/// Two sequences without repeated coins that hold the same entries have the
/// same length.
proof fn lemma_unique_same_len(a: Seq<Entry>, b: Seq<Entry>)
    requires
        coins_unique(a),
        coins_unique(b),
        forall|x: Entry| a.contains(x) <==> b.contains(x),
    ensures
        a.len() == b.len(),
{
    assert(a.no_duplicates());
    assert(b.no_duplicates());
    a.unique_seq_to_set();
    b.unique_seq_to_set();
    assert(a.to_set() =~= b.to_set());
}

} // verus!

use vstd::prelude::*;
use vstd::arithmetic::power2::pow2;

use crate::coin::Coin;

verus! {

/// An entry of a coin resource: the order of a coin, then the coin.
pub type Entry = (u64, Coin);

/// `s` holds `coin`, under whatever order.
pub open spec fn has_coin(s: Seq<Entry>, coin: Coin) -> bool {
    exists|i: int| 0 <= i < s.len() && s[i].1 == coin
}

/// No coin appears twice in `s`, so neither under two orders.
pub open spec fn coins_unique(s: Seq<Entry>) -> bool {
    forall|i: int, j: int| 0 <= i < s.len() && 0 <= j < s.len() && s[i].1 == s[j].1 ==> i == j
}

/// `s` after inserting `coin` under `order`: a coin that is already held is
/// left where it is.
pub open spec fn inserted(s: Seq<Entry>, order: u64, coin: Coin) -> Seq<Entry> {
    if has_coin(s, coin) {
        s
    } else {
        s.push((order, coin))
    }
}

/// `s` after inserting each entry of `es`, first to last.
pub open spec fn inserted_all(s: Seq<Entry>, es: Seq<Entry>) -> Seq<Entry>
    decreases es.len(),
{
    if es.len() == 0 {
        s
    } else {
        inserted(inserted_all(s, es.drop_last()), es.last().0, es.last().1)
    }
}

/// Every coin of `s` is stored under the order that `order_of` gives it.
pub open spec fn stored_under(s: Seq<Entry>, order_of: spec_fn(Coin) -> u64) -> bool {
    forall|i: int| 0 <= i < s.len() ==> s[i].0 == order_of(s[i].1)
}

/// Keeps the entries that are not `(order, coin)`.
pub open spec fn other_than(order: u64, coin: Coin) -> spec_fn(Entry) -> bool {
    |e: Entry| e != (order, coin)
}

/// Keeps the entries whose coin is not among `coins`.
pub open spec fn coin_not_in(coins: Seq<Coin>) -> spec_fn(Entry) -> bool {
    |e: Entry| !coins.contains(e.1)
}

/// Keeps the entries that `remote` does not hold.
pub open spec fn absent_from(remote: Seq<Entry>) -> spec_fn(Entry) -> bool {
    |e: Entry| !remote.contains(e)
}

/// Keeps the entries of order `min` or more.
pub open spec fn order_at_least(min: u64) -> spec_fn(Entry) -> bool {
    |e: Entry| e.0 >= min
}

/// One step of a filter that walks `s` from the front.
pub proof fn lemma_filter_step<A>(s: Seq<A>, i: int, p: spec_fn(A) -> bool)
    requires
        0 <= i < s.len(),
    ensures
        s.subrange(0, i + 1).filter(p) == (if p(s[i]) {
            s.subrange(0, i).filter(p).push(s[i])
        } else {
            s.subrange(0, i).filter(p)
        }),
{
    reveal(Seq::filter);
    assert(s.subrange(0, i + 1).drop_last() =~= s.subrange(0, i));
}

/// Filtering keeps coins unique.
pub proof fn lemma_filter_keeps_unique(s: Seq<Entry>, p: spec_fn(Entry) -> bool)
    requires
        coins_unique(s),
    ensures
        coins_unique(s.filter(p)),
    decreases s.len(),
{
    reveal(Seq::filter);
    if s.len() > 0 {
        let r = s.drop_last();
        assert(coins_unique(r));
        lemma_filter_keeps_unique(r, p);
        let f = r.filter(p);
        if p(s.last()) {
            assert forall|k: int| 0 <= k < f.len() implies f[k].1 != s.last().1 by {
                assert(f.contains(f[k]));
                r.lemma_filter_contains_rev(p, f[k]);
                let j = choose|j: int| 0 <= j < r.len() && r[j] == f[k];
                assert(s[j] == r[j]);
            }
            let g = f.push(s.last());
            assert forall|i: int, j: int|
                0 <= i < g.len() && 0 <= j < g.len() && g[i].1 == g[j].1 implies i == j by {
                if i < f.len() && j < f.len() {
                    assert(f[i] == g[i] && f[j] == g[j]);
                }
            }
        }
    }
}

/// Inserting the same coin twice under the same order leaves the resource as
/// one insertion left it.
pub proof fn lemma_insert_idempotent(s: Seq<Entry>, order: u64, coin: Coin)
    ensures
        inserted(inserted(s, order, coin), order, coin) == inserted(s, order, coin),
{
    if !has_coin(s, coin) {
        let t = s.push((order, coin));
        assert(t[s.len() as int].1 == coin);
        assert(has_coin(t, coin));
    }
}

/// Where every stored coin sits under its computed order, inserting a coin
/// under its computed order keeps it so.
pub proof fn lemma_insert_keeps_orders(
    s: Seq<Entry>,
    order_of: spec_fn(Coin) -> u64,
    order: u64,
    coin: Coin,
)
    requires
        stored_under(s, order_of),
        order == order_of(coin),
    ensures
        stored_under(inserted(s, order, coin), order_of),
        inserted(s, order, coin).contains((order, coin)) || has_coin(s, coin),
{
    if !has_coin(s, coin) {
        assert(s.push((order, coin))[s.len() as int] == (order, coin));
    }
}

/// Reconciling against a remote map removes exactly the entries that both
/// hold: what is left is `local` without `local ∩ remote`.
pub proof fn lemma_reconcile_difference(local: Seq<Entry>, remote: Seq<Entry>)
    ensures
        local.filter(absent_from(remote)).to_set() == local.to_set().difference(
            local.to_set().intersect(remote.to_set()),
        ),
{
    let p = absent_from(remote);
    let f = local.filter(p);
    assert forall|e: Entry| f.contains(e) <==> local.contains(e) && !remote.contains(e) by {
        if f.contains(e) {
            local.lemma_filter_contains_rev(p, e);
            let k = choose|k: int| 0 <= k < f.len() && f[k] == e;
            local.lemma_filter_pred(p, k);
        }
        if local.contains(e) && !remote.contains(e) {
            let k = choose|k: int| 0 <= k < local.len() && local[k] == e;
            local.lemma_filter_contains(p, k);
        }
    }
    assert(f.to_set() =~= local.to_set().difference(local.to_set().intersect(remote.to_set())));
}

/// Loading the entries of a resource into an empty one gives the same
/// resource back: a saved cache reloads identical.
pub proof fn lemma_reload_identical(s: Seq<Entry>)
    requires
        coins_unique(s),
    ensures
        inserted_all(Seq::empty(), s) == s,
    decreases s.len(),
{
    if s.len() > 0 {
        let r = s.drop_last();
        assert(coins_unique(r));
        lemma_reload_identical(r);
        assert(!has_coin(r, s.last().1)) by {
            if has_coin(r, s.last().1) {
                let j = choose|j: int| 0 <= j < r.len() && r[j].1 == s.last().1;
                assert(s[j] == r[j]);
            }
        }
        assert(r.push(s.last()) =~= s);
    }
}

/// The coins discovered locally and not yet confirmed, each under its
/// order. No coin is held twice.
pub struct CoinResource {
    entries: Vec<Entry>,
}

impl View for CoinResource {
    type V = Seq<Entry>;

    closed spec fn view(&self) -> Seq<Entry> {
        self.entries@
    }
}

impl CoinResource {
    /// Well-formed: no coin is held twice.
    pub open spec fn wf(&self) -> bool {
        coins_unique(self@)
    }

    /// An empty resource.
    pub fn new() -> (r: CoinResource)
        ensures
            r.wf(),
            r@ == Seq::<Entry>::empty(),
    {
        CoinResource { entries: Vec::new() }
    }

    /// The number of coins held.
    pub fn len(&self) -> (n: usize)
        ensures
            n == self@.len(),
    {
        self.entries.len()
    }

    /// Whether no coin is held.
    pub fn is_empty(&self) -> (r: bool)
        ensures
            r == (self@.len() == 0),
    {
        self.entries.len() == 0
    }

    /// The entries, in the order in which they were inserted.
    pub fn entries(&self) -> (r: &Vec<Entry>)
        ensures
            r@ == self@,
    {
        &self.entries
    }

    /// Where `coin` is held, if it is.
    fn position_of(&self, coin: Coin) -> (r: Option<usize>)
        ensures
            match r {
                Some(i) => i < self@.len() && self@[i as int].1 == coin,
                None => !has_coin(self@, coin),
            },
    {
        let mut i: usize = 0;
        while i < self.entries.len()
            invariant
                i <= self@.len(),
                forall|j: int| 0 <= j < i ==> self@[j].1 != coin,
            decreases self@.len() - i,
        {
            if self.entries[i].1 == coin {
                return Some(i);
            }
            i = i + 1;
        }
        None
    }

    /// The order under which `coin` is held, if it is.
    pub fn order_of_coin(&self, coin: Coin) -> (r: Option<u64>)
        requires
            self.wf(),
        ensures
            match r {
                Some(o) => self@.contains((o, coin)),
                None => !has_coin(self@, coin),
            },
    {
        match self.position_of(coin) {
            Some(i) => {
                let e = self.entries[i];
                assert(self@[i as int] == (e.0, coin));
                Some(e.0)
            },
            None => None,
        }
    }

    /// Whether `coin` is held under `order`.
    pub fn contains(&self, order: u64, coin: Coin) -> (r: bool)
        requires
            self.wf(),
        ensures
            r == self@.contains((order, coin)),
    {
        match self.position_of(coin) {
            Some(i) => {
                let e = self.entries[i];
                proof {
                    if self@.contains((order, coin)) {
                        let j = choose|j: int| 0 <= j < self@.len() && self@[j] == (order, coin);
                        assert(j == i as int);
                    }
                }
                e.0 == order
            },
            None => false,
        }
    }

    /// A coin of order between `lo` and `hi`, both included, chosen
    /// uniformly at random among those held; `None` when none is.
    pub fn select_in_range(&self, lo: u64, hi: u64) -> (r: Option<Entry>)
        ensures
            match r {
                Some(e) => self@.contains(e) && lo <= e.0 <= hi,
                None => forall|i: int| 0 <= i < self@.len() ==> !(lo <= #[trigger] self@[i].0 <= hi),
            },
    {
        let mut eligible: Vec<usize> = Vec::new();
        let mut i: usize = 0;
        while i < self.entries.len()
            invariant
                i <= self@.len(),
                forall|k: int|
                    0 <= k < eligible@.len() ==> #[trigger] eligible@[k] < self@.len() && lo
                        <= self@[eligible@[k] as int].0 <= hi,
                eligible@.len() == 0 ==> forall|m: int| 0 <= m < i ==> !(lo <= #[trigger] self@[m].0 <= hi),
            decreases self@.len() - i,
        {
            let o = self.entries[i].0;
            if lo <= o && o <= hi {
                eligible.push(i);
            }
            i = i + 1;
        }
        if eligible.len() == 0 {
            return None;
        }
        let k = random_below(eligible.len());
        let at = eligible[k];
        assert(at < self@.len());
        let e = self.entries[at];
        assert(self@[at as int] == e);
        Some(e)
    }

    /// Inserts `coin` under `order`. A coin that is already held is left as
    /// it is, so inserting twice is inserting once. Returns whether the coin
    /// was added.
    pub fn insert(&mut self, order: u64, coin: Coin) -> (r: bool)
        requires
            old(self).wf(),
        ensures
            final(self).wf(),
            final(self)@ == inserted(old(self)@, order, coin),
            r == !has_coin(old(self)@, coin),
    {
        match self.position_of(coin) {
            Some(_) => false,
            None => {
                self.entries.push((order, coin));
                true
            },
        }
    }

    /// A resource holding the given entries, inserted first to last.
    pub fn from_entries(entries: &Vec<Entry>) -> (r: CoinResource)
        ensures
            r.wf(),
            r@ == inserted_all(Seq::empty(), entries@),
    {
        let mut r = CoinResource::new();
        let mut i: usize = 0;
        while i < entries.len()
            invariant
                i <= entries@.len(),
                r.wf(),
                r@ == inserted_all(Seq::empty(), entries@.subrange(0, i as int)),
            decreases entries@.len() - i,
        {
            let e = entries[i];
            r.insert(e.0, e.1);
            proof {
                let s = entries@.subrange(0, i + 1);
                assert(s.drop_last() =~= entries@.subrange(0, i as int));
                assert(s.last() == e);
            }
            i = i + 1;
        }
        assert(entries@.subrange(0, entries@.len() as int) =~= entries@);
        r
    }

    /// Removes `coin` held under `order`. Returns whether it was held.
    pub fn remove(&mut self, order: u64, coin: Coin) -> (r: bool)
        requires
            old(self).wf(),
        ensures
            final(self).wf(),
            final(self)@ == old(self)@.filter(other_than(order, coin)),
            r == old(self)@.contains((order, coin)),
    {
        let ghost s = self@;
        let ghost p = other_than(order, coin);
        let mut kept: Vec<Entry> = Vec::new();
        let mut found = false;
        let mut i: usize = 0;
        while i < self.entries.len()
            invariant
                self@ == s,
                p == other_than(order, coin),
                i <= s.len(),
                kept@ == s.subrange(0, i as int).filter(p),
                found == s.subrange(0, i as int).contains((order, coin)),
            decreases s.len() - i,
        {
            let e = self.entries[i];
            proof {
                lemma_filter_step(s, i as int, p);
                assert(s.subrange(0, i + 1) =~= s.subrange(0, i as int).push(e));
                vstd::seq_lib::lemma_seq_contains_after_push(
                    s.subrange(0, i as int),
                    e,
                    (order, coin),
                );
            }
            if e.0 == order && e.1 == coin {
                found = true;
            } else {
                kept.push(e);
            }
            i = i + 1;
        }
        proof {
            assert(s.subrange(0, s.len() as int) =~= s);
            lemma_filter_keeps_unique(s, p);
        }
        self.entries = kept;
        found
    }

    /// Removes every entry whose coin is among `coins`, whatever its order.
    pub fn remove_coins(&mut self, coins: &Vec<Coin>)
        requires
            old(self).wf(),
        ensures
            final(self).wf(),
            final(self)@ == old(self)@.filter(coin_not_in(coins@)),
    {
        let ghost s = self@;
        let ghost p = coin_not_in(coins@);
        let mut kept: Vec<Entry> = Vec::new();
        let mut i: usize = 0;
        while i < self.entries.len()
            invariant
                self@ == s,
                p == coin_not_in(coins@),
                i <= s.len(),
                kept@ == s.subrange(0, i as int).filter(p),
            decreases s.len() - i,
        {
            let e = self.entries[i];
            proof {
                lemma_filter_step(s, i as int, p);
            }
            if !contains_coin(coins, e.1) {
                kept.push(e);
            }
            i = i + 1;
        }
        proof {
            assert(s.subrange(0, s.len() as int) =~= s);
            lemma_filter_keeps_unique(s, p);
        }
        self.entries = kept;
    }

    /// Reconciles with a remote map: removes every entry that `remote` also
    /// holds and leaves the others untouched.
    pub fn reconcile(&mut self, remote: &CoinResource)
        requires
            old(self).wf(),
            remote.wf(),
        ensures
            final(self).wf(),
            final(self)@ == old(self)@.filter(absent_from(remote@)),
    {
        let ghost s = self@;
        let ghost p = absent_from(remote@);
        let mut kept: Vec<Entry> = Vec::new();
        let mut i: usize = 0;
        while i < self.entries.len()
            invariant
                self@ == s,
                remote.wf(),
                p == absent_from(remote@),
                i <= s.len(),
                kept@ == s.subrange(0, i as int).filter(p),
            decreases s.len() - i,
        {
            let e = self.entries[i];
            proof {
                lemma_filter_step(s, i as int, p);
            }
            if !remote.contains(e.0, e.1) {
                kept.push(e);
            }
            i = i + 1;
        }
        proof {
            assert(s.subrange(0, s.len() as int) =~= s);
            lemma_filter_keeps_unique(s, p);
        }
        self.entries = kept;
    }

    /// The number of coins of order `min` or more.
    pub fn count_at_least(&self, min: u64) -> (n: usize)
        ensures
            n == self@.filter(order_at_least(min)).len(),
    {
        let ghost s = self@;
        let ghost p = order_at_least(min);
        let mut n: usize = 0;
        let mut i: usize = 0;
        while i < self.entries.len()
            invariant
                self@ == s,
                p == order_at_least(min),
                i <= s.len(),
                n == s.subrange(0, i as int).filter(p).len(),
                n <= i,
            decreases s.len() - i,
        {
            proof {
                lemma_filter_step(s, i as int, p);
            }
            if self.entries[i].0 >= min {
                n = n + 1;
            }
            i = i + 1;
        }
        assert(s.subrange(0, s.len() as int) =~= s);
        n
    }
}

/// The value of the coins of `s`: a coin of order `o` is worth `2^o`.
pub open spec fn balance_of(s: Seq<Entry>) -> nat
    decreases s.len(),
{
    if s.len() == 0 {
        0
    } else {
        balance_of(s.drop_last()) + pow2(s.last().0 as nat)
    }
}

/// The value of a prefix is at most the value of the whole.
proof fn lemma_balance_prefix(s: Seq<Entry>, j: int)
    requires
        0 <= j <= s.len(),
    ensures
        balance_of(s.subrange(0, j)) <= balance_of(s),
    decreases s.len() - j,
{
    if j < s.len() {
        lemma_balance_prefix(s, j + 1);
        assert(s.subrange(0, j + 1).drop_last() =~= s.subrange(0, j));
    } else {
        assert(s.subrange(0, j) =~= s);
    }
}

/// `2^order`, or `None` when it does not fit in 128 bits.
fn checked_pow2(order: u64) -> (r: Option<u128>)
    ensures
        match r {
            Some(v) => v == pow2(order as nat),
            None => pow2(order as nat) > u128::MAX,
        },
{
    let mut v: u128 = 1;
    let mut i: u64 = 0;
    proof {
        vstd::arithmetic::power2::lemma_pow2(0);
        vstd::arithmetic::power::lemma_pow0(2);
    }
    while i < order
        invariant
            i <= order,
            v == pow2(i as nat),
        decreases order - i,
    {
        proof {
            vstd::arithmetic::power2::lemma_pow2_unfold((i + 1) as nat);
        }
        match v.checked_mul(2) {
            Some(w) => {
                v = w;
            },
            None => {
                proof {
                    assert(pow2((i + 1) as nat) <= pow2(order as nat)) by {
                        if i + 1 < order {
                            vstd::arithmetic::power2::lemma_pow2_strictly_increases(
                                (i + 1) as nat,
                                order as nat,
                            );
                        }
                    }
                }
                return None;
            },
        }
        i = i + 1;
    }
    Some(v)
}

/// The total value of the coins in `resource`, each coin of order `o`
/// worth `2^o`; `None` when it does not fit in 128 bits.
pub fn get_total_balance(resource: &CoinResource) -> (r: Option<u128>)
    ensures
        match r {
            Some(b) => b == balance_of(resource@),
            None => balance_of(resource@) > u128::MAX,
        },
{
    let entries = resource.entries();
    let ghost s = entries@;
    let mut sum: u128 = 0;
    let mut i: usize = 0;
    while i < entries.len()
        invariant
            s == entries@,
            s == resource@,
            i <= s.len(),
            sum == balance_of(s.subrange(0, i as int)),
        decreases s.len() - i,
    {
        proof {
            assert(s.subrange(0, i + 1).drop_last() =~= s.subrange(0, i as int));
            lemma_balance_prefix(s, i + 1);
        }
        let step = match checked_pow2(entries[i].0) {
            Some(v) => v,
            None => {
                return None;
            },
        };
        sum = match sum.checked_add(step) {
            Some(v) => v,
            None => {
                return None;
            },
        };
        i = i + 1;
    }
    assert(s.subrange(0, s.len() as int) =~= s);
    Some(sum)
}

/// Relies on rand::random_range: a value drawn from `0..n`, a range that
/// must not be empty.
#[verifier::external_body]
fn random_below(n: usize) -> (r: usize)
    requires
        n > 0,
    ensures
        r < n,
{
    rand::random_range(0..n)
}

/// Whether `coin` is among `coins`.
pub fn contains_coin(coins: &Vec<Coin>, coin: Coin) -> (r: bool)
    ensures
        r == coins@.contains(coin),
{
    let mut i: usize = 0;
    while i < coins.len()
        invariant
            i <= coins@.len(),
            forall|j: int| 0 <= j < i ==> coins@[j] != coin,
        decreases coins@.len() - i,
    {
        if coins[i] == coin {
            return true;
        }
        i = i + 1;
    }
    false
}

} // verus!

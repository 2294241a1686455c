use vstd::prelude::*;

use crate::coin::{Word256, is_zero, zero};

verus! {

/// Why account data cannot be used.
#[derive(Clone, Copy, Debug, PartialEq, Eq, Structural)]
pub enum AppDataError {
    /// The account holds no seed yet.
    Empty,
    /// The stored data did not decrypt to text: likely a wrong password.
    WrongPassword,
    /// The stored data is not made of whole cipher blocks.
    Corrupted,
}

/// The texts of a list of strings.
pub open spec fn texts(v: Seq<String>) -> Seq<Seq<char>> {
    v.map_values(|s: String| s@)
}

/// The first position of `t` among `v`, if any.
pub open spec fn first_index(v: Seq<Seq<char>>, t: Seq<char>) -> Option<int> {
    if exists|i: int| 0 <= i < v.len() && v[i] == t {
        Some(choose|i: int| 0 <= i < v.len() && v[i] == t && forall|j: int| 0 <= j < i ==> v[j] != t)
    } else {
        None
    }
}

/// The validator endpoints every new account starts with.
pub open spec fn default_validator_list() -> Seq<Seq<char>> {
    seq![
        "http://85.99.244.254:5772"@,
        "http://89.179.245.236:5772"@,
        "http://89.179.245.236:5773"@,
    ]
}

/// The validators every new account starts with.
pub fn default_validators() -> (r: Vec<String>)
    ensures
        texts(r@) == default_validator_list(),
{
    let mut r: Vec<String> = Vec::new();
    r.push("http://85.99.244.254:5772".to_owned());
    r.push("http://89.179.245.236:5772".to_owned());
    r.push("http://89.179.245.236:5773".to_owned());
    assert(texts(r@) =~= default_validator_list());
    r
}

/// Account data: the seed, the wallets (public key, private key) and the
/// ordered list of validator endpoints.
pub struct AppData {
    seed: Word256,
    wallets_map: Vec<(String, Word256)>,
    wallets_seq: Vec<String>,
    validators: Vec<String>,
}

impl AppData {
    /// The seed.
    pub closed spec fn seed_value(&self) -> Word256 {
        self.seed
    }

    /// The validator endpoints, in order.
    pub closed spec fn validator_list(&self) -> Seq<Seq<char>> {
        texts(self.validators@)
    }

    /// The public keys of the wallets, in order of creation.
    pub closed spec fn wallet_list(&self) -> Seq<Seq<char>> {
        texts(self.wallets_seq@)
    }

    /// The wallets, public key and private key.
    pub closed spec fn wallet_keys(&self) -> Seq<(Seq<char>, Word256)> {
        self.wallets_map@.map_values(|w: (String, Word256)| (w.0@, w.1))
    }

    /// New account data from raw fields.
    pub fn new(
        seed: Word256,
        wallets_map: Vec<(String, Word256)>,
        wallets_seq: Vec<String>,
        validators: Vec<String>,
    ) -> (r: AppData)
        ensures
            r.seed_value() == seed,
            r.validator_list() == texts(validators@),
            r.wallet_list() == texts(wallets_seq@),
            r.wallet_keys() == wallets_map@.map_values(|w: (String, Word256)| (w.0@, w.1)),
    {
        AppData { seed, wallets_map, wallets_seq, validators }
    }

    /// Empty account data: no seed, no wallets, the default validators.
    pub fn create_empty() -> (r: AppData)
        ensures
            is_zero(r.seed_value()),
            r.wallet_list().len() == 0,
            r.wallet_keys().len() == 0,
            r.validator_list() == default_validator_list(),
    {
        AppData::from_seed(zero())
    }

    /// Account data for `seed`: no wallets yet, the default validators.
    pub fn from_seed(seed: Word256) -> (r: AppData)
        ensures
            r.seed_value() == seed,
            r.wallet_list().len() == 0,
            r.wallet_keys().len() == 0,
            r.validator_list() == default_validator_list(),
    {
        AppData::new(seed, Vec::new(), Vec::new(), default_validators())
    }

    /// Whether the account holds no seed yet.
    pub fn is_empty(&self) -> (r: bool)
        ensures
            r == is_zero(self.seed_value()),
    {
        self.seed.w0 == 0 && self.seed.w1 == 0 && self.seed.w2 == 0 && self.seed.w3 == 0
    }

    /// Fails with `Empty` when the account holds no seed yet.
    pub fn check_not_empty(&self) -> (r: Result<(), AppDataError>)
        ensures
            r == (if is_zero(self.seed_value()) {
                Err::<(), AppDataError>(AppDataError::Empty)
            } else {
                Ok(())
            }),
    {
        if self.is_empty() {
            Err(AppDataError::Empty)
        } else {
            Ok(())
        }
    }

    /// The seed.
    pub fn seed(&self) -> (r: Word256)
        ensures
            r == self.seed_value(),
    {
        self.seed
    }

    /// The public keys of the wallets, in order of creation.
    pub fn get_wallets(&self) -> (r: &Vec<String>)
        ensures
            texts(r@) == self.wallet_list(),
    {
        &self.wallets_seq
    }

    /// The private key of the wallet `wallet`, if the account has it.
    pub fn get_wallet_key(&self, wallet: &str) -> (r: Option<Word256>)
        ensures
            match r {
                Some(k) => exists|i: int|
                    0 <= i < self.wallet_keys().len() && self.wallet_keys()[i] == (wallet@, k),
                None => forall|i: int|
                    0 <= i < self.wallet_keys().len() ==> self.wallet_keys()[i].0 != wallet@,
            },
    {
        let name = wallet.to_owned();
        let mut i: usize = 0;
        while i < self.wallets_map.len()
            invariant
                i <= self.wallets_map@.len(),
                name@ == wallet@,
                forall|j: int| 0 <= j < i ==> self.wallets_map@[j].0@ != wallet@,
            decreases self.wallets_map@.len() - i,
        {
            if self.wallets_map[i].0 == name {
                let k = self.wallets_map[i].1;
                assert(self.wallet_keys()[i as int] == (wallet@, k));
                return Some(k);
            }
            i = i + 1;
        }
        None
    }

    /// The wallets: public key and private key, in order of creation.
    pub fn wallet_entries(&self) -> (r: &Vec<(String, Word256)>)
        ensures
            r@.map_values(|w: (String, Word256)| (w.0@, w.1)) == self.wallet_keys(),
    {
        &self.wallets_map
    }

    /// Adds a wallet, its public key last in the list.
    pub fn add_wallet(&mut self, public: String, key: Word256)
        ensures
            final(self).seed_value() == old(self).seed_value(),
            final(self).validator_list() == old(self).validator_list(),
            final(self).wallet_list() == old(self).wallet_list().push(public@),
            final(self).wallet_keys() == old(self).wallet_keys().push((public@, key)),
    {
        let p = public.clone();
        self.wallets_seq.push(public);
        self.wallets_map.push((p, key));
        proof {
            assert(texts(self.wallets_seq@) =~= texts(old(self).wallets_seq@).push(p@));
            assert(self.wallet_keys() =~= old(self).wallet_keys().push((p@, key)));
        }
    }

    /// The validator endpoints, in order.
    pub fn list_validators(&self) -> (r: &Vec<String>)
        ensures
            texts(r@) == self.validator_list(),
    {
        &self.validators
    }

    /// The position of `validator` in the list, if it is there.
    fn position(&self, validator: &String) -> (r: Option<usize>)
        ensures
            match r {
                Some(i) => i < self.validator_list().len() && self.validator_list()[i as int]
                    == validator@ && forall|j: int|
                    0 <= j < i ==> self.validator_list()[j] != validator@,
                None => forall|j: int|
                    0 <= j < self.validator_list().len() ==> self.validator_list()[j]
                        != validator@,
            },
    {
        let mut i: usize = 0;
        while i < self.validators.len()
            invariant
                i <= self.validators@.len(),
                forall|j: int| 0 <= j < i ==> self.validators@[j]@ != validator@,
            decreases self.validators@.len() - i,
        {
            if self.validators[i] == *validator {
                return Some(i);
            }
            i = i + 1;
        }
        None
    }

    /// Adds `validator` last, unless it is already listed. Returns whether
    /// it was added.
    pub fn add_validator(&mut self, validator: String) -> (r: bool)
        ensures
            final(self).seed_value() == old(self).seed_value(),
            final(self).wallet_list() == old(self).wallet_list(),
            final(self).wallet_keys() == old(self).wallet_keys(),
            r == !old(self).validator_list().contains(validator@),
            final(self).validator_list() == (if r {
                old(self).validator_list().push(validator@)
            } else {
                old(self).validator_list()
            }),
    {
        match self.position(&validator) {
            Some(i) => {
                assert(old(self).validator_list()[i as int] == validator@);
                false
            },
            None => {
                let ghost t = validator@;
                self.validators.push(validator);
                assert(texts(self.validators@) =~= texts(old(self).validators@).push(t));
                true
            },
        }
    }

    /// Removes the first occurrence of `validator`. Returns whether it was
    /// listed.
    pub fn remove_validator(&mut self, validator: &str) -> (r: bool)
        ensures
            final(self).seed_value() == old(self).seed_value(),
            final(self).wallet_list() == old(self).wallet_list(),
            final(self).wallet_keys() == old(self).wallet_keys(),
            r == old(self).validator_list().contains(validator@),
            final(self).validator_list() == (match first_index(
                old(self).validator_list(),
                validator@,
            ) {
                Some(i) => old(self).validator_list().remove(i),
                None => old(self).validator_list(),
            }),
    {
        let name = validator.to_owned();
        match self.position(&name) {
            Some(i) => {
                let ghost v = self.validator_list();
                self.validators.remove(i);
                proof {
                    lemma_first_index(v, validator@, i as int);
                    assert(texts(self.validators@) =~= v.remove(i as int));
                }
                true
            },
            None => {
                proof {
                    assert(!self.validator_list().contains(validator@));
                }
                false
            },
        }
    }

    /// Moves `validator` to position `pos`, counted from 1. Returns whether
    /// it was listed.
    pub fn move_validator(&mut self, validator: &str, pos: usize) -> (r: bool)
        requires
            1 <= pos <= old(self).validator_list().len(),
        ensures
            final(self).seed_value() == old(self).seed_value(),
            final(self).wallet_list() == old(self).wallet_list(),
            final(self).wallet_keys() == old(self).wallet_keys(),
            r == old(self).validator_list().contains(validator@),
            final(self).validator_list() == (match first_index(
                old(self).validator_list(),
                validator@,
            ) {
                Some(i) => old(self).validator_list().remove(i).insert(pos - 1, validator@),
                None => old(self).validator_list(),
            }),
    {
        let name = validator.to_owned();
        match self.position(&name) {
            Some(i) => {
                let ghost v = self.validator_list();
                let elem = self.validators.remove(i);
                self.validators.insert(pos - 1, elem);
                proof {
                    lemma_first_index(v, validator@, i as int);
                    assert(texts(self.validators@) =~= v.remove(i as int).insert(
                        pos - 1,
                        validator@,
                    ));
                }
                true
            },
            None => {
                proof {
                    assert(!self.validator_list().contains(validator@));
                }
                false
            },
        }
    }

    /// Restores the default validators.
    pub fn set_default_validators(&mut self)
        ensures
            final(self).seed_value() == old(self).seed_value(),
            final(self).wallet_list() == old(self).wallet_list(),
            final(self).wallet_keys() == old(self).wallet_keys(),
            final(self).validator_list() == default_validator_list(),
    {
        self.validators = default_validators();
    }
}

/// The first position found by a scan is the first index.
proof fn lemma_first_index(v: Seq<Seq<char>>, t: Seq<char>, i: int)
    requires
        0 <= i < v.len(),
        v[i] == t,
        forall|j: int| 0 <= j < i ==> v[j] != t,
    ensures
        first_index(v, t) == Some(i),
{
    let k = choose|k: int| 0 <= k < v.len() && v[k] == t && forall|j: int| 0 <= j < k ==> v[j] != t;
    assert(k == i);
}

} // verus!

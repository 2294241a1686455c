use vstd::prelude::*;

verus! {

/// A 256-bit value (a coin, a key, a seed), held as four 64-bit words,
/// least significant word first.
#[derive(Clone, Copy, Debug, PartialEq, Eq, Structural, Hash)]
pub struct Word256 {
    pub w0: u64,
    pub w1: u64,
    pub w2: u64,
    pub w3: u64,
}

impl Word256 {
    /// The value whose words, least significant first, are `words`.
    pub fn from_words(words: [u64; 4]) -> (c: Word256)
        ensures
            c.w0 == words@[0],
            c.w1 == words@[1],
            c.w2 == words@[2],
            c.w3 == words@[3],
    {
        Word256 { w0: words[0], w1: words[1], w2: words[2], w3: words[3] }
    }

    /// The words of the value, least significant first.
    pub fn to_words(&self) -> (r: [u64; 4])
        ensures
            r@ == seq![self.w0, self.w1, self.w2, self.w3],
    {
        let r: [u64; 4] = [self.w0, self.w1, self.w2, self.w3];
        assert(r@ =~= seq![self.w0, self.w1, self.w2, self.w3]);
        r
    }
}

/// A coin: a 256-bit value.
pub type Coin = Word256;

/// `w` is zero.
pub open spec fn is_zero(w: Word256) -> bool {
    w.w0 == 0 && w.w1 == 0 && w.w2 == 0 && w.w3 == 0
}

/// The value zero.
pub fn zero() -> (z: Word256)
    ensures
        is_zero(z),
{
    Word256 { w0: 0, w1: 0, w2: 0, w3: 0 }
}

} // verus!

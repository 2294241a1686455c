use vstd::prelude::*;
use vstd::string::StringSliceAdditionalSpecFns;

verus! {

/// The fixed-size buffer for `s`: the first bytes of its UTF-8 encoding,
/// cut at `N`, followed by zeros.
pub open spec fn padded_bytes(bytes: Seq<u8>, n: nat) -> Seq<u8> {
    Seq::new(n, |i: int| if i < bytes.len() { bytes[i] } else { 0u8 })
}

/// Represent string as bytes array with fixed size.
pub fn str_to_bytes<const N: usize>(s: &str) -> (r: [u8; N])
    ensures
        r@ == padded_bytes(s.spec_bytes(), N as nat),
{
    let bytes = s.as_bytes();
    let size: usize = if bytes.len() < N { bytes.len() } else { N };
    let mut buffer: [u8; N] = [0u8; N];
    let mut i: usize = 0;
    while i < size
        invariant
            size <= N,
            size <= bytes@.len(),
            bytes@ == s.spec_bytes(),
            i <= size,
            forall|j: int| 0 <= j < i ==> buffer@[j] == bytes@[j],
            forall|j: int| i <= j < N ==> buffer@[j] == 0u8,
        decreases size - i,
    {
        buffer[i] = bytes[i];
        i = i + 1;
    }
    assert(buffer@ =~= padded_bytes(s.spec_bytes(), N as nat));
    buffer
}

} // verus!

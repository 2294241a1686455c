use vstd::prelude::*;
use vstd::string::StringSliceAdditionalSpecFns;
use vstd::utf8::{decode_utf8, valid_utf8};

use aes::cipher::{BlockDecrypt, BlockEncrypt, KeyInit};

use crate::appdata::AppDataError;
use crate::utils::{padded_bytes, str_to_bytes};

verus! {

/// What AES-128 makes of `data`, block by block, under `key`.
pub uninterp spec fn aes128_encrypted(key: Seq<u8>, data: Seq<u8>) -> Seq<u8>;

/// What AES-128 decryption makes of `data`, block by block, under `key`.
pub uninterp spec fn aes128_decrypted(key: Seq<u8>, data: Seq<u8>) -> Seq<u8>;

/// Relies on aes::Aes128 with BlockEncrypt::encrypt_blocks: every 16-byte
/// block is encrypted in place, so the output is as long as the input.
#[verifier::external_body]
fn encrypt_blocks(key: [u8; 16], data: &Vec<u8>) -> (r: Vec<u8>)
    requires
        data@.len() % 16 == 0,
    ensures
        r@ == aes128_encrypted(key@, data@),
        r@.len() == data@.len(),
{
    let cipher = aes::Aes128::new(&aes::cipher::generic_array::GenericArray::from(key));
    let mut blocks: Vec<aes::Block> = data.chunks(16).map(aes::Block::clone_from_slice).collect();
    cipher.encrypt_blocks(&mut blocks);
    blocks.concat()
}

/// Relies on aes::Aes128 with BlockDecrypt::decrypt_blocks: every 16-byte
/// block is decrypted in place, so the output is as long as the input.
#[verifier::external_body]
fn decrypt_blocks(key: [u8; 16], data: &Vec<u8>) -> (r: Vec<u8>)
    requires
        data@.len() % 16 == 0,
    ensures
        r@ == aes128_decrypted(key@, data@),
        r@.len() == data@.len(),
{
    let cipher = aes::Aes128::new(&aes::cipher::generic_array::GenericArray::from(key));
    let mut blocks: Vec<aes::Block> = data.chunks(16).map(aes::Block::clone_from_slice).collect();
    cipher.decrypt_blocks(&mut blocks);
    blocks.concat()
}

/// Relies on String::from_utf8: the text that the bytes encode, or nothing
/// when they are not UTF-8.
#[verifier::external_body]
fn text_of(bytes: Vec<u8>) -> (r: Option<String>)
    ensures
        r is Some <==> valid_utf8(bytes@),
        r matches Some(s) ==> s@ == decode_utf8(bytes@),
{
    String::from_utf8(bytes).ok()
}

/// `data` followed by zero bytes up to a whole number of 16-byte blocks.
pub open spec fn zero_padded(data: Seq<u8>) -> Seq<u8> {
    data + Seq::new(((16 - data.len() % 16) % 16) as nat, |i: int| 0u8)
}

/// `data` without its trailing zero bytes.
pub open spec fn trim_zeros(data: Seq<u8>) -> Seq<u8>
    decreases data.len(),
{
    if data.len() > 0 && data.last() == 0 {
        trim_zeros(data.drop_last())
    } else {
        data
    }
}

/// The cipher key for a password: its first sixteen bytes, zero-padded.
pub open spec fn key_of(password: &str) -> Seq<u8> {
    padded_bytes(password.spec_bytes(), 16)
}

/// Encrypts serialized account data under `password`: the bytes are padded
/// with zeros to whole 16-byte blocks and each block is encrypted with
/// AES-128 under the password's key.
pub fn seal(password: &str, plain: &Vec<u8>) -> (r: Vec<u8>)
    requires
        plain@.len() + 16 <= usize::MAX,
    ensures
        r@ == aes128_encrypted(key_of(password), zero_padded(plain@)),
{
    let key = str_to_bytes::<16>(password);
    let mut data: Vec<u8> = Vec::new();
    let mut i: usize = 0;
    while i < plain.len()
        invariant
            i <= plain@.len(),
            data@ == plain@.subrange(0, i as int),
        decreases plain@.len() - i,
    {
        data.push(plain[i]);
        i = i + 1;
    }
    let pad: usize = (16 - plain.len() % 16) % 16;
    let mut k: usize = 0;
    while k < pad
        invariant
            pad == (16 - plain@.len() % 16) % 16,
            plain@.len() + 16 <= usize::MAX,
            k <= pad,
            data@ == plain@ + Seq::new(k as nat, |j: int| 0u8),
        decreases pad - k,
    {
        data.push(0u8);
        k = k + 1;
        assert(data@ =~= plain@ + Seq::new(k as nat, |j: int| 0u8));
    }
    assert(data@ =~= zero_padded(plain@));
    assert(data@.len() % 16 == 0);
    encrypt_blocks(key, &data)
}

/// Decrypts stored account data under `password` and returns its text
/// without the trailing zero padding. Data that is not made of whole blocks
/// is `Corrupted`; data that does not decrypt to non-empty UTF-8 text means
/// a `WrongPassword`.
pub fn unseal(password: &str, stored: &Vec<u8>) -> (r: Result<String, AppDataError>)
    ensures
        stored@.len() % 16 != 0 ==> r == Err::<String, AppDataError>(AppDataError::Corrupted),
        stored@.len() % 16 == 0 ==> ({
            let plain = aes128_decrypted(key_of(password), stored@);
            match r {
                Ok(s) => valid_utf8(plain) && plain.len() > 0 && valid_utf8(trim_zeros(plain))
                    && s@ == decode_utf8(trim_zeros(plain)),
                Err(e) => e == AppDataError::WrongPassword && !(valid_utf8(plain) && plain.len()
                    > 0 && valid_utf8(trim_zeros(plain))),
            }
        }),
{
    if stored.len() % 16 != 0 {
        return Err(AppDataError::Corrupted);
    }
    let key = str_to_bytes::<16>(password);
    let plain = decrypt_blocks(key, stored);
    let ghost full = plain@;
    let mut end: usize = plain.len();
    assert(plain@.subrange(0, end as int) =~= plain@);
    while end > 0 && plain[end - 1] == 0
        invariant
            end <= plain@.len(),
            trim_zeros(plain@.subrange(0, end as int)) == trim_zeros(plain@),
        decreases end,
    {
        proof {
            assert(plain@.subrange(0, end as int).drop_last() =~= plain@.subrange(0, end - 1));
        }
        end = end - 1;
    }
    let mut trimmed: Vec<u8> = Vec::new();
    let mut i: usize = 0;
    while i < end
        invariant
            end <= plain@.len(),
            i <= end,
            trimmed@ == plain@.subrange(0, i as int),
        decreases end - i,
    {
        trimmed.push(plain[i]);
        i = i + 1;
    }
    assert(trimmed@ == trim_zeros(full));
    let whole_empty = plain.len() == 0;
    match text_of(plain) {
        None => Err(AppDataError::WrongPassword),
        Some(_) => {
            if whole_empty {
                Err(AppDataError::WrongPassword)
            } else {
                match text_of(trimmed) {
                    Some(s) => Ok(s),
                    None => Err(AppDataError::WrongPassword),
                }
            }
        },
    }
}

} // verus!

//! The single-block AES-128 primitive and the source of fresh randomness.
use aes::cipher::generic_array::GenericArray;
use aes::cipher::{BlockDecrypt, BlockEncrypt, KeyInit};
use aes::Aes128;
use vstd::prelude::*;

verus! {

/// What AES-128 encryption of one 16-byte block gives under a 16-byte key.
pub uninterp spec fn aes_enc_of(key: Seq<u8>, block: Seq<u8>) -> Seq<u8>;

/// What AES-128 decryption of one 16-byte block gives under a 16-byte key.
pub uninterp spec fn aes_dec_of(key: Seq<u8>, block: Seq<u8>) -> Seq<u8>;

/// Relies on `aes::Aes128` with `BlockEncrypt::encrypt_block`: the result is a
/// function of key and block, and `decrypt_block` under the same key undoes it.
#[verifier::external_body]
pub(crate) fn aes_encrypt(data: [u8; 16], key: &[u8; 16]) -> (r: [u8; 16])
    ensures
        r@ == aes_enc_of(key@, data@),
        aes_dec_of(key@, r@) == data@,
{
    let mut block = GenericArray::from(data);
    let cipher = Aes128::new(&GenericArray::from(*key));
    cipher.encrypt_block(&mut block);
    block.into()
}

/// Relies on `aes::Aes128` with `BlockDecrypt::decrypt_block`: the result is a
/// function of key and block.
#[verifier::external_body]
pub(crate) fn aes_decrypt(data: [u8; 16], key: &[u8; 16]) -> (r: [u8; 16])
    ensures
        r@ == aes_dec_of(key@, data@),
{
    let mut block = GenericArray::from(data);
    let cipher = Aes128::new(&GenericArray::from(*key));
    cipher.decrypt_block(&mut block);
    block.into()
}

/// Relies on `rand::random`, drawn from the thread-local cryptographic
/// generator; nothing is promised of the bytes.
#[verifier::external_body]
pub(crate) fn random_block() -> (r: [u8; 16]) {
    rand::random()
}

} // verus!

//! Electronic Codebook mode: every block is enciphered on its own under the
//! same key. Equal plaintext blocks give equal ciphertext blocks, which is
//! the mode's known weakness.
use crate::blocks::{
    blocks_view, group, group_spec, lemma_blocks_view_full, lemma_group_ungroup,
    lemma_ungroup_group, lemma_unpad_pad, pad, pad_spec, un_group, un_pad, ungroup_spec,
    unpad_spec,
};
use crate::primitive::{aes_dec_of, aes_decrypt, aes_enc_of, aes_encrypt};
use crate::{result_view, CipherError};
use vstd::prelude::*;

verus! {

/// Each block enciphered under `key`.
pub open spec fn enc_blocks(key: Seq<u8>, blocks: Seq<Seq<u8>>) -> Seq<Seq<u8>> {
    blocks.map_values(|b: Seq<u8>| aes_enc_of(key, b))
}

/// Each block deciphered under `key`.
pub open spec fn dec_blocks(key: Seq<u8>, blocks: Seq<Seq<u8>>) -> Seq<Seq<u8>> {
    blocks.map_values(|b: Seq<u8>| aes_dec_of(key, b))
}

/// ECB ciphertext: the padded message, block by block, each block enciphered.
pub open spec fn ecb_encrypt_spec(key: Seq<u8>, plain: Seq<u8>) -> Seq<u8> {
    ungroup_spec(enc_blocks(key, group_spec(pad_spec(plain))))
}

/// ECB decryption: a ciphertext shorter than a block, or not made of whole
/// blocks, is refused; otherwise each block is deciphered and the padding
/// removed.
pub open spec fn ecb_decrypt_spec(key: Seq<u8>, cipher: Seq<u8>) -> Result<Seq<u8>, CipherError> {
    if cipher.len() < 16 {
        Err(CipherError::InvalidCiphertextLength)
    } else if cipher.len() % 16 != 0 {
        Err(CipherError::InvalidBlockLength)
    } else {
        unpad_spec(ungroup_spec(dec_blocks(key, group_spec(cipher))))
    }
}

/// Enciphers each block independently.
fn encrypt_blocks(blocks: &Vec<[u8; 16]>, key: &[u8; 16]) -> (r: Vec<[u8; 16]>)
    ensures
        blocks_view(r@) == enc_blocks(key@, blocks_view(blocks@)),
        dec_blocks(key@, blocks_view(r@)) == blocks_view(blocks@),
{
    let mut out: Vec<[u8; 16]> = Vec::new();
    let mut i: usize = 0;
    while i < blocks.len()
        invariant
            i <= blocks@.len(),
            out@.len() == i,
            blocks_view(out@) == enc_blocks(key@, blocks_view(blocks@)).take(i as int),
            dec_blocks(key@, blocks_view(out@)) == blocks_view(blocks@).take(i as int),
        decreases blocks@.len() - i,
    {
        let c = aes_encrypt(blocks[i], key);
        out.push(c);
        i = i + 1;
        assert(blocks_view(out@) =~= enc_blocks(key@, blocks_view(blocks@)).take(i as int));
        assert(dec_blocks(key@, blocks_view(out@)) =~= blocks_view(blocks@).take(i as int));
    }
    assert(enc_blocks(key@, blocks_view(blocks@)).take(i as int) =~= enc_blocks(key@, blocks_view(blocks@)));
    assert(blocks_view(blocks@).take(i as int) =~= blocks_view(blocks@));
    out
}

/// Deciphers each block independently.
fn decrypt_blocks(blocks: &Vec<[u8; 16]>, key: &[u8; 16]) -> (r: Vec<[u8; 16]>)
    ensures
        blocks_view(r@) == dec_blocks(key@, blocks_view(blocks@)),
{
    let mut out: Vec<[u8; 16]> = Vec::new();
    let mut i: usize = 0;
    while i < blocks.len()
        invariant
            i <= blocks@.len(),
            out@.len() == i,
            blocks_view(out@) == dec_blocks(key@, blocks_view(blocks@)).take(i as int),
        decreases blocks@.len() - i,
    {
        let p = aes_decrypt(blocks[i], key);
        let ghost prev = out@;
        out.push(p);
        i = i + 1;
        assert forall|k: int| 0 <= k < i - 1 implies blocks_view(out@)[k] == blocks_view(prev)[k] by {
            assert(out@[k] == prev[k]);
        }
        assert(blocks_view(out@) =~= dec_blocks(key@, blocks_view(blocks@)).take(i as int));
    }
    assert(dec_blocks(key@, blocks_view(blocks@)).take(i as int) =~= dec_blocks(key@, blocks_view(blocks@)));
    out
}

/// Pads the message, enciphers each block under `key`, and joins the
/// results. Decrypting the result under the same key gives the message back.
pub fn ecb_encrypt(plain_text: Vec<u8>, key: [u8; 16]) -> (r: Vec<u8>)
    requires
        plain_text@.len() + 32 <= usize::MAX,
    ensures
        r@ == ecb_encrypt_spec(key@, plain_text@),
        ecb_decrypt_spec(key@, r@) == Ok::<Seq<u8>, CipherError>(plain_text@),
{
    let ghost x = plain_text@;
    let padded = pad(plain_text);
    let ghost p = padded@;
    let blocks = match group(padded) {
        Ok(b) => b,
        Err(_) => {
            assert(false);
            Vec::new()
        },
    };
    let enc = encrypt_blocks(&blocks, &key);
    proof {
        lemma_blocks_view_full(blocks@);
        lemma_blocks_view_full(enc@);
    }
    let r = un_group(enc);
    proof {
        lemma_group_ungroup(blocks_view(enc@));
        lemma_ungroup_group(p);
        lemma_unpad_pad(x);
        assert(p.len() / 16 >= 1);
    }
    r
}

/// Splits the ciphertext into blocks, deciphers each under `key`, joins them
/// and removes the padding.
pub fn ecb_decrypt(cipher_text: Vec<u8>, key: [u8; 16]) -> (r: Result<Vec<u8>, CipherError>)
    ensures
        result_view(r) == ecb_decrypt_spec(key@, cipher_text@),
{
    if cipher_text.len() < 16 {
        return Err(CipherError::InvalidCiphertextLength);
    }
    let ghost c = cipher_text@;
    let blocks = match group(cipher_text) {
        Ok(b) => b,
        Err(e) => return Err(e),
    };
    let dec = decrypt_blocks(&blocks, &key);
    proof {
        lemma_blocks_view_full(blocks@);
    }
    let joined = un_group(dec);
    un_pad(joined)
}

/// Two blocks of the padded message that are equal give equal blocks of
/// ciphertext, wherever they stand in the message.
pub proof fn lemma_ecb_equal_blocks(key: Seq<u8>, plain: Seq<u8>, i: int, j: int)
    requires
        0 <= i < pad_spec(plain).len() / 16,
        0 <= j < pad_spec(plain).len() / 16,
        pad_spec(plain).subrange(16 * i, 16 * i + 16) == pad_spec(plain).subrange(16 * j, 16 * j + 16),
    ensures
        ecb_encrypt_spec(key, plain).subrange(16 * i, 16 * i + 16) == ecb_encrypt_spec(key, plain).subrange(16 * j, 16 * j + 16),
{
    let c = ecb_encrypt_spec(key, plain);
    let g = group_spec(pad_spec(plain));
    assert forall|t: int| 0 <= t < 16 implies #[trigger] c.subrange(16 * i, 16 * i + 16)[t]
        == c.subrange(16 * j, 16 * j + 16)[t] by {
        assert((16 * i + t) / 16 == i && (16 * i + t) % 16 == t);
        assert((16 * j + t) / 16 == j && (16 * j + t) % 16 == t);
        assert(g[i] == g[j]);
    }
    assert(c.subrange(16 * i, 16 * i + 16) =~= c.subrange(16 * j, 16 * j + 16));
}

} // verus!

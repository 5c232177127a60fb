//! Cipher Block Chaining mode: each plaintext block is mixed with the
//! previous ciphertext block (the IV for the first) before it is enciphered.
//! The IV travels as the first block of the ciphertext.
use crate::blocks::{
    blocks_view, group, group_spec, lemma_blocks_view_full, lemma_group_ungroup,
    lemma_ungroup_group, lemma_unpad_pad, lemma_xor_twice, pad, pad_spec, un_group, un_pad,
    ungroup_spec, unpad_spec, xor_arr, xor_block,
};
use crate::primitive::{aes_dec_of, aes_decrypt, aes_enc_of, aes_encrypt, random_block};
use crate::{result_view, CipherError};
use vstd::prelude::*;

verus! {

/// Block `i` of a CBC ciphertext over the plaintext blocks `ps`: block 0 is
/// the IV, and block `i + 1` enciphers plaintext block `i` xor block `i`.
pub open spec fn cbc_chain(key: Seq<u8>, iv: Seq<u8>, ps: Seq<Seq<u8>>, i: nat) -> Seq<u8>
    decreases i,
{
    if i == 0 {
        iv
    } else {
        aes_enc_of(key, xor_block(ps[i - 1], cbc_chain(key, iv, ps, (i - 1) as nat)))
    }
}

/// The IV followed by the enciphered blocks of `ps`.
pub open spec fn cbc_blocks(key: Seq<u8>, iv: Seq<u8>, ps: Seq<Seq<u8>>) -> Seq<Seq<u8>> {
    Seq::new(ps.len() + 1, |i: int| cbc_chain(key, iv, ps, i as nat))
}

/// CBC ciphertext of a message under `key` and `iv`: `IV || C[0] || ... || C[n-1]`
/// over the blocks of the padded message.
pub open spec fn cbc_encrypt_spec(key: Seq<u8>, iv: Seq<u8>, plain: Seq<u8>) -> Seq<u8> {
    ungroup_spec(cbc_blocks(key, iv, group_spec(pad_spec(plain))))
}

/// The plaintext blocks recovered from ciphertext blocks `cs` (IV first):
/// block `i` deciphered from `cs[i + 1]`, xor `cs[i]`.
pub open spec fn cbc_unchain(key: Seq<u8>, cs: Seq<Seq<u8>>) -> Seq<Seq<u8>> {
    Seq::new((cs.len() - 1) as nat, |i: int| xor_block(aes_dec_of(key, cs[i + 1]), cs[i]))
}

/// CBC decryption: a ciphertext of fewer than two blocks, or not made of whole
/// blocks, is refused; otherwise the blocks are unchained and the padding
/// removed.
pub open spec fn cbc_decrypt_spec(key: Seq<u8>, cipher: Seq<u8>) -> Result<Seq<u8>, CipherError> {
    if cipher.len() < 32 || cipher.len() % 16 != 0 {
        Err(CipherError::InvalidCiphertextLength)
    } else {
        unpad_spec(ungroup_spec(cbc_unchain(key, group_spec(cipher))))
    }
}

/// Encrypts under `key` with the given IV, which leads the result.
/// Decrypting the result under the same key gives the message back.
pub fn cbc_encrypt_with_iv(plain_text: Vec<u8>, key: [u8; 16], iv: [u8; 16]) -> (r: Vec<u8>)
    requires
        plain_text@.len() + 48 <= usize::MAX,
    ensures
        r@ == cbc_encrypt_spec(key@, iv@, plain_text@),
        cbc_decrypt_spec(key@, r@) == Ok::<Seq<u8>, CipherError>(plain_text@),
{
    let ghost x = plain_text@;
    let padded = pad(plain_text);
    let ghost p = padded@;
    let blocks = match group(padded) {
        Ok(b) => b,
        Err(_) => {
            assert(false);
            Vec::new()
        },
    };
    let ghost ps = blocks_view(blocks@);
    let mut out: Vec<[u8; 16]> = Vec::new();
    out.push(iv);
    let mut prev: [u8; 16] = iv;
    let mut i: usize = 0;
    while i < blocks.len()
        invariant
            ps == blocks_view(blocks@),
            ps == group_spec(p),
            i <= blocks@.len(),
            out@.len() == i + 1,
            blocks_view(out@) == cbc_blocks(key@, iv@, ps).take(i + 1),
            prev == out@[i as int],
            forall|k: int|
                0 <= k < i ==> aes_dec_of(key@, #[trigger] out@[k + 1]@) == xor_block(
                    ps[k],
                    out@[k]@,
                ),
        decreases blocks@.len() - i,
    {
        let mixed = xor_arr(&blocks[i], &prev);
        let c = aes_encrypt(mixed, &key);
        let ghost before = out@;
        out.push(c);
        proof {
            assert(blocks_view(before)[i as int] == cbc_blocks(key@, iv@, ps)[i as int]);
            assert(blocks_view(blocks@)[i as int] == blocks@[i as int]@);
            assert forall|k: int| 0 <= k <= i implies blocks_view(out@)[k] == blocks_view(before)[k] by {
                assert(out@[k] == before[k]);
            }
            assert forall|k: int| 0 <= k < i + 1 implies aes_dec_of(key@, #[trigger] out@[k + 1]@)
                == xor_block(ps[k], out@[k]@) by {
                if k < i {
                    assert(out@[k + 1] == before[k + 1]);
                    assert(out@[k] == before[k]);
                }
            }
        }
        prev = c;
        i = i + 1;
        assert(blocks_view(out@) =~= cbc_blocks(key@, iv@, ps).take(i + 1));
    }
    proof {
        assert(cbc_blocks(key@, iv@, ps).take(i + 1) =~= cbc_blocks(key@, iv@, ps));
        lemma_blocks_view_full(blocks@);
        lemma_blocks_view_full(out@);
        assert(p.len() / 16 >= 1);
    }
    let r = un_group(out);
    proof {
        let cs = blocks_view(out@);
        lemma_group_ungroup(cs);
        assert forall|k: int| 0 <= k < ps.len() implies cbc_unchain(key@, cs)[k] == ps[k] by {
            assert(cs[k + 1] == out@[k + 1]@);
            assert(cs[k] == out@[k]@);
            lemma_xor_twice(ps[k], cs[k]);
        }
        assert(cbc_unchain(key@, cs) =~= ps);
        lemma_ungroup_group(p);
        lemma_unpad_pad(x);
    }
    r
}

/// Encrypts under `key` with a fresh random IV, which leads the result.
/// Decrypting the result under the same key gives the message back.
pub fn cbc_encrypt(plain_text: Vec<u8>, key: [u8; 16]) -> (r: Vec<u8>)
    requires
        plain_text@.len() + 48 <= usize::MAX,
    ensures
        r@.len() >= 16,
        r@ == cbc_encrypt_spec(key@, r@.take(16), plain_text@),
        cbc_decrypt_spec(key@, r@) == Ok::<Seq<u8>, CipherError>(plain_text@),
{
    let iv = random_block();
    let r = cbc_encrypt_with_iv(plain_text, key, iv);
    proof {
        lemma_cbc_iv_leads(key@, iv@, plain_text@);
    }
    r
}

/// Takes the IV from the first block, deciphers each later block under `key`
/// and xors it with the block before, then removes the padding.
pub fn cbc_decrypt(cipher_text: Vec<u8>, key: [u8; 16]) -> (r: Result<Vec<u8>, CipherError>)
    ensures
        result_view(r) == cbc_decrypt_spec(key@, cipher_text@),
{
    if cipher_text.len() < 32 || cipher_text.len() % 16 != 0 {
        return Err(CipherError::InvalidCiphertextLength);
    }
    let ghost c = cipher_text@;
    let blocks = match group(cipher_text) {
        Ok(b) => b,
        Err(e) => return Err(e),
    };
    let ghost cs = blocks_view(blocks@);
    let mut plain: Vec<[u8; 16]> = Vec::new();
    let last: usize = blocks.len() - 1;
    let mut i: usize = 0;
    while i < last
        invariant
            last + 1 == blocks@.len(),
            cs == blocks_view(blocks@),
            cs == group_spec(c),
            blocks@.len() >= 2,
            i + 1 <= blocks@.len(),
            plain@.len() == i,
            blocks_view(plain@) == cbc_unchain(key@, cs).take(i as int),
        decreases blocks@.len() - i,
    {
        let d = aes_decrypt(blocks[i + 1], &key);
        let p = xor_arr(&d, &blocks[i]);
        let ghost before = plain@;
        plain.push(p);
        proof {
            assert forall|k: int| 0 <= k < i implies blocks_view(plain@)[k] == blocks_view(before)[k] by {
                assert(plain@[k] == before[k]);
            }
        }
        i = i + 1;
        assert(blocks_view(plain@) =~= cbc_unchain(key@, cs).take(i as int));
    }
    assert(cbc_unchain(key@, cs).take(i as int) =~= cbc_unchain(key@, cs));
    let joined = un_group(plain);
    un_pad(joined)
}

/// The IV is the first block of the ciphertext.
pub proof fn lemma_cbc_iv_leads(key: Seq<u8>, iv: Seq<u8>, plain: Seq<u8>)
    requires
        iv.len() == 16,
    ensures
        cbc_encrypt_spec(key, iv, plain).len() >= 16,
        cbc_encrypt_spec(key, iv, plain).take(16) == iv,
{
    let c = cbc_encrypt_spec(key, iv, plain);
    assert forall|t: int| 0 <= t < 16 implies #[trigger] c.take(16)[t] == iv[t] by {
        assert(t / 16 == 0 && t % 16 == t);
    }
    assert(c.take(16) =~= iv);
}

/// Two encryptions of one message under one key with different IVs give
/// different ciphertexts.
pub proof fn lemma_cbc_iv_distinguishes(key: Seq<u8>, iv1: Seq<u8>, iv2: Seq<u8>, plain: Seq<u8>)
    requires
        iv1.len() == 16,
        iv2.len() == 16,
        iv1 != iv2,
    ensures
        cbc_encrypt_spec(key, iv1, plain) != cbc_encrypt_spec(key, iv2, plain),
{
    lemma_cbc_iv_leads(key, iv1, plain);
    lemma_cbc_iv_leads(key, iv2, plain);
}

/// The block primitive under `key` maps 16-byte blocks to 16-byte blocks and
/// decryption undoes encryption, as it does for AES under every 16-byte key.
pub open spec fn is_block_permutation(key: Seq<u8>) -> bool {
    forall|b: Seq<u8>|
        b.len() == 16 ==> (#[trigger] aes_enc_of(key, b)).len() == 16 && aes_dec_of(
            key,
            aes_enc_of(key, b),
        ) == b
}

/// Chain block `i` depends on the plaintext blocks before `i` alone.
proof fn lemma_chain_prefix(key: Seq<u8>, iv: Seq<u8>, ps: Seq<Seq<u8>>, qs: Seq<Seq<u8>>, i: nat)
    requires
        forall|k: int| 0 <= k < i ==> ps[k] == qs[k],
    ensures
        cbc_chain(key, iv, ps, i) == cbc_chain(key, iv, qs, i),
    decreases i,
{
    if i > 0 {
        lemma_chain_prefix(key, iv, ps, qs, (i - 1) as nat);
    }
}

/// Under a block permutation every chain block holds 16 bytes.
proof fn lemma_chain_len(key: Seq<u8>, iv: Seq<u8>, ps: Seq<Seq<u8>>, i: nat)
    requires
        is_block_permutation(key),
        iv.len() == 16,
        forall|k: int| 0 <= k < ps.len() ==> (#[trigger] ps[k]).len() == 16,
        i <= ps.len(),
    ensures
        cbc_chain(key, iv, ps, i).len() == 16,
    decreases i,
{
    if i > 0 {
        lemma_chain_len(key, iv, ps, (i - 1) as nat);
        let m = xor_block(ps[i - 1], cbc_chain(key, iv, ps, (i - 1) as nat));
        assert(m.len() == 16);
    }
}

/// Where two plaintexts differ in block `i` alone, chain blocks after `i`
/// all differ, provided the primitive is a permutation of blocks.
proof fn lemma_chain_diverges(key: Seq<u8>, iv: Seq<u8>, ps: Seq<Seq<u8>>, qs: Seq<Seq<u8>>, i: nat, j: nat)
    requires
        is_block_permutation(key),
        iv.len() == 16,
        ps.len() == qs.len(),
        forall|k: int| 0 <= k < ps.len() ==> (#[trigger] ps[k]).len() == 16,
        forall|k: int| 0 <= k < qs.len() ==> (#[trigger] qs[k]).len() == 16,
        i < ps.len(),
        ps[i as int] != qs[i as int],
        forall|k: int| 0 <= k < ps.len() && k != i ==> ps[k] == qs[k],
        i < j <= ps.len(),
    ensures
        cbc_chain(key, iv, ps, j) != cbc_chain(key, iv, qs, j),
    decreases j,
{
    let a = ps[j - 1];
    let b = qs[j - 1];
    let cp = cbc_chain(key, iv, ps, (j - 1) as nat);
    let cq = cbc_chain(key, iv, qs, (j - 1) as nat);
    lemma_chain_len(key, iv, ps, (j - 1) as nat);
    lemma_chain_len(key, iv, qs, (j - 1) as nat);
    if j == i + 1 {
        lemma_chain_prefix(key, iv, ps, qs, i);
    } else {
        lemma_chain_diverges(key, iv, ps, qs, i, (j - 1) as nat);
    }
    let mp = xor_block(a, cp);
    let mq = xor_block(b, cq);
    if mp == mq {
        lemma_xor_twice(a, cp);
        lemma_xor_twice(b, cq);
        if j == i + 1 {
            assert(a == b);
        } else {
            assert forall|t: int| 0 <= t < 16 implies cp[t] == cq[t] by {
                let (x, y, z) = (a[t], cp[t], cq[t]);
                assert(mp[t] == mq[t]);
                assert(x ^ y == x ^ z ==> y == z) by (bit_vector);
            }
            assert(cp =~= cq);
        }
    }
    assert(aes_dec_of(key, aes_enc_of(key, mp)) == mp);
    assert(aes_dec_of(key, aes_enc_of(key, mq)) == mq);
}

/// Changing plaintext bytes at or after block `i` leaves the IV and
/// ciphertext blocks `0..i` unchanged.
pub proof fn lemma_cbc_prefix_unchanged(key: Seq<u8>, iv: Seq<u8>, x: Seq<u8>, y: Seq<u8>, i: int)
    requires
        x.len() == y.len(),
        0 <= i,
        16 * i <= x.len(),
        x.take(16 * i) == y.take(16 * i),
    ensures
        cbc_encrypt_spec(key, iv, x).len() == cbc_encrypt_spec(key, iv, y).len(),
        cbc_encrypt_spec(key, iv, x).len() >= 16 * i + 16,
        cbc_encrypt_spec(key, iv, x).take(16 * i + 16) == cbc_encrypt_spec(key, iv, y).take(16 * i + 16),
{
    let px = pad_spec(x);
    let py = pad_spec(y);
    let gx = group_spec(px);
    let gy = group_spec(py);
    assert forall|k: int| 0 <= k < i implies gx[k] == gy[k] by {
        assert(px.len() == py.len() && px.len() % 16 == 0 && 16 * k + 16 <= px.len());
        assert(k < px.len() / 16);
        assert forall|t: int| 0 <= t < 16 implies gx[k][t] == gy[k][t] by {
            assert(16 * k + t < 16 * i);
            assert(x.take(16 * i)[16 * k + t] == y.take(16 * i)[16 * k + t]);
            assert(px[16 * k + t] == x[16 * k + t]);
            assert(py[16 * k + t] == y[16 * k + t]);
            assert(gx[k] == px.subrange(16 * k, 16 * k + 16));
            assert(gy[k] == py.subrange(16 * k, 16 * k + 16));
            assert(x.take(16 * i)[16 * k + t] == x[16 * k + t]);
            assert(y.take(16 * i)[16 * k + t] == y[16 * k + t]);
            assert(gx[k][t] == px[16 * k + t]);
            assert(gy[k][t] == py[16 * k + t]);
        }
        assert(gx[k] =~= gy[k]);
    }
    let cx = cbc_encrypt_spec(key, iv, x);
    let cy = cbc_encrypt_spec(key, iv, y);
    assert forall|t: int| 0 <= t < 16 * i + 16 implies #[trigger] cx.take(16 * i + 16)[t]
        == cy.take(16 * i + 16)[t] by {
        lemma_chain_prefix(key, iv, gx, gy, (t / 16) as nat);
    }
    assert(cx.take(16 * i + 16) =~= cy.take(16 * i + 16));
}

/// Where two messages of one length differ in padded block `i` alone, every
/// ciphertext block from `i` on differs (block `j` of the plaintext gives
/// block `j + 1` of the output, after the IV), provided the primitive is a
/// permutation of 16-byte blocks.
pub proof fn lemma_cbc_change_propagates(key: Seq<u8>, iv: Seq<u8>, x: Seq<u8>, y: Seq<u8>, i: int, j: int)
    requires
        is_block_permutation(key),
        iv.len() == 16,
        x.len() == y.len(),
        0 <= i <= j < group_spec(pad_spec(x)).len(),
        group_spec(pad_spec(x))[i] != group_spec(pad_spec(y))[i],
        forall|k: int|
            0 <= k < group_spec(pad_spec(x)).len() && k != i ==> group_spec(pad_spec(x))[k]
                == group_spec(pad_spec(y))[k],
    ensures
        cbc_encrypt_spec(key, iv, x).subrange(16 * j + 16, 16 * j + 32) != cbc_encrypt_spec(
            key,
            iv,
            y,
        ).subrange(16 * j + 16, 16 * j + 32),
{
    let gx = group_spec(pad_spec(x));
    let gy = group_spec(pad_spec(y));
    lemma_ungroup_group(pad_spec(x));
    lemma_ungroup_group(pad_spec(y));
    lemma_chain_diverges(key, iv, gx, gy, i as nat, (j + 1) as nat);
    lemma_chain_len(key, iv, gx, (j + 1) as nat);
    lemma_chain_len(key, iv, gy, (j + 1) as nat);
    let cx = cbc_encrypt_spec(key, iv, x);
    let cy = cbc_encrypt_spec(key, iv, y);
    let bx = cbc_chain(key, iv, gx, (j + 1) as nat);
    let by_ = cbc_chain(key, iv, gy, (j + 1) as nat);
    assert forall|t: int| 0 <= t < 16 implies #[trigger] cx.subrange(16 * j + 16, 16 * j + 32)[t]
        == bx[t] && cy.subrange(16 * j + 16, 16 * j + 32)[t] == by_[t] by {
        assert((16 * j + 16 + t) / 16 == j + 1 && (16 * j + 16 + t) % 16 == t);
    }
    assert(cx.subrange(16 * j + 16, 16 * j + 32) =~= bx);
    assert(cy.subrange(16 * j + 16, 16 * j + 32) =~= by_);
}

} // verus!

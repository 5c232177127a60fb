//! Counter mode: block `i` of the message is xored with the encipherment of
//! `nonce || i` (the counter in eight little-endian bytes). No padding is
//! needed, and the 8-byte nonce travels in front of the ciphertext.
use crate::blocks::xor_block;
use crate::primitive::{aes_enc_of, aes_encrypt, random_block};
use crate::{result_view, CipherError};
use vstd::prelude::*;

verus! {

/// The counter as eight bytes, least significant first.
pub open spec fn le_bytes(c: u64) -> Seq<u8> {
    Seq::new(8, |j: int| ((c >> ((8 * j) as u64)) & 0xff) as u8)
}

/// The keystream input for block `i`: the nonce followed by the counter.
pub open spec fn counter_block(nonce: Seq<u8>, i: u64) -> Seq<u8> {
    nonce + le_bytes(i)
}

/// The keystream block for block `i`.
pub open spec fn keystream(key: Seq<u8>, nonce: Seq<u8>, i: u64) -> Seq<u8> {
    aes_enc_of(key, counter_block(nonce, i))
}

/// Each byte `t` of `data` xored with byte `t % 16` of keystream block `t / 16`.
pub open spec fn ctr_apply(key: Seq<u8>, nonce: Seq<u8>, data: Seq<u8>) -> Seq<u8> {
    Seq::new(data.len(), |t: int| data[t] ^ keystream(key, nonce, (t / 16) as u64)[t % 16])
}

/// CTR ciphertext: the nonce followed by the message xored with the keystream.
pub open spec fn ctr_encrypt_spec(key: Seq<u8>, nonce: Seq<u8>, plain: Seq<u8>) -> Seq<u8> {
    nonce + ctr_apply(key, nonce, plain)
}

/// CTR decryption: a ciphertext shorter than the nonce is refused; otherwise
/// the rest is xored with the keystream of the nonce it starts with.
pub open spec fn ctr_decrypt_spec(key: Seq<u8>, cipher: Seq<u8>) -> Result<Seq<u8>, CipherError> {
    if cipher.len() < 8 {
        Err(CipherError::InvalidCiphertextLength)
    } else {
        Ok(ctr_apply(key, cipher.take(8), cipher.skip(8)))
    }
}

/// The nonce followed by the counter in eight little-endian bytes.
fn make_counter_block(nonce: &[u8; 8], counter: u64) -> (r: [u8; 16])
    ensures
        r@ == counter_block(nonce@, counter),
{
    let mut b: [u8; 16] = [0u8; 16];
    let mut j: usize = 0;
    while j < 8
        invariant
            j <= 8,
            forall|k: int| 0 <= k < j ==> b@[k] == nonce@[k],
        decreases 8 - j,
    {
        b[j] = nonce[j];
        j = j + 1;
    }
    while j < 16
        invariant
            8 <= j <= 16,
            forall|k: int| 0 <= k < 8 ==> b@[k] == nonce@[k],
            forall|k: int| 8 <= k < j ==> b@[k] == le_bytes(counter)[k - 8],
        decreases 16 - j,
    {
        let shift: u64 = (8 * (j - 8)) as u64;
        b[j] = ((counter >> shift) & 0xff) as u8;
        j = j + 1;
    }
    assert(b@ =~= counter_block(nonce@, counter));
    b
}

/// Appends `data[from..]` xored with the keystream of `nonce` to `out`.
fn ctr_apply_into(out: &mut Vec<u8>, data: &Vec<u8>, from: usize, key: &[u8; 16], nonce: &[u8; 8])
    requires
        from <= data@.len(),
        old(out)@.len() + data@.len() <= usize::MAX,
    ensures
        final(out)@ == old(out)@ + ctr_apply(key@, nonce@, data@.skip(from as int)),
{
    let ghost start = out@;
    let ghost d = data@.skip(from as int);
    let len: usize = data.len() - from;
    let mut ks: [u8; 16] = [0u8; 16];
    let mut t: usize = 0;
    while t < len
        invariant
            len == d.len(),
            len + from == data@.len(),
            data@.len() <= usize::MAX,
            d == data@.skip(from as int),
            from <= data@.len(),
            t <= len,
            t > 0 ==> ks@ == keystream(key@, nonce@, ((t - 1) / 16) as u64),
            out@ == start + ctr_apply(key@, nonce@, d).take(t as int),
        decreases len - t,
    {
        if t % 16 == 0 {
            let v = make_counter_block(nonce, (t / 16) as u64);
            ks = aes_encrypt(v, key);
        }
        assert(ks@ == keystream(key@, nonce@, (t / 16) as u64));
        out.push(data[from + t] ^ ks[t % 16]);
        t = t + 1;
        assert(out@ =~= start + ctr_apply(key@, nonce@, d).take(t as int));
    }
    assert(ctr_apply(key@, nonce@, d).take(t as int) =~= ctr_apply(key@, nonce@, d));
}

/// Xoring with the same keystream twice gives the data back.
proof fn lemma_ctr_apply_twice(key: Seq<u8>, nonce: Seq<u8>, data: Seq<u8>)
    ensures
        ctr_apply(key, nonce, ctr_apply(key, nonce, data)) == data,
{
    let once = ctr_apply(key, nonce, data);
    assert forall|t: int| 0 <= t < data.len() implies #[trigger] ctr_apply(key, nonce, once)[t]
        == data[t] by {
        let (x, y) = (data[t], keystream(key, nonce, (t / 16) as u64)[t % 16]);
        assert((x ^ y) ^ y == x) by (bit_vector);
    }
    assert(ctr_apply(key, nonce, once) =~= data);
}

/// Decrypting a CTR ciphertext under the key it was made with gives the
/// message back, for every message and every 8-byte nonce.
pub proof fn lemma_ctr_round_trip(key: Seq<u8>, nonce: Seq<u8>, plain: Seq<u8>)
    requires
        nonce.len() == 8,
    ensures
        ctr_decrypt_spec(key, ctr_encrypt_spec(key, nonce, plain)) == Ok::<Seq<u8>, CipherError>(plain),
{
    let c = ctr_encrypt_spec(key, nonce, plain);
    assert(c.take(8) =~= nonce);
    assert(c.skip(8) =~= ctr_apply(key, nonce, plain));
    lemma_ctr_apply_twice(key, nonce, plain);
}

/// Block `i` of a CTR ciphertext body, xored with keystream block `i` alone,
/// is block `i` of the message: no other block is needed.
pub proof fn lemma_ctr_random_access(key: Seq<u8>, nonce: Seq<u8>, plain: Seq<u8>, i: int)
    requires
        0 <= i,
        16 * i < plain.len(),
    ensures
        ({
            let end = if 16 * i + 16 <= plain.len() { 16 * i + 16 } else { plain.len() as int };
            xor_block(ctr_apply(key, nonce, plain).subrange(16 * i, end), keystream(key, nonce, i as u64))
                == plain.subrange(16 * i, end)
        }),
{
    let end = if 16 * i + 16 <= plain.len() { 16 * i + 16 } else { plain.len() as int };
    let c = ctr_apply(key, nonce, plain);
    let ks = keystream(key, nonce, i as u64);
    assert forall|j: int| 0 <= j < end - 16 * i implies #[trigger] xor_block(c.subrange(16 * i, end), ks)[j]
        == plain[16 * i + j] by {
        assert((16 * i + j) / 16 == i && (16 * i + j) % 16 == j);
        let (x, y) = (plain[16 * i + j], ks[j]);
        assert((x ^ y) ^ y == x) by (bit_vector);
    }
    assert(xor_block(c.subrange(16 * i, end), ks) =~= plain.subrange(16 * i, end));
}

/// Encrypts under `key` with the given nonce, which leads the result.
/// Decrypting the result under the same key gives the message back.
pub fn ctr_encrypt_with_nonce(plain_text: Vec<u8>, key: [u8; 16], nonce: [u8; 8]) -> (r: Vec<u8>)
    requires
        plain_text@.len() + 8 <= usize::MAX,
    ensures
        r@ == ctr_encrypt_spec(key@, nonce@, plain_text@),
        ctr_decrypt_spec(key@, r@) == Ok::<Seq<u8>, CipherError>(plain_text@),
{
    let mut out: Vec<u8> = Vec::new();
    let mut j: usize = 0;
    while j < 8
        invariant
            j <= 8,
            out@ == nonce@.take(j as int),
        decreases 8 - j,
    {
        out.push(nonce[j]);
        j = j + 1;
        assert(out@ =~= nonce@.take(j as int));
    }
    assert(nonce@.take(8) =~= nonce@);
    ctr_apply_into(&mut out, &plain_text, 0, &key, &nonce);
    proof {
        assert(plain_text@.skip(0) =~= plain_text@);
        lemma_ctr_round_trip(key@, nonce@, plain_text@);
    }
    out
}

/// Encrypts under `key` with a fresh random nonce, which leads the result.
/// Decrypting the result under the same key gives the message back.
pub fn ctr_encrypt(plain_text: Vec<u8>, key: [u8; 16]) -> (r: Vec<u8>)
    requires
        plain_text@.len() + 8 <= usize::MAX,
    ensures
        r@.len() >= 8,
        r@ == ctr_encrypt_spec(key@, r@.take(8), plain_text@),
        ctr_decrypt_spec(key@, r@) == Ok::<Seq<u8>, CipherError>(plain_text@),
{
    let fresh = random_block();
    let nonce: [u8; 8] = [
        fresh[0],
        fresh[1],
        fresh[2],
        fresh[3],
        fresh[4],
        fresh[5],
        fresh[6],
        fresh[7],
    ];
    let r = ctr_encrypt_with_nonce(plain_text, key, nonce);
    assert(r@.take(8) =~= nonce@);
    r
}

/// Reads the nonce from the first eight bytes and xors the rest with its
/// keystream.
pub fn ctr_decrypt(cipher_text: Vec<u8>, key: [u8; 16]) -> (r: Result<Vec<u8>, CipherError>)
    ensures
        result_view(r) == ctr_decrypt_spec(key@, cipher_text@),
{
    if cipher_text.len() < 8 {
        return Err(CipherError::InvalidCiphertextLength);
    }
    let nonce: [u8; 8] = [
        cipher_text[0],
        cipher_text[1],
        cipher_text[2],
        cipher_text[3],
        cipher_text[4],
        cipher_text[5],
        cipher_text[6],
        cipher_text[7],
    ];
    assert(nonce@ =~= cipher_text@.take(8));
    let mut out: Vec<u8> = Vec::new();
    ctr_apply_into(&mut out, &cipher_text, 8, &key, &nonce);
    assert(out@ =~= ctr_apply(key@, nonce@, cipher_text@.skip(8)));
    Ok(out)
}

/// Decrypts (or encrypts) block `index` of a CTR body on its own, from the
/// key, the nonce, the block's index and the block: random access.
pub fn ctr_decrypt_block(key: [u8; 16], nonce: [u8; 8], index: u64, chunk: Vec<u8>) -> (r: Vec<u8>)
    requires
        chunk@.len() <= 16,
    ensures
        r@ == xor_block(chunk@, keystream(key@, nonce@, index)),
{
    let v = make_counter_block(&nonce, index);
    let ks = aes_encrypt(v, &key);
    let mut out: Vec<u8> = Vec::new();
    let mut j: usize = 0;
    while j < chunk.len()
        invariant
            j <= chunk@.len() <= 16,
            ks@ == keystream(key@, nonce@, index),
            out@ == xor_block(chunk@, ks@).take(j as int),
        decreases chunk@.len() - j,
    {
        out.push(chunk[j] ^ ks[j]);
        j = j + 1;
        assert(out@ =~= xor_block(chunk@, ks@).take(j as int));
    }
    assert(xor_block(chunk@, ks@).take(j as int) =~= xor_block(chunk@, ks@));
    out
}

} // verus!

//! Padding a message to whole blocks, and splitting it into blocks.
use crate::{result_view, CipherError};
use vstd::prelude::*;
use vstd::string::StringSliceAdditionalSpecFns;

verus! {

/// The number of padding bytes that `pad` appends to a message of `len` bytes:
/// between 1 and 16, and a whole extra block when `len` is already aligned.
pub open spec fn pad_len(len: nat) -> nat {
    (16 - len % 16) as nat
}

/// The message followed by `n` bytes of value `n`, where `n = pad_len`.
pub open spec fn pad_spec(data: Seq<u8>) -> Seq<u8> {
    let n = pad_len(data.len());
    data + Seq::new(n, |i: int| n as u8)
}

/// A well-formed padding tail: the last byte `n` lies in `1..=16`, and the
/// last `n` bytes all hold `n`.
pub open spec fn valid_padding(data: Seq<u8>) -> bool {
    &&& data.len() > 0
    &&& 1 <= data.last() <= 16
    &&& data.last() <= data.len()
    &&& forall|i: int| data.len() - data.last() <= i < data.len() ==> data[i] == data.last()
}

/// The message with its padding tail removed, or `InvalidPadding`.
pub open spec fn unpad_spec(data: Seq<u8>) -> Result<Seq<u8>, CipherError> {
    if valid_padding(data) {
        Ok(data.take(data.len() - data.last()))
    } else {
        Err(CipherError::InvalidPadding)
    }
}

/// The consecutive 16-byte chunks of `data`, in order.
pub open spec fn group_spec(data: Seq<u8>) -> Seq<Seq<u8>> {
    Seq::new(data.len() / 16, |i: int| data.subrange(16 * i, 16 * i + 16))
}

/// The concatenation of 16-byte blocks, in order.
pub open spec fn ungroup_spec(blocks: Seq<Seq<u8>>) -> Seq<u8> {
    Seq::new(16 * blocks.len(), |k: int| blocks[k / 16][k % 16])
}

/// The blocks of a vector of arrays, as sequences.
pub open spec fn blocks_view(blocks: Seq<[u8; 16]>) -> Seq<Seq<u8>> {
    blocks.map_values(|b: [u8; 16]| b@)
}

/// Every block holds exactly 16 bytes.
pub open spec fn all_full(blocks: Seq<Seq<u8>>) -> bool {
    forall|i: int| 0 <= i < blocks.len() ==> (#[trigger] blocks[i]).len() == 16
}

/// Every block of a vector of arrays holds 16 bytes.
pub proof fn lemma_blocks_view_full(blocks: Seq<[u8; 16]>)
    ensures
        all_full(blocks_view(blocks)),
        blocks_view(blocks).len() == blocks.len(),
{
    assert forall|i: int| 0 <= i < blocks_view(blocks).len() implies (
    #[trigger] blocks_view(blocks)[i]).len() == 16 by {
        assert(blocks_view(blocks)[i] == blocks[i]@);
    }
}

/// The bytewise exclusive or of `a` with the first `a.len()` bytes of `b`.
pub open spec fn xor_block(a: Seq<u8>, b: Seq<u8>) -> Seq<u8> {
    Seq::new(a.len(), |j: int| a[j] ^ b[j])
}

/// Exclusive or with the same mask twice gives the input back.
pub proof fn lemma_xor_twice(a: Seq<u8>, b: Seq<u8>)
    ensures
        xor_block(xor_block(a, b), b) == a,
{
    assert forall|j: int| 0 <= j < a.len() implies #[trigger] xor_block(xor_block(a, b), b)[j]
        == a[j] by {
        let (x, y) = (a[j], b[j]);
        assert((x ^ y) ^ y == x) by (bit_vector);
    }
    assert(xor_block(xor_block(a, b), b) =~= a);
}

/// The bytewise exclusive or of two blocks.
pub fn xor_arr(a: &[u8; 16], b: &[u8; 16]) -> (r: [u8; 16])
    ensures
        r@ == xor_block(a@, b@),
{
    let mut out: [u8; 16] = [0u8; 16];
    let mut j: usize = 0;
    while j < 16
        invariant
            j <= 16,
            forall|k: int| 0 <= k < j ==> out@[k] == a@[k] ^ b@[k],
        decreases 16 - j,
    {
        out[j] = a[j] ^ b[j];
        j = j + 1;
    }
    assert(out@ =~= xor_block(a@, b@));
    out
}

/// The first 16 bytes of `b`, followed by zeros where `b` is shorter.
pub open spec fn fit_block(b: Seq<u8>) -> Seq<u8> {
    Seq::new(16, |i: int| if i < b.len() { b[i] } else { 0u8 })
}

/// Removing the padding that `pad` added gives the message back, for every
/// message, the empty one and block-aligned ones included.
pub proof fn lemma_unpad_pad(data: Seq<u8>)
    ensures
        unpad_spec(pad_spec(data)) == Ok::<Seq<u8>, CipherError>(data),
{
    let p = pad_spec(data);
    let n = pad_len(data.len());
    assert(p.last() == n as u8);
    assert(p.take(p.len() - p.last()) =~= data);
}

/// Splitting a block-aligned sequence into blocks and joining them again gives
/// the sequence back.
pub proof fn lemma_ungroup_group(data: Seq<u8>)
    requires
        data.len() % 16 == 0,
    ensures
        ungroup_spec(group_spec(data)) == data,
        all_full(group_spec(data)),
{
    let g = group_spec(data);
    assert forall|k: int| 0 <= k < data.len() implies ungroup_spec(g)[k] == data[k] by {
        assert(16 * (k / 16) + k % 16 == k);
    }
    assert(ungroup_spec(g) =~= data);
}

/// Joining blocks of 16 bytes and splitting the result gives the blocks back.
pub proof fn lemma_group_ungroup(blocks: Seq<Seq<u8>>)
    requires
        all_full(blocks),
    ensures
        group_spec(ungroup_spec(blocks)) == blocks,
{
    let u = ungroup_spec(blocks);
    assert forall|i: int| 0 <= i < blocks.len() implies group_spec(u)[i] == blocks[i] by {
        assert forall|j: int| 0 <= j < 16 implies group_spec(u)[i][j] == blocks[i][j] by {
            assert((16 * i + j) / 16 == i);
            assert((16 * i + j) % 16 == j);
        }
        assert(group_spec(u)[i] =~= blocks[i]);
    }
    assert(group_spec(u) =~= blocks);
}

/// Appends `n` bytes of value `n` so that the length becomes a positive
/// multiple of 16; an aligned message gets a whole block of 16s.
pub fn pad(data: Vec<u8>) -> (r: Vec<u8>)
    requires
        data.len() + 16 <= usize::MAX,
    ensures
        r@ == pad_spec(data@),
        r@.len() % 16 == 0,
        r@.len() >= data@.len() + 1,
{
    let mut data = data;
    let n: usize = 16 - data.len() % 16;
    let ghost orig = data@;
    let mut i: usize = 0;
    while i < n
        invariant
            n == pad_len(orig.len()),
            i <= n,
            data@ == orig + Seq::new(i as nat, |k: int| n as u8),
        decreases n - i,
    {
        data.push(n as u8);
        i = i + 1;
        assert(data@ =~= orig + Seq::new(i as nat, |k: int| n as u8));
    }
    assert(data@ =~= pad_spec(orig));
    data
}

/// Removes a padding tail, after checking that the last byte `n` lies in
/// `1..=16` and that the last `n` bytes all hold `n`.
pub fn un_pad(data: Vec<u8>) -> (r: Result<Vec<u8>, CipherError>)
    ensures
        result_view(r) == unpad_spec(data@),
{
    let len = data.len();
    if len == 0 {
        return Err(CipherError::InvalidPadding);
    }
    let n = data[len - 1];
    if n < 1 || n > 16 || n as usize > len {
        return Err(CipherError::InvalidPadding);
    }
    let start: usize = len - n as usize;
    let mut i: usize = start;
    while i < len
        invariant
            start <= i <= len,
            len == data@.len(),
            n == data@.last(),
            start == len - n,
            forall|k: int| start <= k < i ==> data@[k] == n,
        decreases len - i,
    {
        if data[i] != n {
            assert(data@[i as int] != data@.last());
            return Err(CipherError::InvalidPadding);
        }
        i = i + 1;
    }
    let mut out: Vec<u8> = Vec::new();
    let mut j: usize = 0;
    while j < start
        invariant
            j <= start <= len,
            len == data@.len(),
            out@ == data@.take(j as int),
        decreases start - j,
    {
        out.push(data[j]);
        j = j + 1;
        assert(out@ =~= data@.take(j as int));
    }
    Ok(out)
}

/// Splits a block-aligned sequence into its 16-byte blocks, in order; any
/// other length is refused with `InvalidBlockLength`.
pub fn group(data: Vec<u8>) -> (r: Result<Vec<[u8; 16]>, CipherError>)
    ensures
        data@.len() % 16 == 0 <==> r is Ok,
        r matches Ok(v) ==> blocks_view(v@) == group_spec(data@),
        r matches Err(e) ==> e == CipherError::InvalidBlockLength,
{
    if data.len() % 16 != 0 {
        return Err(CipherError::InvalidBlockLength);
    }
    let nblocks: usize = data.len() / 16;
    let mut blocks: Vec<[u8; 16]> = Vec::new();
    let mut b: usize = 0;
    while b < nblocks
        invariant
            nblocks == data@.len() / 16,
            data@.len() % 16 == 0,
            data@.len() == 16 * nblocks,
            data@.len() <= usize::MAX,
            b <= nblocks,
            blocks_view(blocks@) == group_spec(data@).take(b as int),
        decreases nblocks - b,
    {
        let mut block: [u8; 16] = [0u8; 16];
        assert(16 * (b + 1) <= 16 * nblocks) by (nonlinear_arith)
            requires
                b + 1 <= nblocks,
        ;
        let base: usize = 16 * b;
        let mut j: usize = 0;
        while j < 16
            invariant
                j <= 16,
                base == 16 * b,
                b < nblocks,
                nblocks == data@.len() / 16,
                data@.len() == 16 * nblocks,
                data@.len() <= usize::MAX,
                blocks_view(blocks@) == group_spec(data@).take(b as int),
                forall|k: int| 0 <= k < j ==> block@[k] == data@[base + k],
            decreases 16 - j,
        {
            block[j] = data[base + j];
            j = j + 1;
        }
        assert(block@ =~= data@.subrange(16 * b, 16 * b + 16));
        let ghost prev = blocks@;
        assert(blocks_view(prev).len() == b);
        assert(prev.len() == b);
        blocks.push(block);
        b = b + 1;
        assert forall|i: int| 0 <= i < b implies blocks_view(blocks@)[i] == group_spec(data@)[i] by {
            if i < b - 1 {
                assert(blocks@[i] == prev[i]);
                assert(blocks_view(prev)[i] == group_spec(data@).take(b - 1)[i]);
            }
        }
        assert(blocks_view(blocks@) =~= group_spec(data@).take(b as int));
    }
    assert(group_spec(data@).take(b as int) =~= group_spec(data@));
    Ok(blocks)
}

/// Concatenates blocks, in order: the inverse of `group`.
pub fn un_group(blocks: Vec<[u8; 16]>) -> (r: Vec<u8>)
    requires
        16 * blocks@.len() <= usize::MAX,
    ensures
        r@ == ungroup_spec(blocks_view(blocks@)),
{
    let ghost bv = blocks_view(blocks@);
    let mut out: Vec<u8> = Vec::new();
    let mut b: usize = 0;
    while b < blocks.len()
        invariant
            bv == blocks_view(blocks@),
            16 * blocks@.len() <= usize::MAX,
            b <= blocks@.len(),
            out@ == ungroup_spec(bv.take(b as int)),
        decreases blocks@.len() - b,
    {
        let block = blocks[b];
        let mut j: usize = 0;
        while j < 16
            invariant
                bv == blocks_view(blocks@),
                16 * blocks@.len() <= usize::MAX,
                b < blocks@.len(),
                j <= 16,
                block@ == bv[b as int],
                out@.len() == 16 * b + j,
                forall|k: int| 0 <= k < 16 * b ==> out@[k] == ungroup_spec(bv.take(b as int))[k],
                forall|k: int| 0 <= k < j ==> out@[16 * b + k] == block@[k],
            decreases 16 - j,
        {
            out.push(block[j]);
            j = j + 1;
        }
        b = b + 1;
        assert forall|k: int| 0 <= k < 16 * b implies out@[k] == ungroup_spec(bv.take(b as int))[k] by {
            if k >= 16 * (b - 1) {
                assert(k / 16 == b - 1);
                assert(out@[16 * (b - 1) + k % 16] == block@[k % 16]);
            } else {
                assert(ungroup_spec(bv.take(b - 1))[k] == bv[k / 16][k % 16]);
            }
        }
        assert(out@ =~= ungroup_spec(bv.take(b as int)));
    }
    assert(bv.take(b as int) =~= bv);
    out
}

/// The first 16 bytes of `b`, zero-filled where `b` is shorter.
fn fit_from_slice(b: &[u8]) -> (r: [u8; 16])
    ensures
        r@ == fit_block(b@),
{
    let mut block: [u8; 16] = [0u8; 16];
    let len: usize = if b.len() < 16 { b.len() } else { 16 };
    let mut j: usize = 0;
    while j < len
        invariant
            j <= len <= 16,
            len <= b@.len(),
            len == b@.len() || len == 16,
            forall|k: int| 0 <= k < j ==> block@[k] == b@[k],
            forall|k: int| len <= k < 16 ==> block@[k] == 0u8,
        decreases len - j,
    {
        block[j] = b[j];
        j = j + 1;
    }
    assert(block@ =~= fit_block(b@));
    block
}

/// The string's first 16 bytes as a block, zero-filled where it is shorter.
pub fn string_to_u8_16(s: &str) -> (r: [u8; 16])
    ensures
        r@ == fit_block(s.spec_bytes()),
{
    fit_from_slice(s.as_bytes())
}

/// The vector's first 16 bytes as a block, zero-filled where it is shorter.
pub fn vec_u8_to_u8_16(data: Vec<u8>) -> (r: [u8; 16])
    ensures
        r@ == fit_block(data@),
{
    fit_from_slice(data.as_slice())
}

} // verus!

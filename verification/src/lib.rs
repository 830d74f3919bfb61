//! Block-cipher modes of operation (ECB, CBC, CTR) and PKCS#7 padding,
//! layered over an AES-128 single-block engine.
//!
//! The single-block transforms are supplied by an external engine; the
//! mode-chaining, counter and padding logic here is verified against
//! contracts stated over the engine's abstract input/output relation.

use vstd::prelude::*;

/// AES engine for single block en/decryption
pub mod aes;

/// CBC mode for AES
pub mod cbc;

/// CTR mode for AES
pub mod ctr;

/// ECB mode for AES
pub mod ecb;

/// PKCS#7 padding for AES block size
pub mod pkcs7;

verus! {

/// Errors from the XOR primitive and the chaining modes.
#[derive(Debug)]
pub enum Error {
    InvalidLength,
}

/// The i-th 16-byte block of a byte sequence.
pub open spec fn seq_block(s: Seq<u8>, i: int) -> Seq<u8> {
    s.subrange(16 * i, 16 * i + 16)
}

/// A block-aligned length is sixteen times its block count.
pub proof fn lemma_len_blocks(len: int)
    requires
        0 <= len,
        len % 16 == 0,
    ensures
        len == 16 * (len / 16),
{
    vstd::arithmetic::div_mod::lemma_fundamental_div_mod(len, 16);
}

/// A byte offset t into block i sits at position 16 * i + t, whose block
/// index is i and whose offset within the block is t.
pub proof fn lemma_block_index(i: int, t: int)
    requires
        0 <= i,
        0 <= t < 16,
    ensures
        (16 * i + t) / 16 == i,
        (16 * i + t) % 16 == t,
{
    vstd::arithmetic::div_mod::lemma_fundamental_div_mod_converse(16 * i + t, 16, i, t);
}

/// Any position j of a block-aligned buffer of length len sits at offset
/// j % 16 within block j / 16, and that block index is in range.
pub proof fn lemma_position_block(j: int, len: int)
    requires
        0 <= j < len,
        len % 16 == 0,
    ensures
        0 <= j % 16 < 16,
        j == 16 * (j / 16) + j % 16,
        0 <= j / 16 < len / 16,
{
    vstd::arithmetic::div_mod::lemma_fundamental_div_mod(j, 16);
    vstd::arithmetic::div_mod::lemma_mod_pos_bound(j, 16);
    lemma_len_blocks(len);
}

/// Byte-wise exclusive-or of two sequences, at the length of the left one.
pub open spec fn xor_bytes(left: Seq<u8>, right: Seq<u8>) -> Seq<u8> {
    Seq::new(left.len(), |i: int| left[i] ^ right[i])
}

/// XORing the same sequence in twice gives the original back.
pub proof fn lemma_xor_bytes_cancel(a: Seq<u8>, b: Seq<u8>)
    ensures
        xor_bytes(xor_bytes(a, b), b) == a,
{
    assert forall|i: int| 0 <= i < a.len() implies xor_bytes(xor_bytes(a, b), b)[i] == a[i] by {
        let x = a[i];
        let y = b[i];
        assert((x ^ y) ^ y == x) by (bit_vector);
    }
    assert(xor_bytes(xor_bytes(a, b), b) =~= a);
}

/// Perform bitwise XOR on equal length byte slices
pub fn xor(left: &[u8], right: &[u8]) -> (res: Result<Vec<u8>, Error>)
    ensures
        left@.len() == right@.len() ==> (res matches Ok(v) && v@ == xor_bytes(left@, right@)),
        left@.len() != right@.len() ==> (res matches Err(Error::InvalidLength)),
{
    let len = left.len();

    if len != right.len() {
        return Err(Error::InvalidLength);
    }

    let mut res: Vec<u8> = Vec::with_capacity(len);
    let mut i: usize = 0;
    while i < len
        invariant
            i <= len,
            len == left@.len(),
            len == right@.len(),
            res@.len() == i,
            forall|j: int| 0 <= j < i ==> res@[j] == (left@[j] ^ right@[j]),
        decreases len - i,
    {
        res.push(left[i] ^ right[i]);
        i += 1;
    }

    proof {
        assert(res@ =~= xor_bytes(left@, right@));
    }
    Ok(res)
}

/// Perform bitwise XOR on equal length byte buffers
///
/// Assigns result into the left buffer
pub fn xor_equals(left: &mut Vec<u8>, right: &[u8]) -> (res: Result<(), Error>)
    ensures
        old(left)@.len() == right@.len() ==> res is Ok && final(left)@ == xor_bytes(old(left)@, right@),
        old(left)@.len() != right@.len() ==> (res matches Err(Error::InvalidLength)
            && final(left)@ == old(left)@),
{
    let len = left.len();

    if len != right.len() {
        return Err(Error::InvalidLength);
    }

    let mut i: usize = 0;
    while i < len
        invariant
            i <= len,
            len == left@.len(),
            len == right@.len(),
            forall|j: int| 0 <= j < i ==> left@[j] == (old(left)@[j] ^ right@[j]),
            forall|j: int| i <= j < len ==> left@[j] == old(left)@[j],
        decreases len - i,
    {
        let v = left[i] ^ right[i];
        left[i] = v;
        i += 1;
    }

    proof {
        assert(left@ =~= xor_bytes(old(left)@, right@));
    }
    Ok(())
}

/// Copy the i-th 16-byte block of a byte slice into an array.
pub(crate) fn copy_block(s: &[u8], i: usize) -> (res: [u8; 16])
    requires
        16 * (i as int) + 16 <= s@.len(),
    ensures
        res@ == seq_block(s@, i as int),
{
    let slen: usize = s.len();
    let start = 16 * i;
    let mut blk = [0u8; 16];
    let mut t: usize = 0;
    while t < 16
        invariant
            t <= 16,
            slen == s@.len(),
            16 * (i as int) + 16 <= s@.len(),
            start == 16 * (i as int),
            forall|j: int| 0 <= j < t ==> blk@[j] == s@[16 * (i as int) + j],
        decreases 16 - t,
    {
        blk[t] = s[start + t];
        t += 1;
    }
    proof {
        assert(blk@ =~= seq_block(s@, i as int));
    }
    blk
}

/// Append a 16-byte block to the end of a byte vector.
pub(crate) fn push_block(out: &mut Vec<u8>, blk: &[u8; 16])
    ensures
        final(out)@ == old(out)@ + blk@,
{
    let mut t: usize = 0;
    while t < 16
        invariant
            t <= 16,
            out@.len() == old(out)@.len() + t,
            forall|j: int| 0 <= j < old(out)@.len() ==> out@[j] == old(out)@[j],
            forall|j: int| 0 <= j < t ==> out@[old(out)@.len() + j] == blk@[j],
        decreases 16 - t,
    {
        out.push(blk[t]);
        t += 1;
    }
    proof {
        assert(out@ =~= old(out)@ + blk@);
    }
}

} // verus!

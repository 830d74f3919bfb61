//! CTR mode for AES

use vstd::prelude::*;

use crate::aes;
use crate::aes::aes128_of;
use crate::lemma_block_index;

verus! {

/// Endianess for interpreting nonce and counter values
#[derive(Debug, PartialEq)]
pub enum Endian {
    Big,
    Little,
}

/// The 8 bytes of a 64-bit value, most significant byte first.
pub open spec fn u64_be_bytes(n: u64) -> Seq<u8> {
    Seq::new(8, |i: int| (((n >> (((7 - i) * 8) as u64)) & 0xff) as u8))
}

/// The 8 bytes of a 64-bit value, least significant byte first.
pub open spec fn u64_le_bytes(n: u64) -> Seq<u8> {
    Seq::new(8, |i: int| (((n >> ((i * 8) as u64)) & 0xff) as u8))
}

/// The serialized bytes of a nonce or counter value in a given endianness.
pub open spec fn endian_bytes(n: u64, e: Endian) -> Seq<u8> {
    match e {
        Endian::Big => u64_be_bytes(n),
        Endian::Little => u64_le_bytes(n),
    }
}

/// The number of keystream blocks a text of the given length consumes: one
/// per 16-byte chunk, a final partial chunk included.
pub open spec fn ks_blocks(len: int) -> int {
    if len % 16 == 0 {
        len / 16
    } else {
        len / 16 + 1
    }
}

/// The keystream block for one counter value: the forward transform of the
/// serialized nonce followed by the serialized counter.
pub open spec fn keystream_block(key: Seq<u8>, nonce: u64, count: u64, e: Endian) -> Seq<u8> {
    aes128_of(key, endian_bytes(nonce, e) + endian_bytes(count, e))
}

/// The CTR transform: byte j of the text XORed with byte j % 16 of the
/// keystream block for counter value count + j / 16.
pub open spec fn ctr_bytes(text: Seq<u8>, key: Seq<u8>, nonce: u64, count: u64, e: Endian) -> Seq<u8> {
    Seq::new(
        text.len(),
        |j: int| text[j] ^ keystream_block(key, nonce, (count + j / 16) as u64, e)[j % 16],
    )
}

/// Serialize a 64-bit value to its big-endian bytes.
fn u64_to_be_bytes(n: u64) -> (res: [u8; 8])
    ensures
        res@ == u64_be_bytes(n),
{
    let mut res = [0u8; 8];
    let mut i: usize = 0;
    while i < 8
        invariant
            i <= 8,
            forall|j: int| 0 <= j < i ==> res@[j] == u64_be_bytes(n)[j],
        decreases 8 - i,
    {
        let sh: u64 = 56 - 8 * (i as u64);
        let masked: u64 = (n >> sh) & 0xff;
        proof {
            assert(masked <= 255) by (bit_vector)
                requires
                    masked == (n >> sh) & 0xff,
            ;
            assert(sh == (((7 - i as int) * 8) as u64));
        }
        res[i] = masked as u8;
        i += 1;
    }
    proof {
        assert(res@ =~= u64_be_bytes(n));
    }
    res
}

/// Serialize a 64-bit value to its little-endian bytes.
fn u64_to_le_bytes(n: u64) -> (res: [u8; 8])
    ensures
        res@ == u64_le_bytes(n),
{
    let mut res = [0u8; 8];
    let mut i: usize = 0;
    while i < 8
        invariant
            i <= 8,
            forall|j: int| 0 <= j < i ==> res@[j] == u64_le_bytes(n)[j],
        decreases 8 - i,
    {
        let sh: u64 = 8 * (i as u64);
        let masked: u64 = (n >> sh) & 0xff;
        proof {
            assert(masked <= 255) by (bit_vector)
                requires
                    masked == (n >> sh) & 0xff,
            ;
            assert(sh == (((i as int) * 8) as u64));
        }
        res[i] = masked as u8;
        i += 1;
    }
    proof {
        assert(res@ =~= u64_le_bytes(n));
    }
    res
}

/// Get the next block of the keystream: write the serialized counter into
/// the last 8 bytes of the input block and run the forward transform.
pub fn ctr_inner_cipher(
    input: &mut [u8; 16],
    key: &[u8; 16],
    count: u64,
    mode: &Endian,
) -> (res: [u8; 16])
    ensures
        final(input)@ == old(input)@.subrange(0, 8) + endian_bytes(count, *mode),
        res@ == aes128_of(key@, final(input)@),
{
    let count_bytes = match mode {
        Endian::Big => u64_to_be_bytes(count),
        Endian::Little => u64_to_le_bytes(count),
    };

    let mut t: usize = 0;
    while t < 8
        invariant
            t <= 8,
            count_bytes@ == endian_bytes(count, *mode),
            forall|j: int| 0 <= j < 8 ==> input@[j] == old(input)@[j],
            forall|j: int| 8 <= j < 8 + t ==> input@[j] == count_bytes@[j - 8],
        decreases 8 - t,
    {
        input[8 + t] = count_bytes[t];
        t += 1;
    }
    proof {
        assert(input@ =~= old(input)@.subrange(0, 8) + endian_bytes(count, *mode));
    }

    aes::aes_128(input, key)
}

/// Shared CTR transform for encryption and decryption: XOR the text against
/// the keystream and advance the caller's counter once per chunk consumed.
pub fn ctr_inner(
    text: &[u8],
    key: &[u8; 16],
    nonce: u64,
    count: &mut u64,
    mode: &Endian,
) -> (res: Vec<u8>)
    requires
        *old(count) + ks_blocks(text@.len() as int) <= u64::MAX,
    ensures
        res@ == ctr_bytes(text@, key@, nonce, *old(count), *mode),
        *final(count) == *old(count) + ks_blocks(text@.len() as int),
{
    let len = text.len();
    let mut res: Vec<u8> = Vec::with_capacity(len);

    let nonce_bytes = match mode {
        Endian::Big => u64_to_be_bytes(nonce),
        Endian::Little => u64_to_le_bytes(nonce),
    };

    let mut input = [0u8; 16];
    let mut t: usize = 0;
    while t < 8
        invariant
            t <= 8,
            nonce_bytes@ == endian_bytes(nonce, *mode),
            forall|j: int| 0 <= j < t ==> input@[j] == nonce_bytes@[j],
        decreases 8 - t,
    {
        input[t] = nonce_bytes[t];
        t += 1;
    }
    proof {
        assert(input@.subrange(0, 8) =~= endian_bytes(nonce, *mode));
        vstd::arithmetic::div_mod::lemma_fundamental_div_mod(len as int, 16);
        vstd::arithmetic::div_mod::lemma_mod_pos_bound(len as int, 16);
    }

    let nblocks = len / 16 + if len % 16 != 0 {
        1
    } else {
        0
    };

    let mut b: usize = 0;
    while b < nblocks
        invariant
            b <= nblocks,
            len == text@.len(),
            nblocks == ks_blocks(len as int),
            len as int == 16 * ((len as int) / 16) + (len as int) % 16,
            0 <= (len as int) % 16 < 16,
            *old(count) + nblocks <= u64::MAX,
            *count == *old(count) + b,
            input@.subrange(0, 8) == endian_bytes(nonce, *mode),
            res@.len() == (if 16 * (b as int) <= len as int {
                16 * (b as int)
            } else {
                len as int
            }),
            forall|j: int|
                0 <= j < res@.len() ==> res@[j] == ctr_bytes(
                    text@,
                    key@,
                    nonce,
                    *old(count),
                    *mode,
                )[j],
        decreases nblocks - b,
    {
        let stream = ctr_inner_cipher(&mut input, key, *count, mode);
        proof {
            assert(input@ =~= endian_bytes(nonce, *mode) + endian_bytes(*count, *mode));
            assert(stream@ == keystream_block(key@, nonce, *count, *mode));
            assert(input@.subrange(0, 8) =~= endian_bytes(nonce, *mode));
        }

        let start = 16 * b;
        let m = if len - start < 16 {
            len - start
        } else {
            16
        };

        let mut t2: usize = 0;
        while t2 < m
            invariant
                t2 <= m,
                len == text@.len(),
                b < nblocks,
                nblocks == ks_blocks(len as int),
                len as int == 16 * ((len as int) / 16) + (len as int) % 16,
                0 <= (len as int) % 16 < 16,
                start == 16 * (b as int),
                start + m <= len,
                m == (if len as int - start < 16 {
                    len as int - start
                } else {
                    16
                }),
                *old(count) + nblocks <= u64::MAX,
                *count == *old(count) + b,
                stream@ == keystream_block(key@, nonce, *count as u64, *mode),
                res@.len() == start + t2,
                forall|j: int|
                    0 <= j < start ==> res@[j] == ctr_bytes(text@, key@, nonce, *old(count), *mode)[j],
                forall|j: int| 0 <= j < t2 ==> res@[start + j] == (text@[start + j] ^ stream@[j]),
            decreases m - t2,
        {
            res.push(text[start + t2] ^ stream[t2]);
            t2 += 1;
        }

        proof {
            assert forall|j: int|
                start <= j < start + m implies res@[j] == ctr_bytes(
                text@,
                key@,
                nonce,
                *old(count),
                *mode,
            )[j] by {
                lemma_block_index(b as int, j - start);
                assert((*old(count) + j / 16) as u64 == *count);
            }
        }

        *count += 1;
        b += 1;
    }

    proof {
        assert(res@ =~= ctr_bytes(text@, key@, nonce, *old(count), *mode));
    }
    res
}

/// Encrypt a given plaintext using AES-128-CTR
/// Supply the nonce and initial count for encryption
/// The mode determines the Endian interpretation of the nonce and counter
pub fn encrypt(
    plaintext: &[u8],
    key: &[u8; 16],
    nonce: u64,
    count: &mut u64,
    mode: &Endian,
) -> (res: Vec<u8>)
    requires
        *old(count) + ks_blocks(plaintext@.len() as int) <= u64::MAX,
    ensures
        res@ == ctr_bytes(plaintext@, key@, nonce, *old(count), *mode),
        *final(count) == *old(count) + ks_blocks(plaintext@.len() as int),
{
    ctr_inner(plaintext, key, nonce, count, mode)
}

/// Decrypt a given ciphertext using AES-128-CTR
/// Supply the nonce and initial count for decryption
/// The mode determines the Endian interpretation of the nonce and counter
pub fn decrypt(
    ciphertext: &[u8],
    key: &[u8; 16],
    nonce: u64,
    count: &mut u64,
    mode: &Endian,
) -> (res: Vec<u8>)
    requires
        *old(count) + ks_blocks(ciphertext@.len() as int) <= u64::MAX,
    ensures
        res@ == ctr_bytes(ciphertext@, key@, nonce, *old(count), *mode),
        *final(count) == *old(count) + ks_blocks(ciphertext@.len() as int),
{
    ctr_inner(ciphertext, key, nonce, count, mode)
}

/// Get the number of blocks of key stream needed for a given text length
pub fn get_block_count(len: usize) -> (res: u64)
    ensures
        res as int == ks_blocks(len as int),
{
    let blocks = len / 16 + if len % 16 != 0 {
        1
    } else {
        0
    };
    blocks as u64
}

/// CTR round trip: running the transform twice with the same key, nonce,
/// initial counter and endianness returns the original text.
pub proof fn lemma_ctr_round_trip(text: Seq<u8>, key: Seq<u8>, nonce: u64, count: u64, e: Endian)
    ensures
        ctr_bytes(ctr_bytes(text, key, nonce, count, e), key, nonce, count, e) == text,
{
    let once = ctr_bytes(text, key, nonce, count, e);
    assert forall|j: int|
        0 <= j < text.len() implies ctr_bytes(once, key, nonce, count, e)[j] == text[j] by {
        let k = keystream_block(key, nonce, (count + j / 16) as u64, e)[j % 16];
        let x = text[j];
        assert((x ^ k) ^ k == x) by (bit_vector);
        assert(once[j] == x ^ k);
    }
    assert(ctr_bytes(once, key, nonce, count, e) =~= text);
}

} // verus!

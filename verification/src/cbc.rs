//! CBC mode for AES

use vstd::prelude::*;

use crate::Error;
use crate::aes;
use crate::aes::aes128_inv_of;
use crate::aes::aes128_of;
use crate::aes::cipher_ok;
use crate::copy_block;
use crate::lemma_block_index;
use crate::lemma_len_blocks;
use crate::lemma_position_block;
use crate::lemma_xor_bytes_cancel;
use crate::push_block;
use crate::seq_block;
use crate::xor_bytes;

verus! {

/// Initialization vector length for AES-128-CBC
pub const IV_LEN: usize = 16;

/// Ciphertext block i of CBC encryption: the forward transform of plaintext
/// block i XORed with the previous ciphertext block, or with the IV for the
/// first block.
pub open spec fn cbc_cipher_block(msg: Seq<u8>, key: Seq<u8>, iv: Seq<u8>, i: int) -> Seq<u8>
    decreases i,
{
    if i <= 0 {
        aes128_of(key, xor_bytes(seq_block(msg, 0), iv))
    } else {
        aes128_of(key, xor_bytes(seq_block(msg, i), cbc_cipher_block(msg, key, iv, i - 1)))
    }
}

/// The ciphertext CBC encryption produces, block by block.
pub open spec fn cbc_encrypt_bytes(msg: Seq<u8>, key: Seq<u8>, iv: Seq<u8>) -> Seq<u8> {
    Seq::new(msg.len(), |j: int| cbc_cipher_block(msg, key, iv, j / 16)[j % 16])
}

/// Plaintext block i of CBC decryption: the inverse transform of ciphertext
/// block i, XORed with the previous ciphertext block, or with the IV for the
/// first block.
pub open spec fn cbc_plain_block(cipher: Seq<u8>, key: Seq<u8>, iv: Seq<u8>, i: int) -> Seq<u8> {
    if i <= 0 {
        xor_bytes(aes128_inv_of(key, seq_block(cipher, 0)), iv)
    } else {
        xor_bytes(aes128_inv_of(key, seq_block(cipher, i)), seq_block(cipher, i - 1))
    }
}

/// The plaintext CBC decryption produces, block by block.
pub open spec fn cbc_decrypt_bytes(cipher: Seq<u8>, key: Seq<u8>, iv: Seq<u8>) -> Seq<u8> {
    Seq::new(cipher.len(), |j: int| cbc_plain_block(cipher, key, iv, j / 16)[j % 16])
}

/// Encrypt a message in CBC mode
///
/// Message must be a multiple of the AES block length (16)
pub fn encrypt(msg: &[u8], key: &[u8; 16], iv: &[u8; 16]) -> (res: Result<Vec<u8>, Error>)
    ensures
        msg@.len() % 16 == 0 ==> (res matches Ok(c) && c@ == cbc_encrypt_bytes(msg@, key@, iv@)),
        msg@.len() % 16 != 0 ==> (res matches Err(Error::InvalidLength)),
{
    let len = msg.len();
    if len % 16 != 0 {
        return Err(Error::InvalidLength);
    }

    proof {
        lemma_len_blocks(len as int);
    }
    let n = len / 16;
    let mut res: Vec<u8> = Vec::with_capacity(len);
    let mut chain: [u8; 16] = *iv;
    let mut i: usize = 0;
    while i < n
        invariant
            i <= n,
            len == msg@.len(),
            len % 16 == 0,
            n == len / 16,
            len == 16 * n,
            res@.len() == 16 * i,
            forall|j: int|
                0 <= j < 16 * i ==> res@[j] == cbc_encrypt_bytes(msg@, key@, iv@)[j],
            i == 0 ==> chain@ == iv@,
            i > 0 ==> chain@ == cbc_cipher_block(msg@, key@, iv@, i - 1),
        decreases n - i,
    {
        let mut blk = copy_block(msg, i);
        let mut t: usize = 0;
        while t < 16
            invariant
                t <= 16,
                forall|j: int| 0 <= j < t ==> blk@[j] == (seq_block(msg@, i as int)[j] ^ chain@[j]),
                forall|j: int| t <= j < 16 ==> blk@[j] == seq_block(msg@, i as int)[j],
                16 * (i as int) + 16 <= msg@.len(),
                chain@.len() == 16,
            decreases 16 - t,
        {
            let v = blk[t] ^ chain[t];
            blk[t] = v;
            t += 1;
        }
        proof {
            assert(blk@ =~= xor_bytes(seq_block(msg@, i as int), chain@));
        }
        let c = aes::aes_128(&blk, key);
        push_block(&mut res, &c);
        proof {
            assert(c@ == cbc_cipher_block(msg@, key@, iv@, i as int));
            assert forall|j: int|
                16 * i <= j < 16 * i + 16 implies res@[j] == cbc_encrypt_bytes(msg@, key@, iv@)[j] by {
                lemma_block_index(i as int, j - 16 * i);
            }
        }
        chain = c;
        i += 1;
    }

    proof {
        assert(res@ =~= cbc_encrypt_bytes(msg@, key@, iv@));
    }
    Ok(res)
}

/// Decrypt a message in CBC mode
///
/// Message must be a multiple of the AES block length (16)
pub fn decrypt(cipher: &[u8], key: &[u8; 16], iv: &[u8; 16]) -> (res: Result<Vec<u8>, Error>)
    ensures
        cipher@.len() % 16 == 0 ==> (res matches Ok(p) && p@ == cbc_decrypt_bytes(
            cipher@,
            key@,
            iv@,
        )),
        cipher@.len() % 16 != 0 ==> (res matches Err(Error::InvalidLength)),
{
    let len = cipher.len();
    if len % 16 != 0 {
        return Err(Error::InvalidLength);
    }

    proof {
        lemma_len_blocks(len as int);
    }
    let n = len / 16;
    let mut res: Vec<u8> = Vec::with_capacity(len);
    let mut chain: [u8; 16] = *iv;
    let mut i: usize = 0;
    while i < n
        invariant
            i <= n,
            len == cipher@.len(),
            len % 16 == 0,
            n == len / 16,
            len == 16 * n,
            res@.len() == 16 * i,
            forall|j: int|
                0 <= j < 16 * i ==> res@[j] == cbc_decrypt_bytes(cipher@, key@, iv@)[j],
            i == 0 ==> chain@ == iv@,
            i > 0 ==> chain@ == seq_block(cipher@, i - 1),
        decreases n - i,
    {
        let blk = copy_block(cipher, i);
        let mut p = aes::aes_inv_128(&blk, key);
        let mut t: usize = 0;
        while t < 16
            invariant
                t <= 16,
                forall|j: int|
                    0 <= j < t ==> p@[j] == (aes128_inv_of(key@, seq_block(cipher@, i as int))[j]
                        ^ chain@[j]),
                forall|j: int|
                    t <= j < 16 ==> p@[j] == aes128_inv_of(key@, seq_block(cipher@, i as int))[j],
                p@.len() == 16,
                chain@.len() == 16,
                aes128_inv_of(key@, seq_block(cipher@, i as int)).len() == 16,
            decreases 16 - t,
        {
            let v = p[t] ^ chain[t];
            p[t] = v;
            t += 1;
        }
        proof {
            assert(p@ =~= xor_bytes(aes128_inv_of(key@, seq_block(cipher@, i as int)), chain@));
            assert(p@ == cbc_plain_block(cipher@, key@, iv@, i as int));
        }
        push_block(&mut res, &p);
        proof {
            assert forall|j: int|
                16 * i <= j < 16 * i + 16 implies res@[j] == cbc_decrypt_bytes(cipher@, key@, iv@)[j] by {
                lemma_block_index(i as int, j - 16 * i);
            }
        }
        chain = blk;
        i += 1;
    }

    proof {
        assert(res@ =~= cbc_decrypt_bytes(cipher@, key@, iv@));
    }
    Ok(res)
}

/// Every CBC ciphertext block is 16 bytes long whenever the capability
/// contract holds, and block i of the flattened ciphertext is exactly
/// `cbc_cipher_block(msg, key, iv, i)`.
pub proof fn lemma_cbc_block_structure(msg: Seq<u8>, key: Seq<u8>, iv: Seq<u8>)
    requires
        msg.len() % 16 == 0,
        cipher_ok(key),
    ensures
        forall|i: int|
            0 <= i < msg.len() / 16 ==> (#[trigger] cbc_cipher_block(msg, key, iv, i)).len() == 16,
        forall|i: int|
            0 <= i < msg.len() / 16 ==> #[trigger] seq_block(cbc_encrypt_bytes(msg, key, iv), i)
                == cbc_cipher_block(msg, key, iv, i),
{
    lemma_len_blocks(msg.len() as int);
    let n = msg.len() / 16;
    let enc = cbc_encrypt_bytes(msg, key, iv);
    assert forall|i: int|
        0 <= i < n implies (#[trigger] cbc_cipher_block(msg, key, iv, i)).len() == 16 by {
        if i == 0 {
            assert(xor_bytes(seq_block(msg, 0), iv).len() == 16);
        } else {
            assert(xor_bytes(seq_block(msg, i), cbc_cipher_block(msg, key, iv, i - 1)).len() == 16);
        }
    }
    assert forall|i: int|
        0 <= i < n implies #[trigger] seq_block(enc, i) == cbc_cipher_block(msg, key, iv, i) by {
        assert forall|t: int|
            0 <= t < 16 implies seq_block(enc, i)[t] == cbc_cipher_block(msg, key, iv, i)[t] by {
            lemma_block_index(i, t);
        }
        assert(seq_block(enc, i) =~= cbc_cipher_block(msg, key, iv, i));
    }
}

/// CBC round trip: decrypting an encrypted message with the same key and IV
/// returns the message, provided the block-cipher capability satisfies its
/// contract for the key.
pub proof fn lemma_cbc_round_trip(msg: Seq<u8>, key: Seq<u8>, iv: Seq<u8>)
    requires
        msg.len() % 16 == 0,
        iv.len() == 16,
    ensures
        cipher_ok(key) ==> cbc_decrypt_bytes(cbc_encrypt_bytes(msg, key, iv), key, iv) == msg,
{
    if cipher_ok(key) {
        lemma_len_blocks(msg.len() as int);
        lemma_cbc_block_structure(msg, key, iv);
        let enc = cbc_encrypt_bytes(msg, key, iv);
        let n = msg.len() / 16;
        assert forall|j: int|
            0 <= j < msg.len() implies cbc_decrypt_bytes(enc, key, iv)[j] == msg[j] by {
            lemma_position_block(j, msg.len() as int);
            let i = j / 16;
            let t = j % 16;
            let prev = if i == 0 { iv } else { cbc_cipher_block(msg, key, iv, i - 1) };
            assert(cbc_cipher_block(msg, key, iv, i) == aes128_of(
                key,
                xor_bytes(seq_block(msg, i), prev),
            ));
            assert(xor_bytes(seq_block(msg, i), prev).len() == 16);
            assert(aes128_inv_of(key, cbc_cipher_block(msg, key, iv, i)) == xor_bytes(
                seq_block(msg, i),
                prev,
            ));
            lemma_xor_bytes_cancel(seq_block(msg, i), prev);
            assert(cbc_plain_block(enc, key, iv, i) == seq_block(msg, i));
            assert(seq_block(msg, i)[t] == msg[j]);
        }
        assert(cbc_decrypt_bytes(enc, key, iv) =~= msg);
    }
}

/// CBC diffusion: when two messages agree up to block i and differ in block
/// i, all ciphertext blocks before i are unchanged, and ciphertext block i
/// itself changes whenever the capability contract holds for the key.
pub proof fn lemma_cbc_diffusion(msg1: Seq<u8>, msg2: Seq<u8>, key: Seq<u8>, iv: Seq<u8>, i: int)
    requires
        msg1.len() == msg2.len(),
        msg1.len() % 16 == 0,
        0 <= i < msg1.len() / 16,
        msg1.take(16 * i) == msg2.take(16 * i),
        seq_block(msg1, i) != seq_block(msg2, i),
    ensures
        forall|j: int|
            0 <= j < i ==> #[trigger] cbc_cipher_block(msg1, key, iv, j) == cbc_cipher_block(
                msg2,
                key,
                iv,
                j,
            ),
        cipher_ok(key) ==> cbc_cipher_block(msg1, key, iv, i) != cbc_cipher_block(msg2, key, iv, i),
{
    lemma_len_blocks(msg1.len() as int);
    assert forall|j: int|
        0 <= j < i implies #[trigger] cbc_cipher_block(msg1, key, iv, j) == cbc_cipher_block(
        msg2,
        key,
        iv,
        j,
    ) by {
        lemma_cbc_common_prefix(msg1, msg2, key, iv, j, i);
    }
    if cipher_ok(key) {
        let prev1 = if i == 0 { iv } else { cbc_cipher_block(msg1, key, iv, i - 1) };
        let prev2 = if i == 0 { iv } else { cbc_cipher_block(msg2, key, iv, i - 1) };
        if i > 0 {
            lemma_cbc_common_prefix(msg1, msg2, key, iv, i - 1, i);
        }
        assert(prev1 == prev2);
        let x1 = xor_bytes(seq_block(msg1, i), prev1);
        let x2 = xor_bytes(seq_block(msg2, i), prev2);
        assert(cbc_cipher_block(msg1, key, iv, i) == aes128_of(key, x1));
        assert(cbc_cipher_block(msg2, key, iv, i) == aes128_of(key, x2));
        if cbc_cipher_block(msg1, key, iv, i) == cbc_cipher_block(msg2, key, iv, i) {
            assert(x1.len() == 16 && x2.len() == 16);
            assert(aes128_inv_of(key, aes128_of(key, x1)) == x1);
            assert(aes128_inv_of(key, aes128_of(key, x2)) == x2);
            assert(x1 == x2);
            lemma_xor_bytes_cancel(seq_block(msg1, i), prev1);
            lemma_xor_bytes_cancel(seq_block(msg2, i), prev2);
            assert(xor_bytes(x1, prev1) == seq_block(msg1, i));
            assert(xor_bytes(x2, prev2) == seq_block(msg2, i));
            assert(false);
        }
    }
}

/// Ciphertext block j of CBC depends only on the plaintext up to and
/// including block j: two messages that agree on their first k blocks get
/// the same ciphertext blocks below k.
proof fn lemma_cbc_common_prefix(
    msg1: Seq<u8>,
    msg2: Seq<u8>,
    key: Seq<u8>,
    iv: Seq<u8>,
    j: int,
    k: int,
)
    requires
        msg1.len() == msg2.len(),
        msg1.len() % 16 == 0,
        0 <= j < k,
        16 * k <= msg1.len(),
        msg1.take(16 * k) == msg2.take(16 * k),
    ensures
        cbc_cipher_block(msg1, key, iv, j) == cbc_cipher_block(msg2, key, iv, j),
    decreases j,
{
    assert forall|t: int| 0 <= t < 16 implies seq_block(msg1, j)[t] == seq_block(msg2, j)[t] by {
        assert(16 * j + t < 16 * k);
        assert(msg1.take(16 * k)[16 * j + t] == msg2.take(16 * k)[16 * j + t]);
        assert(msg1.take(16 * k)[16 * j + t] == msg1[16 * j + t]);
        assert(msg2.take(16 * k)[16 * j + t] == msg2[16 * j + t]);
        assert(seq_block(msg1, j)[t] == msg1[16 * j + t]);
        assert(seq_block(msg2, j)[t] == msg2[16 * j + t]);
    }
    assert(seq_block(msg1, j) =~= seq_block(msg2, j));
    if j > 0 {
        lemma_cbc_common_prefix(msg1, msg2, key, iv, j - 1, k);
    }
}

} // verus!

//! ECB mode for AES

use vstd::prelude::*;

use crate::aes;
use crate::aes::aes128_inv_of;
use crate::aes::aes128_of;
use crate::aes::cipher_ok;
use crate::copy_block;
use crate::lemma_block_index;
use crate::lemma_len_blocks;
use crate::push_block;
use crate::seq_block;

verus! {

/// ECB mode errors
#[derive(Debug)]
pub enum Error {
    InvalidLength,
}

/// The ciphertext ECB encryption produces: each 16-byte block sent through
/// the forward transform independently of every other block.
pub open spec fn ecb_encrypt_bytes(msg: Seq<u8>, key: Seq<u8>) -> Seq<u8> {
    Seq::new(msg.len(), |j: int| aes128_of(key, seq_block(msg, j / 16))[j % 16])
}

/// The plaintext ECB decryption produces: each 16-byte block sent through
/// the inverse transform.
pub open spec fn ecb_decrypt_bytes(cipher: Seq<u8>, key: Seq<u8>) -> Seq<u8> {
    Seq::new(cipher.len(), |j: int| aes128_inv_of(key, seq_block(cipher, j / 16))[j % 16])
}

/// Encrypt a message using AES-128-ECB
pub fn encrypt(plaintext: &[u8], key: &[u8; 16]) -> (res: Result<Vec<u8>, Error>)
    ensures
        plaintext@.len() % 16 == 0 ==> (res matches Ok(c) && c@ == ecb_encrypt_bytes(
            plaintext@,
            key@,
        )),
        plaintext@.len() % 16 != 0 ==> (res matches Err(Error::InvalidLength)),
{
    let len = plaintext.len();
    if len % 16 != 0 {
        return Err(Error::InvalidLength);
    }

    proof {
        lemma_len_blocks(len as int);
    }
    let n = len / 16;
    let mut res: Vec<u8> = Vec::with_capacity(len);
    let mut i: usize = 0;
    while i < n
        invariant
            i <= n,
            len == plaintext@.len(),
            len % 16 == 0,
            n == len / 16,
            len == 16 * n,
            res@.len() == 16 * i,
            forall|j: int| 0 <= j < 16 * i ==> res@[j] == ecb_encrypt_bytes(plaintext@, key@)[j],
        decreases n - i,
    {
        let blk = copy_block(plaintext, i);
        let c = aes::aes_128(&blk, key);
        push_block(&mut res, &c);
        proof {
            assert forall|j: int| 16 * i <= j < 16 * i + 16 implies res@[j] == ecb_encrypt_bytes(
                plaintext@,
                key@,
            )[j] by {
                lemma_block_index(i as int, j - 16 * i);
            }
        }
        i += 1;
    }

    proof {
        assert(res@ =~= ecb_encrypt_bytes(plaintext@, key@));
    }
    Ok(res)
}

/// Decrypt a ciphertext using AES-128-ECB
pub fn decrypt(ciphertext: &[u8], key: &[u8; 16]) -> (res: Result<Vec<u8>, Error>)
    ensures
        ciphertext@.len() % 16 == 0 ==> (res matches Ok(p) && p@ == ecb_decrypt_bytes(
            ciphertext@,
            key@,
        )),
        ciphertext@.len() % 16 != 0 ==> (res matches Err(Error::InvalidLength)),
{
    let len = ciphertext.len();
    if len % 16 != 0 {
        return Err(Error::InvalidLength);
    }

    proof {
        lemma_len_blocks(len as int);
    }
    let n = len / 16;
    let mut res: Vec<u8> = Vec::with_capacity(len);
    let mut i: usize = 0;
    while i < n
        invariant
            i <= n,
            len == ciphertext@.len(),
            len % 16 == 0,
            n == len / 16,
            len == 16 * n,
            res@.len() == 16 * i,
            forall|j: int| 0 <= j < 16 * i ==> res@[j] == ecb_decrypt_bytes(ciphertext@, key@)[j],
        decreases n - i,
    {
        let blk = copy_block(ciphertext, i);
        let p = aes::aes_inv_128(&blk, key);
        push_block(&mut res, &p);
        proof {
            assert forall|j: int| 16 * i <= j < 16 * i + 16 implies res@[j] == ecb_decrypt_bytes(
                ciphertext@,
                key@,
            )[j] by {
                lemma_block_index(i as int, j - 16 * i);
            }
        }
        i += 1;
    }

    proof {
        assert(res@ =~= ecb_decrypt_bytes(ciphertext@, key@));
    }
    Ok(res)
}

/// ECB determinism: two equal plaintext blocks of the same message encrypt
/// to equal ciphertext blocks.
pub proof fn lemma_ecb_determinism(msg: Seq<u8>, key: Seq<u8>, i: int, j: int)
    requires
        msg.len() % 16 == 0,
        0 <= i < msg.len() / 16,
        0 <= j < msg.len() / 16,
        seq_block(msg, i) == seq_block(msg, j),
    ensures
        seq_block(ecb_encrypt_bytes(msg, key), i) == seq_block(ecb_encrypt_bytes(msg, key), j),
{
    lemma_len_blocks(msg.len() as int);
    let enc = ecb_encrypt_bytes(msg, key);
    assert forall|t: int| 0 <= t < 16 implies seq_block(enc, i)[t] == seq_block(enc, j)[t] by {
        lemma_block_index(i, t);
        lemma_block_index(j, t);
    }
    assert(seq_block(enc, i) =~= seq_block(enc, j));
}

/// ECB round trip: decrypting an encrypted message returns the message,
/// provided the block-cipher capability satisfies its contract for the key.
pub proof fn lemma_ecb_round_trip(msg: Seq<u8>, key: Seq<u8>)
    requires
        msg.len() % 16 == 0,
    ensures
        cipher_ok(key) ==> ecb_decrypt_bytes(ecb_encrypt_bytes(msg, key), key) == msg,
{
    if cipher_ok(key) {
        lemma_len_blocks(msg.len() as int);
        let enc = ecb_encrypt_bytes(msg, key);
        let n = msg.len() / 16;
        assert forall|i: int| 0 <= i < n implies seq_block(enc, i) == aes128_of(
            key,
            seq_block(msg, i),
        ) by {
            assert forall|t: int| 0 <= t < 16 implies seq_block(enc, i)[t] == aes128_of(
                key,
                seq_block(msg, i),
            )[t] by {
                lemma_block_index(i, t);
            }
            assert(seq_block(enc, i) =~= aes128_of(key, seq_block(msg, i)));
        }
        assert forall|j: int| 0 <= j < msg.len() implies ecb_decrypt_bytes(enc, key)[j] == msg[j] by {
            lemma_block_index(j / 16, j % 16);
            assert(seq_block(msg, j / 16)[j % 16] == msg[j]);
        }
        assert(ecb_decrypt_bytes(enc, key) =~= msg);
    }
}

} // verus!

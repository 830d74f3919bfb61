//! The AES-128 single-block engine, consumed as an opaque capability.
//!
//! The mode engines in this crate only ever see the engine through the
//! abstract functions [`aes128_of`] and [`aes128_inv_of`]: what AES-128
//! computes on a given key and block is not stated here, only that it is a
//! function of the key and the block alone.

use vstd::prelude::*;
use aes::cipher::BlockCipherDecrypt;
use aes::cipher::BlockCipherEncrypt;
use aes::cipher::KeyInit;

verus! {

/// AES block length in bytes
pub const BLOCK_LEN: usize = 16;

/// AES-128 key length in bytes
pub const KEY_LEN_128: usize = 16;

/// The AES-128 forward transform of one 16-byte block under a 16-byte key.
pub uninterp spec fn aes128_of(key: Seq<u8>, block: Seq<u8>) -> Seq<u8>;

/// The AES-128 inverse transform of one 16-byte block under a 16-byte key.
pub uninterp spec fn aes128_inv_of(key: Seq<u8>, block: Seq<u8>) -> Seq<u8>;

/// The contract the block-cipher capability is relied upon to satisfy for a
/// given key: both transforms map 16-byte blocks to 16-byte blocks, and the
/// inverse transform undoes the forward one.
pub open spec fn cipher_ok(key: Seq<u8>) -> bool {
    &&& forall|b: Seq<u8>|
        b.len() == BLOCK_LEN ==> (#[trigger] aes128_of(key, b)).len() == BLOCK_LEN
    &&& forall|b: Seq<u8>|
        b.len() == BLOCK_LEN ==> (#[trigger] aes128_inv_of(key, b)).len() == BLOCK_LEN
    &&& forall|b: Seq<u8>|
        b.len() == BLOCK_LEN ==> aes128_inv_of(key, #[trigger] aes128_of(key, b)) == b
}

/// Apply the AES-128 forward transform to a single block.
///
/// Relies on the aes crate's `Aes128` with `encrypt_block`: the result is a
/// pure function of the key and the block.
#[verifier::external_body]
pub(crate) fn aes_128(block: &[u8; 16], key: &[u8; 16]) -> (res: [u8; 16])
    ensures
        res@ == aes128_of(key@, block@),
{
    let cipher = aes::Aes128::new(&aes::cipher::array::Array::from(*key));
    let mut b = aes::cipher::array::Array::from(*block);
    cipher.encrypt_block(&mut b);
    b.0
}

/// Apply the AES-128 inverse transform to a single block.
///
/// Relies on the aes crate's `Aes128` with `decrypt_block`: the result is a
/// pure function of the key and the block.
#[verifier::external_body]
pub(crate) fn aes_inv_128(block: &[u8; 16], key: &[u8; 16]) -> (res: [u8; 16])
    ensures
        res@ == aes128_inv_of(key@, block@),
{
    let cipher = aes::Aes128::new(&aes::cipher::array::Array::from(*key));
    let mut b = aes::cipher::array::Array::from(*block);
    cipher.decrypt_block(&mut b);
    b.0
}

} // verus!

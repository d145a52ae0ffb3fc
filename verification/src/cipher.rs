//! AES-128 on a single 16-byte block.

use vstd::prelude::*;
use aes::cipher::generic_array::GenericArray;
use aes::cipher::BlockDecryptMut;
use aes::cipher::BlockEncryptMut;
use aes::cipher::InvalidLength;
use aes::cipher::KeyInit;
use aes::Aes128;

verus! {

/// Length of an AES-128 key in bytes.
pub const KEY_SIZE: usize = 16;

/// Length of a cipher block in bytes.
pub const BLOCK_LEN: usize = 16;

/// The AES-128 encryption of the 16-byte `block` under the 16-byte `key`.
pub uninterp spec fn aes128_encrypt(key: Seq<u8>, block: Seq<u8>) -> Seq<u8>;

/// The AES-128 decryption of the 16-byte `block` under the 16-byte `key`.
pub uninterp spec fn aes128_decrypt(key: Seq<u8>, block: Seq<u8>) -> Seq<u8>;

/// `aes::cipher::InvalidLength`: the refusal of a key of the wrong length.
#[verifier::external_type_specification]
#[verifier::external_body]
pub struct ExInvalidLength(InvalidLength);

/// Whether decryption under `key` undoes the encryption of `block`, which
/// yields 16 bytes.
pub open spec fn encrypts_reversibly(key: Seq<u8>, block: Seq<u8>) -> bool {
    &&& aes128_encrypt(key, block).len() == BLOCK_LEN
    &&& aes128_decrypt(key, aes128_encrypt(key, block)) == block
}

/// Builds an `aes::Aes128` from `key` with `new_from_slice` and encrypts
/// `block` with `encrypt_block_mut`. Trusted: the key is accepted exactly when
/// it is 16 bytes long; the result is then the AES-128 encryption of `block`,
/// 16 bytes which decryption under the same key turns back into `block`.
#[verifier::external_body]
pub(crate) fn encrypt_block(key: &[u8], block: &[u8]) -> (r: Result<Vec<u8>, InvalidLength>)
    requires
        block@.len() == BLOCK_LEN,
    ensures
        r is Ok <==> key@.len() == KEY_SIZE,
        r is Ok ==> r->Ok_0@ == aes128_encrypt(key@, block@),
        r is Ok ==> r->Ok_0@.len() == BLOCK_LEN,
        r is Ok ==> aes128_decrypt(key@, r->Ok_0@) == block@,
{
    let mut cipher = Aes128::new_from_slice(key)?;
    let mut out = block.to_vec();
    cipher.encrypt_block_mut(GenericArray::from_mut_slice(&mut out));
    Ok(out)
}

/// Builds an `aes::Aes128` from `key` with `new_from_slice` and decrypts
/// `block` with `decrypt_block_mut`. Trusted: the key is accepted exactly when
/// it is 16 bytes long; the result is then the AES-128 decryption of `block`,
/// 16 bytes which encryption under the same key turns back into `block`.
#[verifier::external_body]
pub(crate) fn decrypt_block(key: &[u8], block: &[u8]) -> (r: Result<Vec<u8>, InvalidLength>)
    requires
        block@.len() == BLOCK_LEN,
    ensures
        r is Ok <==> key@.len() == KEY_SIZE,
        r is Ok ==> r->Ok_0@ == aes128_decrypt(key@, block@),
        r is Ok ==> r->Ok_0@.len() == BLOCK_LEN,
        r is Ok ==> aes128_encrypt(key@, r->Ok_0@) == block@,
{
    let mut cipher = Aes128::new_from_slice(key)?;
    let mut out = block.to_vec();
    cipher.decrypt_block_mut(GenericArray::from_mut_slice(&mut out));
    Ok(out)
}

} // verus!

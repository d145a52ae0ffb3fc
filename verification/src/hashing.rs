//! HMAC-SHA-256, truncated to 128 bits, for key derivation.

use vstd::prelude::*;
use sha2::Digest;
use sha2::Sha256;

verus! {

/// Block size of SHA-256 in bytes.
pub const BLOCK_SIZE: usize = 64;

/// Length of a SHA-256 digest in bytes.
pub const DIGEST_SIZE: usize = 32;

/// Length of the truncated tag in bytes.
pub const TAG_SIZE: usize = 16;

/// The mask of the key in the inner pass.
pub const INNER_MASK: u8 = 0x36;

/// The mask of the key in the outer pass.
pub const OUTER_MASK: u8 = 0x5c;

/// The SHA-256 digest of `data`.
pub uninterp spec fn sha256(data: Seq<u8>) -> Seq<u8>;

/// Calls `sha2::Sha256::digest`. Trusted: the result is the SHA-256 digest of
/// `data`, which is 32 bytes long.
#[verifier::external_body]
fn sha256_digest(data: &[u8]) -> (out: Vec<u8>)
    ensures
        out@ == sha256(data@),
        out@.len() == DIGEST_SIZE,
{
    Sha256::digest(data).to_vec()
}

/// `key` brought to exactly one hash block: hashed if longer than a block,
/// then padded with zero bytes.
pub open spec fn block_key(key: Seq<u8>) -> Seq<u8> {
    let k = if key.len() > BLOCK_SIZE { sha256(key) } else { key };
    if k.len() < BLOCK_SIZE {
        k + Seq::new((BLOCK_SIZE - k.len()) as nat, |i: int| 0u8)
    } else {
        k
    }
}

/// Every byte of `key` xor `mask`.
pub open spec fn masked(key: Seq<u8>, mask: u8) -> Seq<u8> {
    Seq::new(key.len(), |i: int| key[i] ^ mask)
}

/// HMAC-SHA-256 of `message` under `key`.
pub open spec fn hmac_sha256(key: Seq<u8>, message: Seq<u8>) -> Seq<u8> {
    let k = block_key(key);
    sha256(masked(k, OUTER_MASK) + sha256(masked(k, INNER_MASK) + message))
}

/// The first 16 bytes of HMAC-SHA-256 of `message` under `key`.
pub open spec fn hmac_sha256_128_spec(key: Seq<u8>, message: Seq<u8>) -> Seq<u8> {
    hmac_sha256(key, message).take(TAG_SIZE as int)
}

/// `key` brought to one hash block: hashed if longer than a block, then
/// padded with zero bytes.
pub fn normalize_key(key: &[u8]) -> (out: Vec<u8>)
    ensures
        out@ == block_key(key@),
        out@.len() == BLOCK_SIZE,
{
    let mut out: Vec<u8> = if key.len() > BLOCK_SIZE {
        sha256_digest(key)
    } else {
        copy_bytes(key)
    };
    let ghost k = out@;
    while out.len() < BLOCK_SIZE
        invariant
            k.len() <= out@.len() <= BLOCK_SIZE,
            k.len() <= BLOCK_SIZE,
            out@ == k + Seq::new((out@.len() - k.len()) as nat, |i: int| 0u8),
        decreases BLOCK_SIZE - out@.len(),
    {
        out.push(0u8);
        assert(out@ =~= k + Seq::new((out@.len() - k.len()) as nat, |i: int| 0u8));
    }
    assert(out@ =~= block_key(key@));
    out
}

/// An owned copy of `bytes`.
pub(crate) fn copy_bytes(bytes: &[u8]) -> (out: Vec<u8>)
    ensures
        out@ == bytes@,
{
    let mut out: Vec<u8> = Vec::new();
    let mut i: usize = 0;
    while i < bytes.len()
        invariant
            i <= bytes@.len(),
            out@ == bytes@.take(i as int),
        decreases bytes@.len() - i,
    {
        out.push(bytes[i]);
        i += 1;
        assert(out@ =~= bytes@.take(i as int));
    }
    assert(bytes@.take(bytes@.len() as int) =~= bytes@);
    out
}

/// `key` with every byte xor `mask`, followed by `tail`.
pub fn masked_then(key: &[u8], mask: u8, tail: &[u8]) -> (out: Vec<u8>)
    ensures
        out@ == masked(key@, mask) + tail@,
{
    let mut out: Vec<u8> = Vec::new();
    let mut i: usize = 0;
    while i < key.len()
        invariant
            i <= key@.len(),
            out@ == masked(key@, mask).take(i as int),
        decreases key@.len() - i,
    {
        out.push(key[i] ^ mask);
        i += 1;
        assert(out@ =~= masked(key@, mask).take(i as int));
    }
    assert(masked(key@, mask).take(key@.len() as int) =~= masked(key@, mask));
    let mut j: usize = 0;
    while j < tail.len()
        invariant
            j <= tail@.len(),
            out@ == masked(key@, mask) + tail@.take(j as int),
        decreases tail@.len() - j,
    {
        out.push(tail[j]);
        j += 1;
        assert(out@ =~= masked(key@, mask) + tail@.take(j as int));
    }
    assert(tail@.take(tail@.len() as int) =~= tail@);
    out
}

/// HMAC-SHA-256 of `message` under `key`, truncated to its first 16 bytes.
pub fn hmac_sha256_128(key: &[u8], message: &[u8]) -> (tag: Vec<u8>)
    ensures
        tag@ == hmac_sha256_128_spec(key@, message@),
        tag@.len() == TAG_SIZE,
{
    let k = normalize_key(key);
    let inner_input = masked_then(k.as_slice(), INNER_MASK, message);
    let inner = sha256_digest(inner_input.as_slice());
    let outer_input = masked_then(k.as_slice(), OUTER_MASK, inner.as_slice());
    let mut outer = sha256_digest(outer_input.as_slice());
    outer.truncate(TAG_SIZE);
    outer
}

} // verus!

//! The 16-byte plaintext block: twelve payload bytes, little-endian, followed
//! by the CRC-32 of those twelve bytes, little-endian.

use vstd::prelude::*;
use crc::Crc;
use crc::CRC_32_ISO_HDLC;
use crate::error::IdError;

verus! {

/// The largest payload: 2^96 - 1.
pub const U96_MAX: u128 = 0xFFFF_FFFF_FFFF_FFFF_FFFF_FFFF;

/// Number of payload bytes in a block.
pub const PAYLOAD_LEN: usize = 12;

/// Number of checksum bytes in a block.
pub const CHECKSUM_LEN: usize = 4;

/// Number of bytes in a block.
pub const BLOCK_LEN: usize = 16;

/// 256 to the power `k`.
pub open spec fn pow256(k: nat) -> nat
    decreases k,
{
    if k == 0 {
        1
    } else {
        256 * pow256((k - 1) as nat)
    }
}

/// The `n` low bytes of `v`, least significant first.
pub open spec fn le_bytes(v: nat, n: nat) -> Seq<u8>
    decreases n,
{
    if n == 0 {
        Seq::empty()
    } else {
        seq![(v % 256) as u8] + le_bytes(v / 256, (n - 1) as nat)
    }
}

/// The number whose bytes, least significant first, are `s`.
pub open spec fn le_value(s: Seq<u8>) -> nat
    decreases s.len(),
{
    if s.len() == 0 {
        0
    } else {
        s[0] as nat + 256 * le_value(s.drop_first())
    }
}

/// The `n` low bytes of `v`, most significant first.
pub open spec fn be_bytes(v: nat, n: nat) -> Seq<u8>
    decreases n,
{
    if n == 0 {
        Seq::empty()
    } else {
        be_bytes(v / 256, (n - 1) as nat).push((v % 256) as u8)
    }
}

/// The number whose bytes, most significant first, are `s`.
pub open spec fn be_value(s: Seq<u8>) -> nat
    decreases s.len(),
{
    if s.len() == 0 {
        0
    } else {
        be_value(s.drop_last()) * 256 + s.last() as nat
    }
}

/// The CRC-32/ISO-HDLC checksum of `data`.
pub uninterp spec fn crc32(data: Seq<u8>) -> u32;

/// Calls `crc::Crc::<u32>::checksum` on a `Crc` made with
/// `CRC_32_ISO_HDLC`. Trusted: the result is the CRC-32/ISO-HDLC checksum of
/// `data`.
#[verifier::external_body]
pub(crate) fn crc32_checksum(data: &[u8]) -> (sum: u32)
    ensures
        sum == crc32(data@),
{
    Crc::<u32>::new(&CRC_32_ISO_HDLC).checksum(data)
}

/// The block made of `payload` and `checksum`.
pub open spec fn block_of(payload: nat, checksum: nat) -> Seq<u8> {
    le_bytes(payload, PAYLOAD_LEN as nat) + le_bytes(checksum, CHECKSUM_LEN as nat)
}

/// The block that carries `payload`: its twelve bytes and their checksum.
pub open spec fn plain_block(payload: nat) -> Seq<u8> {
    block_of(payload, crc32(le_bytes(payload, PAYLOAD_LEN as nat)) as nat)
}

/// The payload bytes of `block`.
pub open spec fn payload_bytes(block: Seq<u8>) -> Seq<u8> {
    block.subrange(0, PAYLOAD_LEN as int)
}

/// The payload that `block` carries.
pub open spec fn payload_of(block: Seq<u8>) -> nat {
    le_value(payload_bytes(block))
}

/// The checksum that `block` carries.
pub open spec fn checksum_of(block: Seq<u8>) -> nat {
    le_value(block.subrange(PAYLOAD_LEN as int, BLOCK_LEN as int))
}

/// Whether the checksum that `block` carries is that of its payload bytes.
pub open spec fn intact(block: Seq<u8>) -> bool {
    checksum_of(block) == crc32(payload_bytes(block))
}

/// `le_bytes` yields `n` bytes.
pub proof fn lemma_le_bytes_len(v: nat, n: nat)
    ensures
        le_bytes(v, n).len() == n,
    decreases n,
{
    if n > 0 {
        lemma_le_bytes_len(v / 256, (n - 1) as nat);
    }
}

/// `be_bytes` yields `n` bytes.
pub proof fn lemma_be_bytes_len(v: nat, n: nat)
    ensures
        be_bytes(v, n).len() == n,
    decreases n,
{
    if n > 0 {
        lemma_be_bytes_len(v / 256, (n - 1) as nat);
    }
}

/// A number below 256^n is the value of its `n` little-endian bytes.
pub proof fn lemma_le_value_of_bytes(v: nat, n: nat)
    requires
        v < pow256(n),
    ensures
        le_value(le_bytes(v, n)) == v,
    decreases n,
{
    if n > 0 {
        lemma_le_bytes_len(v / 256, (n - 1) as nat);
        lemma_le_value_of_bytes(v / 256, (n - 1) as nat);
        let s = le_bytes(v, n);
        assert(s.drop_first() =~= le_bytes(v / 256, (n - 1) as nat));
        assert(s[0] == (v % 256) as u8);
    }
}

/// Bytes are the little-endian bytes of their value, which is below 256^n.
pub proof fn lemma_le_bytes_of_value(s: Seq<u8>)
    ensures
        le_value(s) < pow256(s.len()),
        le_bytes(le_value(s), s.len()) == s,
    decreases s.len(),
{
    if s.len() > 0 {
        lemma_le_bytes_of_value(s.drop_first());
        let r = le_value(s.drop_first());
        let v = le_value(s);
        assert(v == s[0] as nat + 256 * r);
        assert(v % 256 == s[0] as nat);
        assert(v / 256 == r);
        assert(le_bytes(v, s.len()) =~= s);
    }
}

/// A number below 256^n is the value of its `n` big-endian bytes.
pub proof fn lemma_be_value_of_bytes(v: nat, n: nat)
    requires
        v < pow256(n),
    ensures
        be_value(be_bytes(v, n)) == v,
    decreases n,
{
    if n > 0 {
        lemma_be_bytes_len(v / 256, (n - 1) as nat);
        lemma_be_value_of_bytes(v / 256, (n - 1) as nat);
        let s = be_bytes(v, n);
        assert(s.drop_last() =~= be_bytes(v / 256, (n - 1) as nat));
        assert(s.last() == (v % 256) as u8);
    }
}

/// Bytes are the big-endian bytes of their value, which is below 256^n.
pub proof fn lemma_be_bytes_of_value(s: Seq<u8>)
    ensures
        be_value(s) < pow256(s.len()),
        be_bytes(be_value(s), s.len()) == s,
    decreases s.len(),
{
    if s.len() > 0 {
        lemma_be_bytes_of_value(s.drop_last());
        let r = be_value(s.drop_last());
        let v = be_value(s);
        assert(v == r * 256 + s.last() as nat);
        assert(v % 256 == s.last() as nat);
        assert(v / 256 == r);
        assert(be_bytes(v, s.len()) =~= s);
    }
}

/// The powers of 256 at the widths that a block uses.
pub proof fn lemma_pow256_widths()
    ensures
        pow256(4) == 0x1_0000_0000,
        pow256(8) == 0x1_0000_0000_0000_0000,
        pow256(12) == U96_MAX + 1,
        pow256(16) == u128::MAX + 1,
{
    assert(pow256(4) == 0x1_0000_0000) by {
        reveal_with_fuel(pow256, 5);
    }
    assert(pow256(8) == 0x1_0000_0000 * pow256(4)) by {
        reveal_with_fuel(pow256, 5);
    }
    assert(pow256(12) == 0x1_0000_0000 * pow256(8)) by {
        reveal_with_fuel(pow256, 5);
    }
    assert(pow256(16) == 0x1_0000_0000 * pow256(12)) by {
        reveal_with_fuel(pow256, 5);
    }
}

/// The `n` low bytes of `value`, least significant first.
pub fn to_le_bytes(value: u128, n: usize) -> (out: Vec<u8>)
    ensures
        out@ == le_bytes(value as nat, n as nat),
        out@.len() == n,
{
    let mut out: Vec<u8> = Vec::new();
    let mut rest: u128 = value;
    let mut i: usize = 0;
    while i < n
        invariant
            i <= n,
            out@.len() == i,
            out@ + le_bytes(rest as nat, (n - i) as nat) == le_bytes(value as nat, n as nat),
        decreases n - i,
    {
        let ghost before = out@;
        let ghost tail = le_bytes(rest as nat, (n - i) as nat);
        out.push((rest % 256) as u8);
        rest = rest / 256;
        i += 1;
        assert(out@ + le_bytes(rest as nat, (n - i) as nat) =~= before + tail);
    }
    assert(out@ + le_bytes(rest as nat, 0) =~= out@);
    out
}

/// The number whose bytes, least significant first, are `bytes`.
pub fn from_le_bytes(bytes: &[u8]) -> (v: u128)
    requires
        bytes@.len() <= 16,
    ensures
        v == le_value(bytes@),
{
    let n = bytes.len();
    let mut acc: u128 = 0;
    let mut i: usize = n;
    proof {
        assert(bytes@.subrange(n as int, n as int) =~= Seq::<u8>::empty());
    }
    while i > 0
        invariant
            i <= n,
            n == bytes@.len(),
            n <= 16,
            acc == le_value(bytes@.subrange(i as int, n as int)),
        decreases i,
    {
        let ghost upper = bytes@.subrange(i as int, n as int);
        i -= 1;
        let ghost whole = bytes@.subrange(i as int, n as int);
        proof {
            assert(whole.drop_first() =~= upper);
            lemma_le_bytes_of_value(upper);
            lemma_le_bytes_of_value(whole);
            lemma_pow256_grows(whole.len(), 16);
            lemma_pow256_widths();
        }
        acc = acc * 256 + bytes[i] as u128;
    }
    assert(bytes@.subrange(0, n as int) =~= bytes@);
    acc
}

/// The 16 bytes of `value`, most significant first.
pub fn to_be_bytes(value: u128) -> (out: Vec<u8>)
    ensures
        out@ == be_bytes(value as nat, BLOCK_LEN as nat),
        out@.len() == BLOCK_LEN,
{
    let mut out: Vec<u8> = Vec::new();
    while out.len() < BLOCK_LEN
        invariant
            out@.len() <= BLOCK_LEN,
        decreases BLOCK_LEN - out@.len(),
    {
        out.push(0u8);
    }
    let mut rest: u128 = value;
    let mut i: usize = BLOCK_LEN;
    proof {
        assert(out@.subrange(BLOCK_LEN as int, BLOCK_LEN as int) =~= Seq::<u8>::empty());
        assert(be_bytes(rest as nat, BLOCK_LEN as nat) + Seq::<u8>::empty() =~= be_bytes(
            rest as nat,
            BLOCK_LEN as nat,
        ));
    }
    while i > 0
        invariant
            i <= BLOCK_LEN,
            out@.len() == BLOCK_LEN,
            be_bytes(rest as nat, i as nat) + out@.subrange(i as int, BLOCK_LEN as int)
                == be_bytes(value as nat, BLOCK_LEN as nat),
        decreases i,
    {
        let ghost head = be_bytes(rest as nat, i as nat);
        let ghost tail = out@.subrange(i as int, BLOCK_LEN as int);
        i -= 1;
        out.set(i, (rest % 256) as u8);
        rest = rest / 256;
        assert(be_bytes(rest as nat, i as nat) + out@.subrange(i as int, BLOCK_LEN as int)
            =~= head + tail);
    }
    assert(be_bytes(rest as nat, 0) + out@.subrange(0, BLOCK_LEN as int) =~= out@);
    out
}

/// The number whose bytes, most significant first, are `bytes`.
pub fn from_be_bytes(bytes: &[u8]) -> (v: u128)
    requires
        bytes@.len() <= 16,
    ensures
        v == be_value(bytes@),
{
    let n = bytes.len();
    let mut acc: u128 = 0;
    let mut i: usize = 0;
    proof {
        assert(bytes@.take(0) =~= Seq::<u8>::empty());
    }
    while i < n
        invariant
            i <= n,
            n == bytes@.len(),
            n <= 16,
            acc == be_value(bytes@.take(i as int)),
        decreases n - i,
    {
        let ghost lower = bytes@.take(i as int);
        let ghost whole = bytes@.take(i + 1);
        proof {
            assert(whole.drop_last() =~= lower);
            lemma_be_bytes_of_value(lower);
            lemma_be_bytes_of_value(whole);
            lemma_pow256_grows(whole.len(), 16);
            lemma_pow256_widths();
        }
        acc = acc * 256 + bytes[i] as u128;
        i += 1;
    }
    assert(bytes@.take(n as int) =~= bytes@);
    acc
}

/// The block made of `payload` and `checksum`.
pub fn assemble_block(payload: u128, checksum: u32) -> (block: Vec<u8>)
    ensures
        block@ == block_of(payload as nat, checksum as nat),
        block@.len() == BLOCK_LEN,
{
    let mut block = to_le_bytes(payload, PAYLOAD_LEN);
    let mut sum = to_le_bytes(checksum as u128, CHECKSUM_LEN);
    block.append(&mut sum);
    block
}

/// The block that carries `payload`, which must fit in 96 bits.
pub fn seal(payload: u128) -> (r: Result<Vec<u8>, IdError>)
    ensures
        payload > U96_MAX ==> r == Err::<Vec<u8>, IdError>(IdError::Range),
        payload <= U96_MAX ==> r is Ok && r->Ok_0@ == plain_block(payload as nat),
        r is Ok ==> r->Ok_0@.len() == BLOCK_LEN,
{
    if payload > U96_MAX {
        return Err(IdError::Range);
    }
    let bytes = to_le_bytes(payload, PAYLOAD_LEN);
    let sum = crc32_checksum(bytes.as_slice());
    Ok(assemble_block(payload, sum))
}

/// The payload of `block`, given the checksum `computed` over its payload
/// bytes: refused unless the block carries that checksum.
pub fn open_block(block: &[u8], computed: u32) -> (r: Result<u128, IdError>)
    requires
        block@.len() == BLOCK_LEN,
    ensures
        computed == checksum_of(block@) ==> r == Ok::<u128, IdError>(payload_of(block@) as u128),
        computed != checksum_of(block@) ==> r == Err::<u128, IdError>(IdError::Integrity),
        r is Ok ==> r->Ok_0 <= U96_MAX,
{
    proof {
        lemma_le_bytes_of_value(payload_bytes(block@));
        lemma_le_bytes_of_value(block@.subrange(PAYLOAD_LEN as int, BLOCK_LEN as int));
        lemma_pow256_widths();
    }
    let stored = from_le_bytes(vstd::slice::slice_subrange(block, PAYLOAD_LEN, BLOCK_LEN));
    if stored != computed as u128 {
        return Err(IdError::Integrity);
    }
    Ok(from_le_bytes(vstd::slice::slice_subrange(block, 0, PAYLOAD_LEN)))
}

/// The payload of `block`: refused unless the block is intact.
pub fn unseal(block: &[u8]) -> (r: Result<u128, IdError>)
    requires
        block@.len() == BLOCK_LEN,
    ensures
        intact(block@) ==> r == Ok::<u128, IdError>(payload_of(block@) as u128),
        !intact(block@) ==> r == Err::<u128, IdError>(IdError::Integrity),
        r is Ok ==> r->Ok_0 <= U96_MAX,
{
    let sum = crc32_checksum(vstd::slice::slice_subrange(block, 0, PAYLOAD_LEN));
    open_block(block, sum)
}

/// Powers of 256 grow with the exponent.
pub proof fn lemma_pow256_grows(a: nat, b: nat)
    requires
        a <= b,
    ensures
        pow256(a) <= pow256(b),
        pow256(a) >= 1,
    decreases b,
{
    if a < b {
        lemma_pow256_grows(a, (b - 1) as nat);
    } else if a > 0 {
        lemma_pow256_grows((a - 1) as nat, (a - 1) as nat);
    }
}

/// A sealed block is intact and carries its payload.
pub proof fn lemma_sealed_block(payload: nat)
    requires
        payload <= U96_MAX,
    ensures
        plain_block(payload).len() == BLOCK_LEN,
        intact(plain_block(payload)),
        payload_of(plain_block(payload)) == payload,
{
    let body = le_bytes(payload, PAYLOAD_LEN as nat);
    let sum = crc32(body) as nat;
    let tail = le_bytes(sum, CHECKSUM_LEN as nat);
    let block = plain_block(payload);
    lemma_le_bytes_len(payload, PAYLOAD_LEN as nat);
    lemma_le_bytes_len(sum, CHECKSUM_LEN as nat);
    lemma_pow256_widths();
    lemma_le_value_of_bytes(payload, PAYLOAD_LEN as nat);
    lemma_le_value_of_bytes(sum, CHECKSUM_LEN as nat);
    assert(payload_bytes(block) =~= body);
    assert(block.subrange(PAYLOAD_LEN as int, BLOCK_LEN as int) =~= tail);
}

/// 2^64: the weight of the generation in a payload.
pub const GENERATION_UNIT: u128 = 0x1_0000_0000_0000_0000;

/// The payload that holds `id` in its eight low bytes and `generation` in the
/// four bytes above them.
pub open spec fn pair_payload(id: u64, generation: u32) -> nat {
    (id as nat + generation as nat * GENERATION_UNIT as nat) as nat
}

/// The payload that holds `id` and `generation`.
pub fn join_pair(id: u64, generation: u32) -> (payload: u128)
    ensures
        payload == pair_payload(id, generation),
        payload <= U96_MAX,
{
    generation as u128 * GENERATION_UNIT + id as u128
}

/// The identifier and the generation that `payload` holds.
pub fn split_pair(payload: u128) -> (pair: (u64, u32))
    requires
        payload <= U96_MAX,
    ensures
        pair_payload(pair.0, pair.1) == payload,
        pair.0 == payload % GENERATION_UNIT,
        pair.1 == payload / GENERATION_UNIT,
{
    ((payload % GENERATION_UNIT) as u64, (payload / GENERATION_UNIT) as u32)
}

/// The low `k` bytes of `a + b * 256^k`, for `a` below 256^k, are those of
/// `a`, and the next `m` bytes are the low bytes of `b`.
pub proof fn lemma_le_bytes_concat(a: nat, b: nat, k: nat, m: nat)
    requires
        a < pow256(k),
    ensures
        le_bytes(a + b * pow256(k), k + m) == le_bytes(a, k) + le_bytes(b, m),
    decreases k,
{
    if k == 0 {
        assert(b * 1 == b);
        assert(le_bytes(a, 0) + le_bytes(b, m) =~= le_bytes(b, m));
    } else {
        let p = pow256((k - 1) as nat);
        let v = a + b * pow256(k);
        assert(b * (256 * p) == 256 * (b * p)) by (nonlinear_arith);
        assert(v == a + 256 * (b * p));
        assert(v % 256 == a % 256);
        assert(v / 256 == a / 256 + b * p);
        lemma_le_bytes_concat(a / 256, b, (k - 1) as nat, m);
        assert(le_bytes(v, k + m) =~= le_bytes(a, k) + le_bytes(b, m));
    }
}

/// A payload made of an identifier and a generation lays the identifier out
/// in bytes 0 to 7 and the generation in bytes 8 to 11, both little-endian.
pub proof fn lemma_pair_layout(id: u64, generation: u32)
    ensures
        le_bytes(pair_payload(id, generation), PAYLOAD_LEN as nat) == le_bytes(id as nat, 8)
            + le_bytes(generation as nat, 4),
        pair_payload(id, generation) <= U96_MAX,
{
    lemma_pow256_widths();
    lemma_le_bytes_concat(id as nat, generation as nat, 8, 4);
}

/// Zero bytes above the top of `s` do not change its little-endian value.
pub proof fn lemma_le_value_zero_padded(s: Seq<u8>, k: nat)
    ensures
        le_value(s + Seq::new(k, |i: int| 0u8)) == le_value(s),
    decreases s.len() + k,
{
    let zeros = Seq::new(k, |i: int| 0u8);
    let padded = s + zeros;
    if s.len() > 0 {
        assert(padded.drop_first() =~= s.drop_first() + zeros);
        lemma_le_value_zero_padded(s.drop_first(), k);
    } else if k > 0 {
        let fewer = Seq::new((k - 1) as nat, |i: int| 0u8);
        assert(padded.drop_first() =~= Seq::<u8>::empty() + fewer);
        lemma_le_value_zero_padded(Seq::<u8>::empty(), (k - 1) as nat);
    } else {
        assert(padded =~= s);
    }
}

/// The payload of a block is the block read as one little-endian number
/// after its checksum bytes were set to zero.
pub proof fn lemma_payload_is_block_without_checksum(block: Seq<u8>)
    requires
        block.len() == BLOCK_LEN,
    ensures
        payload_of(block) == le_value(
            payload_bytes(block) + Seq::new(CHECKSUM_LEN as nat, |i: int| 0u8),
        ),
        payload_of(block) <= U96_MAX,
{
    lemma_le_value_zero_padded(payload_bytes(block), CHECKSUM_LEN as nat);
    lemma_le_bytes_of_value(payload_bytes(block));
    lemma_pow256_widths();
}

} // verus!

//! The hash of a key and the bucket it selects.
//!
//! Keys are hashed with 64-bit FNV-1a over their bytes: starting from the
//! offset basis, each byte is xor-ed into the hash, which is then multiplied
//! by the FNV prime modulo 2^64.

use vstd::prelude::*;
use crate::key::key_bytes;

verus! {

/// The value that FNV-1a starts from.
pub const FNV_OFFSET_BASIS: u64 = 0xcbf2_9ce4_8422_2325;

/// The multiplier of FNV-1a.
pub const FNV_PRIME: u64 = 0x0000_0100_0000_01b3;

/// One round of FNV-1a: mix `byte` into `hash`.
pub open spec fn fnv1a_step(hash: u64, byte: u8) -> u64 {
    (((hash ^ (byte as u64)) as nat * FNV_PRIME as nat) % 0x1_0000_0000_0000_0000) as u64
}

/// The FNV-1a hash of a byte sequence.
pub open spec fn fnv1a(bytes: Seq<u8>) -> u64
    decreases bytes.len(),
{
    if bytes.len() == 0 {
        FNV_OFFSET_BASIS
    } else {
        fnv1a_step(fnv1a(bytes.drop_last()), bytes.last())
    }
}

/// The hash of a key: FNV-1a over its bytes.
pub open spec fn key_hash(key: Seq<char>) -> u64 {
    fnv1a(key_bytes(key))
}

/// The bucket that a hash selects among `buckets` buckets.
pub open spec fn hash_bucket(hash: u64, buckets: nat) -> int {
    hash as int % buckets as int
}

/// The bucket that a key belongs to among `buckets` buckets.
pub open spec fn key_bucket(key: Seq<char>, buckets: nat) -> int {
    hash_bucket(key_hash(key), buckets)
}

/// Computes the hash of `key`.
pub fn hash_key(key: &str) -> (hash: u64)
    ensures
        hash == key_hash(key@),
{
    let bytes = key.as_bytes();
    let mut hash: u64 = FNV_OFFSET_BASIS;
    let mut i: usize = 0;
    while i < bytes.len()
        invariant
            i <= bytes@.len(),
            hash == fnv1a(bytes@.take(i as int)),
        decreases bytes@.len() - i,
    {
        assert(bytes@.take(i + 1).drop_last() == bytes@.take(i as int));
        hash = (hash ^ (bytes[i] as u64)).wrapping_mul(FNV_PRIME);
        i += 1;
    }
    assert(bytes@.take(i as int) == bytes@);
    hash
}

/// Computes the bucket that `hash` selects among `buckets` buckets.
pub fn bucket_index(hash: u64, buckets: usize) -> (index: usize)
    requires
        buckets > 0,
    ensures
        index == hash_bucket(hash, buckets as nat),
        index < buckets,
{
    (hash % (buckets as u64)) as usize
}

} // verus!

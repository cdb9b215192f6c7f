//! The hash that assigns keys to buckets.

use vstd::prelude::*;
use crate::table::BUCKETS;

verus! {

/// Where the hash of the empty key starts.
pub const HASH_BASIS: u32 = 0x811c_9dc5;

/// What the hash is multiplied with after each byte.
pub const HASH_PRIME: u64 = 0x0100_0193;

/// The hash after one more byte.
pub open spec fn hash_step(h: u32, b: u8) -> u32 {
    (((h ^ (b as u32)) as int * HASH_PRIME) % 0x1_0000_0000) as u32
}

/// The 32-bit hash of a key; it is also the tag of the key's chain entries.
pub open spec fn hash(key: Seq<u8>) -> u32
    decreases key.len(),
{
    if key.len() == 0 {
        HASH_BASIS
    } else {
        hash_step(hash(key.drop_last()), key.last())
    }
}

/// The bucket of a key.
pub open spec fn bucket_of(key: Seq<u8>) -> int {
    hash(key) as int % (BUCKETS as int)
}

/// Computes the hash of a key.
pub fn hash_key(key: &[u8]) -> (h: u32)
    ensures
        h == hash(key@),
{
    let mut h: u32 = HASH_BASIS;
    let mut i: usize = 0;
    while i < key.len()
        invariant
            i <= key@.len(),
            h == hash(key@.subrange(0, i as int)),
        decreases key@.len() - i,
    {
        let x = (h ^ (key[i] as u32)) as u64;
        proof {
            let upto = key@.subrange(0, i + 1);
            assert(upto.drop_last() =~= key@.subrange(0, i as int));
            assert(upto.last() == key@[i as int]);
        }
        h = ((x * HASH_PRIME) % 0x1_0000_0000u64) as u32;
        i += 1;
    }
    assert(key@.subrange(0, i as int) =~= key@);
    h
}

} // verus!

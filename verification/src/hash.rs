//! The fixed hash that decorrelates the sweep order from the structure of a graph.

use vstd::prelude::*;
use vstd::utf8::encode_utf8;

verus! {

/// The offset basis of 64-bit FNV-1a.
pub const FNV_OFFSET_BASIS: u64 = 0xcbf2_9ce4_8422_2325;

/// The prime of 64-bit FNV-1a.
pub const FNV_PRIME: u64 = 0x0000_0100_0000_01b3;

/// The 64-bit FNV-1a hash of a byte string: each byte in turn is mixed in by
/// exclusive or, and the mix is multiplied by the prime.
pub open spec fn fnv1a_of(bytes: Seq<u8>) -> u64
    decreases bytes.len(),
{
    if bytes.len() == 0 {
        FNV_OFFSET_BASIS
    } else {
        (fnv1a_of(bytes.drop_last()) ^ (bytes.last() as u64)).wrapping_mul(FNV_PRIME)
    }
}

/// The place of an identifier in every sweep.
pub open spec fn place_of(id: Seq<char>) -> u64 {
    fnv1a_of(encode_utf8(id))
}

/// Deterministic FNV-1a 64-bit hash of a string.
pub fn fnv1a(s: &str) -> (hash: u64)
    ensures
        hash == place_of(s@),
{
    let bytes = s.as_bytes();
    let mut hash: u64 = FNV_OFFSET_BASIS;
    let mut i: usize = 0;
    while i < bytes.len()
        invariant
            i <= bytes@.len(),
            hash == fnv1a_of(bytes@.take(i as int)),
        decreases bytes@.len() - i,
    {
        assert(bytes@.take(i + 1).drop_last() =~= bytes@.take(i as int));
        hash = (hash ^ (bytes[i] as u64)).wrapping_mul(FNV_PRIME);
        i += 1;
    }
    assert(bytes@.take(i as int) =~= bytes@);
    hash
}

} // verus!

use vstd::prelude::*;

verus! {

/// FNV-1a offset basis for 64-bit hashes.
pub const FNV_OFFSET: u64 = 0xcbf29ce484222325;

/// FNV-1a prime for 64-bit hashes.
pub const FNV_PRIME: u64 = 0x100000001b3;

/// The 64-bit FNV-1a hash of a byte sequence. Fast and non-cryptographic:
/// used only to detect that a file's content changed, never for integrity.
pub open spec fn fnv1a(bytes: Seq<u8>) -> u64
    decreases bytes.len(),
{
    if bytes.len() == 0 {
        FNV_OFFSET
    } else {
        (fnv1a(bytes.drop_last()) ^ (bytes.last() as u64)).wrapping_mul(FNV_PRIME)
    }
}

/// Compute the fingerprint of a file's raw content.
pub fn fingerprint(bytes: &Vec<u8>) -> (r: u64)
    ensures
        r == fnv1a(bytes@),
{
    let mut h: u64 = FNV_OFFSET;
    let mut i: usize = 0;
    proof {
        assert(bytes@.take(0) =~= Seq::<u8>::empty());
    }
    while i < bytes.len()
        invariant
            i <= bytes.len(),
            h == fnv1a(bytes@.take(i as int)),
        decreases bytes.len() - i,
    {
        h = (h ^ (bytes[i] as u64)).wrapping_mul(FNV_PRIME);
        proof {
            assert(bytes@.take(i + 1).drop_last() =~= bytes@.take(i as int));
            assert(bytes@.take(i + 1).last() == bytes@[i as int]);
        }
        i = i + 1;
    }
    proof {
        assert(bytes@.take(bytes@.len() as int) =~= bytes@);
    }
    h
}

} // verus!

//! Content addressing: the address of a bundle is a 64-bit FNV-1a hash of
//! its bytes, so identical content always receives the same address and is
//! stored only once.

use vstd::prelude::*;

verus! {

/// The FNV-1a 64-bit offset basis.
pub const ADDRESS_OFFSET: u64 = 0xcbf29ce484222325;

/// The FNV-1a 64-bit prime.
pub const ADDRESS_PRIME: u64 = 0x100000001b3;

/// One FNV-1a step: fold the next byte into the running hash.
pub open spec fn address_step(h: u64, b: u8) -> u64 {
    vstd::wrapping::u64_specs::wrapping_mul(h ^ (b as u64), ADDRESS_PRIME)
}

/// The hash of `bytes` folded left-to-right onto the accumulator `h`.
pub open spec fn address_from(bytes: Seq<u8>, h: u64) -> u64
    decreases bytes.len(),
{
    if bytes.len() == 0 {
        h
    } else {
        address_from(bytes.skip(1), address_step(h, bytes[0]))
    }
}

/// The content address of a byte sequence. Deterministic: equal bytes give
/// equal addresses.
pub open spec fn content_address(bytes: Seq<u8>) -> u64 {
    address_from(bytes, ADDRESS_OFFSET)
}

/// Computes the content address of `bytes`.
pub fn compute_address(bytes: &Vec<u8>) -> (r: u64)
    ensures
        r == content_address(bytes@),
{
    let mut h: u64 = ADDRESS_OFFSET;
    let mut i: usize = 0;
    proof {
        assert(bytes@.skip(0) =~= bytes@);
    }
    while i < bytes.len()
        invariant
            0 <= i <= bytes@.len(),
            content_address(bytes@) == address_from(bytes@.skip(i as int), h),
        decreases bytes@.len() - i,
    {
        proof {
            assert(bytes@.skip(i as int)[0] == bytes@[i as int]);
            assert(bytes@.skip(i as int).skip(1) =~= bytes@.skip(i as int + 1));
        }
        h = (h ^ bytes[i]as u64).wrapping_mul(ADDRESS_PRIME);
        i = i + 1;
    }
    proof {
        assert(bytes@.skip(i as int) =~= Seq::<u8>::empty());
    }
    h
}

/// Law: content addressing is deterministic — equal byte sequences always
/// receive equal addresses.
pub proof fn lemma_content_addressing(b1: Seq<u8>, b2: Seq<u8>)
    requires
        b1 == b2,
    ensures
        content_address(b1) == content_address(b2),
{
}

} // verus!

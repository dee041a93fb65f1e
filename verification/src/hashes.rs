//! The seeded 64-bit hash used to drive Bloom filter probes: a
//! Fowler/Noll/Vo-style fold over the input bytes, with the seed mixed
//! into the offset basis.  It is fully specified, so equal inputs give
//! equal probe positions on every machine.

use vstd::prelude::*;

verus! {

/// The FNV-1a 64-bit offset basis.
pub const FNV_OFFSET: u64 = 0xcbf29ce484222325;

/// The FNV-1a 64-bit prime.
pub const FNV_PRIME: u64 = 0x100000001b3;

/// One step of the fold: mix a byte into the state.
pub open spec fn fnv_step(h: u64, b: u8) -> u64 {
    vstd::wrapping::u64_specs::wrapping_mul(h ^ (b as u64), FNV_PRIME)
}

/// Fold all of `data` into state `h`, first byte first.
pub open spec fn fnv_fold(h: u64, data: Seq<u8>) -> u64
    decreases data.len(),
{
    if data.len() == 0 {
        h
    } else {
        fnv_fold(fnv_step(h, data.first()), data.drop_first())
    }
}

/// The hash of `data` under `seed`: the fold started from the offset
/// basis with the seed mixed in.
pub open spec fn seeded_hash(seed: u64, data: Seq<u8>) -> u64 {
    fnv_fold(FNV_OFFSET ^ seed, data)
}

/// Compute `seeded_hash` on a byte vector.
pub fn seeded_hash_bytes(seed: u64, data: &Vec<u8>) -> (r: u64)
    ensures r == seeded_hash(seed, data@),
{
    let mut h: u64 = FNV_OFFSET ^ seed;
    let mut i: usize = 0;
    proof {
        assert(data@.subrange(0, data@.len() as int) =~= data@);
    }
    while i < data.len()
        invariant
            i <= data@.len(),
            seeded_hash(seed, data@) == fnv_fold(h, data@.subrange(i as int, data@.len() as int)),
        decreases data@.len() - i,
    {
        proof {
            let rest = data@.subrange(i as int, data@.len() as int);
            assert(rest.first() == data@[i as int]);
            assert(rest.drop_first() =~= data@.subrange(i + 1, data@.len() as int));
        }
        h = (h ^ (data[i] as u64)).wrapping_mul(FNV_PRIME);
        i += 1;
    }
    proof {
        assert(data@.subrange(data@.len() as int, data@.len() as int) =~= Seq::<u8>::empty());
    }
    h
}

} // verus!

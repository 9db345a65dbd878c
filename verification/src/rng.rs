//! The puzzle generator's source of randomness: seeded draws are pure
//! functions of the seed, so a seeded generation run is reproducible; the
//! entropy draw promises nothing of its value.

use vstd::prelude::*;

verus! {

/// The index that a generator seeded with `seed` draws from `0..n`: a pure
/// function of the seed and the bound.
pub uninterp spec fn pick_of(seed: u64, n: usize) -> usize;

/// The reordering that a generator seeded with `seed` gives to `s`: a pure
/// function of the seed and the sequence.
pub uninterp spec fn shuffle_of(seed: u64, s: Seq<char>) -> Seq<char>;

/// Relies on rand::rngs::StdRng::seed_from_u64 (a fixed expansion of the
/// seed, so the generator's draws depend on the seed alone) and on
/// rand::Rng::gen_range (uniform over the given range; panics only when the
/// range is empty). The range is sampled at the width of u64 so that the
/// draw does not depend on the machine's word size.
#[verifier::external_body]
pub(crate) fn seeded_pick(seed: u64, n: usize) -> (r: usize)
    requires
        n >= 1,
    ensures
        r < n,
        r == pick_of(seed, n),
{
    let mut rng = <rand::rngs::StdRng as rand::SeedableRng>::seed_from_u64(seed);
    rand::Rng::gen_range(&mut rng, 0..(n as u64)) as usize
}

/// Relies on rand::rngs::StdRng::seed_from_u64 (as above) and on
/// rand::seq::SliceRandom::shuffle (a Fisher-Yates pass of swaps: the result
/// is a permutation of the slice, determined by the generator's draws).
#[verifier::external_body]
pub(crate) fn seeded_shuffle(seed: u64, v: &mut Vec<char>)
    ensures
        final(v)@ == shuffle_of(seed, old(v)@),
        final(v)@.to_multiset() == old(v)@.to_multiset(),
{
    let mut rng = <rand::rngs::StdRng as rand::SeedableRng>::seed_from_u64(seed);
    rand::seq::SliceRandom::shuffle(v.as_mut_slice(), &mut rng);
}

/// Relies on rand::random: one draw from the thread-local generator; nothing
/// is promised of the value.
#[verifier::external_body]
pub(crate) fn entropy_seed() -> u64 {
    rand::random::<u64>()
}

} // verus!

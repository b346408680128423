use rand::seq::SliceRandom;
use rand::SeedableRng;
use rand_chacha::ChaCha8Rng;
use vstd::prelude::*;

verus! {

/// The ChaCha8 generator of `rand_chacha`, used as an opaque value.
#[verifier::external_type_specification]
#[verifier::external_body]
pub struct ExChaCha8Rng(ChaCha8Rng);

/// What the generator has produced, as `rand_chacha` and `rand` make it a function of
/// plain values: a ChaCha8 generator seeded from `seed` with `seed_from_u64`, which has
/// since shuffled slices of the lengths in `draws`, in that order, and nothing else.
pub struct SimRng {
    inner: ChaCha8Rng,
    seed: Ghost<u64>,
    draws: Ghost<Seq<nat>>,
}

impl View for SimRng {
    type V = (u64, Seq<nat>);

    /// The seed of the generator and the lengths of the slices it has shuffled.
    closed spec fn view(&self) -> (u64, Seq<nat>) {
        (self.seed@, self.draws@)
    }
}

impl SimRng {
    /// A generator seeded from `seed`.
    pub fn from_seed(seed: u64) -> (rng: SimRng)
        ensures
            rng@ == (seed, Seq::<nat>::empty()),
    {
        seeded_rng(seed)
    }
}

/// The slice `v` after `SliceRandom::shuffle` with a ChaCha8 generator seeded from
/// `seed` that has shuffled slices of the lengths in `draws` before.
pub uninterp spec fn shuffle_outcome(seed: u64, draws: Seq<nat>, v: Seq<usize>) -> Seq<usize>;

/// `ChaCha8Rng::seed_from_u64` (trait `rand_core::SeedableRng`): a generator seeded
/// deterministically from `seed`, which has drawn nothing yet.
#[verifier::external_body]
pub(crate) fn seeded_rng(seed: u64) -> (rng: SimRng)
    ensures
        rng@ == (seed, Seq::<nat>::empty()),
{
    SimRng { inner: ChaCha8Rng::seed_from_u64(seed), seed: Ghost(seed), draws: Ghost(Seq::empty()) }
}

/// `rand::random::<u64>()`: a seed drawn from the thread-local generator.  Nothing is
/// stated of the value.
#[verifier::external_body]
pub(crate) fn random_seed() -> u64 {
    rand::random::<u64>()
}

/// `SliceRandom::shuffle` (rand 0.8) on a vector of indices with the generator.  It is a
/// Fisher-Yates shuffle made of swaps, so the result holds the same elements with the
/// same multiplicities; the swaps it makes depend only on the generator's state and the
/// slice's length, and the generator's state is a function of its seed and of the
/// lengths shuffled before, so the result is `shuffle_outcome` of these.  Which
/// permutation that is is not stated.
#[verifier::external_body]
pub(crate) fn shuffle_indices(v: &mut Vec<usize>, rng: &mut SimRng)
    ensures
        final(v)@.to_multiset() == old(v)@.to_multiset(),
        final(v)@ == shuffle_outcome(old(rng)@.0, old(rng)@.1, old(v)@),
        final(rng)@ == (old(rng)@.0, old(rng)@.1.push(old(v)@.len())),
{
    v.shuffle(&mut rng.inner)
}

} // verus!

//! The random source of question generation: a `rand` generator together
//! with how it was made (from a seed, or from the operating system) and the
//! draws made of it so far.
//!
//! A seeded `StdRng` gives the same stream for the same seed, so what a draw
//! gives is a function of the seed and of the draws made before it. `rand`
//! documents `StdRng` as deterministic but not reproducible across
//! configurations: a range over `usize` is sampled at the machine's word
//! size. The names below therefore take the word size (`usize::BITS`) as an
//! argument, and they speak of this crate's build of `rand`.
use vstd::prelude::*;
use rand::rngs::StdRng;
use rand::seq::SliceRandom;
use rand::{Rng, SeedableRng};

verus! {

/// The index that `SliceRandom::choose` picks in a slice of `len` items, for
/// a generator seeded with `seed` through `StdRng::seed_from_u64` that has
/// made the draws of `history` (kind `0` a choice, `1` a shuffle, `2` a
/// range, each with its length or bound), on a machine of `word_bits`.
pub uninterp spec fn seeded_choice(seed: u64, word_bits: u32, history: Seq<(u8, nat)>, len: nat) -> nat;

/// What `SliceRandom::shuffle` makes of `items` for such a generator.
pub uninterp spec fn seeded_shuffle(seed: u64, word_bits: u32, history: Seq<(u8, nat)>, items: Seq<usize>) -> Seq<usize>;

/// What `Rng::gen_range(0..bound)` gives for such a generator.
pub uninterp spec fn seeded_below(seed: u64, word_bits: u32, history: Seq<(u8, nat)>, bound: nat) -> nat;

#[verifier::external_type_specification]
#[verifier::external_body]
pub struct ExStdRng(StdRng);

/// A random source: the generator, the seed it was made from (`None` for
/// one drawn from the operating system) and the draws made of it so far.
/// The generator is only made by the two constructors below and only drawn
/// from by the three draws below, each of which records itself, so the
/// generator's state is the one that its seed and its history give.
pub struct Draws {
    rng: StdRng,
    seed: Ghost<Option<u64>>,
    history: Ghost<Seq<(u8, nat)>>,
}

impl Draws {
    /// The seed the source was made from, if any.
    pub closed spec fn seed(&self) -> Option<u64> {
        self.seed@
    }

    /// The draws made of the source so far.
    pub closed spec fn history(&self) -> Seq<(u8, nat)> {
        self.history@
    }

    /// `StdRng::seed_from_u64`: a source seeded with `seed`, no draw made yet.
    #[verifier::external_body]
    pub(crate) fn seeded(seed: u64) -> (r: Self)
        ensures
            r.seed() == Some(seed),
            r.history() == Seq::<(u8, nat)>::empty(),
    {
        Draws { rng: StdRng::seed_from_u64(seed), seed: Ghost(Some(seed)), history: Ghost(Seq::empty()) }
    }

    /// `StdRng::from_entropy`: a source seeded from the operating system, no
    /// draw made yet; nothing is claimed of what it will draw. (It panics
    /// when the operating system has no randomness to give.)
    #[verifier::external_body]
    pub(crate) fn from_entropy() -> (r: Self)
        ensures
            r.seed() is None,
            r.history() == Seq::<(u8, nat)>::empty(),
    {
        Draws { rng: StdRng::from_entropy(), seed: Ghost(None), history: Ghost(Seq::empty()) }
    }

    /// `SliceRandom::choose`. Claimed: `None` exactly when `items` is empty,
    /// otherwise one of the items; for a seeded source the item at index
    /// `seeded_choice` of the seed and the draws so far, which this choice
    /// joins.
    #[verifier::external_body]
    pub(crate) fn choose_one(&mut self, items: &Vec<usize>) -> (r: Option<usize>)
        ensures
            r is None <==> items@.len() == 0,
            r matches Some(x) ==> items@.contains(x),
            final(self).seed() == old(self).seed(),
            final(self).history() == old(self).history().push((0u8, items@.len())),
            old(self).seed() matches Some(s) ==> (items@.len() > 0 ==> {
                let k = seeded_choice(s, usize::BITS, old(self).history(), items@.len());
                k < items@.len() && r == Some(items@[k as int])
            }),
    {
        items.choose(&mut self.rng).copied()
    }

    /// `SliceRandom::shuffle`. Claimed: the same elements, each as often as
    /// before; for a seeded source in the order `seeded_shuffle` gives.
    #[verifier::external_body]
    pub(crate) fn shuffle(&mut self, items: &mut Vec<usize>)
        ensures
            final(items)@.to_multiset() == old(items)@.to_multiset(),
            final(self).seed() == old(self).seed(),
            final(self).history() == old(self).history().push((1u8, old(items)@.len())),
            old(self).seed() matches Some(s) ==> final(items)@ == seeded_shuffle(
                s,
                usize::BITS,
                old(self).history(),
                old(items)@,
            ),
    {
        items.shuffle(&mut self.rng)
    }

    /// `Rng::gen_range(0..bound)`. Claimed: a number below `bound`, for a
    /// seeded source the one `seeded_below` gives; an empty range
    /// (`bound == 0`), on which `gen_range` panics, is ruled out.
    #[verifier::external_body]
    pub(crate) fn below(&mut self, bound: usize) -> (r: usize)
        requires
            bound > 0,
        ensures
            r < bound,
            final(self).seed() == old(self).seed(),
            final(self).history() == old(self).history().push((2u8, bound as nat)),
            old(self).seed() matches Some(s) ==> r == seeded_below(
                s,
                usize::BITS,
                old(self).history(),
                bound as nat,
            ),
    {
        self.rng.gen_range(0..bound)
    }
}

} // verus!

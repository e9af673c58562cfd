//! Sources of random numbers.
//!
//! The library draws every random number through [`RandomSource`], so that a
//! general-purpose generator and the shift registers of this crate can stand
//! in for each other.
use crate::flags::{count_free, free_before, nth_free, pick_free};
use vstd::prelude::*;

verus! {

/// A source of random numbers.
///
/// A source may be replayable: then its state determines every number that
/// it will give.  Whatever is computed with numbers from such a source is
/// determined by the state in which the source was handed over, and can be
/// had again from a source in that state.
pub trait RandomSource: Sized {
    /// Whether the state of the source determines the numbers it gives.
    spec fn replayable(&self) -> bool;

    /// The number below `bound` that a replayable source gives next.
    spec fn next_draw(&self, bound: usize) -> usize;

    /// A replayable source after it has given a number below `bound`.
    spec fn after_draw(&self, bound: usize) -> Self;

    /// A number below `bound`.
    fn below(&mut self, bound: usize) -> (r: usize)
        requires
            bound > 0,
        ensures
            r < bound,
            final(self).replayable() == old(self).replayable(),
            old(self).replayable() ==> r == old(self).next_draw(bound) && *final(self) == old(
                self,
            ).after_draw(bound),
    ;

    /// Fills `dest` with random bytes.
    fn fill_bytes(&mut self, dest: &mut Vec<u8>)
        ensures
            final(dest).len() == old(dest).len(),
            final(self).replayable() == old(self).replayable(),
    ;

    /// Puts the items of `list` into a random order.
    fn shuffle(&mut self, list: &mut Vec<usize>)
        ensures
            final(list)@.to_multiset() == old(list)@.to_multiset(),
            final(self).replayable() == old(self).replayable(),
    ;

    /// A new source, seeded from this one.
    fn fork(&mut self) -> (child: Self)
        ensures
            final(self).replayable() == old(self).replayable(),
    ;
}

#[verifier::external_type_specification]
#[verifier::external_body]
pub struct ExChaCha8Rng(rand_chacha::ChaCha8Rng);

/// `rand::Rng::random_range` on the half-open range from 0 to `bound`: the
/// number it returns lies in that range.  It panics on an empty range, which
/// the precondition leaves out.
#[verifier::external_body]
fn chacha_below(rng: &mut rand_chacha::ChaCha8Rng, bound: usize) -> (r: usize)
    requires
        bound > 0,
    ensures
        r < bound,
{
    rand::Rng::random_range(rng, 0..bound)
}

/// `rand::RngCore::fill_bytes` on the bytes of `dest`: the bytes are
/// overwritten, as many as there were.
#[verifier::external_body]
fn chacha_fill(rng: &mut rand_chacha::ChaCha8Rng, dest: &mut Vec<u8>)
    ensures
        final(dest).len() == old(dest).len(),
{
    rand::RngCore::fill_bytes(rng, dest.as_mut_slice())
}

/// `rand::seq::SliceRandom::shuffle` on the items of `list`: it exchanges
/// items of the list with each other, so the list holds afterwards what it
/// held, each item as often as before.
#[verifier::external_body]
fn chacha_shuffle(rng: &mut rand_chacha::ChaCha8Rng, list: &mut Vec<usize>)
    ensures
        final(list)@.to_multiset() == old(list)@.to_multiset(),
{
    rand::seq::SliceRandom::shuffle(list.as_mut_slice(), rng)
}

/// `rand::SeedableRng::from_rng`: a generator seeded with bytes drawn from
/// `rng`.  Nothing is claimed of it.
#[verifier::external_body]
fn chacha_fork(rng: &mut rand_chacha::ChaCha8Rng) -> (child: rand_chacha::ChaCha8Rng) {
    rand::SeedableRng::from_rng(rng)
}

/// `rand::SeedableRng::seed_from_u64`: a generator made from `seed`.  Nothing
/// is claimed of it.
#[verifier::external_body]
fn chacha_seeded(seed: u64) -> (rng: rand_chacha::ChaCha8Rng) {
    rand::SeedableRng::seed_from_u64(seed)
}

/// The ChaCha generator with eight rounds as a [`RandomSource`].
pub struct ChaChaSource {
    rng: rand_chacha::ChaCha8Rng,
}

impl ChaChaSource {
    /// The generator from which the source draws.
    pub closed spec fn generator(&self) -> rand_chacha::ChaCha8Rng {
        self.rng
    }

    /// The source that draws from `rng`.
    pub fn new(rng: rand_chacha::ChaCha8Rng) -> (source: Self)
        ensures
            source.generator() == rng,
    {
        Self { rng }
    }

    /// The source that `seed` determines.
    pub fn from_seed(seed: u64) -> (source: Self) {
        Self { rng: chacha_seeded(seed) }
    }
}

impl RandomSource for ChaChaSource {
    /// Nothing is known of what the generator will give.
    open spec fn replayable(&self) -> bool {
        false
    }

    open spec fn next_draw(&self, bound: usize) -> usize {
        0
    }

    open spec fn after_draw(&self, bound: usize) -> Self {
        *self
    }

    fn below(&mut self, bound: usize) -> (r: usize) {
        chacha_below(&mut self.rng, bound)
    }

    fn fill_bytes(&mut self, dest: &mut Vec<u8>) {
        chacha_fill(&mut self.rng, dest)
    }

    fn shuffle(&mut self, list: &mut Vec<usize>) {
        chacha_shuffle(&mut self.rng, list)
    }

    fn fork(&mut self) -> (child: Self) {
        Self { rng: chacha_fork(&mut self.rng) }
    }
}

/// What `draw_free` gives with a replayable source, and the source after
/// it: of the free indices the one at the place that the source draws.
pub open spec fn drawn_free<R: RandomSource>(used: Seq<bool>, rng: R) -> (Option<usize>, R) {
    let free = count_free(used);
    if free == 0 {
        (None, rng)
    } else {
        (
            Some(nth_free(used, rng.next_draw(free as usize) as int) as usize),
            rng.after_draw(free as usize),
        )
    }
}

/// A free index of `used`, picked by one draw from `rng`; none where no
/// index is free.
pub fn draw_free<R: RandomSource>(used: &Vec<bool>, rng: &mut R) -> (pick: Option<usize>)
    ensures
        pick is None <==> count_free(used@) == 0,
        pick matches Some(i) ==> i < used.len() && !used[i as int],
        final(rng).replayable() == old(rng).replayable(),
        old(rng).replayable() ==> (pick, *final(rng)) == drawn_free(used@, *old(rng)),
{
    let free = free_before(used, used.len());
    proof {
        assert(used@.take(used.len() as int) == used@);
    }
    if free == 0 {
        None
    } else {
        let k = rng.below(free);
        Some(pick_free(used, k))
    }
}

} // verus!

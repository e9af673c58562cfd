//! A shift register of 128 bits as a source of random numbers.
use crate::circuit::analysis::position_of;
use crate::flags::{count_free, flags_of, free_before, nth_free, pick_free};
use super::permutations::{lemma_switched_keeps_items, switched};
use crate::random::RandomSource;
use vstd::prelude::*;

verus! {

/// The bit of `state` at `n`, as 0 or 1.
pub open spec fn tap_128(state: u128, n: u128) -> u128 {
    (state & (1u128 << n)) >> n
}

/// The state of the register after one step: the bits move up by one
/// place, and the lowest bit is the sum of the bits 127, 126, 125 and 120.
pub open spec fn lfsr128_step(state: u128) -> u128 {
    (state << 1) | (tap_128(state, 127) ^ tap_128(state, 126) ^ tap_128(state, 125) ^ tap_128(
        state,
        120,
    ))
}

/// The byte of `value` at place `i`, the lowest byte being at place 0.
pub open spec fn byte_of(value: u128, i: u128) -> u8 {
    ((value >> (8 * i)) & 0xff) as u8
}

/// The bit of `state` at `n`, as 0 or 1.
pub fn get_tap_128(state: u128, n: u128) -> (bit: u128)
    requires
        n < 128,
    ensures
        bit == tap_128(state, n),
        bit <= 1,
{
    assert(n < 128 ==> ((state & (1u128 << n)) >> n) <= 1) by (bit_vector);
    (state & (1u128 << n)) >> n
}

/// The number whose byte at each place is the byte of `data` there.
pub fn get_128_from_u8_array(data: [u8; 16]) -> (value: u128)
    ensures
        forall|i: int| 0 <= i < 16 ==> byte_of(value, i as u128) == #[trigger] data@[i],
{
    let mut value: u128 = 0;
    let mut i: usize = 0;
    proof {
        assert(0u128 >> 0u128 == 0) by (bit_vector);
    }
    while i < 16
        invariant
            i <= 16,
            i < 16 ==> (value >> ((8 * i) as u128)) == 0,
            forall|j: int| 0 <= j < i ==> byte_of(value, j as u128) == #[trigger] data@[j],
        decreases 16 - i,
    {
        let byte = data[i] as u128;
        let shift = (8 * i) as u128;
        let next = value | (byte << shift);
        proof {
            assert(shift <= 120 && byte <= 0xff && (value >> shift) == 0 ==> (((next >> shift)
                & 0xff) == byte && (shift < 120 ==> (next >> ((shift + 8) as u128)) == 0)))
                by (bit_vector)
                requires
                    next == value | (byte << shift),
            ;
            assert forall|j: int| 0 <= j < i implies byte_of(next, j as u128) == #[trigger] data@[j] by {
                let low = (8 * j) as u128;
                assert(low < shift && shift <= 120 && byte <= 0xff ==> ((next >> low) & 0xff) == ((
                value >> low) & 0xff)) by (bit_vector)
                    requires
                        next == value | (byte << shift),
                        (value >> shift) == 0,
                        low + 8 <= shift,
                ;
                assert(byte_of(value, j as u128) == data@[j]);
            }
        }
        value = next;
        i += 1;
    }
    value
}

/// The bytes of `value`, the lowest first.
pub fn get_u8_array_from_u128(value: u128) -> (data: [u8; 16])
    ensures
        forall|i: int| 0 <= i < 16 ==> #[trigger] data@[i] == byte_of(value, i as u128),
{
    let mut data = [0u8; 16];
    let mut i: usize = 0;
    while i < 16
        invariant
            i <= 16,
            forall|j: int| 0 <= j < i ==> #[trigger] data@[j] == byte_of(value, j as u128),
        decreases 16 - i,
    {
        let shift = (8 * i) as u128;
        data[i] = ((value >> shift) & 0xff) as u8;
        i += 1;
    }
    data
}

/// The state of the register after `steps` steps from `state`.
pub open spec fn lfsr128_after(state: u128, steps: nat) -> u128
    decreases steps,
{
    if steps == 0 {
        state
    } else {
        lfsr128_step(lfsr128_after(state, (steps - 1) as nat))
    }
}

/// The list after a register in `state` has shuffled its first `i` places:
/// the last of them is exchanged with the place that the state gives, and
/// so on with one place less and the next state.
pub open spec fn register_shuffled(list: Seq<usize>, state: u128, i: int) -> Seq<usize>
    decreases i,
{
    if i <= 1 || i > list.len() {
        list
    } else {
        register_shuffled(
            switched(list, true, i - 1, ((state as usize) % (i as usize)) as int),
            lfsr128_step(state),
            i - 1,
        )
    }
}

/// A shift register of 128 bits with linear feedback.
#[derive(Debug, Clone, Copy)]
pub struct LFSR128 {
    pub state: u128,
}

impl LFSR128 {
    pub fn new(seed: u128) -> (r: Self)
        ensures
            r.state == seed,
    {
        Self { state: seed }
    }

    /// The register whose state has the bytes of `seed`, the lowest first.
    pub fn from_seed(seed: [u8; 16]) -> (r: Self)
        ensures
            forall|i: int| 0 <= i < 16 ==> byte_of(r.state, i as u128) == #[trigger] seed@[i],
    {
        Self { state: get_128_from_u8_array(seed) }
    }

    /// The state of the register, which then makes one step.
    pub fn next(&mut self) -> (out: Option<u128>)
        ensures
            out == Some(old(self).state),
            final(self).state == lfsr128_step(old(self).state),
    {
        let new = get_tap_128(self.state, 127) ^ get_tap_128(self.state, 126) ^ get_tap_128(
            self.state,
            125,
        ) ^ get_tap_128(self.state, 120);
        let old = self.state;
        self.state = (self.state << 1) | new;
        Some(old)
    }

    /// The state of the register cut to the size of a `usize`; the register
    /// makes one step.
    pub fn next_usize(&mut self) -> (out: usize)
        ensures
            out == old(self).state as usize,
            final(self).state == lfsr128_step(old(self).state),
    {
        let old = self.state;
        self.next();
        #[verifier::truncate]
        (old as usize)
    }

    /// A number below `N_PROJ_WIRES` that is not among `exclusion_values`:
    /// the state of the register modulo `N_PROJ_WIRES`, of the first state
    /// for which this is so; the register makes a step for each state that
    /// is looked at.  After `SAMPLE_DRAWS` states in vain the next state
    /// gives the place among the numbers that are left.
    pub fn sample_excluding<const N_PROJ_WIRES: usize>(
        &mut self,
        exclusion_values: &Vec<usize>,
    ) -> (new: usize)
        requires
            exists|w: usize| w < N_PROJ_WIRES && !exclusion_values@.contains(w),
        ensures
            new < N_PROJ_WIRES,
            !exclusion_values@.contains(new),
            (new, final(self).state) == drawn_excluding(
                old(self).state,
                N_PROJ_WIRES,
                exclusion_values@,
                SAMPLE_DRAWS as nat,
            ),
    {
        let mut draws: usize = 0;
        while draws < SAMPLE_DRAWS
            invariant
                draws <= SAMPLE_DRAWS,
                N_PROJ_WIRES > 0,
                drawn_excluding(
                    old(self).state,
                    N_PROJ_WIRES,
                    exclusion_values@,
                    SAMPLE_DRAWS as nat,
                ) == drawn_excluding(
                    self.state,
                    N_PROJ_WIRES,
                    exclusion_values@,
                    (SAMPLE_DRAWS - draws) as nat,
                ),
            decreases SAMPLE_DRAWS - draws,
        {
            let new = self.next_usize() % N_PROJ_WIRES;
            if position_of(exclusion_values, new).is_none() {
                return new;
            }
            draws += 1;
        }
        let excluded = flags_of(exclusion_values, N_PROJ_WIRES);
        let left = free_before(&excluded, N_PROJ_WIRES);
        proof {
            assert(excluded@.take(N_PROJ_WIRES as int) == excluded@);
            assert(excluded@ =~= excluded_flags(N_PROJ_WIRES, exclusion_values@));
            let w = choose|w: usize| w < N_PROJ_WIRES && !exclusion_values@.contains(w);
            assert(!excluded[w as int]);
            crate::flags::lemma_count_free_update(excluded@, w as int);
            crate::flags::lemma_count_free_bounds(excluded@.update(w as int, true));
        }
        let place = self.next_usize() % left;
        pick_free(&excluded, place)
    }
}

/// How many states `sample_excluding` looks at before it picks among the
/// numbers that are left.
pub const SAMPLE_DRAWS: usize = 256;

/// For each number below `n`, whether it is among `excluded`.
pub open spec fn excluded_flags(n: usize, excluded: Seq<usize>) -> Seq<bool> {
    Seq::new(n as nat, |w: int| excluded.contains(w as usize))
}

/// The number that `sample_excluding` gives from `state` with `draws`
/// states still to look at, and the state of the register after it.
pub open spec fn drawn_excluding(state: u128, n: usize, excluded: Seq<usize>, draws: nat) -> (
    usize,
    u128,
)
    decreases draws,
{
    if n == 0 {
        (0, state)
    } else if draws == 0 {
        let flags = excluded_flags(n, excluded);
        (
            nth_free(flags, (((state as usize) % (count_free(flags) as usize)) as int)) as usize,
            lfsr128_step(state),
        )
    } else if !excluded.contains(((state as usize) % n) as usize) {
        (((state as usize) % n) as usize, lfsr128_step(state))
    } else {
        drawn_excluding(lfsr128_step(state), n, excluded, (draws - 1) as nat)
    }
}

impl RandomSource for LFSR128 {
    /// The state of the register determines all that follows.
    open spec fn replayable(&self) -> bool {
        true
    }

    open spec fn next_draw(&self, bound: usize) -> usize {
        (self.state as usize) % bound
    }

    open spec fn after_draw(&self, bound: usize) -> Self {
        LFSR128 { state: lfsr128_step(self.state) }
    }

    fn below(&mut self, bound: usize) -> (r: usize) {
        self.next_usize() % bound
    }

    /// Each sixteen bytes of `dest` are the bytes of one state of the
    /// register, the lowest first; the register makes one step for each
    /// sixteen bytes that it began.
    fn fill_bytes(&mut self, dest: &mut Vec<u8>)
        ensures
            forall|i: int|
                0 <= i < final(dest).len() ==> #[trigger] final(dest)@[i] == byte_of(
                    lfsr128_after(old(self).state, (i / 16) as nat),
                    (i % 16) as u128,
                ),
            final(self).state == lfsr128_after(
                old(self).state,
                ((old(dest).len() + 15) / 16) as nat,
            ),
    {
        let mut index: usize = 0;
        let mut groups: usize = 0;
        while index < dest.len()
            invariant
                index <= dest.len(),
                dest.len() == old(dest).len(),
                index == dest.len() || index == 16 * groups,
                groups == (index + 15) / 16,
                self.state == lfsr128_after(old(self).state, groups as nat),
                forall|i: int|
                    0 <= i < index ==> #[trigger] dest@[i] == byte_of(
                        lfsr128_after(old(self).state, (i / 16) as nat),
                        (i % 16) as u128,
                    ),
            decreases dest.len() - index,
        {
            let bytes = get_u8_array_from_u128(self.state);
            let ghost state = self.state;
            self.next();
            let start = index;
            let mut k: usize = 0;
            while k < 16 && index < dest.len()
                invariant
                    k <= 16,
                    index <= dest.len(),
                    dest.len() == old(dest).len(),
                    start < dest.len(),
                    start == 16 * groups,
                    index == start + k,
                    state == lfsr128_after(old(self).state, groups as nat),
                    forall|j: int| 0 <= j < 16 ==> #[trigger] bytes@[j] == byte_of(state, j as u128),
                    forall|i: int|
                        0 <= i < index ==> #[trigger] dest@[i] == byte_of(
                            lfsr128_after(old(self).state, (i / 16) as nat),
                            (i % 16) as u128,
                        ),
                decreases 16 - k,
            {
                dest[index] = bytes[k];
                proof {
                    assert(index as int / 16 == groups as int && index as int % 16 == k as int);
                    assert(bytes@[k as int] == byte_of(state, k as u128));
                }
                index += 1;
                k += 1;
            }
            groups += 1;
        }
    }

    /// Each place from the last down is exchanged with the place not
    /// behind it that the state of the register gives; the register makes
    /// one step for each place but the first.
    fn shuffle(&mut self, list: &mut Vec<usize>)
        ensures
            final(list)@ == register_shuffled(old(list)@, old(self).state, old(list).len() as int),
            final(self).state == lfsr128_after(
                old(self).state,
                if old(list).len() > 0 {
                    (old(list).len() - 1) as nat
                } else {
                    0
                },
            ),
    {
        let mut i: usize = list.len();
        proof {
            reveal_with_fuel(lfsr128_after, 1);
        }
        while i > 1
            invariant
                i <= list.len(),
                list.len() == old(list).len(),
                list@.to_multiset() == old(list)@.to_multiset(),
                register_shuffled(old(list)@, old(self).state, old(list).len() as int)
                    == register_shuffled(list@, self.state, i as int),
                list.len() > 0 ==> i >= 1,
                self.state == lfsr128_after(old(self).state, (list.len() - i) as nat),
            decreases i,
        {
            let ghost state = self.state;
            let j = self.next_usize() % i;
            let ghost before = list@;
            let x = list[i - 1];
            let y = list[j];
            list[i - 1] = y;
            list[j] = x;
            proof {
                assert(list@ =~= switched(before, true, i - 1, j as int));
                lemma_switched_keeps_items(before, true, i - 1, j as int);
                reveal_with_fuel(lfsr128_after, 2);
            }
            i -= 1;
        }
    }

    /// The child begins in the state of the register, which then makes
    /// one step.
    fn fork(&mut self) -> (child: Self)
        ensures
            child.state == old(self).state,
            final(self).state == lfsr128_step(old(self).state),
    {
        let state = self.state;
        self.next();
        LFSR128::new(state)
    }
}

} // verus!

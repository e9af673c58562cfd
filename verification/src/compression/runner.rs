//! A runner that rearranges the gates of a circuit, part by part, without
//! changing what the circuit computes.
use super::subgraph::{
    dependency_data, enumerate_subgraphs, permute_around_subgraph, shuffle_gates_pairwise,
    shuffled_pairwise,
};
use crate::circuit::circuit::{gates_fit, Circuit, Gate};
use crate::circuit::semantics::{
    equivalent, lemma_equivalent_is_equivalence, lemma_equivalent_splice, lemma_fit_parts,
};
use crate::local_mixing::job::{lemma_splice_replacement, splice_gates};
use crate::local_mixing::permute::{lemma_permuted_equivalent, lemma_permuted_shape};
use crate::local_mixing::search::is_convex;
use crate::random::RandomSource;
use vstd::prelude::*;
use vstd::slice::slice_subrange;

verus! {

/// How many gates a part has that is rearranged on its own.
pub const CHUNK_SIZE: usize = 64;

/// How many gates are moved together into one block.
pub const SUBSET_SIZE: usize = 10;

/// How many gates of such a block a compression would look at.
pub const SLICE_SIZE: usize = 5;

/// How often the gates are passed over for exchanges of neighbours.
pub const SHUFFLE_PASSES: usize = 20;

/// The part of `gates` that begins at `start` and has `size` gates, or
/// those that are left.
pub open spec fn part_from(gates: Seq<Gate>, start: int, size: int) -> Seq<Gate> {
    gates.subrange(
        start,
        if start + size < gates.len() {
            start + size
        } else {
            gates.len() as int
        },
    )
}

/// `after` has as many gates as `before`, and each part of `size` gates
/// of it computes what that part of `before` computes.
pub open spec fn agree_in_parts(before: Seq<Gate>, after: Seq<Gate>, size: int, num_wires: int) -> bool {
    &&& before.len() == after.len()
    &&& forall|start: int|
        0 <= start < before.len() && start % size == 0 ==> equivalent(
            #[trigger] part_from(before, start, size),
            part_from(after, start, size),
            num_wires,
        )
}

/// The gates that one worker rearranges.
pub struct StrategyOneRunner {
    pub id: usize,
    pub gates: Vec<Gate>,
    pub num_wires: usize,
}

impl StrategyOneRunner {
    /// The gates fit the wires.
    pub open spec fn wf(&self) -> bool {
        gates_fit(self.gates@, self.num_wires as int)
    }

    pub fn init(worker_id: usize, gates: Vec<Gate>, num_wires: usize) -> (runner: Self)
        ensures
            runner.id == worker_id,
            runner.gates == gates,
            runner.num_wires == num_wires,
    {
        Self { id: worker_id, gates, num_wires }
    }

    /// Exchanges neighbours at random, in `SHUFFLE_PASSES` passes, and
    /// then, in each part of `CHUNK_SIZE` gates, moves a set of gates that
    /// hang together into one block.  The gates compute what they did, and
    /// each part computes what it did after the passes; all draws are made
    /// in the passes.
    pub fn run<R: RandomSource>(&mut self, rng: &mut R)
        requires
            old(self).wf(),
        ensures
            final(self).wf(),
            final(self).id == old(self).id,
            final(self).num_wires == old(self).num_wires,
            final(self).gates.len() == old(self).gates.len(),
            equivalent(old(self).gates@, final(self).gates@, old(self).num_wires as int),
            final(rng).replayable() == old(rng).replayable(),
            old(rng).replayable() ==> {
                let passed = shuffled_pairwise(old(self).gates@, SHUFFLE_PASSES as nat, *old(rng));
                &&& *final(rng) == passed.1
                &&& agree_in_parts(
                    passed.0,
                    final(self).gates@,
                    CHUNK_SIZE as int,
                    old(self).num_wires as int,
                )
            },
    {
        let ghost before = self.gates@;
        let num_wires = self.num_wires;
        shuffle_gates_pairwise(&mut self.gates, SHUFFLE_PASSES, num_wires, rng);
        let ghost shuffled = self.gates@;
        let mut optimized: Vec<Gate> = Vec::new();
        let mut k: usize = 0;
        proof {
            assert(optimized@ + shuffled.skip(0) =~= shuffled);
            lemma_equivalent_is_equivalence(shuffled, shuffled, shuffled, num_wires as int);
        }
        while k < self.gates.len()
            invariant
                k <= self.gates.len(),
                self.gates@ == shuffled,
                self.num_wires == num_wires,
                self.id == old(self).id,
                gates_fit(shuffled, num_wires as int),
                gates_fit(optimized@, num_wires as int),
                optimized.len() == k,
                equivalent(shuffled, optimized@ + shuffled.skip(k as int), num_wires as int),
                k % CHUNK_SIZE == 0 || k == self.gates.len(),
                forall|start: int|
                    0 <= start < k && start % (CHUNK_SIZE as int) == 0 ==> equivalent(
                        #[trigger] part_from(shuffled, start, CHUNK_SIZE as int),
                        optimized@.subrange(
                            start,
                            if start + CHUNK_SIZE < shuffled.len() {
                                start + CHUNK_SIZE
                            } else {
                                shuffled.len() as int
                            },
                        ),
                        num_wires as int,
                    ),
            decreases self.gates.len() - k,
        {
            let end = if self.gates.len() - k > CHUNK_SIZE {
                k + CHUNK_SIZE
            } else {
                self.gates.len()
            };
            let chunk = slice_subrange(self.gates.as_slice(), k, end);
            let ghost part = shuffled.subrange(k as int, end as int);
            let ghost rest = shuffled.skip(end as int);
            let ghost done = optimized@;
            proof {
                assert(shuffled.skip(k as int) =~= part + rest);
                lemma_fit_parts(shuffled.take(k as int), shuffled.skip(k as int), num_wires as int);
                assert(shuffled.take(k as int) + shuffled.skip(k as int) =~= shuffled);
                lemma_fit_parts(part, rest, num_wires as int);
            }
            let mut better = self.optimize_subset(SUBSET_SIZE, SLICE_SIZE, chunk);
            proof {
                lemma_equivalent_splice(done, part, better@, rest, num_wires as int);
                assert(done + shuffled.skip(k as int) =~= done + part + rest);
                lemma_equivalent_is_equivalence(
                    shuffled,
                    done + part + rest,
                    done + better@ + rest,
                    num_wires as int,
                );
                lemma_fit_parts(done, better@, num_wires as int);
            }
            let ghost better_gates = better@;
            optimized.append(&mut better);
            proof {
                assert forall|start: int|
                    0 <= start < end && start % (CHUNK_SIZE as int) == 0 implies equivalent(
                    #[trigger] part_from(shuffled, start, CHUNK_SIZE as int),
                    optimized@.subrange(
                        start,
                        if start + CHUNK_SIZE < shuffled.len() {
                            start + CHUNK_SIZE
                        } else {
                            shuffled.len() as int
                        },
                    ),
                    num_wires as int,
                ) by {
                    let stop = if start + CHUNK_SIZE < shuffled.len() {
                        start + CHUNK_SIZE
                    } else {
                        shuffled.len() as int
                    };
                    if start < k {
                        assert(stop <= k);
                        assert(optimized@.subrange(start, stop) =~= done.subrange(start, stop));
                    } else {
                        assert(start == k);
                        assert(stop == end);
                        assert(part_from(shuffled, start, CHUNK_SIZE as int) =~= part);
                        assert(optimized@.subrange(start, stop) =~= better_gates);
                    }
                }
            }
            k = end;
        }
        proof {
            assert(optimized@ + shuffled.skip(k as int) =~= optimized@);
            lemma_equivalent_is_equivalence(before, shuffled, optimized@, num_wires as int);
            assert forall|start: int|
                0 <= start < shuffled.len() && start % (CHUNK_SIZE as int) == 0 implies equivalent(
                #[trigger] part_from(shuffled, start, CHUNK_SIZE as int),
                part_from(optimized@, start, CHUNK_SIZE as int),
                num_wires as int,
            ) by {
            }
            assert(agree_in_parts(shuffled, optimized@, CHUNK_SIZE as int, num_wires as int));
        }
        self.gates = optimized;
    }

    /// Moves a set of `subset_size` gates of `gates` that hang together
    /// into one block, if there is such a set and it is convex.  The gates
    /// compute what they did.
    pub fn optimize_subset(&self, subset_size: usize, slice_size: usize, gates: &[Gate]) -> (out:
        Vec<Gate>)
        requires
            gates_fit(gates@, self.num_wires as int),
        ensures
            out.len() == gates.len(),
            gates_fit(out@, self.num_wires as int),
            equivalent(gates@, out@, self.num_wires as int),
    {
        proof {
            lemma_equivalent_is_equivalence(gates@, gates@, gates@, self.num_wires as int);
        }
        let dependency_data = dependency_data(gates);
        let mut as_they_are: Vec<Gate> = Vec::new();
        let mut i: usize = 0;
        while i < gates.len()
            invariant
                i <= gates.len(),
                as_they_are@ == gates@.take(i as int),
            decreases gates.len() - i,
        {
            as_they_are.push(gates[i]);
            proof {
                assert(gates@.take(i + 1) == gates@.take(i as int).push(gates@[i as int]));
            }
            i += 1;
        }
        proof {
            assert(gates@.take(gates.len() as int) == gates@);
        }
        match enumerate_subgraphs(gates, &dependency_data, subset_size, slice_size) {
            None => as_they_are,
            Some((selected_idx, replacement)) => {
                let circuit = Circuit { num_wires: self.num_wires, gates: as_they_are };
                if !is_convex(&circuit, &selected_idx) {
                    return circuit.gates;
                }
                let (modified_gates, start_idx) = permute_around_subgraph(
                    gates,
                    &selected_idx,
                    &dependency_data,
                );
                proof {
                    lemma_permuted_equivalent(gates@, selected_idx@, self.num_wires as int);
                    lemma_permuted_shape(gates@, selected_idx@, self.num_wires as int);
                    lemma_equivalent_is_equivalence(
                        replacement@,
                        replacement@,
                        replacement@,
                        self.num_wires as int,
                    );
                    assert forall|j: int| 0 <= j < replacement.len() implies (
                    #[trigger] replacement[j]).fits(self.num_wires as int) by {
                        assert(replacement[j] == gates@[selected_idx[j] as int]);
                    }
                    lemma_splice_replacement(
                        modified_gates@,
                        start_idx as int,
                        selected_idx.len() as int,
                        replacement@,
                        self.num_wires as int,
                    );
                }
                let out = splice_gates(
                    &modified_gates,
                    start_idx,
                    selected_idx.len(),
                    &replacement,
                );
                proof {
                    lemma_equivalent_is_equivalence(
                        gates@,
                        modified_gates@,
                        out@,
                        self.num_wires as int,
                    );
                }
                out
            },
        }
    }
}

} // verus!

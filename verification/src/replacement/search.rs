//! The search for a candidate block with a given truth table.
use super::connectivity::{prefix_is_weakly_connected, weakly_connected};
use super::equivalence::lemma_active_wires_covered;
use super::sample::{
    covers_active, has_control, has_target, sample_random_circuit, sample_random_circuit_unguided,
    sampled_block, sampled_guided, sampled_unguided,
};
use super::signal::StopSignal;
use super::strategy::{ControlFnChoice, ReplacementStrategy};
use crate::circuit::analysis::{control_active, eval_bits, run_bits, target_active, MAX_TABLE_WIRES};
use crate::circuit::circuit::{gates_fit, Gate};
use crate::random::RandomSource;
use vstd::arithmetic::power2::pow2;
use vstd::prelude::*;

verus! {

/// What a search looks for: a block of `n_in` gates over as many local wires
/// as there are flags, with the truth table `table`.
pub struct SearchTask {
    /// The truth table that the block must have.
    pub table: Vec<u32>,
    /// The local wires that the table changes.
    pub active_target: Vec<bool>,
    /// The local wires on which the table's changes depend.
    pub active_control: Vec<bool>,
    /// The number of gates of the block.
    pub n_in: usize,
    pub strategy: ReplacementStrategy,
    pub cf_choice: ControlFnChoice,
}

impl SearchTask {
    /// The number of local wires.
    pub open spec fn n_proj_wires(&self) -> int {
        self.active_target.len() as int
    }

    /// The task is one that a search can work on.
    pub open spec fn wf(&self) -> bool {
        &&& 3 <= self.active_target.len() <= MAX_TABLE_WIRES
        &&& self.active_control.len() == self.active_target.len()
        &&& self.table.len() == pow2(self.active_target.len() as nat)
        &&& 1 <= self.n_in <= usize::MAX / 3
        &&& self.strategy != ReplacementStrategy::Dummy
        &&& self.flags_sound()
    }

    /// The table depends on every wire that is flagged.
    pub open spec fn flags_sound(&self) -> bool {
        &&& forall|w: int|
            0 <= w < self.active_target.len() && #[trigger] self.active_target[w] ==> target_active(
                self.table@,
                w as usize,
            )
        &&& forall|w: int|
            0 <= w < self.active_control.len() && #[trigger] self.active_control[w]
                ==> control_active(self.table@, w as usize)
    }
}

/// `gates` maps every input of `table` to its entry.
pub open spec fn matches_table(gates: Seq<Gate>, table: Seq<u32>) -> bool {
    forall|i: int| 0 <= i < table.len() ==> run_bits(gates, i as u32) == #[trigger] table[i]
}

/// A candidate is accepted when it has the table and is weakly connected.
pub open spec fn accepted(candidate: Seq<Gate>, table: Seq<u32>) -> bool {
    &&& matches_table(candidate, table)
    &&& weakly_connected(candidate)
}

/// Whether `candidate` maps every input of `table` to its entry.
pub fn agrees_with_table(candidate: &Vec<Gate>, table: &Vec<u32>) -> (r: bool)
    requires
        gates_fit(candidate@, 32),
        table.len() <= u32::MAX,
    ensures
        r == matches_table(candidate@, table@),
{
    let mut i: usize = 0;
    while i < table.len()
        invariant
            i <= table.len() <= u32::MAX,
            gates_fit(candidate@, 32),
            forall|k: int| 0 <= k < i ==> run_bits(candidate@, k as u32) == #[trigger] table[k],
        decreases table.len() - i,
    {
        if eval_bits(candidate, i as u32) != table[i] {
            return false;
        }
        i += 1;
    }
    true
}

/// Whether `candidate` is accepted for `table`.
pub fn examine_candidate(candidate: &Vec<Gate>, table: &Vec<u32>) -> (r: bool)
    requires
        candidate.len() >= 1,
        gates_fit(candidate@, 32),
        table.len() <= u32::MAX,
    ensures
        r == accepted(candidate@, table@),
{
    if !agrees_with_table(candidate, table) {
        return false;
    }
    proof {
        assert(candidate@.take(candidate.len() as int) == candidate@);
    }
    prefix_is_weakly_connected(candidate.as_slice(), candidate.len())
}

/// A gate with all fields zero.
pub open spec fn blank_gate() -> Gate {
    Gate { wires: [0, 0, 0], control_func: 0, generation: 0 }
}

/// `n` gates with all fields zero.
pub open spec fn blank(n: nat) -> Seq<Gate> {
    Seq::new(n, |i: int| blank_gate())
}

/// `n` gates with all fields zero.
pub fn blank_block(n: usize) -> (block: Vec<Gate>)
    ensures
        block@ == blank(n as nat),
        block.len() == n,
        forall|g: int| 0 <= g < n ==> (#[trigger] block[g]).generation == 0,
        forall|g: int| 0 <= g < n ==> (#[trigger] block[g]).control_func == 0,
        forall|g: int, k: int| 0 <= g < n && 0 <= k < 3 ==> #[trigger] block[g].wires[k] == 0,
{
    let mut block: Vec<Gate> = Vec::new();
    let mut g: usize = 0;
    while g < n
        invariant
            g <= n,
            block.len() == g,
            forall|k: int| 0 <= k < g ==> #[trigger] block[k] == blank_gate(),
        decreases n - g,
    {
        block.push(Gate { wires: [0, 0, 0], control_func: 0, generation: 0 });
        g += 1;
    }
    proof {
        assert(block@ =~= blank(n as nat));
    }
    block
}

/// What a search may return for `task` within `max_iterations` samples:
/// nothing, or an accepted block of sampled gates with the number of the
/// sample that gave it.
pub open spec fn search_outcome(
    task: &SearchTask,
    max_iterations: usize,
    res: Option<(Vec<Gate>, usize)>,
) -> bool {
    &&& max_iterations == 0 ==> res is None
    &&& res matches Some(found) ==> {
        &&& found.0.len() == task.n_in
        &&& sampled_block(found.0@, task.n_proj_wires(), task.cf_choice)
        &&& accepted(found.0@, task.table@)
        &&& covers_active(found.0@, task.active_target@, task.active_control@)
        &&& forall|g: int| 0 <= g < found.0.len() ==> (#[trigger] found.0[g]).generation == 0
        &&& 1 <= found.1 <= max_iterations
    }
}

/// What `sample_candidate` gives and makes of a candidate with a
/// replayable source, and the source after it.
pub open spec fn sampled<R: RandomSource>(task: &SearchTask, candidate: Seq<Gate>, rng: R) -> (
    bool,
    Seq<Gate>,
    R,
) {
    if task.strategy == ReplacementStrategy::SampleUnguided {
        let made = sampled_unguided(
            candidate,
            task.active_target.len() as usize,
            task.cf_choice,
            rng,
        );
        (true, made.0, made.1)
    } else {
        sampled_guided(candidate, task.active_target@, task.active_control@, task.cf_choice, rng)
    }
}

/// What a search that nothing stops finds with a replayable source from
/// sample `iter` on, and the source after it: the first candidate that is
/// accepted, with the number of its sample.
pub open spec fn searched_from<R: RandomSource>(
    task: &SearchTask,
    candidate: Seq<Gate>,
    rng: R,
    iter: nat,
    max_iterations: nat,
) -> (Option<(Seq<Gate>, usize)>, R)
    decreases max_iterations - iter,
{
    if iter >= max_iterations {
        (None, rng)
    } else {
        let sample = sampled(task, candidate, rng);
        if sample.0 && accepted(sample.1, task.table@) {
            (Some((sample.1, (iter + 1) as usize)), sample.2)
        } else {
            searched_from(task, sample.1, sample.2, iter + 1, max_iterations)
        }
    }
}

/// What a search that nothing stops finds with a replayable source, and
/// the source after it.  The search first draws the number of samples
/// after which it looks at the signal.
pub open spec fn searched<R: RandomSource>(task: &SearchTask, max_iterations: usize, rng: R) -> (
    Option<(Seq<Gate>, usize)>,
    R,
) {
    searched_from(task, blank(task.n_in as nat), rng.after_draw(10), 0, max_iterations as nat)
}

/// The gates and the number that a search has returned.
pub open spec fn found_view(res: Option<(Vec<Gate>, usize)>) -> Option<(Seq<Gate>, usize)> {
    match res {
        Some(found) => Some((found.0@, found.1)),
        None => None,
    }
}

/// One sample for `task`, written to `candidate`; whether it could be made.
pub fn sample_candidate<R: RandomSource>(
    task: &SearchTask,
    candidate: &mut Vec<Gate>,
    rng: &mut R,
) -> (made: bool)
    requires
        task.wf(),
        old(candidate).len() == task.n_in,
    ensures
        final(candidate).len() == task.n_in,
        made ==> sampled_block(final(candidate)@, task.n_proj_wires(), task.cf_choice),
        made && task.strategy == ReplacementStrategy::SampleActive0 ==> covers_active(
            final(candidate)@,
            task.active_target@,
            task.active_control@,
        ),
        task.strategy == ReplacementStrategy::SampleUnguided ==> made,
        forall|g: int|
            0 <= g < task.n_in ==> (#[trigger] final(candidate)[g]).generation == old(
                candidate,
            )[g].generation,
        final(rng).replayable() == old(rng).replayable(),
        old(rng).replayable() ==> (made, final(candidate)@, *final(rng)) == sampled(
            task,
            old(candidate)@,
            *old(rng),
        ),
{
    match task.strategy {
        ReplacementStrategy::SampleUnguided => {
            sample_random_circuit_unguided(
                candidate,
                task.active_target.len(),
                task.cf_choice,
                rng,
            );
            true
        },
        _ => sample_random_circuit(
            candidate,
            &task.active_target,
            &task.active_control,
            task.cf_choice,
            rng,
        ),
    }
}

/// The search of one worker.  It looks at `stop`, if it is given one, every
/// ten to twenty samples, and gives up if the signal is raised.
fn search_loop<R: RandomSource>(
    task: &SearchTask,
    max_iterations: usize,
    stop: Option<&StopSignal>,
    rng: &mut R,
) -> (res: Option<(Vec<Gate>, usize)>)
    requires
        task.wf(),
    ensures
        search_outcome(task, max_iterations, res),
        final(rng).replayable() == old(rng).replayable(),
        old(rng).replayable() && (res is Some || stop is None) ==> (found_view(res), *final(rng))
            == searched(task, max_iterations, *old(rng)),
{
    let epoch_size = 10 + rng.below(10);
    let mut candidate = blank_block(task.n_in);
    let mut iter: usize = 0;
    while iter < max_iterations
        invariant
            task.wf(),
            iter <= max_iterations,
            10 <= epoch_size < 20,
            candidate.len() == task.n_in,
            forall|g: int| 0 <= g < task.n_in ==> (#[trigger] candidate[g]).generation == 0,
            rng.replayable() == old(rng).replayable(),
            old(rng).replayable() ==> searched(task, max_iterations, *old(rng)) == searched_from(
                task,
                candidate@,
                *rng,
                iter as nat,
                max_iterations as nat,
            ),
        decreases max_iterations - iter,
    {
        match stop {
            Some(signal) => {
                if (iter + 1) % epoch_size == 0 && signal.is_raised() {
                    return None;
                }
            },
            None => {},
        }
        iter += 1;
        if sample_candidate(task, &mut candidate, rng) {
            proof {
                task.cf_choice.lemma_codes();
                vstd::bits::lemma_u32_pow2_no_overflow(task.active_target.len() as nat);
                assert forall|g: int| 0 <= g < candidate.len() implies (#[trigger] candidate[g]).fits(
                    32,
                ) by {
                    let cf = candidate[g].control_func;
                    let k = choose|k: int|
                        0 <= k < task.cf_choice.codes().len() && task.cf_choice.codes()[k] == cf;
                }
            }
            if examine_candidate(&candidate, &task.table) {
                proof {
                    lemma_accepted_covers_active(task, candidate@);
                }
                match stop {
                    Some(signal) => {
                        signal.raise();
                    },
                    None => {},
                }
                return Some((candidate, iter));
            }
        }
    }
    None
}

/// Samples up to `max_iterations` candidates for `task` and returns the
/// first that is accepted, with the number of samples taken.  Every ten to
/// twenty samples the worker looks at `stop` and gives up if it is raised;
/// it raises `stop` when it has found a block.
///
/// What the worker finds with a replayable source is what a search finds
/// that nothing stops.
pub fn search_worker<R: RandomSource>(
    task: &SearchTask,
    max_iterations: usize,
    stop: &StopSignal,
    rng: &mut R,
) -> (res: Option<(Vec<Gate>, usize)>)
    requires
        task.wf(),
    ensures
        search_outcome(task, max_iterations, res),
        final(rng).replayable() == old(rng).replayable(),
        old(rng).replayable() && res is Some ==> (found_view(res), *final(rng)) == searched(
            task,
            max_iterations,
            *old(rng),
        ),
{
    search_loop(task, max_iterations, Some(stop), rng)
}

/// The search of one worker on its own: samples up to `max_iterations`
/// candidates for `task` and returns the first that is accepted, with the
/// number of samples taken.
///
/// With a replayable source the search is replayable: what it returns, and
/// the source as it leaves it, are determined by the task, the number of
/// samples and the source as it was handed over.
pub fn search_alone<R: RandomSource>(task: &SearchTask, max_iterations: usize, rng: &mut R) -> (res:
    Option<(Vec<Gate>, usize)>)
    requires
        task.wf(),
    ensures
        search_outcome(task, max_iterations, res),
        final(rng).replayable() == old(rng).replayable(),
        old(rng).replayable() ==> (found_view(res), *final(rng)) == searched(
            task,
            max_iterations,
            *old(rng),
        ),
{
    search_loop(task, max_iterations, None, rng)
}

/// A block with the table of a task has every flagged wire in its place:
/// a wire flagged as target is the target of a gate, and a wire flagged as
/// control is a control of a gate, however the block was found.
pub proof fn lemma_accepted_covers_active(task: &SearchTask, candidate: Seq<Gate>)
    requires
        task.wf(),
        gates_fit(candidate, 32),
        matches_table(candidate, task.table@),
    ensures
        covers_active(candidate, task.active_target@, task.active_control@),
{
    assert forall|w: usize|
        w < task.active_target.len() && #[trigger] task.active_target[w as int] implies has_target(
        candidate,
        w,
    ) by {
        lemma_active_wires_covered(candidate, task.table@, task.active_target.len() as nat, w);
    }
    assert forall|w: usize|
        w < task.active_control.len() && #[trigger] task.active_control[w as int] implies has_control(
        candidate,
        w,
    ) by {
        lemma_active_wires_covered(candidate, task.table@, task.active_target.len() as nat, w);
    }
}

} // verus!

//! The mixing job and its steps.
use super::config::LocalMixingConfig;
use super::consts::{MAX_SEARCH_RESTARTS, N_IN, N_OUT_INF, N_OUT_KND, N_PROJ_WIRES};
use super::convex::{convex, is_chain, is_selection};
use super::permute::{block_start, chosen, permuted};
use super::search::{find_convex_gate_ids, permute_circuit};
use super::tracer::{ReplacementTraceFields, Stage};
use crate::circuit::circuit::{gates_fit, Circuit, Gate};
use crate::circuit::semantics::{
    equivalent, lemma_equivalent_is_equivalence, lemma_equivalent_splice, lemma_fit_parts,
};
use crate::random::RandomSource;
use crate::compression::ct::CompressionTable;
use crate::replacement::find::{find_replacement_circuit, is_replacement};
use crate::replacement::replace_ct::{all_distinct, find_replacement};
use crate::replacement::search::{blank, blank_block};
use crate::replacement::strategy::{ControlFnChoice, ReplacementStrategy};
use vstd::prelude::*;

verus! {

/// Why a step did not replace a block.
#[derive(Clone, Copy, Debug, PartialEq, Eq, Structural)]
pub enum StepError {
    /// No convex chain of gates was found.
    SearchExhausted,
    /// No candidate was accepted within the number of samples allowed.
    ReplacementNotFound,
}

/// Where a job stands.
#[derive(Clone, Copy, Debug, PartialEq, Eq, Structural)]
pub enum JobState {
    /// The circuit is being grown.
    Inflationary { step: usize, steps_target: usize },
    /// The circuit is being mixed at its size.
    Kneading { step: usize, steps_target: usize },
    /// Both stages are through.
    Done,
    /// Too many steps in a row have failed.
    Failed,
}

/// A circuit that is being mixed, with the bounds of the work and the
/// steps done.
#[derive(Debug)]
pub struct LocalMixingJob {
    /// Number of wires in circuit
    pub wires: usize,
    /// Number of inflationary steps
    pub inflationary_stage_steps: usize,
    /// Number of kneading steps
    pub kneading_stage_steps: usize,
    /// Max number of attempts to sample func equiv circuit
    pub max_replacement_samples: usize,
    /// Max number of failed replacements before quitting
    pub max_attempts_without_success: usize,
    /// Whether to save to file, logs
    pub save: bool,
    pub replacement_strategy: ReplacementStrategy,
    /// Control function choice in replacement
    pub cf_choice: ControlFnChoice,
    /// Whether job is in-progress on loading, determines source for circuit
    pub in_progress: bool,
    /// How often circuit is saved to file
    pub epoch_size: usize,
    /// Current inflationary step
    pub curr_inflationary_step: usize,
    /// Current kneading step
    pub curr_kneading_step: usize,
    /// Number of steps that have failed since the last one that succeeded
    pub consecutive_failures: usize,
    /// Current circuit
    pub circuit: Circuit,
    /// What the last successful step found
    pub last_replacement: Option<ReplacementTraceFields>,
    /// In the last successful step, the distance from the first selected
    /// gate to the farthest candidate for the last
    pub last_candidate_dist: usize,
}

/// The block of the gates of `circuit` at the places `sel`.
fn selected_gates(circuit: &Circuit, sel: &Vec<usize>) -> (block: Vec<Gate>)
    requires
        is_selection(sel@, circuit.gates.len() as int),
    ensures
        block@ == chosen(circuit.gates@, sel@),
{
    let mut block: Vec<Gate> = Vec::new();
    let mut k: usize = 0;
    while k < sel.len()
        invariant
            k <= sel.len(),
            is_selection(sel@, circuit.gates.len() as int),
            block@ == chosen(circuit.gates@, sel@).take(k as int),
        decreases sel.len() - k,
    {
        block.push(circuit.gates[sel[k]]);
        proof {
            assert(chosen(circuit.gates@, sel@).take(k + 1) == chosen(circuit.gates@, sel@).take(
                k as int,
            ).push(circuit.gates@[sel[k as int] as int]));
        }
        k += 1;
    }
    proof {
        assert(chosen(circuit.gates@, sel@).take(k as int) == chosen(circuit.gates@, sel@));
    }
    block
}

/// `gates` with the `count` gates from `start` on replaced by `block`.
pub open spec fn spliced(gates: Seq<Gate>, start: int, count: int, block: Seq<Gate>) -> Seq<Gate> {
    gates.take(start) + block + gates.skip(start + count)
}

/// Replaces the `count` gates of `gates` from `start` on by `block`.
pub fn splice_gates(gates: &Vec<Gate>, start: usize, count: usize, block: &Vec<Gate>) -> (out: Vec<
    Gate,
>)
    requires
        start + count <= gates.len(),
    ensures
        out@ == spliced(gates@, start as int, count as int, block@),
{
    let mut out: Vec<Gate> = Vec::new();
    let mut k: usize = 0;
    while k < start
        invariant
            k <= start,
            start + count <= gates.len(),
            out@ == gates@.take(k as int),
        decreases start - k,
    {
        out.push(gates[k]);
        proof {
            assert(gates@.take(k + 1) == gates@.take(k as int).push(gates@[k as int]));
        }
        k += 1;
    }
    let mut k: usize = 0;
    while k < block.len()
        invariant
            k <= block.len(),
            out@ == gates@.take(start as int) + block@.take(k as int),
        decreases block.len() - k,
    {
        out.push(block[k]);
        proof {
            assert(block@.take(k + 1) == block@.take(k as int).push(block@[k as int]));
        }
        k += 1;
    }
    proof {
        assert(block@.take(block.len() as int) == block@);
    }
    let from = start + count;
    let mut k: usize = from;
    while k < gates.len()
        invariant
            from <= k <= gates.len(),
            out@ == gates@.take(start as int) + block@ + gates@.subrange(from as int, k as int),
        decreases gates.len() - k,
    {
        out.push(gates[k]);
        proof {
            assert(gates@.subrange(from as int, k + 1) == gates@.subrange(from as int, k as int).push(
                gates@[k as int],
            ));
        }
        k += 1;
    }
    proof {
        assert(gates@.subrange(from as int, gates.len() as int) == gates@.skip(from as int));
    }
    out
}

/// A block in a circuit may be replaced by a block with its function: the
/// circuit keeps its function, and its gates fit as before.
pub proof fn lemma_splice_replacement(
    gates: Seq<Gate>,
    start: int,
    count: int,
    block: Seq<Gate>,
    num_wires: int,
)
    requires
        0 <= start,
        0 <= count,
        start + count <= gates.len(),
        gates_fit(gates, num_wires),
        gates_fit(block, num_wires),
        equivalent(gates.subrange(start, start + count), block, num_wires),
    ensures
        equivalent(gates, spliced(gates, start, count, block), num_wires),
        gates_fit(spliced(gates, start, count, block), num_wires),
        spliced(gates, start, count, block).len() == gates.len() - count + block.len(),
{
    let before = gates.take(start);
    let old_part = gates.subrange(start, start + count);
    let after = gates.skip(start + count);
    assert(gates =~= before + old_part + after);
    lemma_fit_parts(before + old_part, after, num_wires);
    lemma_fit_parts(before, old_part, num_wires);
    lemma_equivalent_splice(before, old_part, block, after, num_wires);
    lemma_fit_parts(before, block, num_wires);
    lemma_fit_parts(before + block, after, num_wires);
}

impl LocalMixingJob {
    /// The circuit is over the wires of the job and its gates fit them.
    pub open spec fn wf(&self) -> bool {
        &&& self.circuit.wf()
        &&& self.circuit.num_wires == self.wires
    }

    /// Where the job stands: it has failed once as many steps in a row have
    /// failed as it may try; else it is in the first stage that is not
    /// through.
    pub open spec fn spec_state(&self) -> JobState {
        if self.consecutive_failures > 0 && self.consecutive_failures
            >= self.max_attempts_without_success {
            JobState::Failed
        } else if self.curr_inflationary_step < self.inflationary_stage_steps {
            JobState::Inflationary {
                step: self.curr_inflationary_step,
                steps_target: self.inflationary_stage_steps,
            }
        } else if self.curr_kneading_step < self.kneading_stage_steps {
            JobState::Kneading {
                step: self.curr_kneading_step,
                steps_target: self.kneading_stage_steps,
            }
        } else {
            JobState::Done
        }
    }

    /// The bounds of the work are those of `other`.
    pub open spec fn same_bounds(&self, other: &Self) -> bool {
        &&& self.wires == other.wires
        &&& self.inflationary_stage_steps == other.inflationary_stage_steps
        &&& self.kneading_stage_steps == other.kneading_stage_steps
        &&& self.max_replacement_samples == other.max_replacement_samples
        &&& self.max_attempts_without_success == other.max_attempts_without_success
        &&& self.save == other.save
        &&& self.replacement_strategy == other.replacement_strategy
        &&& self.cf_choice == other.cf_choice
        &&& self.epoch_size == other.epoch_size
    }

    /// The steps done and the circuit are those of `other`.
    pub open spec fn same_progress(&self, other: &Self) -> bool {
        &&& self.curr_inflationary_step == other.curr_inflationary_step
        &&& self.curr_kneading_step == other.curr_kneading_step
        &&& self.consecutive_failures == other.consecutive_failures
        &&& self.circuit.gates@ == other.circuit.gates@
        &&& self.circuit.num_wires == other.circuit.num_wires
    }

    /// A job that has done no step yet.
    pub fn new(
        wires: usize,
        inflationary_stage_steps: usize,
        kneading_stage_steps: usize,
        max_replacement_samples: usize,
        max_attempts_without_success: usize,
        replacement_strategy: ReplacementStrategy,
        cf_choice: ControlFnChoice,
        circuit: Circuit,
    ) -> (job: Self)
        ensures
            job.wires == wires,
            job.inflationary_stage_steps == inflationary_stage_steps,
            job.kneading_stage_steps == kneading_stage_steps,
            job.max_replacement_samples == max_replacement_samples,
            job.max_attempts_without_success == max_attempts_without_success,
            job.replacement_strategy == replacement_strategy,
            job.cf_choice == cf_choice,
            job.circuit == circuit,
            !job.save,
            job.epoch_size == 0,
            !job.in_progress,
            job.curr_inflationary_step == 0,
            job.curr_kneading_step == 0,
            job.consecutive_failures == 0,
            job.last_replacement is None,
            job.last_candidate_dist == 0,
    {
        Self {
            wires,
            inflationary_stage_steps,
            kneading_stage_steps,
            max_replacement_samples,
            max_attempts_without_success,
            replacement_strategy,
            cf_choice,
            circuit,
            save: false,
            epoch_size: 0,
            in_progress: false,
            curr_inflationary_step: 0,
            curr_kneading_step: 0,
            consecutive_failures: 0,
            last_replacement: None,
            last_candidate_dist: 0,
        }
    }

    /// A job that has done no step yet, with the circuit and the bounds of
    /// `config`.
    pub fn from_config(config: LocalMixingConfig) -> (job: Self)
        ensures
            job.wires == config.num_wires,
            job.inflationary_stage_steps == config.num_inflationary_steps,
            job.kneading_stage_steps == config.num_kneading_steps,
            job.max_replacement_samples == config.num_replacement_attempts,
            job.max_attempts_without_success == config.max_attempts_without_success,
            job.replacement_strategy == config.replacement_strategy,
            job.cf_choice == config.cf_choice,
            job.circuit == config.original_circuit,
            job.save == config.save,
            job.epoch_size == config.epoch_size,
            !job.in_progress,
            job.curr_inflationary_step == 0,
            job.curr_kneading_step == 0,
            job.consecutive_failures == 0,
            job.last_replacement is None,
            job.last_candidate_dist == 0,
    {
        Self {
            wires: config.num_wires,
            inflationary_stage_steps: config.num_inflationary_steps,
            kneading_stage_steps: config.num_kneading_steps,
            max_replacement_samples: config.num_replacement_attempts,
            max_attempts_without_success: config.max_attempts_without_success,
            replacement_strategy: config.replacement_strategy,
            cf_choice: config.cf_choice,
            circuit: config.original_circuit,
            save: config.save,
            epoch_size: config.epoch_size,
            in_progress: false,
            curr_inflationary_step: 0,
            curr_kneading_step: 0,
            consecutive_failures: 0,
            last_replacement: None,
            last_candidate_dist: 0,
        }
    }

    /// Whether the circuit is over the wires of the job and its gates fit
    /// them.
    pub fn is_well_formed(&self) -> (r: bool)
        ensures
            r == self.wf(),
    {
        self.circuit.num_wires == self.wires && self.circuit.is_well_formed()
    }

    /// Whether inflationary steps are left to do.
    pub fn in_inflationary_stage(&self) -> (r: bool)
        ensures
            r == (self.curr_inflationary_step < self.inflationary_stage_steps),
    {
        self.curr_inflationary_step < self.inflationary_stage_steps
    }

    /// Whether kneading steps are left to do.
    pub fn in_kneading_stage(&self) -> (r: bool)
        ensures
            r == (self.curr_kneading_step < self.kneading_stage_steps),
    {
        self.curr_kneading_step < self.kneading_stage_steps
    }

    /// Where the job stands.
    pub fn state(&self) -> (s: JobState)
        ensures
            s == self.spec_state(),
    {
        if self.consecutive_failures > 0 && self.consecutive_failures
            >= self.max_attempts_without_success {
            JobState::Failed
        } else if self.in_inflationary_stage() {
            JobState::Inflationary {
                step: self.curr_inflationary_step,
                steps_target: self.inflationary_stage_steps,
            }
        } else if self.in_kneading_stage() {
            JobState::Kneading {
                step: self.curr_kneading_step,
                steps_target: self.kneading_stage_steps,
            }
        } else {
            JobState::Done
        }
    }

    /// Whether the job is to be saved after its `steps_done`-th successful
    /// step.
    pub fn due_for_save(&self, steps_done: usize) -> (r: bool)
        ensures
            r == (self.save && self.epoch_size > 0 && steps_done % self.epoch_size == 0),
    {
        self.save && self.epoch_size > 0 && steps_done % self.epoch_size == 0
    }

    /// One step on `n_out` gates: selects a convex chain of `n_out` gates,
    /// searches for a block of `N_IN` gates with its function, moves the
    /// chain into one block and puts the replacement in its place.
    ///
    /// A step that fails leaves the circuit as it is.  One that succeeds
    /// leaves a circuit that computes what it did, unless the strategy is
    /// the one that searches for nothing.
    pub fn step_on<R: RandomSource + Send>(&mut self, n_out: usize, rng: &mut R) -> (res: Result<
        (),
        StepError,
    >)
        requires
            old(self).wf(),
            n_out >= 1,
        ensures
            final(self).wf(),
            final(self).same_bounds(old(self)),
            final(self).curr_inflationary_step == old(self).curr_inflationary_step,
            final(self).curr_kneading_step == old(self).curr_kneading_step,
            final(self).consecutive_failures == old(self).consecutive_failures,
            res is Err ==> final(self).circuit.gates@ == old(self).circuit.gates@,
            res is Ok ==> final(self).circuit.gates.len() == old(self).circuit.gates.len() - n_out
                + N_IN,
            res is Ok && old(self).replacement_strategy != ReplacementStrategy::Dummy
                ==> equivalent(
                old(self).circuit.gates@,
                final(self).circuit.gates@,
                old(self).wires as int,
            ),
            old(self).circuit.gates.len() < n_out ==> res == Err::<(), StepError>(
                StepError::SearchExhausted,
            ),
            old(self).max_replacement_samples == 0 && old(self).replacement_strategy
                != ReplacementStrategy::Dummy ==> res is Err,
            res is Ok ==> final(self).stepped_from(old(self), n_out),
            res is Err ==> *final(self) == *old(self),
    {
        if self.circuit.gates.len() < n_out {
            return Err(StepError::SearchExhausted);
        }
        let (selected_gate_idx, max_candidate_dist) = match find_convex_gate_ids(
            &self.circuit,
            n_out,
            MAX_SEARCH_RESTARTS,
            rng,
        ) {
            Some(found) => found,
            None => {
                return Err(StepError::SearchExhausted);
            },
        };
        let block = selected_gates(&self.circuit, &selected_gate_idx);
        let ghost old_gates = self.circuit.gates@;
        proof {
            assert forall|i: int| 0 <= i < block.len() implies (#[trigger] block[i]).fits(
                self.wires as int,
            ) by {
                assert(block[i] == old_gates[selected_gate_idx[i] as int]);
            }
            assert(old_gates[0].fits(self.wires as int));
        }
        let replacement_res = if self.replacement_strategy == ReplacementStrategy::Dummy {
            Some((blank_block(N_IN), ReplacementTraceFields::default()))
        } else {
            find_replacement_circuit(
                &block,
                self.wires,
                N_IN,
                N_PROJ_WIRES,
                self.max_replacement_samples,
                self.replacement_strategy,
                self.cf_choice,
                rng,
            )
        };
        match replacement_res {
            None => Err(StepError::ReplacementNotFound),
            Some((c_in, fields)) => {
                proof {
                    if self.replacement_strategy == ReplacementStrategy::Dummy {
                        assert forall|i: int| 0 <= i < c_in.len() implies (#[trigger] c_in[i]).fits(
                            self.wires as int,
                        ) by {
                            assert(c_in[i].wires[0] == 0);
                            assert(c_in[i].wires[1] == 0);
                            assert(c_in[i].wires[2] == 0);
                        }
                    }
                }
                let ghost block_in = c_in@;
                self.install(
                    &selected_gate_idx,
                    c_in,
                    fields,
                    max_candidate_dist,
                    Ghost(self.replacement_strategy != ReplacementStrategy::Dummy),
                );
                proof {
                    assert(self.replaced(old(self), n_out, selected_gate_idx@, block_in));
                }
                Ok(())
            },
        }
    }

    /// Moves the selected gates into one block and puts `c_in` in their
    /// place.  The circuit computes what it did if `c_in` computes what the
    /// selected gates compute, which `kept` says.
    fn install(
        &mut self,
        selected_gate_idx: &Vec<usize>,
        c_in: Vec<Gate>,
        fields: ReplacementTraceFields,
        max_candidate_dist: usize,
        Ghost(kept): Ghost<bool>,
    )
        requires
            old(self).wf(),
            is_selection(selected_gate_idx@, old(self).circuit.gates.len() as int),
            convex(old(self).circuit.gates@, selected_gate_idx@),
            gates_fit(c_in@, old(self).wires as int),
            kept ==> equivalent(
                chosen(old(self).circuit.gates@, selected_gate_idx@),
                c_in@,
                old(self).wires as int,
            ),
        ensures
            final(self).wf(),
            final(self).same_bounds(old(self)),
            final(self).curr_inflationary_step == old(self).curr_inflationary_step,
            final(self).curr_kneading_step == old(self).curr_kneading_step,
            final(self).consecutive_failures == old(self).consecutive_failures,
            final(self).circuit.gates.len() == old(self).circuit.gates.len()
                - selected_gate_idx.len() + c_in.len(),
            kept ==> equivalent(
                old(self).circuit.gates@,
                final(self).circuit.gates@,
                old(self).wires as int,
            ),
            final(self).circuit.gates@ == spliced(
                permuted(old(self).circuit.gates@, selected_gate_idx@),
                block_start(old(self).circuit.gates@, selected_gate_idx@),
                selected_gate_idx.len() as int,
                c_in@,
            ),
            final(self).last_replacement == Some(fields),
            final(self).last_candidate_dist == max_candidate_dist,
            final(self).in_progress == old(self).in_progress,
    {
        let ghost old_gates = self.circuit.gates@;
        let n_out = selected_gate_idx.len();
        let c_out_start = permute_circuit(&mut self.circuit, selected_gate_idx);
        let ghost moved = self.circuit.gates@;
        let gates = splice_gates(&self.circuit.gates, c_out_start, n_out, &c_in);
        proof {
            if kept {
                lemma_splice_replacement(
                    moved,
                    c_out_start as int,
                    n_out as int,
                    c_in@,
                    self.wires as int,
                );
                lemma_equivalent_is_equivalence(old_gates, moved, gates@, self.wires as int);
            } else {
                lemma_splice_fits(
                    moved,
                    c_out_start as int,
                    n_out as int,
                    c_in@,
                    self.wires as int,
                );
            }
        }
        self.circuit.gates = gates;
        self.last_replacement = Some(fields);
        self.last_candidate_dist = max_candidate_dist;
    }

    /// One step on `n_out` gates with the help of a table of small
    /// circuits: selects a convex chain of `n_out` gates, searches with the
    /// table for a block of `N_IN` gates with its function, moves the chain
    /// into one block and puts the replacement in its place.
    ///
    /// A step that fails leaves the circuit as it is.  One that succeeds
    /// leaves a circuit that computes what it did.
    pub fn step_with_table<R: RandomSource>(
        &mut self,
        n_out: usize,
        ct: &CompressionTable,
        rng: &mut R,
    ) -> (res: Result<(), StepError>)
        requires
            old(self).wf(),
            n_out >= 1,
            ct.wf(),
            ct.max_wires_supported >= 3,
        ensures
            final(self).wf(),
            final(self).same_bounds(old(self)),
            final(self).curr_inflationary_step == old(self).curr_inflationary_step,
            final(self).curr_kneading_step == old(self).curr_kneading_step,
            final(self).consecutive_failures == old(self).consecutive_failures,
            res is Err ==> final(self).circuit.gates@ == old(self).circuit.gates@,
            res is Ok ==> final(self).circuit.gates.len() == old(self).circuit.gates.len() - n_out
                + N_IN,
            res is Ok ==> equivalent(
                old(self).circuit.gates@,
                final(self).circuit.gates@,
                old(self).wires as int,
            ),
            old(self).circuit.gates.len() < n_out ==> res == Err::<(), StepError>(
                StepError::SearchExhausted,
            ),
            res is Ok ==> final(self).stepped_with_table_from(old(self), n_out),
            res is Err ==> *final(self) == *old(self),
    {
        if self.circuit.gates.len() < n_out {
            return Err(StepError::SearchExhausted);
        }
        let (selected_gate_idx, max_candidate_dist) = match find_convex_gate_ids(
            &self.circuit,
            n_out,
            MAX_SEARCH_RESTARTS,
            rng,
        ) {
            Some(found) => found,
            None => {
                return Err(StepError::SearchExhausted);
            },
        };
        let block = selected_gates(&self.circuit, &selected_gate_idx);
        let ghost old_gates = self.circuit.gates@;
        proof {
            assert forall|i: int| 0 <= i < block.len() implies (#[trigger] block[i]).fits(
                self.wires as int,
            ) by {
                assert(block[i] == old_gates[selected_gate_idx[i] as int]);
            }
            self.cf_choice.lemma_codes();
        }
        let cfs = self.cf_choice.cfs();
        match find_replacement(&block, self.wires, N_IN, &cfs, ct, rng) {
            None => Err(StepError::ReplacementNotFound),
            Some((c_in, fields)) => {
                let ghost block_in = c_in@;
                self.install(&selected_gate_idx, c_in, fields, max_candidate_dist, Ghost(true));
                proof {
                    assert(self.replaced_by_table(old(self), n_out, selected_gate_idx@, block_in));
                }
                Ok(())
            },
        }
    }

    /// The circuit of this job is that of `before` with the gates `sel`
    /// moved into one block and `block` in the place of that block.  The
    /// gates `sel` are a convex chain of `n_out` gates, and `block` has
    /// `N_IN` gates.
    pub open spec fn put_in(&self, before: &Self, n_out: usize, sel: Seq<usize>, block: Seq<Gate>) -> bool {
        &&& sel.len() == n_out
        &&& is_selection(sel, before.circuit.gates.len() as int)
        &&& is_chain(before.circuit.gates@, sel)
        &&& convex(before.circuit.gates@, sel)
        &&& block.len() == N_IN
        &&& gates_fit(block, before.wires as int)
        &&& self.circuit.gates@ == spliced(
            permuted(before.circuit.gates@, sel),
            block_start(before.circuit.gates@, sel),
            n_out as int,
            block,
        )
    }

    /// A step of the search on `n_out` gates has led from `before` to this
    /// job: a convex chain was replaced by a block that is a replacement
    /// of it, and the job holds the record of the search with this block.
    /// With the strategy that searches for nothing the block is blank and
    /// the record empty.
    pub open spec fn replaced(
        &self,
        before: &Self,
        n_out: usize,
        sel: Seq<usize>,
        block: Seq<Gate>,
    ) -> bool {
        &&& self.put_in(before, n_out, sel, block)
        &&& before.replacement_strategy != ReplacementStrategy::Dummy ==> is_replacement(
            block,
            chosen(before.circuit.gates@, sel),
            before.wires as int,
            N_IN as int,
        )
        &&& before.replacement_strategy == ReplacementStrategy::Dummy ==> block == blank(
            N_IN as nat,
        )
        &&& self.last_replacement matches Some(f) && (if before.replacement_strategy
            != ReplacementStrategy::Dummy {
            f.output_circuit@ == block && f.input_circuit@ == chosen(before.circuit.gates@, sel)
        } else {
            f.output_circuit@.len() == 0 && f.input_circuit@.len() == 0
        })
    }

    /// A step of the search on `n_out` gates has led from `before` to this
    /// job.
    pub open spec fn stepped_from(&self, before: &Self, n_out: usize) -> bool {
        exists|sel: Seq<usize>, block: Seq<Gate>| #[trigger] self.replaced(before, n_out, sel, block)
    }

    /// A step with a table on `n_out` gates has led from `before` to this
    /// job: a convex chain was replaced by a block with its function, gates
    /// with three distinct wires each, and the job holds the record with
    /// the chain and this block.
    pub open spec fn replaced_by_table(
        &self,
        before: &Self,
        n_out: usize,
        sel: Seq<usize>,
        block: Seq<Gate>,
    ) -> bool {
        &&& self.put_in(before, n_out, sel, block)
        &&& all_distinct(block)
        &&& equivalent(chosen(before.circuit.gates@, sel), block, before.wires as int)
        &&& self.last_replacement matches Some(f) && f.output_circuit@ == block
            && f.input_circuit@ == chosen(before.circuit.gates@, sel)
    }

    /// A step with a table on `n_out` gates has led from `before` to this
    /// job.
    pub open spec fn stepped_with_table_from(&self, before: &Self, n_out: usize) -> bool {
        exists|sel: Seq<usize>, block: Seq<Gate>| #[trigger]
            self.replaced_by_table(before, n_out, sel, block)
    }

    /// The job has done one step more than `before`, or one failed try
    /// more; a job that is through or has failed stays as it is.
    pub open spec fn follows(&self, before: &Self) -> bool {
        match before.spec_state() {
            JobState::Done | JobState::Failed => self.same_progress(before),
            JobState::Inflationary { .. } => {
                ||| {
                    &&& self.curr_inflationary_step == before.curr_inflationary_step + 1
                    &&& self.curr_kneading_step == before.curr_kneading_step
                    &&& self.consecutive_failures == 0
                    &&& self.circuit.gates.len() == before.circuit.gates.len() - N_OUT_INF + N_IN
                }
                ||| {
                    &&& self.curr_inflationary_step == before.curr_inflationary_step
                    &&& self.curr_kneading_step == before.curr_kneading_step
                    &&& self.consecutive_failures == before.consecutive_failures + 1
                    &&& self.circuit.gates@ == before.circuit.gates@
                }
            },
            JobState::Kneading { .. } => {
                ||| {
                    &&& self.curr_inflationary_step == before.curr_inflationary_step
                    &&& self.curr_kneading_step == before.curr_kneading_step + 1
                    &&& self.consecutive_failures == 0
                    &&& self.circuit.gates.len() == before.circuit.gates.len() - N_OUT_KND + N_IN
                }
                ||| {
                    &&& self.curr_inflationary_step == before.curr_inflationary_step
                    &&& self.curr_kneading_step == before.curr_kneading_step
                    &&& self.consecutive_failures == before.consecutive_failures + 1
                    &&& self.circuit.gates@ == before.circuit.gates@
                }
            },
        }
    }

    /// The search of a step cannot succeed: it may sample no candidate.
    pub open spec fn cannot_replace(&self) -> bool {
        self.max_replacement_samples == 0 && self.replacement_strategy
            != ReplacementStrategy::Dummy
    }

    /// The job with the result of a step of `stage` counted: a step that
    /// succeeded counts for its stage and clears the count of failures,
    /// one that failed adds to that count.
    pub open spec fn settled(&self, stage: Stage, res: Result<(), StepError>) -> Self {
        match (res, stage) {
            (Ok(_), Stage::Inflationary) => LocalMixingJob {
                curr_inflationary_step: (self.curr_inflationary_step + 1) as usize,
                consecutive_failures: 0,
                ..*self
            },
            (Ok(_), Stage::Kneading) => LocalMixingJob {
                curr_kneading_step: (self.curr_kneading_step + 1) as usize,
                consecutive_failures: 0,
                ..*self
            },
            (Err(_), _) => LocalMixingJob {
                consecutive_failures: (self.consecutive_failures + 1) as usize,
                ..*self
            },
        }
    }

    /// Counts the result of a step of `stage`: a step that succeeded
    /// counts for its stage and clears the count of failures, one that
    /// failed adds to that count.  The circuit stays as it is.
    pub fn settle(&mut self, stage: Stage, res: Result<(), StepError>)
        requires
            res is Ok && stage == Stage::Inflationary ==> old(self).curr_inflationary_step
                < usize::MAX,
            res is Ok && stage == Stage::Kneading ==> old(self).curr_kneading_step < usize::MAX,
            res is Err ==> old(self).consecutive_failures < usize::MAX,
        ensures
            *final(self) == old(self).settled(stage, res),
            final(self).circuit == old(self).circuit,
            final(self).same_bounds(old(self)),
            res is Ok ==> final(self).consecutive_failures == 0,
            res is Ok && stage == Stage::Inflationary ==> final(self).curr_inflationary_step == old(self).curr_inflationary_step + 1 && final(self).curr_kneading_step == old(self).curr_kneading_step,
            res is Ok && stage == Stage::Kneading ==> final(self).curr_kneading_step == old(self).curr_kneading_step + 1 && final(self).curr_inflationary_step == old(self).curr_inflationary_step,
            res is Err ==> final(self).consecutive_failures == old(self).consecutive_failures + 1
                && final(self).curr_inflationary_step == old(self).curr_inflationary_step
                && final(self).curr_kneading_step == old(self).curr_kneading_step,
    {
        match res {
            Ok(()) => {
                match stage {
                    Stage::Inflationary => {
                        self.curr_inflationary_step += 1;
                    },
                    Stage::Kneading => {
                        self.curr_kneading_step += 1;
                    },
                }
                self.consecutive_failures = 0;
            },
            Err(_) => {
                self.consecutive_failures += 1;
            },
        }
    }

    /// One step of the stage in which the job is, with the bookkeeping: a
    /// step that succeeds counts for its stage and clears the count of
    /// failures, one that fails adds to that count.  A job that is through
    /// or has failed does nothing.  Returns where the job stands then.
    pub fn advance<R: RandomSource + Send>(&mut self, rng: &mut R) -> (state: JobState)
        requires
            old(self).wf(),
        ensures
            final(self).wf(),
            final(self).same_bounds(old(self)),
            final(self).follows(old(self)),
            state == final(self).spec_state(),
            old(self).replacement_strategy != ReplacementStrategy::Dummy ==> equivalent(
                old(self).circuit.gates@,
                final(self).circuit.gates@,
                old(self).wires as int,
            ),
            old(self).cannot_replace() ==> {
                &&& final(self).circuit.gates@ == old(self).circuit.gates@
                &&& final(self).curr_inflationary_step == old(self).curr_inflationary_step
                &&& final(self).curr_kneading_step == old(self).curr_kneading_step
            },
            old(self).spec_state() is Done || old(self).spec_state() is Failed ==> *final(self)
                == *old(self),
            final(self).curr_inflationary_step == old(self).curr_inflationary_step + 1
                ==> final(self).stepped_from(old(self), N_OUT_INF),
            final(self).curr_kneading_step == old(self).curr_kneading_step + 1
                ==> final(self).stepped_from(old(self), N_OUT_KND),
            final(self).consecutive_failures == old(self).consecutive_failures + 1 ==> final(self).last_replacement == old(self).last_replacement,
    {
        let ghost before = *self;
        proof {
            lemma_equivalent_is_equivalence(
                self.circuit.gates@,
                self.circuit.gates@,
                self.circuit.gates@,
                self.wires as int,
            );
        }
        match self.state() {
            JobState::Done => {},
            JobState::Failed => {},
            JobState::Inflationary { .. } => {
                self.in_progress = true;
                let ghost begun = *self;
                let res = self.step_on(N_OUT_INF, rng);
                proof {
                    if res is Ok {
                        let (sel, block) = choose|sel: Seq<usize>, block: Seq<Gate>| #[trigger]
                            self.replaced(&begun, N_OUT_INF, sel, block);
                        assert(self.replaced(&before, N_OUT_INF, sel, block));
                    }
                }
                let ghost stepped = *self;
                self.settle(Stage::Inflationary, res);
                proof {
                    if res is Ok {
                        let (sel, block) = choose|sel: Seq<usize>, block: Seq<Gate>| #[trigger]
                            stepped.replaced(&before, N_OUT_INF, sel, block);
                        assert(self.replaced(&before, N_OUT_INF, sel, block));
                    }
                }
            },
            JobState::Kneading { .. } => {
                self.in_progress = true;
                let ghost begun = *self;
                let res = self.step_on(N_OUT_KND, rng);
                proof {
                    if res is Ok {
                        let (sel, block) = choose|sel: Seq<usize>, block: Seq<Gate>| #[trigger]
                            self.replaced(&begun, N_OUT_KND, sel, block);
                        assert(self.replaced(&before, N_OUT_KND, sel, block));
                    }
                }
                let ghost stepped = *self;
                self.settle(Stage::Kneading, res);
                proof {
                    if res is Ok {
                        let (sel, block) = choose|sel: Seq<usize>, block: Seq<Gate>| #[trigger]
                            stepped.replaced(&before, N_OUT_KND, sel, block);
                        assert(self.replaced(&before, N_OUT_KND, sel, block));
                    }
                }
            },
        }
        self.state()
    }

    /// The steps that are left to do.
    pub open spec fn steps_left(&self) -> int {
        (if self.curr_inflationary_step < self.inflationary_stage_steps {
            self.inflationary_stage_steps - self.curr_inflationary_step
        } else {
            0
        }) + (if self.curr_kneading_step < self.kneading_stage_steps {
            self.kneading_stage_steps - self.curr_kneading_step
        } else {
            0
        })
    }

    /// The tries that are left before the job gives up.
    pub open spec fn tries_left(&self) -> int {
        if self.spec_state() is Failed {
            0
        } else if self.consecutive_failures < self.max_attempts_without_success {
            self.max_attempts_without_success - self.consecutive_failures
        } else {
            1
        }
    }

    /// The number of failures in a row at which the job gives up.
    pub open spec fn failure_bound(&self) -> int {
        if self.max_attempts_without_success == 0 {
            1
        } else {
            self.max_attempts_without_success as int
        }
    }

    /// Runs the job to its end: the inflationary steps, then the kneading
    /// steps, until both stages are through or as many steps in a row have
    /// failed as the job may try.  Returns whether the stages are through.
    /// A job that is through or has failed is left as it is.
    pub fn execute<R: RandomSource + Send>(&mut self, rng: &mut R) -> (success: bool)
        requires
            old(self).wf(),
        ensures
            final(self).wf(),
            final(self).same_bounds(old(self)),
            success <==> final(self).spec_state() is Done,
            !success <==> final(self).spec_state() is Failed,
            old(self).spec_state() is Done ==> success && *final(self) == *old(self),
            old(self).spec_state() is Failed ==> !success && *final(self) == *old(self),
            final(self).curr_inflationary_step >= old(self).curr_inflationary_step,
            final(self).curr_kneading_step >= old(self).curr_kneading_step,
            old(self).curr_inflationary_step <= old(self).inflationary_stage_steps ==> final(self).curr_inflationary_step <= final(self).inflationary_stage_steps,
            old(self).curr_kneading_step <= old(self).kneading_stage_steps ==> final(self).curr_kneading_step <= final(self).kneading_stage_steps,
            final(self).circuit.gates.len() == old(self).circuit.gates.len() + (N_IN - N_OUT_INF) * (
            final(self).curr_inflationary_step - old(self).curr_inflationary_step),
            old(self).replacement_strategy != ReplacementStrategy::Dummy ==> equivalent(
                old(self).circuit.gates@,
                final(self).circuit.gates@,
                old(self).wires as int,
            ),
            !success && !(old(self).spec_state() is Failed) ==> final(self).consecutive_failures
                == old(self).failure_bound(),
            final(self).curr_inflationary_step == old(self).curr_inflationary_step && final(self).curr_kneading_step == old(self).curr_kneading_step ==> final(self).circuit.gates@
                == old(self).circuit.gates@ && final(self).last_replacement == old(self).last_replacement,
            success && !(old(self).spec_state() is Done) ==> final(self).consecutive_failures == 0,
            old(self).cannot_replace() && !(old(self).spec_state() is Done) ==> {
                &&& !success
                &&& final(self).circuit.gates@ == old(self).circuit.gates@
                &&& final(self).curr_inflationary_step == old(self).curr_inflationary_step
                &&& final(self).curr_kneading_step == old(self).curr_kneading_step
                &&& old(self).consecutive_failures == 0 ==> final(self).consecutive_failures == (
                if old(self).max_attempts_without_success == 0 {
                    1
                } else {
                    old(self).max_attempts_without_success as int
                })
            },
    {
        proof {
            lemma_equivalent_is_equivalence(
                self.circuit.gates@,
                self.circuit.gates@,
                self.circuit.gates@,
                self.wires as int,
            );
        }
        let ghost mut moved = false;
        loop
            invariant
                self.wf(),
                self.same_bounds(old(self)),
                !moved ==> *self == *old(self),
                moved ==> !(old(self).spec_state() is Done) && !(old(self).spec_state() is Failed),
                moved ==> self.consecutive_failures <= old(self).failure_bound(),
                moved && self.spec_state() is Done ==> self.consecutive_failures == 0,
                self.curr_inflationary_step == old(self).curr_inflationary_step
                    && self.curr_kneading_step == old(self).curr_kneading_step
                    ==> self.circuit.gates@ == old(self).circuit.gates@ && self.last_replacement
                    == old(self).last_replacement,
                self.curr_inflationary_step >= old(self).curr_inflationary_step,
                self.curr_kneading_step >= old(self).curr_kneading_step,
                old(self).curr_inflationary_step <= old(self).inflationary_stage_steps
                    ==> self.curr_inflationary_step <= self.inflationary_stage_steps,
                old(self).curr_kneading_step <= old(self).kneading_stage_steps
                    ==> self.curr_kneading_step <= self.kneading_stage_steps,
                self.circuit.gates.len() == old(self).circuit.gates.len() + (N_IN - N_OUT_INF) * (
                self.curr_inflationary_step - old(self).curr_inflationary_step),
                old(self).replacement_strategy != ReplacementStrategy::Dummy ==> equivalent(
                    old(self).circuit.gates@,
                    self.circuit.gates@,
                    old(self).wires as int,
                ),
                old(self).cannot_replace() && !(old(self).spec_state() is Done) ==> {
                    &&& !(self.spec_state() is Done)
                    &&& self.circuit.gates@ == old(self).circuit.gates@
                    &&& self.curr_inflationary_step == old(self).curr_inflationary_step
                    &&& self.curr_kneading_step == old(self).curr_kneading_step
                    &&& old(self).consecutive_failures == 0 ==> self.consecutive_failures <= (
                    if old(self).max_attempts_without_success == 0 {
                        1
                    } else {
                        old(self).max_attempts_without_success as int
                    })
                },
            decreases self.steps_left(), self.tries_left(),
        {
            match self.state() {
                JobState::Done => {
                    return true;
                },
                JobState::Failed => {
                    return false;
                },
                _ => {
                    let ghost before = *self;
                    self.advance(rng);
                    proof {
                        moved = true;
                        assert(N_IN == 4 && N_OUT_INF == 2 && N_OUT_KND == 4);
                        assert(self.follows(&before));
                        let grown = self.curr_inflationary_step - old(self).curr_inflationary_step;
                        let grown_before = before.curr_inflationary_step - old(self).curr_inflationary_step;
                        assert((N_IN - N_OUT_INF) * grown == 2 * grown) by (nonlinear_arith)
                            requires
                                N_IN - N_OUT_INF == 2,
                        ;
                        assert((N_IN - N_OUT_INF) * grown_before == 2 * grown_before)
                            by (nonlinear_arith)
                            requires
                                N_IN - N_OUT_INF == 2,
                        ;
                        lemma_equivalent_is_equivalence(
                            old(self).circuit.gates@,
                            before.circuit.gates@,
                            self.circuit.gates@,
                            self.wires as int,
                        );
                    }
                },
            }
        }
    }

    /// One inflationary step: tries steps on `N_OUT_INF` gates until one
    /// succeeds or as many have failed in a row as the job may try.  A
    /// step that succeeds counts for the stage and clears the count of
    /// failures; each that fails adds to that count.  A job that has
    /// failed as often as it may try is left as it is.
    pub fn run_inflationary_step<R: RandomSource + Send>(&mut self, rng: &mut R)
        requires
            old(self).wf(),
            old(self).curr_inflationary_step < usize::MAX,
        ensures
            final(self).wf(),
            final(self).same_bounds(old(self)),
            final(self).curr_kneading_step == old(self).curr_kneading_step,
            old(self).replacement_strategy != ReplacementStrategy::Dummy ==> equivalent(
                old(self).circuit.gates@,
                final(self).circuit.gates@,
                old(self).wires as int,
            ),
            old(self).consecutive_failures >= old(self).max_attempts_without_success ==> *final(self) == *old(self),
            old(self).consecutive_failures < old(self).max_attempts_without_success ==> ({
                ||| {
                    &&& final(self).curr_inflationary_step == old(self).curr_inflationary_step + 1
                    &&& final(self).consecutive_failures == 0
                    &&& final(self).circuit.gates.len() == old(self).circuit.gates.len()
                        - N_OUT_INF + N_IN
                    &&& exists|tried: LocalMixingJob| #[trigger]
                        final(self).stepped_from(&tried, N_OUT_INF) && tried.circuit.gates@ == old(self).circuit.gates@ && tried.wires == old(self).wires
                            && tried.replacement_strategy == old(self).replacement_strategy
                }
                ||| {
                    &&& final(self).curr_inflationary_step == old(self).curr_inflationary_step
                    &&& final(self).consecutive_failures == old(self).max_attempts_without_success
                    &&& final(self).circuit.gates@ == old(self).circuit.gates@
                    &&& final(self).last_replacement == old(self).last_replacement
                }
            }),
            old(self).cannot_replace() || old(self).circuit.gates.len() < N_OUT_INF ==> final(self).curr_inflationary_step == old(self).curr_inflationary_step,
    {
        proof {
            lemma_equivalent_is_equivalence(
                self.circuit.gates@,
                self.circuit.gates@,
                self.circuit.gates@,
                self.wires as int,
            );
        }
        let ghost mut tried = false;
        while self.consecutive_failures < self.max_attempts_without_success
            invariant
                self.wf(),
                self.same_bounds(old(self)),
                !tried ==> *self == *old(self),
                tried ==> old(self).consecutive_failures < old(self).max_attempts_without_success,
                self.curr_inflationary_step == old(self).curr_inflationary_step,
                self.curr_kneading_step == old(self).curr_kneading_step,
                self.circuit.gates@ == old(self).circuit.gates@,
                self.last_replacement == old(self).last_replacement,
                self.consecutive_failures >= old(self).consecutive_failures,
                old(self).consecutive_failures < old(self).max_attempts_without_success
                    ==> self.consecutive_failures <= self.max_attempts_without_success,
                self.curr_inflationary_step < usize::MAX,
            decreases self.max_attempts_without_success - self.consecutive_failures,
        {
            let ghost before = *self;
            let res = self.step_on(N_OUT_INF, rng);
            let ghost stepped = *self;
            self.settle(Stage::Inflationary, res);
            proof {
                tried = true;
            }
            if res.is_ok() {
                proof {
                    let (sel, block) = choose|sel: Seq<usize>, block: Seq<Gate>| #[trigger]
                        stepped.replaced(&before, N_OUT_INF, sel, block);
                    assert(self.replaced(&before, N_OUT_INF, sel, block));
                    assert(self.stepped_from(&before, N_OUT_INF));
                }
                return ;
            }
        }
    }

    /// One try at a kneading step, on `N_OUT_KND` gates.  A step that
    /// succeeds counts for the stage and clears the count of failures; one
    /// that fails adds to that count.
    pub fn run_kneading_step<R: RandomSource + Send>(&mut self, rng: &mut R)
        requires
            old(self).wf(),
            old(self).curr_kneading_step < usize::MAX,
            old(self).consecutive_failures < usize::MAX,
        ensures
            final(self).wf(),
            final(self).same_bounds(old(self)),
            final(self).curr_inflationary_step == old(self).curr_inflationary_step,
            old(self).replacement_strategy != ReplacementStrategy::Dummy ==> equivalent(
                old(self).circuit.gates@,
                final(self).circuit.gates@,
                old(self).wires as int,
            ),
            ({
                ||| {
                    &&& final(self).curr_kneading_step == old(self).curr_kneading_step + 1
                    &&& final(self).consecutive_failures == 0
                    &&& final(self).circuit.gates.len() == old(self).circuit.gates.len()
                        - N_OUT_KND + N_IN
                    &&& final(self).stepped_from(old(self), N_OUT_KND)
                }
                ||| {
                    &&& *final(self) == old(self).settled(
                        Stage::Kneading,
                        Err::<(), StepError>(StepError::SearchExhausted),
                    )
                    &&& final(self).curr_kneading_step == old(self).curr_kneading_step
                    &&& final(self).consecutive_failures == old(self).consecutive_failures + 1
                    &&& final(self).circuit.gates@ == old(self).circuit.gates@
                }
            }),
            old(self).cannot_replace() || old(self).circuit.gates.len() < N_OUT_KND ==> final(self).curr_kneading_step == old(self).curr_kneading_step,
    {
        proof {
            lemma_equivalent_is_equivalence(
                self.circuit.gates@,
                self.circuit.gates@,
                self.circuit.gates@,
                self.wires as int,
            );
        }
        let res = self.step_on(N_OUT_KND, rng);
        let ghost stepped = *self;
        self.settle(Stage::Kneading, res);
        proof {
            if res is Ok {
                let (sel, block) = choose|sel: Seq<usize>, block: Seq<Gate>| #[trigger]
                    stepped.replaced(old(self), N_OUT_KND, sel, block);
                assert(self.replaced(old(self), N_OUT_KND, sel, block));
            }
        }
    }

    /// One step on `N_OUT` gates; see `step_on`.
    pub fn execute_step<R: RandomSource + Send, const N_OUT: usize>(&mut self, rng: &mut R) -> (res:
        Result<(), StepError>)
        requires
            old(self).wf(),
            N_OUT >= 1,
        ensures
            final(self).wf(),
            final(self).same_bounds(old(self)),
            final(self).curr_inflationary_step == old(self).curr_inflationary_step,
            final(self).curr_kneading_step == old(self).curr_kneading_step,
            final(self).consecutive_failures == old(self).consecutive_failures,
            res is Err ==> final(self).circuit.gates@ == old(self).circuit.gates@,
            res is Ok ==> final(self).circuit.gates.len() == old(self).circuit.gates.len() - N_OUT
                + N_IN,
            res is Ok && old(self).replacement_strategy != ReplacementStrategy::Dummy
                ==> equivalent(
                old(self).circuit.gates@,
                final(self).circuit.gates@,
                old(self).wires as int,
            ),
            old(self).circuit.gates.len() < N_OUT ==> res == Err::<(), StepError>(
                StepError::SearchExhausted,
            ),
            old(self).max_replacement_samples == 0 && old(self).replacement_strategy
                != ReplacementStrategy::Dummy ==> res is Err,
            res is Ok ==> final(self).stepped_from(old(self), N_OUT),
            res is Err ==> *final(self) == *old(self),
    {
        self.step_on(N_OUT, rng)
    }
}

/// A circuit keeps fitting its wires when a block that fits them is put
/// into it.
proof fn lemma_splice_fits(
    gates: Seq<Gate>,
    start: int,
    count: int,
    block: Seq<Gate>,
    num_wires: int,
)
    requires
        0 <= start,
        0 <= count,
        start + count <= gates.len(),
        gates_fit(gates, num_wires),
        gates_fit(block, num_wires),
    ensures
        gates_fit(spliced(gates, start, count, block), num_wires),
        spliced(gates, start, count, block).len() == gates.len() - count + block.len(),
{
    let out = spliced(gates, start, count, block);
    assert forall|i: int| 0 <= i < out.len() implies (#[trigger] out[i]).fits(num_wires) by {
        if i < start {
            assert(out[i] == gates[i]);
        } else if i < start + block.len() {
            assert(out[i] == block[i - start]);
        } else {
            assert(out[i] == gates[i - block.len() + count]);
        }
    }
}

} // verus!

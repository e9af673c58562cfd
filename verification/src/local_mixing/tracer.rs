//! Records of what the steps of a job did.
use crate::circuit::circuit::Gate;
use std::time::Duration;
use vstd::prelude::*;

verus! {

/// What one replacement search found.
#[derive(Debug)]
pub struct ReplacementTraceFields {
    /// The block that was replaced.
    pub input_circuit: Vec<Gate>,
    /// The block that replaced it.
    pub output_circuit: Vec<Gate>,
    /// The number of distinct wires of the block that was replaced.
    pub num_input_wires: usize,
    /// The number of distinct wires of the block that replaced it.
    pub num_output_wires: usize,
    /// The number of local wires on which the block's function depends.
    pub num_active_wires: usize,
    /// The least generation among the gates that were replaced.
    pub min_generation: usize,
    /// The number of candidates that the winning worker had sampled.
    pub num_circuits_sampled: usize,
}

impl ReplacementTraceFields {
    /// The two records hold the same.
    pub open spec fn same(&self, other: &Self) -> bool {
        &&& self.input_circuit@ == other.input_circuit@
        &&& self.output_circuit@ == other.output_circuit@
        &&& self.num_input_wires == other.num_input_wires
        &&& self.num_output_wires == other.num_output_wires
        &&& self.num_active_wires == other.num_active_wires
        &&& self.min_generation == other.min_generation
        &&& self.num_circuits_sampled == other.num_circuits_sampled
    }
}

impl Default for ReplacementTraceFields {
    fn default() -> (f: Self)
        ensures
            f.input_circuit@.len() == 0,
            f.output_circuit@.len() == 0,
            f.num_input_wires == 0,
            f.num_output_wires == 0,
            f.num_active_wires == 0,
            f.min_generation == 0,
            f.num_circuits_sampled == 0,
    {
        Self {
            input_circuit: Vec::new(),
            output_circuit: Vec::new(),
            num_input_wires: 0,
            num_output_wires: 0,
            num_active_wires: 0,
            min_generation: 0,
            num_circuits_sampled: 0,
        }
    }
}

impl Clone for ReplacementTraceFields {
    fn clone(&self) -> (f: Self)
        ensures
            f.same(self),
    {
        Self {
            input_circuit: self.input_circuit.clone(),
            output_circuit: self.output_circuit.clone(),
            num_input_wires: self.num_input_wires,
            num_output_wires: self.num_output_wires,
            num_active_wires: self.num_active_wires,
            min_generation: self.min_generation,
            num_circuits_sampled: self.num_circuits_sampled,
        }
    }
}

/// What one step found, and how long it took.
#[derive(Debug)]
pub struct SearchTraceFields {
    /// The number of gates of the circuit after the step.
    pub n_gates: usize,
    /// The distance from the first selected gate to the farthest candidate
    /// for the last.
    pub max_candidate_dist: usize,
    /// The time that the step took.
    pub time: Duration,
    pub replacement_fields: ReplacementTraceFields,
}

/// The stages of a job.
#[derive(Clone, Copy, Debug, PartialEq, Eq, Structural)]
pub enum Stage {
    Inflationary,
    Kneading,
}

impl Stage {
    /// The name of the stage.
    pub open spec fn name(self) -> Seq<char> {
        match self {
            Stage::Inflationary => "Inflationary"@,
            Stage::Kneading => "Kneading"@,
        }
    }

    /// The name of the stage.
    pub fn to_string(&self) -> (s: String)
        ensures
            s@ == self.name(),
    {
        match self {
            Stage::Inflationary => "Inflationary".to_string(),
            Stage::Kneading => "Kneading".to_string(),
        }
    }
}

/// The times that the replacement searches took, stage by stage.
#[derive(Debug)]
pub struct ReplacementTimes {
    pub inflationary_stage: Vec<Duration>,
    pub kneading_stage: Vec<Duration>,
}

impl ReplacementTimes {
    pub fn new(inf_steps: usize, kneading_steps: usize) -> (times: Self)
        ensures
            times.inflationary_stage@.len() == 0,
            times.kneading_stage@.len() == 0,
    {
        Self {
            inflationary_stage: Vec::with_capacity(inf_steps),
            kneading_stage: Vec::with_capacity(kneading_steps),
        }
    }

    pub fn add_entry(&mut self, stage: &Stage, duration: Duration)
        ensures
            *stage == Stage::Inflationary ==> final(self).inflationary_stage@ == old(
                self,
            ).inflationary_stage@.push(duration) && final(self).kneading_stage@ == old(
                self,
            ).kneading_stage@,
            *stage == Stage::Kneading ==> final(self).kneading_stage@ == old(
                self,
            ).kneading_stage@.push(duration) && final(self).inflationary_stage@ == old(
                self,
            ).inflationary_stage@,
    {
        match stage {
            Stage::Inflationary => self.inflationary_stage.push(duration),
            Stage::Kneading => self.kneading_stage.push(duration),
        }
    }
}

/// What the replacement searches found, stage by stage.
#[derive(Debug)]
pub struct ReplacementInfo {
    pub inflationary_stage: Vec<ReplacementTraceFields>,
    pub kneading_stage: Vec<ReplacementTraceFields>,
}

impl ReplacementInfo {
    pub fn new(inf_steps: usize, kneading_steps: usize) -> (info: Self)
        ensures
            info.inflationary_stage@.len() == 0,
            info.kneading_stage@.len() == 0,
    {
        Self {
            inflationary_stage: Vec::with_capacity(inf_steps),
            kneading_stage: Vec::with_capacity(kneading_steps),
        }
    }

    pub fn add_entry(&mut self, stage: &Stage, replacement_fields: ReplacementTraceFields)
        ensures
            *stage == Stage::Inflationary ==> final(self).inflationary_stage@ == old(
                self,
            ).inflationary_stage@.push(replacement_fields) && final(self).kneading_stage@ == old(
                self,
            ).kneading_stage@,
            *stage == Stage::Kneading ==> final(self).kneading_stage@ == old(
                self,
            ).kneading_stage@.push(replacement_fields) && final(self).inflationary_stage@ == old(
                self,
            ).inflationary_stage@,
    {
        match stage {
            Stage::Inflationary => self.inflationary_stage.push(replacement_fields),
            Stage::Kneading => self.kneading_stage.push(replacement_fields),
        }
    }
}

/// What a step has recorded and not yet handed on: it is handed on if the
/// step succeeds and dropped if it fails.
#[derive(Debug)]
pub struct TracerStash {
    pub search: Option<SearchTraceFields>,
    pub replacement: Option<Duration>,
}

impl Default for TracerStash {
    fn default() -> (stash: Self)
        ensures
            stash.search is None,
            stash.replacement is None,
    {
        Self { search: None, replacement: None }
    }
}

/// `list` with `item` added at its end if there is one and it is `here`
/// that it belongs.
pub open spec fn added<T>(list: Seq<T>, item: Option<T>, here: bool) -> Seq<T> {
    if here && item is Some {
        list.push(item->0)
    } else {
        list
    }
}

/// What a stashed step found in its replacement search.
pub open spec fn fields_of(search: Option<SearchTraceFields>) -> Option<ReplacementTraceFields> {
    match search {
        Some(s) => Some(s.replacement_fields),
        None => None,
    }
}

/// The records of a job.
#[derive(Debug)]
pub struct Tracer {
    /// The directory of the job.
    pub dir_path: String,
    pub replacement_times: ReplacementTimes,
    pub replacement_info: ReplacementInfo,
    pub stash: TracerStash,
}

impl Tracer {
    /// A tracer without records, for a job in `dir_path`.
    pub fn new(dir_path: &String, inf_steps: usize, kneading_steps: usize) -> (tracer: Self)
        ensures
            tracer.dir_path@ == dir_path@,
            tracer.replacement_times.inflationary_stage@.len() == 0,
            tracer.replacement_times.kneading_stage@.len() == 0,
            tracer.replacement_info.inflationary_stage@.len() == 0,
            tracer.replacement_info.kneading_stage@.len() == 0,
            tracer.stash.search is None,
            tracer.stash.replacement is None,
    {
        Self {
            dir_path: dir_path.clone(),
            replacement_times: ReplacementTimes::new(inf_steps, kneading_steps),
            replacement_info: ReplacementInfo::new(inf_steps, kneading_steps),
            stash: TracerStash::default(),
        }
    }

    /// Stashes what a step found.  The stash must hold no such record.
    pub fn add_search_entry(
        &mut self,
        n_gates: usize,
        max_candidate_dist: usize,
        time: Duration,
        replacement_fields: ReplacementTraceFields,
    )
        requires
            old(self).stash.search is None,
        ensures
            final(self).stash.search == Some(
                SearchTraceFields { n_gates, max_candidate_dist, time, replacement_fields },
            ),
            final(self).stash.replacement == old(self).stash.replacement,
            final(self).replacement_times == old(self).replacement_times,
            final(self).replacement_info == old(self).replacement_info,
            final(self).dir_path == old(self).dir_path,
    {
        self.stash.search = Some(
            SearchTraceFields { n_gates, max_candidate_dist, time, replacement_fields },
        );
    }

    /// Stashes the time that a replacement search took.  The stash must
    /// hold no such time.
    pub fn add_replacement_time(&mut self, time: Duration)
        requires
            old(self).stash.replacement is None,
        ensures
            final(self).stash.replacement == Some(time),
            final(self).stash.search == old(self).stash.search,
            final(self).replacement_times == old(self).replacement_times,
            final(self).replacement_info == old(self).replacement_info,
            final(self).dir_path == old(self).dir_path,
    {
        self.stash.replacement = Some(time);
    }

    /// Hands the stash on to the records of `stage` and empties it.
    pub fn flush_stash(&mut self, stage: Stage, step: usize)
        ensures
            final(self).stash.search is None,
            final(self).stash.replacement is None,
            final(self).dir_path == old(self).dir_path,
            final(self).replacement_times.inflationary_stage@ == added(
                old(self).replacement_times.inflationary_stage@,
                old(self).stash.replacement,
                stage == Stage::Inflationary,
            ),
            final(self).replacement_times.kneading_stage@ == added(
                old(self).replacement_times.kneading_stage@,
                old(self).stash.replacement,
                stage == Stage::Kneading,
            ),
            final(self).replacement_info.inflationary_stage@ == added(
                old(self).replacement_info.inflationary_stage@,
                fields_of(old(self).stash.search),
                stage == Stage::Inflationary,
            ),
            final(self).replacement_info.kneading_stage@ == added(
                old(self).replacement_info.kneading_stage@,
                fields_of(old(self).stash.search),
                stage == Stage::Kneading,
            ),
    {
        match self.stash.search.take() {
            Some(search) => {
                self.replacement_info.add_entry(&stage, search.replacement_fields);
            },
            None => {},
        }
        match self.stash.replacement.take() {
            Some(duration) => {
                self.replacement_times.add_entry(&stage, duration);
            },
            None => {},
        }
    }

    /// Drops the stash.
    pub fn empty_stash(&mut self)
        ensures
            final(self).stash.search is None,
            final(self).stash.replacement is None,
            final(self).replacement_times == old(self).replacement_times,
            final(self).replacement_info == old(self).replacement_info,
            final(self).dir_path == old(self).dir_path,
    {
        self.stash = TracerStash::default();
    }
}

} // verus!

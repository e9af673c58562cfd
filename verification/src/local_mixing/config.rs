//! What a mixing job is told to do.
use crate::circuit::circuit::Circuit;
use crate::replacement::strategy::{ControlFnChoice, ReplacementStrategy};
use vstd::prelude::*;

verus! {

/// The circuit to mix and the bounds of the work.
#[derive(Debug)]
pub struct LocalMixingConfig {
    /// The circuit to mix.
    pub original_circuit: Circuit,
    /// Number of wires in circuit
    pub num_wires: usize,
    /// Number of inflationary steps
    pub num_inflationary_steps: usize,
    /// Number of kneading steps
    pub num_kneading_steps: usize,
    /// Max number of attempts to sample a replacement in one step
    pub num_replacement_attempts: usize,
    /// Max number of failed steps in a row before the job gives up
    pub max_attempts_without_success: usize,
    /// How candidates are sampled
    pub replacement_strategy: ReplacementStrategy,
    /// Control function choice in replacement
    pub cf_choice: ControlFnChoice,
    /// Whether the job is saved as it goes
    pub save: bool,
    /// After how many steps the job is saved
    pub epoch_size: usize,
}

} // verus!

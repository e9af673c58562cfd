//! The sizes with which the mixing job works.
use vstd::prelude::*;

verus! {

/// Size of replaced circuits (inflationary stage)
pub const N_OUT_INF: usize = 2;

/// Size of replaced circuits (kneading stage)
pub const N_OUT_KND: usize = 4;

/// Size of replacements
pub const N_IN: usize = 4;

/// Number of wires considered during replacement
pub const N_PROJ_WIRES: usize = 9;

/// 2 ^ # projection wires
pub const N_PROJ_INPUTS: usize = 512;

/// Default number of gates for new circuits
pub const DEFAULT_NUM_GATES: usize = 1000;

/// Number of random inputs on which two circuits are compared
pub const CORRECTNESS_CHECK_ITER: usize = 1000;

/// How often the search for a convex set begins again with a new first gate
pub const MAX_SEARCH_RESTARTS: usize = 100;

} // verus!

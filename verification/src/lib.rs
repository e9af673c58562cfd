//! Local mixing of reversible boolean circuits.
//!
//! A circuit is a sequence of gates, each of which flips one wire when a
//! two-input boolean function of two other wires holds.  Local mixing picks a
//! small convex set of gates, moves it into one contiguous block, and replaces
//! the block by a different gate sequence that computes the same function.
//!
//! - [`circuit`]: gates, circuits, their meaning, and the analysis of blocks.
//! - [`local_mixing`]: the selection of convex chains, the permutation that
//!   moves a chain into one block, and the job that runs the steps.
//! - [`replacement`]: the search for a replacement of a block, by sampling
//!   or with the help of a table, and the samplers.
//! - [`compression`]: dependencies between gates, the table of small
//!   circuits, and the rearrangement of a circuit part by part.
//! - [`cc`]: sets of gates that are closed under the dependencies between
//!   them.
//! - [`random`]: the sources of random numbers; [`flags`]: flags over a
//!   range of indices.
pub mod cc;
pub mod circuit;
pub mod compression;
pub mod flags;
pub mod local_mixing;
pub mod random;
pub mod replacement;

//! The mixing job: steps that each replace a convex set of gates.
pub mod config;
pub mod consts;
pub mod convex;
pub mod job;
pub mod marks;
pub mod permute;
pub mod replacement_stats;
pub mod search;
pub mod tracer;

pub use self::job::LocalMixingJob;

//! The search for a block of gates that can replace another.
pub mod connectivity;
pub mod coordinator;
pub mod equivalence;
pub mod permutations;
pub mod find;
pub mod lfsr;
pub mod remap;
pub mod replace_ct;
pub mod sample;
pub mod search;
pub mod shuffle;
pub mod signal;
pub mod strategy;

pub use self::connectivity::is_weakly_connected;
pub use self::sample::{sample_random_circuit, sample_random_circuit_unguided};

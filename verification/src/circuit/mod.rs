//! Gates, circuits, their evaluation and the analysis of small blocks.
pub mod analysis;
pub mod cf;
pub mod semantics;
pub mod circuit;

pub use self::cf::Base2GateControlFunc;
pub use self::circuit::{Circuit, Gate};

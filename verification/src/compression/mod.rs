//! Dependencies between the gates of a circuit, moves of gates that
//! respect them, and a table of small circuits.
pub mod chunks;
pub mod ct;
pub mod runner;
pub mod subgraph;

//! Sets of gates that can be taken out of a circuit together, found along
//! the dependencies between the gates.
pub mod subgraph;

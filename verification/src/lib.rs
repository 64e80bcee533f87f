//! Arithmetic circuits: a graph of addition and multiplication gates joined
//! by wires, with cycle detection, layering and local evaluation.

pub mod circuit;
pub mod detect_cycle;
pub mod error;
pub mod eval_local;
pub mod graph;
pub mod ring;
pub mod semantics;

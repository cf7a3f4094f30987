//! A symbolic expression graph: hash-consed nodes, simplifying constructors,
//! symbolic differentiation, splicing of helper graphs and scheduling.
pub mod compile;
pub mod constant;
pub mod differentiate;
pub mod construct;
pub mod emit;
pub mod error;
pub mod function;
pub mod gaussian;
pub mod generation;
pub mod graph;
pub mod laws;
pub mod literal;
pub mod node;
pub mod schedule;
pub mod splice;
pub mod term;

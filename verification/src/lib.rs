//! A lazily evaluated, memoizing expression graph over scalar values.
//!
//! Nodes live in an arena and are named by their index. An operator node
//! remembers the last value computed for it; assigning to an input node
//! forgets every remembered value that was derived from that input.
//!
//! Scalars are carried as the 32 bits of an IEEE-754 single-precision
//! number. The arithmetic itself is supplied by the owner of the graph as
//! an evaluator, a function from an operator and its operand values to the
//! resulting value; the graph never looks inside a scalar.

pub mod computational_graph;
pub mod model;
pub mod lemmas;
pub mod laws;

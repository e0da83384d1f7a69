//! Reverse-mode automatic differentiation over a scalar computation graph.
//!
//! The graph is an arena: each node records the operation that produced it and
//! names its operands by index, so it is acyclic by construction. The library
//! orders the graph, derives the schedule of gradient contributions, and lays out
//! neurons, layers and perceptrons as nodes; the numbers themselves live beside
//! the arena, indexed the same way.
pub mod backward;
pub mod graph;
pub mod network;
pub mod topo;

pub use backward::{local_rule, Rule, Step};
pub use graph::{Graph, Node, Op};
pub use network::{Layer, Neuron, ShapeError, MLP};

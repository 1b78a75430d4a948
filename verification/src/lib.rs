//! A reverse-mode automatic-differentiation engine over scalar values, with a
//! small multi-layer perceptron built on top of it.
//!
//! Scalars are IEEE-754 doubles carried as `u64` bit patterns (see
//! [`scalar`]).  Every tracked scalar is a node in a [`value::Graph`] arena;
//! arithmetic on [`value::Value`] handles grows the graph, and
//! `Value::backprop` computes the gradient of a root with respect to every
//! ancestor node by a single reverse topological traversal.

pub mod neuron;
pub mod scalar;
pub mod topo;
pub mod value;

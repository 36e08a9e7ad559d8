//! Reverse-mode automatic differentiation over scalars.
//!
//! A [`value::Graph`] grows as operators are applied: each operator adds a
//! node that holds the forward value, a gradient, the operation and its
//! operands. [`value::Value::backward`] seeds the gradient of an output and
//! hands it down to every node below the output, each node in its turn after
//! all the nodes that use it.
//!
//! The scalars are of any copyable type and their arithmetic is given as
//! functions; [`arithmetic`] says what is asked of them. [`laws`] states what
//! holds of every graph and every backward pass.

pub mod arithmetic;
pub mod laws;
pub mod order;
pub mod pass;
pub mod rule;
pub mod value;

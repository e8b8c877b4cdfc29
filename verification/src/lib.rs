//! A scalar compute graph: every arithmetic operation on a value records a new
//! node that remembers its operands, so the history of any result can be walked
//! and drawn.
//!
//! Nodes live in an arena ([`Graph`]); a [`Value`] is a handle that names one
//! node by its position there. Two handles are the same node exactly when their
//! positions agree, whatever numbers or labels the nodes carry.
//!
//! Scalars are 64-bit integers. An operator whose result no scalar can hold, or
//! a division by zero, is refused with an error and leaves the arena untouched.
//! Division rounds toward zero, and the hyperbolic tangent rounds to the
//! nearest integer.
pub mod graph;
pub mod trace;
pub mod dot;

pub use graph::{Graph, GraphError, NodeModel, Op, Value};
pub use trace::trace;
pub use dot::{is_rankdir, statements, to_dot, write_document, Statement};

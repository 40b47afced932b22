//! A reverse-mode automatic-differentiation engine over scalar expression
//! graphs, plus a small feed-forward network built on top of it.
//!
//! The engine is split along a strict line: everything structural — node
//! construction, dependency ordering, the per-operation chain-rule steps,
//! and the network wiring — lives here and is verified; the numeric
//! evaluation of those structures over machine floats is left to the
//! caller, who walks the graph and the backward plan that this crate
//! produces.

pub mod backward;
pub mod exact;
pub mod graph;
pub mod nn;
pub mod traversal;

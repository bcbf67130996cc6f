//! Structure of a scalar reverse-mode differentiation engine.
//!
//! Nodes live in an arena ([`graph::Graph`]) and are named by small copyable
//! handles ([`graph::Value`]); a handle's identity is its arena index. The
//! [`backward`] module orders the nodes reachable from a root and turns that
//! order into the exact sequence of gradient contributions that reverse-mode
//! differentiation must perform.
pub mod backward;
pub mod graph;

//! An incremental computation engine.
//!
//! Callers build a dependency graph of computed values: inputs set directly,
//! and derived nodes that combine the values of two dependencies with a pure
//! function.  A stabilization pass re-derives only the values whose inputs
//! actually changed, walking the graph in dependency order and stopping
//! propagation as soon as a recomputation yields an unchanged result.

use vstd::prelude::*;

pub mod engine;
pub mod id;
pub mod kind;
pub mod store;

verus! {

/// The errors the engine surfaces to its callers.
#[derive(Debug, Clone, PartialEq, Eq)]
pub enum Error {
    /// A lookup or an edge referenced an identifier that is not in the store;
    /// a caller bug (for example, a handle from a different engine instance).
    UnknownNode,
    /// The dependency edges form a cycle.  The payload lists the identifiers
    /// of the nodes that could not be ordered: each of them has a dependency
    /// that is also in the list.
    CycleDetected(Vec<usize>),
    /// A handle referred to a node of a different kind than the operation
    /// expects; a programming error, never reachable through engine-issued
    /// handles used with the right operation.
    TypeMismatch,
    /// The observed node has never been computed; stabilize first.
    NotYetComputed,
    /// A dependency was read before it was computed; an internal invariant
    /// violation that a correct engine never produces.
    DependencyNotReady,
    /// The identifier counter ran out of fresh values.
    IdentifierExhausted,
}

} // verus!

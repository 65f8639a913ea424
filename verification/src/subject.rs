//! Subject keys: the addressing scheme for every quantity in the graph.

use vstd::prelude::*;

verus! {

/// The contract a subject key type satisfies: an opaque identifier with
/// value semantics, safe to copy, compare and hash, never mutated after
/// creation. Both stored base factors and derived formula outputs share
/// this namespace.
pub trait FactorSubject: Clone + Eq + core::hash::Hash + core::fmt::Debug {
}

/// A subject key: a stable entity identity paired with an attribute-kind
/// tag. The kind doubles as an index into the per-kind policy table that
/// supplies defaults and decay policies for implicitly created factors.
#[derive(Clone, Copy, Debug, PartialEq, Eq, Hash, Structural)]
pub struct Subject {
    /// Stable identity of the simulated entity the value is about.
    pub entity: u64,
    /// Attribute-kind tag (carrying capacity, population pressure, ...).
    pub kind: u32,
}

impl FactorSubject for Subject {
}

} // verus!

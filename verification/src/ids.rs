use vstd::prelude::*;

verus! {

/// Identifier of a graph node: unique within its graph, assigned when the
/// node is created, never reused for a later node of the same graph.
pub type Nid = u64;

/// Identifier of a graph edge: the ordered pair (from, to). A bidirectional
/// relation is modeled as two edges.
pub type Eid = (Nid, Nid);

/// Why a graph operation could not do what was asked.
#[derive(Debug, Clone, Copy, PartialEq, Eq, Structural)]
pub enum GraphErr {
    /// A connection attempt named a `from` node that is not in the graph.
    FromNotFound,
    /// A connection attempt named a `to` node that is not in the graph.
    ToNotFound,
    /// The guard of the `from` node rejected the candidate `to` node.
    GuardRejected,
    /// A caller-constructed node carries an identity already present.
    DuplicateIdentity,
    /// The request is recognized but this engine does not provide it.
    NotImplemented,
}

} // verus!

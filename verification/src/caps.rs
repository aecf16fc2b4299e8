use vstd::prelude::*;

verus! {

use crate::ids::Nid;
use crate::nodebase::NodeBase;

/// The edge capability: a small copyable payload value with a defined
/// default. An edge is unidirectional; an undirected relation is stored as
/// two edges.
pub trait GraphEdge: Sized + Copy {
    /// The payload an edge carries when none is chosen explicitly.
    fn default() -> Self;
}

/// The connection-acceptance capability: before the graph forms an edge
/// from a node to a candidate target, it consults the source node's guard
/// and forms the edge only when the guard accepts the candidate.
pub trait EdgeGuard: Sized {
    /// What the guard accepts, as a predicate usable in contracts.
    spec fn guard_spec(&self, node: &Self) -> bool;

    /// Decide whether an edge from `self`'s node to `node`'s may be formed.
    fn guard(&self, node: &Self) -> (r: bool)
        ensures
            r == self.guard_spec(node),
    ;
}

/// The node capability: common per-node state (identity and the two
/// adjacency sets) composed with a domain payload (a name and a 2-D
/// position) and an edge guard.
pub trait GraphNode: EdgeGuard + Sized {
    /// The node's identity.
    spec fn id_spec(&self) -> Nid;

    /// The outgoing neighbours, in stored order.
    spec fn to_spec(&self) -> Seq<Nid>;

    /// The incoming neighbours, in stored order.
    spec fn from_spec(&self) -> Seq<Nid>;

    /// The node's name.
    spec fn name_spec(&self) -> Seq<char>;

    /// The node's position.
    spec fn pos_spec(&self) -> (i64, i64);

    /// A fresh node with the given identity, no neighbours and the
    /// default payload: an empty name at the origin position.
    fn with_id(nid: Nid) -> (r: Self)
        ensures
            r.id_spec() == nid,
            r.to_spec().len() == 0,
            r.from_spec().len() == 0,
            r.name_spec().len() == 0,
            r.pos_spec() == (0i64, 0i64),
    ;

    /// Read access to the common per-node state.
    fn get_base(&self) -> (r: &NodeBase)
        ensures
            r.id_spec() == self.id_spec(),
            r.to_seq() == self.to_spec(),
            r.from_seq() == self.from_spec(),
    ;

    /// Record `to` as an outgoing neighbour; a no-op when already present.
    fn base_direct(&mut self, to: Nid)
        ensures
            final(self).id_spec() == old(self).id_spec(),
            final(self).from_spec() == old(self).from_spec(),
            final(self).name_spec() == old(self).name_spec(),
            final(self).pos_spec() == old(self).pos_spec(),
            final(self).to_spec() == (if old(self).to_spec().contains(to) {
                old(self).to_spec()
            } else {
                old(self).to_spec().push(to)
            }),
    ;

    /// Record `from` as an incoming neighbour; a no-op when already present.
    fn base_direct_from(&mut self, from: Nid)
        ensures
            final(self).id_spec() == old(self).id_spec(),
            final(self).to_spec() == old(self).to_spec(),
            final(self).name_spec() == old(self).name_spec(),
            final(self).pos_spec() == old(self).pos_spec(),
            final(self).from_spec() == (if old(self).from_spec().contains(from) {
                old(self).from_spec()
            } else {
                old(self).from_spec().push(from)
            }),
    ;

    /// Drop `to` from the outgoing neighbours; a no-op when absent.
    fn base_undirect(&mut self, to: Nid)
        requires
            old(self).to_spec().no_duplicates(),
        ensures
            final(self).id_spec() == old(self).id_spec(),
            final(self).from_spec() == old(self).from_spec(),
            final(self).name_spec() == old(self).name_spec(),
            final(self).pos_spec() == old(self).pos_spec(),
            final(self).to_spec().no_duplicates(),
            !final(self).to_spec().contains(to),
            forall|x: Nid|
                x != to ==> final(self).to_spec().contains(x) == old(self).to_spec().contains(x),
            !old(self).to_spec().contains(to) ==> final(self).to_spec() == old(self).to_spec(),
    ;

    /// Drop `from` from the incoming neighbours; a no-op when absent.
    fn base_undirect_from(&mut self, from: Nid)
        requires
            old(self).from_spec().no_duplicates(),
        ensures
            final(self).id_spec() == old(self).id_spec(),
            final(self).to_spec() == old(self).to_spec(),
            final(self).name_spec() == old(self).name_spec(),
            final(self).pos_spec() == old(self).pos_spec(),
            final(self).from_spec().no_duplicates(),
            !final(self).from_spec().contains(from),
            forall|x: Nid|
                x != from ==> final(self).from_spec().contains(x) == old(
                    self,
                ).from_spec().contains(x),
            !old(self).from_spec().contains(from) ==> final(self).from_spec() == old(
                self,
            ).from_spec(),
    ;

    /// The node's name.
    fn get_name(&self) -> (r: &str)
        ensures
            r@ == self.name_spec(),
    ;

    /// The node's position.
    fn get_position(&self) -> (r: (i64, i64))
        ensures
            r == self.pos_spec(),
    ;

    /// Replace the node's name.
    fn set_name(&mut self, s: &str)
        ensures
            final(self).id_spec() == old(self).id_spec(),
            final(self).to_spec() == old(self).to_spec(),
            final(self).from_spec() == old(self).from_spec(),
            final(self).pos_spec() == old(self).pos_spec(),
            final(self).name_spec() == s@,
    ;

    /// Replace the node's position.
    fn set_position(&mut self, p: (i64, i64))
        ensures
            final(self).id_spec() == old(self).id_spec(),
            final(self).to_spec() == old(self).to_spec(),
            final(self).from_spec() == old(self).from_spec(),
            final(self).name_spec() == old(self).name_spec(),
            final(self).pos_spec() == p,
    ;
}

} // verus!

use vstd::prelude::*;

verus! {

use crate::caps::{EdgeGuard, GraphEdge, GraphNode};
use crate::ids::Nid;
use crate::nodebase::NodeBase;
use vstd::string::StringExecFns;

/// A plain edge payload: a numeric factor. The default payload carries the
/// neutral factor 1.
#[derive(Debug, Clone, Copy, PartialEq, Eq, Structural)]
pub struct Edge {
    pub factor: u64,
}

impl GraphEdge for Edge {
    fn default() -> Self {
        Edge { factor: 1 }
    }
}

/// A plain graph node: the common per-node state plus a name and a 2-D
/// position. Its guard enforces one domain rule: a node never accepts an
/// edge to itself, so the default node type admits no self-loops.
#[derive(Debug, Clone)]
pub struct Node {
    base: NodeBase,
    name: String,
    pos_x: i64,
    pos_y: i64,
}

impl EdgeGuard for Node {
    closed spec fn guard_spec(&self, node: &Self) -> bool {
        self.base.id_spec() != node.base.id_spec()
    }

    fn guard(&self, node: &Self) -> (r: bool)
        ensures
            r == self.guard_spec(node),
    {
        self.base.get_id() != node.base.get_id()
    }
}

impl GraphNode for Node {
    closed spec fn id_spec(&self) -> Nid {
        self.base.id_spec()
    }

    closed spec fn to_spec(&self) -> Seq<Nid> {
        self.base.to_seq()
    }

    closed spec fn from_spec(&self) -> Seq<Nid> {
        self.base.from_seq()
    }

    closed spec fn name_spec(&self) -> Seq<char> {
        self.name@
    }

    closed spec fn pos_spec(&self) -> (i64, i64) {
        (self.pos_x, self.pos_y)
    }

    fn with_id(nid: Nid) -> (r: Self) {
        Node { base: NodeBase::new(nid), name: String::new(), pos_x: 0, pos_y: 0 }
    }

    fn get_base(&self) -> (r: &NodeBase) {
        &self.base
    }

    fn base_direct(&mut self, to: Nid) {
        self.base.direct(to);
    }

    fn base_direct_from(&mut self, from: Nid) {
        self.base.direct_from(from);
    }

    fn base_undirect(&mut self, to: Nid) {
        self.base.undirect(to);
    }

    fn base_undirect_from(&mut self, from: Nid) {
        self.base.undirect_from(from);
    }

    fn get_name(&self) -> (r: &str) {
        self.name.as_str()
    }

    fn get_position(&self) -> (r: (i64, i64)) {
        (self.pos_x, self.pos_y)
    }

    fn set_name(&mut self, s: &str) {
        self.name = String::from_str(s);
    }

    fn set_position(&mut self, p: (i64, i64)) {
        self.pos_x = p.0;
        self.pos_y = p.1;
    }
}

/// The default node guard means exactly: the candidate is a different node.
pub proof fn lemma_node_guard(a: &Node, b: &Node)
    ensures
        a.guard_spec(b) == (a.id_spec() != b.id_spec()),
{
}

} // verus!

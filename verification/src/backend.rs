use vstd::prelude::*;

verus! {

use crate::caps::{EdgeGuard, GraphEdge, GraphNode};
use crate::ids::{Eid, GraphErr, Nid};
use crate::util::elem_at_mut;

/// Insert `x` into the duplicate-free adjacency sequence `s`; a no-op when
/// already present.
pub open spec fn adj_insert(s: Seq<Nid>, x: Nid) -> Seq<Nid> {
    if s.contains(x) {
        s
    } else {
        s.push(x)
    }
}

/// What a node-visiting operation must promise of each replacement it
/// hands back: the node's identity is kept and its adjacency stays
/// duplicate-free, so a visit cannot break the graph's invariant.
pub open spec fn visit_keeps_node<NN: GraphNode, F: Fn(NN) -> NN>(f: F) -> bool {
    forall|x: NN, y: NN|
        #[trigger] call_ensures(f, (x,), y) ==> y.id_spec() == x.id_spec() && (
        x.to_spec().no_duplicates() ==> y.to_spec().no_duplicates()) && (
        x.from_spec().no_duplicates() ==> y.from_spec().no_duplicates())
}

/// Inserting `x` makes it a member.
pub proof fn lemma_adj_insert_contains(s: Seq<Nid>, x: Nid)
    ensures
        adj_insert(s, x).contains(x),
{
    if !s.contains(x) {
        assert(adj_insert(s, x)[s.len() as int] == x);
    }
}

/// The concrete storage backend: two key-value mappings (node identity to
/// node, edge identity to edge payload) and three configuration flags.
///
/// Node identities are handed out by an explicit sequential generator owned
/// by the graph (`next_id`), so creation is deterministic and an identity is
/// never reused: every stored identity is below `next_id`, and the counter
/// only grows.
///
/// Removing a node erases only its own mapping entry; adjacency entries of
/// other nodes and edge-mapping entries that reference the removed identity
/// stay behind. This lazy-deletion policy is deliberate: every traversal
/// re-checks existence when it follows an edge under tracking mode, and
/// callers must treat adjacency entries as potentially stale.
#[derive(Debug)]
pub struct Graph<E: GraphEdge, N: GraphNode> {
    nodes: Vec<N>,
    edges: Vec<(Eid, E)>,
    is_weighted: bool,
    is_directed: bool,
    is_tracking: bool,
    next_id: Nid,
}

impl<E: GraphEdge, N: GraphNode> Graph<E, N> {
    /// The stored nodes, in insertion order.
    pub closed spec fn nodes_seq(&self) -> Seq<N> {
        self.nodes@
    }

    /// The stored edges, in insertion order, keyed by (from, to).
    pub closed spec fn edges_seq(&self) -> Seq<(Eid, E)> {
        self.edges@
    }

    /// Whether edges are one-way (`true`) or mirrored (`false`).
    pub closed spec fn directed_spec(&self) -> bool {
        self.is_directed
    }

    /// Whether edge payloads are meant as weights.
    pub closed spec fn weighted_spec(&self) -> bool {
        self.is_weighted
    }

    /// Whether incoming adjacency is recorded per node.
    pub closed spec fn tracking_spec(&self) -> bool {
        self.is_tracking
    }

    /// The next identity the generator will hand out.
    pub closed spec fn next_id_spec(&self) -> Nid {
        self.next_id
    }

    /// No two stored nodes share an identity.
    pub open spec fn node_ids_unique(&self) -> bool {
        forall|i: int, j: int|
            0 <= i < j < self.nodes_seq().len() ==> #[trigger] self.nodes_seq()[i].id_spec()
                != #[trigger] self.nodes_seq()[j].id_spec()
    }

    /// Every stored adjacency sequence is duplicate-free.
    pub open spec fn adjacency_clean(&self) -> bool {
        forall|i: int|
            0 <= i < self.nodes_seq().len() ==> (#[trigger] self.nodes_seq()[i]).to_spec().no_duplicates()
                && self.nodes_seq()[i].from_spec().no_duplicates()
    }

    /// No two stored edges share a key.
    pub open spec fn edge_keys_unique(&self) -> bool {
        forall|i: int, j: int|
            0 <= i < j < self.edges_seq().len() ==> #[trigger] self.edges_seq()[i].0
                != #[trigger] self.edges_seq()[j].0
    }

    /// Every stored identity is below the generator's counter, so a fresh
    /// identity can never collide with a stored one.
    pub open spec fn ids_below_next(&self) -> bool {
        forall|i: int|
            0 <= i < self.nodes_seq().len() ==> #[trigger] self.nodes_seq()[i].id_spec()
                < self.next_id_spec()
    }

    /// The graph's invariant: constructors establish it and every operation
    /// preserves it.
    pub open spec fn wf(&self) -> bool {
        &&& self.node_ids_unique()
        &&& self.adjacency_clean()
        &&& self.edge_keys_unique()
        &&& self.ids_below_next()
    }

    /// Whether the generator can still hand out an identity.
    pub open spec fn id_headroom(&self) -> bool {
        self.next_id_spec() < Nid::MAX
    }

    /// Whether a node with identity `n` is stored.
    pub open spec fn has_node(&self, n: Nid) -> bool {
        exists|i: int|
            0 <= i < self.nodes_seq().len() && #[trigger] self.nodes_seq()[i].id_spec() == n
    }

    /// The position of the node with identity `n` (meaningful only when
    /// `has_node(n)`).
    pub open spec fn node_idx_of(&self, n: Nid) -> int {
        choose|i: int|
            0 <= i < self.nodes_seq().len() && #[trigger] self.nodes_seq()[i].id_spec() == n
    }

    /// The stored node with identity `n` (meaningful only when
    /// `has_node(n)`).
    pub open spec fn node_of(&self, n: Nid) -> N {
        self.nodes_seq()[self.node_idx_of(n)]
    }

    /// The outgoing neighbours of the node with identity `n`.
    pub open spec fn succ(&self, n: Nid) -> Seq<Nid> {
        self.node_of(n).to_spec()
    }

    /// The incoming neighbours of the node with identity `n`.
    pub open spec fn pred(&self, n: Nid) -> Seq<Nid> {
        self.node_of(n).from_spec()
    }

    /// Whether an edge with key `e` is stored.
    pub open spec fn has_edge(&self, e: Eid) -> bool {
        exists|i: int| 0 <= i < self.edges_seq().len() && (#[trigger] self.edges_seq()[i]).0 == e
    }

    /// The position of the edge with key `e` (meaningful only when
    /// `has_edge(e)`).
    pub open spec fn edge_idx_of(&self, e: Eid) -> int {
        choose|i: int| 0 <= i < self.edges_seq().len() && (#[trigger] self.edges_seq()[i]).0 == e
    }

    /// The payload of the edge with key `e` (meaningful only when
    /// `has_edge(e)`).
    pub open spec fn edge_of(&self, e: Eid) -> E {
        self.edges_seq()[self.edge_idx_of(e)].1
    }

    /// The stored node at position `i` is the one its identity looks up.
    pub proof fn lemma_node_at(&self, i: int)
        requires
            self.node_ids_unique(),
            0 <= i < self.nodes_seq().len(),
        ensures
            self.has_node(self.nodes_seq()[i].id_spec()),
            self.node_idx_of(self.nodes_seq()[i].id_spec()) == i,
            self.node_of(self.nodes_seq()[i].id_spec()) == self.nodes_seq()[i],
    {
        let n = self.nodes_seq()[i].id_spec();
        assert(self.has_node(n));
        let j = self.node_idx_of(n);
        assert(0 <= j < self.nodes_seq().len() && self.nodes_seq()[j].id_spec() == n);
    }

    /// A looked-up node is in range and carries the identity it was looked
    /// up under.
    pub proof fn lemma_node_of_id(&self, n: Nid)
        requires
            self.has_node(n),
        ensures
            0 <= self.node_idx_of(n) < self.nodes_seq().len(),
            self.node_of(n).id_spec() == n,
    {
    }

    /// The stored edge at position `i` is the one its key looks up.
    pub proof fn lemma_edge_at(&self, i: int)
        requires
            self.edge_keys_unique(),
            0 <= i < self.edges_seq().len(),
        ensures
            self.has_edge(self.edges_seq()[i].0),
            self.edge_idx_of(self.edges_seq()[i].0) == i,
            self.edge_of(self.edges_seq()[i].0) == self.edges_seq()[i].1,
    {
        let e = self.edges_seq()[i].0;
        assert(self.has_edge(e));
        let j = self.edge_idx_of(e);
        assert(0 <= j < self.edges_seq().len() && self.edges_seq()[j].0 == e);
    }

    /// The position of the stored node with identity `n`, by linear scan.
    fn find_node_idx(&self, n: Nid) -> (r: Option<usize>)
        ensures
            match r {
                Some(i) => i < self.nodes_seq().len() && self.nodes_seq()[i as int].id_spec()
                    == n,
                None => !self.has_node(n),
            },
    {
        let mut i: usize = 0;
        while i < self.nodes.len()
            invariant
                0 <= i <= self.nodes_seq().len(),
                forall|j: int| 0 <= j < i ==> #[trigger] self.nodes_seq()[j].id_spec() != n,
            decreases self.nodes_seq().len() - i,
        {
            if self.nodes[i].get_base().get_id() == n {
                return Some(i);
            }
            i = i + 1;
        }
        proof {
            if self.has_node(n) {
                let j = self.node_idx_of(n);
                assert(self.nodes_seq()[j].id_spec() == n);
            }
        }
        None
    }

    /// The position of the stored edge with key `e`, by linear scan.
    fn find_edge_idx(&self, e: Eid) -> (r: Option<usize>)
        ensures
            match r {
                Some(i) => i < self.edges_seq().len() && self.edges_seq()[i as int].0 == e,
                None => !self.has_edge(e),
            },
    {
        let mut i: usize = 0;
        while i < self.edges.len()
            invariant
                0 <= i <= self.edges_seq().len(),
                forall|j: int| 0 <= j < i ==> (#[trigger] self.edges_seq()[j]).0 != e,
            decreases self.edges_seq().len() - i,
        {
            if self.edges[i].0.0 == e.0 && self.edges[i].0.1 == e.1 {
                proof {
                    assert(self.edges_seq()[i as int].0 == e);
                }
                return Some(i);
            }
            i = i + 1;
        }
        proof {
            if self.has_edge(e) {
                let j = self.edge_idx_of(e);
                assert(self.edges_seq()[j].0 == e);
            }
        }
        None
    }

    /// An empty graph: directed, unweighted, not tracking reverse edges.
    pub fn default() -> (g: Graph<E, N>)
        ensures
            g.wf(),
            g.id_headroom(),
            g.nodes_seq().len() == 0,
            g.edges_seq().len() == 0,
            g.directed_spec(),
            !g.weighted_spec(),
            !g.tracking_spec(),
            g.next_id_spec() == 0,
    {
        Graph {
            nodes: Vec::new(),
            edges: Vec::new(),
            is_weighted: false,
            is_directed: true,
            is_tracking: false,
            next_id: 0,
        }
    }

    /// The stored node with identity `n`, or absent when there is none.
    pub fn get_node(&self, n: Nid) -> (r: Option<&N>)
        requires
            self.wf(),
        ensures
            match r {
                Some(node) => self.has_node(n) && *node == self.node_of(n) && node.id_spec()
                    == n,
                None => !self.has_node(n),
            },
    {
        match self.find_node_idx(n) {
            Some(i) => {
                proof {
                    self.lemma_node_at(i as int);
                }
                Some(&self.nodes[i])
            },
            None => None,
        }
    }

    /// The payload of the edge (from, to), or absent when there is none.
    pub fn get_edge(&self, e: Eid) -> (r: Option<&E>)
        requires
            self.wf(),
        ensures
            match r {
                Some(p) => self.has_edge(e) && *p == self.edge_of(e),
                None => !self.has_edge(e),
            },
    {
        match self.find_edge_idx(e) {
            Some(i) => {
                proof {
                    self.lemma_edge_at(i as int);
                }
                Some(&self.edges[i].1)
            },
            None => None,
        }
    }

    /// A mutable borrow of the stored node with identity `n`, or absent
    /// when there is none. The graph afterwards holds whatever the caller
    /// left behind the borrow; the invariant survives exactly when the
    /// caller kept the node's identity and duplicate-free adjacency.
    pub fn get_node_mut(&mut self, n: Nid) -> (r: Option<&mut N>)
        requires
            old(self).wf(),
        ensures
            (r is Some) == old(self).has_node(n),
            r matches Some(node) ==> *node == old(self).node_of(n) && final(self).nodes_seq()
                == old(self).nodes_seq().update(old(self).node_idx_of(n), *final(node))
                && final(self).edges_seq() == old(self).edges_seq() && final(self).directed_spec() == old(self).directed_spec() && final(self).weighted_spec() == old(self).weighted_spec() && final(self).tracking_spec() == old(self).tracking_spec()
                && final(self).next_id_spec() == old(self).next_id_spec(),
            r is None ==> *final(self) == *old(self),
    {
        match self.find_node_idx(n) {
            Option::Some(i) => {
                proof {
                    old(self).lemma_node_at(i as int);
                }
                Option::Some(elem_at_mut(&mut self.nodes, i))
            },
            Option::None => Option::None,
        }
    }

    /// A mutable borrow of the payload of edge `e`, or absent when there
    /// is none. The edge keeps its key; its payload afterwards is whatever
    /// the caller left behind the borrow.
    pub fn get_edge_mut(&mut self, e: Eid) -> (r: Option<&mut E>)
        requires
            old(self).wf(),
        ensures
            (r is Some) == old(self).has_edge(e),
            r matches Some(p) ==> *p == old(self).edge_of(e) && final(self).edges_seq() == old(self).edges_seq().update(
                old(self).edge_idx_of(e),
                (e, *final(p)),
            ) && final(self).nodes_seq() == old(self).nodes_seq() && final(self).directed_spec()
                == old(self).directed_spec() && final(self).weighted_spec() == old(self).weighted_spec()
                && final(self).tracking_spec() == old(self).tracking_spec() && final(self).next_id_spec()
                == old(self).next_id_spec(),
            r is None ==> *final(self) == *old(self),
    {
        match self.find_edge_idx(e) {
            Option::Some(i) => {
                proof {
                    old(self).lemma_edge_at(i as int);
                }
                let slot = elem_at_mut(&mut self.edges, i);
                Option::Some(&mut slot.1)
            },
            Option::None => Option::None,
        }
    }

    /// Create a node with a fresh identity and default payload, store it
    /// and return its identity. The fresh identity is the generator's
    /// counter, which then advances; it never collides with a stored one.
    pub fn new_node(&mut self) -> (r: Nid)
        requires
            old(self).wf(),
            old(self).id_headroom(),
        ensures
            final(self).wf(),
            r == old(self).next_id_spec(),
            !old(self).has_node(r),
            final(self).has_node(r),
            final(self).node_of(r).id_spec() == r,
            final(self).succ(r).len() == 0,
            final(self).pred(r).len() == 0,
            final(self).node_of(r).name_spec().len() == 0,
            final(self).node_of(r).pos_spec() == (0i64, 0i64),
            forall|m: Nid| m != r ==> final(self).has_node(m) == old(self).has_node(m),
            forall|m: Nid|
                m != r && old(self).has_node(m) ==> final(self).node_of(m) == old(self).node_of(
                    m,
                ),
            final(self).edges_seq() == old(self).edges_seq(),
            final(self).directed_spec() == old(self).directed_spec(),
            final(self).weighted_spec() == old(self).weighted_spec(),
            final(self).tracking_spec() == old(self).tracking_spec(),
            final(self).next_id_spec() == old(self).next_id_spec() + 1,
    {
        let nid = self.next_id;
        proof {
            if old(self).has_node(nid) {
                let j = old(self).node_idx_of(nid);
                assert(old(self).nodes_seq()[j].id_spec() == nid);
            }
        }
        self.next_id = self.next_id + 1;
        let node = N::with_id(nid);
        self.nodes.push(node);
        proof {
            let pre = old(self).nodes_seq();
            let post = self.nodes_seq();
            assert(post == pre.push(node));
            assert(post[pre.len() as int] == node);
            assert forall|i: int| 0 <= i < pre.len() implies post[i] == pre[i] by {}
            assert forall|i1: int, i2: int|
                0 <= i1 < i2 < post.len() implies #[trigger] post[i1].id_spec()
                != #[trigger] post[i2].id_spec() by {
                if i2 == pre.len() {
                    assert(pre[i1].id_spec() < old(self).next_id_spec());
                } else {
                    assert(pre[i1].id_spec() != pre[i2].id_spec());
                }
            }
            assert forall|k: int|
                0 <= k < post.len() implies (#[trigger] post[k].to_spec()).no_duplicates()
                && post[k].from_spec().no_duplicates() && post[k].id_spec()
                < self.next_id_spec() by {
                if k < pre.len() {
                    assert(post[k] == pre[k]);
                    assert(pre[k].id_spec() < old(self).next_id_spec());
                } else {
                    assert(post[k] == node);
                    assert(node.to_spec().len() == 0);
                    assert(node.from_spec().len() == 0);
                    assert(node.id_spec() == nid);
                }
            }
            assert forall|i1: int, i2: int|
                0 <= i1 < i2 < self.edges_seq().len() implies #[trigger] self.edges_seq()[i1].0
                != #[trigger] self.edges_seq()[i2].0 by {
                assert(self.edges_seq()[i1] == old(self).edges_seq()[i1]);
                assert(self.edges_seq()[i2] == old(self).edges_seq()[i2]);
            }
            self.lemma_node_at(pre.len() as int);
            assert forall|m: Nid| m != nid && old(self).has_node(m) implies final(self).has_node(
                m,
            ) && final(self).node_of(m) == old(self).node_of(m) by {
                let j = old(self).node_idx_of(m);
                old(self).lemma_node_at(j);
                self.lemma_node_at(j);
            }
            assert forall|m: Nid| m != nid && final(self).has_node(m) implies old(self).has_node(
                m,
            ) by {
                let j = self.node_idx_of(m);
                assert(self.nodes_seq()[j].id_spec() == m);
                assert(j < pre.len());
                old(self).lemma_node_at(j);
            }
        }
        nid
    }

    /// Store a caller-constructed node under its own identity and return
    /// that identity; reject an identity that is already present. On
    /// success the generator's counter is advanced past the new identity,
    /// so it will never be handed out again.
    pub fn add_node(&mut self, node: N) -> (r: Result<Nid, GraphErr>)
        requires
            old(self).wf(),
            node.to_spec().no_duplicates(),
            node.from_spec().no_duplicates(),
            node.id_spec() < Nid::MAX,
        ensures
            final(self).wf(),
            r == Err::<Nid, GraphErr>(GraphErr::DuplicateIdentity) <==> old(self).has_node(
                node.id_spec(),
            ),
            (r is Ok) <==> !old(self).has_node(node.id_spec()),
            r is Err ==> *final(self) == *old(self),
            r matches Ok(nid) ==> {
                &&& nid == node.id_spec()
                &&& final(self).has_node(nid)
                &&& final(self).node_of(nid) == node
                &&& forall|m: Nid| m != nid ==> final(self).has_node(m) == old(self).has_node(m)
                &&& forall|m: Nid|
                    m != nid && old(self).has_node(m) ==> final(self).node_of(m) == old(self).node_of(m)
                &&& final(self).edges_seq() == old(self).edges_seq()
                &&& final(self).directed_spec() == old(self).directed_spec()
                &&& final(self).weighted_spec() == old(self).weighted_spec()
                &&& final(self).tracking_spec() == old(self).tracking_spec()
            },
    {
        let nid = node.get_base().get_id();
        if self.find_node_idx(nid).is_some() {
            return Err(GraphErr::DuplicateIdentity);
        }
        if nid + 1 > self.next_id {
            self.next_id = nid + 1;
        }
        self.nodes.push(node);
        proof {
            let pre = old(self).nodes_seq();
            let post = self.nodes_seq();
            assert(post == pre.push(node));
            assert(post[pre.len() as int] == node);
            assert forall|i: int| 0 <= i < pre.len() implies post[i] == pre[i] by {}
            assert forall|i1: int, i2: int|
                0 <= i1 < i2 < post.len() implies #[trigger] post[i1].id_spec()
                != #[trigger] post[i2].id_spec() by {
                if i2 == pre.len() {
                    if pre[i1].id_spec() == nid {
                        old(self).lemma_node_at(i1);
                    }
                } else {
                    assert(pre[i1].id_spec() != pre[i2].id_spec());
                }
            }
            assert forall|k: int|
                0 <= k < post.len() implies (#[trigger] post[k].to_spec()).no_duplicates()
                && post[k].from_spec().no_duplicates() by {
                if k < pre.len() {
                    assert(post[k] == pre[k]);
                } else {
                    assert(post[k] == node);
                }
            }
            assert forall|k: int|
                0 <= k < post.len() implies #[trigger] post[k].id_spec() < self.next_id_spec() by {
                if k < pre.len() {
                    assert(post[k] == pre[k]);
                    assert(pre[k].id_spec() < old(self).next_id_spec());
                    assert(old(self).next_id_spec() <= self.next_id_spec());
                } else {
                    assert(post[k] == node);
                    assert(node.id_spec() < self.next_id_spec());
                }
            }
            assert forall|i1: int, i2: int|
                0 <= i1 < i2 < self.edges_seq().len() implies #[trigger] self.edges_seq()[i1].0
                != #[trigger] self.edges_seq()[i2].0 by {
                assert(self.edges_seq()[i1] == old(self).edges_seq()[i1]);
                assert(self.edges_seq()[i2] == old(self).edges_seq()[i2]);
            }
            self.lemma_node_at(pre.len() as int);
            assert forall|m: Nid| m != nid && old(self).has_node(m) implies final(self).has_node(
                m,
            ) && final(self).node_of(m) == old(self).node_of(m) by {
                let j = old(self).node_idx_of(m);
                old(self).lemma_node_at(j);
                self.lemma_node_at(j);
            }
            assert forall|m: Nid| m != nid && final(self).has_node(m) implies old(self).has_node(
                m,
            ) by {
                let j = self.node_idx_of(m);
                assert(self.nodes_seq()[j].id_spec() == m);
                assert(j < pre.len());
                old(self).lemma_node_at(j);
            }
        }
        Ok(nid)
    }

    /// Delete the node-mapping entry for `n` and return the removed node,
    /// or absent when there is none. Edges and other nodes' adjacency
    /// entries that reference `n` are left behind (lazy deletion).
    pub fn remove(&mut self, n: Nid) -> (r: Option<N>)
        requires
            old(self).wf(),
        ensures
            final(self).wf(),
            r is Some <==> old(self).has_node(n),
            r is None ==> *final(self) == *old(self),
            r matches Some(node) ==> {
                &&& node == old(self).node_of(n)
                &&& node.id_spec() == n
                &&& !final(self).has_node(n)
                &&& forall|m: Nid| m != n ==> final(self).has_node(m) == old(self).has_node(m)
                &&& forall|m: Nid|
                    m != n && old(self).has_node(m) ==> final(self).node_of(m) == old(self).node_of(m)
                &&& final(self).edges_seq() == old(self).edges_seq()
                &&& final(self).directed_spec() == old(self).directed_spec()
                &&& final(self).weighted_spec() == old(self).weighted_spec()
                &&& final(self).tracking_spec() == old(self).tracking_spec()
                &&& final(self).next_id_spec() == old(self).next_id_spec()
            },
    {
        match self.find_node_idx(n) {
            Some(i) => {
                proof {
                    old(self).lemma_node_at(i as int);
                }
                let node = self.nodes.remove(i);
                proof {
                    let pre = old(self).nodes_seq();
                    let post = self.nodes_seq();
                    pre.remove_ensures(i as int);
                    assert forall|i1: int, i2: int|
                        0 <= i1 < i2 < self.edges_seq().len() implies #[trigger] self.edges_seq()[i1].0
                        != #[trigger] self.edges_seq()[i2].0 by {
                        assert(self.edges_seq()[i1] == old(self).edges_seq()[i1]);
                        assert(self.edges_seq()[i2] == old(self).edges_seq()[i2]);
                    }

                    assert forall|i1: int, i2: int|
                        0 <= i1 < i2 < post.len() implies #[trigger] post[i1].id_spec()
                        != #[trigger] post[i2].id_spec() by {
                        let o1: int = if i1 < i { i1 } else { i1 + 1 };
                        let o2: int = if i2 < i { i2 } else { i2 + 1 };
                        assert(post[i1] == pre[o1]);
                        assert(post[i2] == pre[o2]);
                    }
                    assert forall|k: int|
                        0 <= k < post.len() implies (#[trigger] post[k].to_spec()).no_duplicates() by {
                        let o: int = if k < i { k } else { k + 1 };
                        assert(post[k] == pre[o]);
                        assert(pre[o].to_spec().no_duplicates());
                    }
                    assert forall|k: int|
                        0 <= k < post.len() implies (#[trigger] post[k].from_spec()).no_duplicates() by {
                        let o: int = if k < i { k } else { k + 1 };
                        assert(post[k] == pre[o]);
                        assert(pre[o].from_spec().no_duplicates());
                    }
                    assert(final(self).adjacency_clean());
                    assert forall|k: int|
                        0 <= k < post.len() implies #[trigger] post[k].id_spec()
                        < self.next_id_spec() by {
                        let o: int = if k < i { k } else { k + 1 };
                        assert(post[k] == pre[o]);
                        assert(pre[o].id_spec() < old(self).next_id_spec());
                    }
                    assert(!final(self).has_node(n)) by {
                        if final(self).has_node(n) {
                            let j = self.node_idx_of(n);
                            let oj: int = if j < i { j } else { j + 1 };
                            assert(post[j] == pre[oj]);
                            assert(oj != i);
                        }
                    }
                    assert forall|m: Nid| m != n && old(self).has_node(m) implies final(self).has_node(m) && final(self).node_of(m) == old(self).node_of(m) by {
                        let j = old(self).node_idx_of(m);
                        old(self).lemma_node_at(j);
                        assert(j != i);
                        let nj: int = if j < i { j } else { j - 1 };
                        assert(post[nj] == pre[j]);
                        self.lemma_node_at(nj);
                    }
                    assert forall|m: Nid| m != n && final(self).has_node(m) implies old(self).has_node(m) by {
                        let j = self.node_idx_of(m);
                        assert(post[j].id_spec() == m);
                        let oj: int = if j < i { j } else { j + 1 };
                        assert(post[j] == pre[oj]);
                        old(self).lemma_node_at(oj);
                    }
                }
                Some(node)
            },
            None => None,
        }
    }

    /// After replacing the node at position `i` by one with the same
    /// identity and clean adjacency, the model maps every other identity to
    /// the node it mapped to before.
    proof fn lemma_node_update(g1: Self, g2: Self, i: int)
        requires
            g1.wf(),
            0 <= i < g1.nodes_seq().len(),
            g2.nodes_seq() == g1.nodes_seq().update(i, g2.nodes_seq()[i]),
            g2.nodes_seq()[i].id_spec() == g1.nodes_seq()[i].id_spec(),
            g2.nodes_seq()[i].to_spec().no_duplicates(),
            g2.nodes_seq()[i].from_spec().no_duplicates(),
            g2.edges_seq() == g1.edges_seq(),
            g2.next_id_spec() == g1.next_id_spec(),
        ensures
            g2.wf(),
            forall|m: Nid| g2.has_node(m) == g1.has_node(m),
            g2.node_of(g1.nodes_seq()[i].id_spec()) == g2.nodes_seq()[i],
            g1.node_of(g1.nodes_seq()[i].id_spec()) == g1.nodes_seq()[i],
            forall|m: Nid|
                m != g1.nodes_seq()[i].id_spec() && g1.has_node(m) ==> g2.node_of(m)
                    == g1.node_of(m),
    {
        let pre = g1.nodes_seq();
        let post = g2.nodes_seq();
        let nid = pre[i].id_spec();
        assert(post.len() == pre.len());
        assert forall|k: int| 0 <= k < pre.len() implies #[trigger] post[k].id_spec()
            == pre[k].id_spec() by {
            if k != i {
                assert(post[k] == pre[k]);
            }
        }
        assert forall|i1: int, i2: int|
            0 <= i1 < i2 < post.len() implies #[trigger] post[i1].id_spec()
            != #[trigger] post[i2].id_spec() by {
            assert(pre[i1].id_spec() != pre[i2].id_spec());
        }
        assert forall|k: int|
            0 <= k < post.len() implies (#[trigger] post[k]).to_spec().no_duplicates()
            && post[k].from_spec().no_duplicates() by {
            if k != i {
                assert(post[k] == pre[k]);
            }
        }
        assert forall|k: int| 0 <= k < post.len() implies #[trigger] post[k].id_spec()
            < g2.next_id_spec() by {
            assert(post[k].id_spec() == pre[k].id_spec());
        }
        assert forall|i1: int, i2: int|
            0 <= i1 < i2 < g2.edges_seq().len() implies #[trigger] g2.edges_seq()[i1].0
            != #[trigger] g2.edges_seq()[i2].0 by {
            assert(g2.edges_seq()[i1] == g1.edges_seq()[i1]);
            assert(g2.edges_seq()[i2] == g1.edges_seq()[i2]);
        }
        assert forall|m: Nid| g2.has_node(m) == g1.has_node(m) by {
            if g1.has_node(m) {
                let j = g1.node_idx_of(m);
                assert(pre[j].id_spec() == m);
                g2.lemma_node_at(j);
            }
            if g2.has_node(m) {
                let j = g2.node_idx_of(m);
                assert(post[j].id_spec() == m);
                g1.lemma_node_at(j);
            }
        }
        g1.lemma_node_at(i);
        g2.lemma_node_at(i);
        assert forall|m: Nid| m != nid && g1.has_node(m) implies g2.node_of(m) == g1.node_of(
            m,
        ) by {
            let j = g1.node_idx_of(m);
            g1.lemma_node_at(j);
            assert(j != i);
            assert(post[j] == pre[j]);
            g2.lemma_node_at(j);
        }
    }

    /// Store payload `e` under edge key `key`, overwriting a previous
    /// payload under the same key; every other edge entry stays as it was.
    fn upsert_edge(&mut self, key: Eid, e: E)
        requires
            old(self).edge_keys_unique(),
        ensures
            final(self).nodes_seq() == old(self).nodes_seq(),
            final(self).directed_spec() == old(self).directed_spec(),
            final(self).weighted_spec() == old(self).weighted_spec(),
            final(self).tracking_spec() == old(self).tracking_spec(),
            final(self).next_id_spec() == old(self).next_id_spec(),
            final(self).edge_keys_unique(),
            final(self).has_edge(key),
            final(self).edge_of(key) == e,
            forall|k: Eid| k != key ==> final(self).has_edge(k) == old(self).has_edge(k),
            forall|k: Eid|
                k != key && old(self).has_edge(k) ==> final(self).edge_of(k) == old(self).edge_of(k),
    {
        match self.find_edge_idx(key) {
            Some(i) => {
                proof {
                    old(self).lemma_edge_at(i as int);
                }
                let slot = elem_at_mut(&mut self.edges, i);
                *slot = (key, e);
                proof {
                    let pre = old(self).edges_seq();
                    let post = self.edges_seq();
                    assert(post == pre.update(i as int, (key, e)));
                    assert forall|k: int| 0 <= k < pre.len() implies (#[trigger] post[k]).0
                        == pre[k].0 by {
                        if k != i {
                            assert(post[k] == pre[k]);
                        }
                    }
                    assert forall|i1: int, i2: int|
                        0 <= i1 < i2 < post.len() implies #[trigger] post[i1].0
                        != #[trigger] post[i2].0 by {
                        assert(post[i1].0 == pre[i1].0);
                        assert(post[i2].0 == pre[i2].0);
                    }
                    self.lemma_edge_at(i as int);
                    assert forall|k: Eid| k != key && old(self).has_edge(k) implies final(self).has_edge(k) && final(self).edge_of(k) == old(self).edge_of(k) by {
                        let j = old(self).edge_idx_of(k);
                        old(self).lemma_edge_at(j);
                        assert(j != i);
                        assert(post[j] == pre[j]);
                        self.lemma_edge_at(j);
                    }
                    assert forall|k: Eid| k != key && final(self).has_edge(k) implies old(self).has_edge(k) by {
                        let j = self.edge_idx_of(k);
                        assert(post[j].0 == k);
                        assert(pre[j].0 == k);
                        old(self).lemma_edge_at(j);
                    }
                }
            },
            None => {
                self.edges.push((key, e));
                proof {
                    let pre = old(self).edges_seq();
                    let post = self.edges_seq();
                    assert(post == pre.push((key, e)));
                    assert(post[pre.len() as int] == (key, e));
                    assert forall|k: int| 0 <= k < pre.len() implies post[k] == pre[k] by {}
                    assert forall|j: int| 0 <= j < pre.len() implies (#[trigger] pre[j]).0
                        != key by {
                        if pre[j].0 == key {
                            old(self).lemma_edge_at(j);
                        }
                    }
                    assert forall|i1: int, i2: int|
                        0 <= i1 < i2 < post.len() implies #[trigger] post[i1].0
                        != #[trigger] post[i2].0 by {
                        if i2 == pre.len() {
                            assert(post[i1].0 == pre[i1].0);
                        } else {
                            assert(pre[i1].0 != pre[i2].0);
                        }
                    }
                    self.lemma_edge_at(pre.len() as int);
                    assert forall|k: Eid| k != key && old(self).has_edge(k) implies final(self).has_edge(k) && final(self).edge_of(k) == old(self).edge_of(k) by {
                        let j = old(self).edge_idx_of(k);
                        old(self).lemma_edge_at(j);
                        assert(post[j] == pre[j]);
                        self.lemma_edge_at(j);
                    }
                    assert forall|k: Eid| k != key && final(self).has_edge(k) implies old(self).has_edge(k) by {
                        let j = self.edge_idx_of(k);
                        assert(post[j].0 == k);
                        assert(j < pre.len());
                        old(self).lemma_edge_at(j);
                    }
                }
            },
        }
    }

    /// Delete the edge entry under `key`; a no-op when there is none. Every
    /// other edge entry stays as it was.
    fn remove_edge_key(&mut self, key: Eid)
        requires
            old(self).edge_keys_unique(),
        ensures
            final(self).nodes_seq() == old(self).nodes_seq(),
            final(self).directed_spec() == old(self).directed_spec(),
            final(self).weighted_spec() == old(self).weighted_spec(),
            final(self).tracking_spec() == old(self).tracking_spec(),
            final(self).next_id_spec() == old(self).next_id_spec(),
            final(self).edge_keys_unique(),
            !final(self).has_edge(key),
            forall|k: Eid| k != key ==> final(self).has_edge(k) == old(self).has_edge(k),
            forall|k: Eid|
                k != key && old(self).has_edge(k) ==> final(self).edge_of(k) == old(self).edge_of(k),
    {
        match self.find_edge_idx(key) {
            Some(i) => {
                proof {
                    old(self).lemma_edge_at(i as int);
                }
                let _ = self.edges.remove(i);
                proof {
                    let pre = old(self).edges_seq();
                    let post = self.edges_seq();
                    pre.remove_ensures(i as int);
                    assert forall|i1: int, i2: int|
                        0 <= i1 < i2 < post.len() implies #[trigger] post[i1].0
                        != #[trigger] post[i2].0 by {
                        let o1: int = if i1 < i { i1 } else { i1 + 1 };
                        let o2: int = if i2 < i { i2 } else { i2 + 1 };
                        assert(post[i1] == pre[o1]);
                        assert(post[i2] == pre[o2]);
                    }
                    assert(!final(self).has_edge(key)) by {
                        if final(self).has_edge(key) {
                            let j = self.edge_idx_of(key);
                            let oj: int = if j < i { j } else { j + 1 };
                            assert(post[j] == pre[oj]);
                            assert(oj != i);
                            old(self).lemma_edge_at(oj);
                        }
                    }
                    assert forall|k: Eid| k != key && old(self).has_edge(k) implies final(self).has_edge(k) && final(self).edge_of(k) == old(self).edge_of(k) by {
                        let j = old(self).edge_idx_of(k);
                        old(self).lemma_edge_at(j);
                        assert(j != i);
                        let nj: int = if j < i { j } else { j - 1 };
                        assert(post[nj] == pre[j]);
                        self.lemma_edge_at(nj);
                    }
                    assert forall|k: Eid| k != key && final(self).has_edge(k) implies old(self).has_edge(k) by {
                        let j = self.edge_idx_of(k);
                        assert(post[j].0 == k);
                        let oj: int = if j < i { j } else { j + 1 };
                        assert(post[j] == pre[oj]);
                        old(self).lemma_edge_at(oj);
                    }
                }
            },
            None => {},
        }
    }

    /// When a connection attempt from `from` to `to` succeeds: both nodes
    /// exist and the guard of `from`'s node accepts `to`'s node.
    pub open spec fn direct_allowed(&self, from: Nid, to: Nid) -> bool {
        &&& self.has_node(from)
        &&& self.has_node(to)
        &&& self.node_of(from).guard_spec(&self.node_of(to))
    }

    /// The outgoing set of node `m` after a successful connection from
    /// `from` to `to`: `from` gains `to`, and when the graph is undirected
    /// `to` also gains `from`.
    pub open spec fn succ_after_direct(&self, from: Nid, to: Nid, m: Nid) -> Seq<Nid> {
        let base = if m == from {
            adj_insert(self.succ(m), to)
        } else {
            self.succ(m)
        };
        if !self.directed_spec() && m == to {
            adj_insert(base, from)
        } else {
            base
        }
    }

    /// The incoming set of node `m` after a successful connection from
    /// `from` to `to`: under tracking, `to` gains `from`.
    pub open spec fn pred_after_direct(&self, from: Nid, to: Nid, m: Nid) -> Seq<Nid> {
        if self.tracking_spec() && m == to {
            adj_insert(self.pred(m), from)
        } else {
            self.pred(m)
        }
    }

    /// Whether disconnecting `from -> to` drops `x` from the outgoing set
    /// of node `m`: it drops `to` from `from`, and when the graph is
    /// undirected also `from` from `to`.
    pub open spec fn undirect_drops(&self, from: Nid, to: Nid, m: Nid, x: Nid) -> bool {
        (m == from && x == to) || (!self.directed_spec() && m == to && x == from)
    }

    /// After a disconnect of (from, to), every stored node keeps exactly
    /// the outgoing neighbours that were not dropped.
    pub open spec fn succ_after_undirect(g0: Self, g1: Self, from: Nid, to: Nid) -> bool {
        forall|m: Nid, x: Nid| #![trigger g1.succ(m).contains(x)]
            g0.has_node(m) ==> (g1.succ(m).contains(x) == (g0.succ(m).contains(x)
                && !g0.undirect_drops(from, to, m, x)))
    }

    /// After a disconnect of (from, to), every stored node keeps exactly
    /// the incoming neighbours that were not dropped: under tracking, `to`
    /// loses `from`.
    pub open spec fn pred_after_undirect(g0: Self, g1: Self, from: Nid, to: Nid) -> bool {
        forall|m: Nid, x: Nid| #![trigger g1.pred(m).contains(x)]
            g0.has_node(m) ==> (g1.pred(m).contains(x) == (g0.pred(m).contains(x) && !(
            g0.tracking_spec() && m == to && x == from)))
    }

    /// Every stored node keeps its name and position.
    pub open spec fn payload_kept(g0: Self, g1: Self) -> bool {
        forall|m: Nid| #![trigger g1.node_of(m)]
            g0.has_node(m) ==> g1.node_of(m).name_spec() == g0.node_of(m).name_spec()
                && g1.node_of(m).pos_spec() == g0.node_of(m).pos_spec()
    }

    /// Whether this graph tracks incoming adjacency.
    pub(crate) fn tracking_flag(&self) -> (r: bool)
        ensures
            r == self.tracking_spec(),
    {
        self.is_tracking
    }

    /// The identities of the stored nodes, in stored order.
    pub(crate) fn stored_ids(&self) -> (r: Vec<Nid>)
        ensures
            r@.len() == self.nodes_seq().len(),
            forall|i: int|
                0 <= i < r@.len() ==> r@[i] == #[trigger] self.nodes_seq()[i].id_spec(),
    {
        let mut r: Vec<Nid> = Vec::new();
        let mut i: usize = 0;
        while i < self.nodes.len()
            invariant
                0 <= i <= self.nodes_seq().len(),
                r@.len() == i,
                forall|j: int|
                    0 <= j < i ==> r@[j] == #[trigger] self.nodes_seq()[j].id_spec(),
            decreases self.nodes_seq().len() - i,
        {
            r.push(self.nodes[i].get_base().get_id());
            i = i + 1;
        }
        r
    }

    /// Configure whether edges are one-way; everything else is untouched.
    pub(crate) fn set_directed(&mut self, d: bool)
        ensures
            final(self).nodes_seq() == old(self).nodes_seq(),
            final(self).edges_seq() == old(self).edges_seq(),
            final(self).directed_spec() == d,
            final(self).weighted_spec() == old(self).weighted_spec(),
            final(self).tracking_spec() == old(self).tracking_spec(),
            final(self).next_id_spec() == old(self).next_id_spec(),
    {
        self.is_directed = d;
    }

    /// Configure whether payloads are weights; everything else is untouched.
    pub(crate) fn set_weighted(&mut self, w: bool)
        ensures
            final(self).nodes_seq() == old(self).nodes_seq(),
            final(self).edges_seq() == old(self).edges_seq(),
            final(self).directed_spec() == old(self).directed_spec(),
            final(self).weighted_spec() == w,
            final(self).tracking_spec() == old(self).tracking_spec(),
            final(self).next_id_spec() == old(self).next_id_spec(),
    {
        self.is_weighted = w;
    }

    /// Configure reverse-edge tracking; everything else is untouched.
    pub(crate) fn set_tracking(&mut self, t: bool)
        ensures
            final(self).nodes_seq() == old(self).nodes_seq(),
            final(self).edges_seq() == old(self).edges_seq(),
            final(self).directed_spec() == old(self).directed_spec(),
            final(self).weighted_spec() == old(self).weighted_spec(),
            final(self).tracking_spec() == t,
            final(self).next_id_spec() == old(self).next_id_spec(),
    {
        self.is_tracking = t;
    }

    /// Apply a read-only operation to every stored node. The iteration
    /// order is the storage order and must not be relied upon by callers.
    pub fn with_nodes<F: Fn(&N)>(&self, f: F)
        requires
            self.wf(),
            forall|m: Nid| self.has_node(m) ==> call_requires(f, (&self.node_of(m),)),
    {
        let mut i: usize = 0;
        while i < self.nodes.len()
            invariant
                self.wf(),
                0 <= i <= self.nodes_seq().len(),
                forall|m: Nid| self.has_node(m) ==> call_requires(f, (&self.node_of(m),)),
            decreases self.nodes_seq().len() - i,
        {
            proof {
                self.lemma_node_at(i as int);
            }
            f(&self.nodes[i]);
            i = i + 1;
        }
    }

    /// Replace every stored node by the image the operation gives for it,
    /// in storage order. The operation receives each node by value and
    /// hands back its replacement; it must promise to keep the node's
    /// identity and duplicate-free adjacency, so the set of stored
    /// identities and the graph's invariant survive the visit. Beyond
    /// that, what each replacement satisfies is exactly what the
    /// operation promises of its result.
    pub fn with_nodes_mut<F: Fn(N) -> N>(&mut self, f: F)
        requires
            old(self).wf(),
            forall|i: int|
                0 <= i < old(self).nodes_seq().len() ==> call_requires(
                    f,
                    (#[trigger] old(self).nodes_seq()[i],),
                ),
            visit_keeps_node::<N, F>(f),
        ensures
            final(self).wf(),
            final(self).nodes_seq().len() == old(self).nodes_seq().len(),
            forall|i: int|
                0 <= i < old(self).nodes_seq().len() ==> (#[trigger] final(self).nodes_seq()[i]).id_spec()
                    == old(self).nodes_seq()[i].id_spec(),
            forall|m: Nid| final(self).has_node(m) == old(self).has_node(m),
            forall|i: int|
                0 <= i < old(self).nodes_seq().len() ==> call_ensures(
                    f,
                    (old(self).nodes_seq()[i],),
                    #[trigger] final(self).nodes_seq()[i],
                ),
            final(self).edges_seq() == old(self).edges_seq(),
            final(self).directed_spec() == old(self).directed_spec(),
            final(self).weighted_spec() == old(self).weighted_spec(),
            final(self).tracking_spec() == old(self).tracking_spec(),
            final(self).next_id_spec() == old(self).next_id_spec(),
    {
        let ghost g0 = *old(self);
        let ghost orig = old(self).nodes_seq();
        let mut src: Vec<N> = Vec::new();
        core::mem::swap(&mut self.nodes, &mut src);
        while src.len() > 0
            invariant
                src@.len() <= orig.len(),
                self.nodes_seq().len() + src@.len() == orig.len(),
                forall|j: int|
                    0 <= j < src@.len() ==> src@[j] == orig[self.nodes_seq().len() + j],
                forall|i: int|
                    0 <= i < orig.len() ==> call_requires(f, (#[trigger] orig[i],)),
                visit_keeps_node::<N, F>(f),
                forall|i: int|
                    0 <= i < self.nodes_seq().len() ==> call_ensures(
                        f,
                        (orig[i],),
                        #[trigger] self.nodes_seq()[i],
                    ),
                forall|i: int|
                    0 <= i < self.nodes_seq().len() ==> (#[trigger] self.nodes_seq()[i]).id_spec()
                        == orig[i].id_spec(),
                self.edges_seq() == old(self).edges_seq(),
                self.directed_spec() == old(self).directed_spec(),
                self.weighted_spec() == old(self).weighted_spec(),
                self.tracking_spec() == old(self).tracking_spec(),
                self.next_id_spec() == old(self).next_id_spec(),
            decreases src@.len(),
        {
            let ghost done = self.nodes_seq().len();
            let node = src.remove(0);
            proof {
                assert(node == orig[done as int]);
            }
            let node2 = f(node);
            self.nodes.push(node2);
        }
        proof {
            assert(orig == g0.nodes_seq());
            assert(self.nodes_seq().len() == orig.len());
            assert forall|i1: int, i2: int|
                0 <= i1 < i2 < self.nodes_seq().len() implies #[trigger] self.nodes_seq()[i1].id_spec()
                != #[trigger] self.nodes_seq()[i2].id_spec() by {
                assert(g0.nodes_seq()[i1].id_spec() != g0.nodes_seq()[i2].id_spec());
                assert(self.nodes_seq()[i1].id_spec() == orig[i1].id_spec());
                assert(self.nodes_seq()[i2].id_spec() == orig[i2].id_spec());
            }
            assert forall|k: int|
                0 <= k < self.nodes_seq().len() implies (#[trigger] self.nodes_seq()[k]).to_spec().no_duplicates()
                && self.nodes_seq()[k].from_spec().no_duplicates() by {
                assert(call_ensures(f, (orig[k],), self.nodes_seq()[k]));
                assert((#[trigger] g0.nodes_seq()[k]).to_spec().no_duplicates());
                assert(g0.nodes_seq()[k].from_spec().no_duplicates());
            }
            assert forall|k: int|
                0 <= k < self.nodes_seq().len() implies #[trigger] self.nodes_seq()[k].id_spec()
                < self.next_id_spec() by {
                assert(self.nodes_seq()[k].id_spec() == orig[k].id_spec());
                assert(g0.nodes_seq()[k].id_spec() < g0.next_id_spec());
            }
            assert forall|i1: int, i2: int|
                0 <= i1 < i2 < self.edges_seq().len() implies #[trigger] self.edges_seq()[i1].0
                != #[trigger] self.edges_seq()[i2].0 by {
                assert(self.edges_seq()[i1] == g0.edges_seq()[i1]);
                assert(self.edges_seq()[i2] == g0.edges_seq()[i2]);
            }
            assert forall|m: Nid| self.has_node(m) == g0.has_node(m) by {
                if g0.has_node(m) {
                    let j = g0.node_idx_of(m);
                    assert(g0.nodes_seq()[j].id_spec() == m);
                    assert(self.nodes_seq()[j].id_spec() == m);
                }
                if self.has_node(m) {
                    let j = self.node_idx_of(m);
                    assert(self.nodes_seq()[j].id_spec() == m);
                    assert(g0.nodes_seq()[j].id_spec() == m);
                }
            }
        }
    }

    /// Composing the three adjacency removals of a disconnect gives the
    /// stated membership changes for every stored node.
    proof fn lemma_undirect_compose(
        g0: Self,
        g1: Self,
        g2: Self,
        g3: Self,
        gf: Self,
        from: Nid,
        to: Nid,
    )
        requires
            g0.wf(),
            g3.node_ids_unique(),
            forall|m: Nid| g1.has_node(m) == g0.has_node(m),
            forall|m: Nid| g2.has_node(m) == g1.has_node(m),
            forall|m: Nid| g3.has_node(m) == g2.has_node(m),
            gf.nodes_seq() == g3.nodes_seq(),
            g0.has_node(from) ==> {
                &&& !g1.node_of(from).to_spec().contains(to)
                &&& forall|y: Nid|
                    y != to ==> g1.node_of(from).to_spec().contains(y) == g0.succ(
                        from,
                    ).contains(y)
                &&& g1.node_of(from).from_spec() == g0.pred(from)
                &&& g1.node_of(from).name_spec() == g0.node_of(from).name_spec()
                &&& g1.node_of(from).pos_spec() == g0.node_of(from).pos_spec()
            },
            forall|m: Nid| m != from && g0.has_node(m) ==> g1.node_of(m) == g0.node_of(m),
            !g0.has_node(from) ==> g1 == g0,
            (g0.tracking_spec() && g0.has_node(to)) ==> {
                &&& !g2.node_of(to).from_spec().contains(from)
                &&& forall|y: Nid|
                    y != from ==> g2.node_of(to).from_spec().contains(y) == g1.pred(
                        to,
                    ).contains(y)
                &&& g2.node_of(to).to_spec() == g1.succ(to)
                &&& g2.node_of(to).name_spec() == g1.node_of(to).name_spec()
                &&& g2.node_of(to).pos_spec() == g1.node_of(to).pos_spec()
                &&& forall|m: Nid| m != to && g1.has_node(m) ==> g2.node_of(m) == g1.node_of(m)
            },
            !(g0.tracking_spec() && g0.has_node(to)) ==> g2 == g1,
            (!g0.directed_spec() && g0.has_node(to)) ==> {
                &&& !g3.node_of(to).to_spec().contains(from)
                &&& forall|y: Nid|
                    y != from ==> g3.node_of(to).to_spec().contains(y) == g2.succ(to).contains(
                        y,
                    )
                &&& g3.node_of(to).from_spec() == g2.pred(to)
                &&& g3.node_of(to).name_spec() == g2.node_of(to).name_spec()
                &&& g3.node_of(to).pos_spec() == g2.node_of(to).pos_spec()
                &&& forall|m: Nid| m != to && g2.has_node(m) ==> g3.node_of(m) == g2.node_of(m)
            },
            !(!g0.directed_spec() && g0.has_node(to)) ==> g3 == g2,
        ensures
            Self::succ_after_undirect(g0, gf, from, to),
            Self::pred_after_undirect(g0, gf, from, to),
            Self::payload_kept(g0, gf),
    {
        Self::lemma_nodes_eq(g3, gf);
        assert forall|m: Nid, x: Nid| #![trigger gf.succ(m).contains(x)]
            g0.has_node(m) implies (gf.succ(m).contains(x) == (
        g0.succ(m).contains(x) && !g0.undirect_drops(from, to, m, x))) by {
            assert(g1.has_node(m));
            assert(g2.has_node(m));
            assert(g3.has_node(m));
            assert(gf.node_of(m) == g3.node_of(m));
            if m != from && m != to {
                assert(g1.node_of(m) == g0.node_of(m));
                assert(g2.node_of(m) == g1.node_of(m));
                assert(g3.node_of(m) == g2.node_of(m));
                assert(gf.succ(m) == g0.succ(m));
            } else if m == from && m != to {
                assert(!g1.node_of(m).to_spec().contains(to));
                assert(forall|y: Nid|
                    y != to ==> g1.node_of(m).to_spec().contains(y) == g0.succ(m).contains(y));
                assert(g2.node_of(m) == g1.node_of(m));
                assert(g3.node_of(m) == g2.node_of(m));
                assert(gf.succ(m) == g1.node_of(m).to_spec());
                assert(!gf.succ(m).contains(to));
                assert forall|y: Nid| y != to implies gf.succ(m).contains(y) == g0.succ(
                    m,
                ).contains(y) by {
                    assert(g1.node_of(m).to_spec().contains(y) == g0.succ(m).contains(y));
                }
            } else if m == to && m != from {
                assert(g1.node_of(m) == g0.node_of(m));
                if g0.tracking_spec() {
                    assert(g2.node_of(m).to_spec() == g1.succ(m));
                } else {
                    assert(g2.node_of(m) == g1.node_of(m));
                }
                assert(g2.node_of(m).to_spec() == g0.succ(m));
                if !g0.directed_spec() {
                    assert(!g3.node_of(m).to_spec().contains(from));
                    assert(forall|y: Nid|
                        y != from ==> g3.node_of(m).to_spec().contains(y) == g2.succ(
                            m,
                        ).contains(y));
                    assert(gf.succ(m) == g3.node_of(m).to_spec());
                    assert(!gf.succ(m).contains(from));
                    assert forall|y: Nid|
                        y != from implies gf.succ(m).contains(y) == g0.succ(m).contains(y) by {
                        assert(g3.node_of(m).to_spec().contains(y) == g2.succ(m).contains(y));
                        assert(g2.succ(m) == g0.succ(m));
                    }
                } else {
                    assert(g3.node_of(m) == g2.node_of(m));
                    assert(gf.succ(m) == g0.succ(m));
                }
            } else {
                assert(m == from && m == to);
                assert(!g1.node_of(m).to_spec().contains(to));
                assert(forall|y: Nid|
                    y != to ==> g1.node_of(m).to_spec().contains(y) == g0.succ(m).contains(y));
                if g0.tracking_spec() {
                    assert(g2.node_of(m).to_spec() == g1.succ(m));
                } else {
                    assert(g2.node_of(m) == g1.node_of(m));
                }
                assert(g2.node_of(m).to_spec() == g1.node_of(m).to_spec());
                if !g0.directed_spec() {
                    assert(!g3.node_of(m).to_spec().contains(from));
                    assert(forall|y: Nid|
                        y != from ==> g3.node_of(m).to_spec().contains(y) == g2.succ(
                            m,
                        ).contains(y));
                } else {
                    assert(g3.node_of(m) == g2.node_of(m));
                }
                assert(gf.succ(m) == g3.node_of(m).to_spec());
                assert(!gf.succ(m).contains(to));
                assert forall|y: Nid|
                    y != to && y != from implies gf.succ(m).contains(y) == g0.succ(m).contains(
                    y,
                ) by {
                    if !g0.directed_spec() {
                        assert(g3.node_of(m).to_spec().contains(y) == g2.succ(m).contains(y));
                    }
                    assert(g2.node_of(m).to_spec().contains(y) == g1.node_of(m).to_spec().contains(y));
                    assert(g1.node_of(m).to_spec().contains(y) == g0.succ(m).contains(y));
                }
            }
        }
        assert forall|m: Nid, x: Nid| #![trigger gf.pred(m).contains(x)]
            g0.has_node(m) implies (gf.pred(m).contains(x) == (
        g0.pred(m).contains(x) && !(g0.tracking_spec() && m == to && x == from))) by {
            assert(g3.has_node(m));
            assert(gf.node_of(m) == g3.node_of(m));
            if m != to {
                if m == from && g0.has_node(from) {
                    assert(g1.node_of(m).from_spec() == g0.pred(m));
                } else {
                    assert(g1.node_of(m) == g0.node_of(m));
                }
                assert(g2.node_of(m) == g1.node_of(m));
                assert(g3.node_of(m) == g2.node_of(m));
            } else {
                if m == from && g0.has_node(from) {
                    assert(g1.node_of(m).from_spec() == g0.pred(m));
                } else {
                    assert(g1.node_of(m) == g0.node_of(m));
                }
                assert(g1.node_of(m).from_spec() == g0.pred(m));
                if !g0.directed_spec() {
                    assert(g3.node_of(m).from_spec() == g2.pred(m));
                } else {
                    assert(g3.node_of(m) == g2.node_of(m));
                }
                assert(gf.pred(m) == g2.node_of(m).from_spec());
                if g0.tracking_spec() {
                    assert(!g2.node_of(m).from_spec().contains(from));
                    assert(!gf.pred(m).contains(from));
                    assert forall|y: Nid|
                        y != from implies gf.pred(m).contains(y) == g0.pred(m).contains(y) by {
                        assert(g2.node_of(m).from_spec().contains(y) == g1.pred(m).contains(y));
                        assert(g1.pred(m) == g0.pred(m));
                    }
                } else {
                    assert(g2.node_of(m) == g1.node_of(m));
                    assert(gf.pred(m) == g0.pred(m));
                }
            }
        }
        assert forall|m: Nid| #![trigger gf.node_of(m)]
            g0.has_node(m) implies gf.node_of(m).name_spec() == g0.node_of(
            m,
        ).name_spec() && gf.node_of(m).pos_spec() == g0.node_of(m).pos_spec() by {
            assert(g3.has_node(m));
            assert(gf.node_of(m) == g3.node_of(m));
            if m != from && m != to {
                assert(g1.node_of(m) == g0.node_of(m));
                assert(g2.node_of(m) == g1.node_of(m));
                assert(g3.node_of(m) == g2.node_of(m));
            }
        }
    }

    /// Attempt a unidirectional connection from `from` to `to` carrying
    /// payload `e`.
    ///
    /// The attempt is validated before anything is touched: it fails, with
    /// the graph unchanged, when `from` is absent, when `to` is absent, or
    /// when the guard of `from`'s node rejects `to`'s node. On success the
    /// edge payload is stored under (from, to) — overwriting the payload of
    /// a repeated connection — `to` joins `from`'s outgoing set, `from`
    /// joins `to`'s incoming set when tracking is enabled, and when the
    /// graph is undirected the mirrored edge (to, from) and the reverse
    /// adjacency are established as well.
    pub fn direct(&mut self, from: Nid, to: Nid, e: E) -> (r: Result<(), GraphErr>)
        requires
            old(self).wf(),
        ensures
            final(self).wf(),
            (r == Err::<(), GraphErr>(GraphErr::FromNotFound)) <==> !old(self).has_node(from),
            (r == Err::<(), GraphErr>(GraphErr::ToNotFound)) <==> (old(self).has_node(from)
                && !old(self).has_node(to)),
            (r == Err::<(), GraphErr>(GraphErr::GuardRejected)) <==> (old(self).has_node(from)
                && old(self).has_node(to) && !old(self).node_of(from).guard_spec(
                &old(self).node_of(to),
            )),
            (r is Ok) <==> old(self).direct_allowed(from, to),
            r is Err ==> *final(self) == *old(self),
            r is Ok ==> {
                &&& forall|m: Nid| final(self).has_node(m) == old(self).has_node(m)
                &&& forall|m: Nid|
                    old(self).has_node(m) ==> final(self).succ(m) == old(self).succ_after_direct(
                        from,
                        to,
                        m,
                    )
                &&& forall|m: Nid|
                    old(self).has_node(m) ==> final(self).pred(m) == old(self).pred_after_direct(
                        from,
                        to,
                        m,
                    )
                &&& forall|m: Nid|
                    old(self).has_node(m) ==> final(self).node_of(m).name_spec() == old(self).node_of(m).name_spec() && final(self).node_of(m).pos_spec() == old(self).node_of(m).pos_spec()
                &&& final(self).has_edge((from, to))
                &&& final(self).edge_of((from, to)) == e
                &&& !final(self).directed_spec() ==> final(self).has_edge((to, from))
                    && final(self).edge_of((to, from)) == e
                &&& forall|k: Eid|
                    k != (from, to) && !(!old(self).directed_spec() && k == (to, from))
                        ==> final(self).has_edge(k) == old(self).has_edge(k)
                &&& forall|k: Eid|
                    k != (from, to) && !(!old(self).directed_spec() && k == (to, from)) && old(self).has_edge(k) ==> final(self).edge_of(k) == old(self).edge_of(k)
            },
            final(self).directed_spec() == old(self).directed_spec(),
            final(self).weighted_spec() == old(self).weighted_spec(),
            final(self).tracking_spec() == old(self).tracking_spec(),
            final(self).next_id_spec() == old(self).next_id_spec(),
    {
        let fi: usize;
        match self.find_node_idx(from) {
            Some(i) => {
                fi = i;
            },
            None => {
                return Err(GraphErr::FromNotFound);
            },
        }
        proof {
            old(self).lemma_node_at(fi as int);
        }
        let ti: usize;
        match self.find_node_idx(to) {
            Some(i) => {
                ti = i;
            },
            None => {
                return Err(GraphErr::ToNotFound);
            },
        }
        proof {
            old(self).lemma_node_at(ti as int);
        }
        let accepted = self.nodes[fi].guard(&self.nodes[ti]);
        if !accepted {
            return Err(GraphErr::GuardRejected);
        }
        let ghost g0 = *old(self);
        let tracking = self.is_tracking;
        let directed = self.is_directed;
        self.upsert_edge((from, to), e);
        if !directed {
            self.upsert_edge((to, from), e);
        }
        let ghost g2 = *self;
        proof {
            Self::lemma_nodes_eq(g0, g2);
            g2.lemma_node_at(fi as int);
        }
        self.adj_add_to(fi, to);
        let ghost g3 = *self;
        proof {
            g3.lemma_node_at(ti as int);
        }
        if tracking {
            self.adj_add_from(ti, from);
        }
        let ghost g4 = *self;
        proof {
            g4.lemma_node_at(ti as int);
        }
        if !directed {
            self.adj_add_to(ti, from);
        }
        proof {
            let gf = *self;
            Self::lemma_edges_eq(g2, gf);
            assert forall|m: Nid| g0.has_node(m) implies gf.succ(m) == g0.succ_after_direct(
                from,
                to,
                m,
            ) && gf.pred(m) == g0.pred_after_direct(from, to, m) && gf.node_of(m).name_spec()
                == g0.node_of(m).name_spec() && gf.node_of(m).pos_spec() == g0.node_of(
                m,
            ).pos_spec() by {
                if m != from && m != to {
                    assert(g2.node_of(m) == g0.node_of(m));
                    assert(g3.node_of(m) == g2.node_of(m));
                    assert(g4.node_of(m) == g3.node_of(m));
                    assert(gf.node_of(m) == g4.node_of(m));
                } else if m == from && m != to {
                    assert(g3.node_of(m).to_spec() == adj_insert(g2.succ(m), to));
                    assert(g2.node_of(m) == g0.node_of(m));
                    assert(g4.node_of(m) == g3.node_of(m));
                    assert(gf.node_of(m) == g4.node_of(m));
                } else if m == to && m != from {
                    assert(g2.node_of(m) == g0.node_of(m));
                    assert(g3.node_of(m) == g2.node_of(m));
                    if tracking {
                        assert(g4.node_of(m).from_spec() == adj_insert(g3.pred(m), from));
                        assert(g4.node_of(m).to_spec() == g3.succ(m));
                    } else {
                        assert(g4.node_of(m) == g3.node_of(m));
                    }
                    if !directed {
                        assert(gf.node_of(m).to_spec() == adj_insert(g4.succ(m), from));
                        assert(gf.node_of(m).from_spec() == g4.pred(m));
                    } else {
                        assert(gf.node_of(m) == g4.node_of(m));
                    }
                } else {
                    assert(m == from && m == to);
                    assert(g2.node_of(m) == g0.node_of(m));
                    assert(g3.node_of(m).to_spec() == adj_insert(g2.succ(m), to));
                    if tracking {
                        assert(g4.node_of(m).from_spec() == adj_insert(g3.pred(m), from));
                        assert(g4.node_of(m).to_spec() == g3.succ(m));
                    } else {
                        assert(g4.node_of(m) == g3.node_of(m));
                    }
                    if !directed {
                        assert(gf.node_of(m).to_spec() == adj_insert(g4.succ(m), from));
                        assert(gf.node_of(m).from_spec() == g4.pred(m));
                        assert(adj_insert(g0.succ(m), to).contains(from)) by {
                            let ins = adj_insert(g0.succ(m), to);
                            if !g0.succ(m).contains(to) {
                                assert(ins[ins.len() - 1] == to);
                            }
                        }
                    } else {
                        assert(gf.node_of(m) == g4.node_of(m));
                    }
                }
            }
        }
        Ok(())
    }

    /// Remove the (from, to) edge entry and the matching adjacency entries
    /// (and the mirrored reverse edge when the graph is undirected, and the
    /// reverse-adjacency entry when tracking). Removing a connection that
    /// does not exist is a no-op, not an error.
    #[verifier::rlimit(60)]
    pub fn undirect(&mut self, from: Nid, to: Nid)
        requires
            old(self).wf(),
        ensures
            final(self).wf(),
            forall|m: Nid| final(self).has_node(m) == old(self).has_node(m),
Self::succ_after_undirect(*old(self), *final(self), from, to),
            Self::pred_after_undirect(*old(self), *final(self), from, to),
            Self::payload_kept(*old(self), *final(self)),
            !final(self).has_edge((from, to)),
            !old(self).directed_spec() ==> !final(self).has_edge((to, from)),
            forall|k: Eid|
                k != (from, to) && !(!old(self).directed_spec() && k == (to, from)) ==> final(self).has_edge(k) == old(self).has_edge(k),
            forall|k: Eid|
                k != (from, to) && !(!old(self).directed_spec() && k == (to, from)) && old(self).has_edge(k) ==> final(self).edge_of(k) == old(self).edge_of(k),
            final(self).directed_spec() == old(self).directed_spec(),
            final(self).weighted_spec() == old(self).weighted_spec(),
            final(self).tracking_spec() == old(self).tracking_spec(),
            final(self).next_id_spec() == old(self).next_id_spec(),
    {
        let ghost g0 = *old(self);
        let tracking = self.is_tracking;
        let directed = self.is_directed;
        match self.find_node_idx(from) {
            Some(fi) => {
                proof {
                    g0.lemma_node_at(fi as int);
                }
                self.adj_remove_to(fi, to);
            },
            None => {},
        }
        let ghost g1 = *self;
        if tracking {
            match self.find_node_idx(to) {
                Some(ti) => {
                    proof {
                        g1.lemma_node_at(ti as int);
                    }
                    self.adj_remove_from(ti, from);
                },
                None => {},
            }
        }
        let ghost g2 = *self;
        if !directed {
            match self.find_node_idx(to) {
                Some(ti) => {
                    proof {
                        g2.lemma_node_at(ti as int);
                    }
                    self.adj_remove_to(ti, from);
                },
                None => {},
            }
        }
        let ghost g3 = *self;
        proof {
            Self::lemma_edges_eq(g0, g3);
        }
        self.remove_edge_key((from, to));
        if !directed {
            self.remove_edge_key((to, from));
        }
        proof {
            Self::lemma_undirect_compose(g0, g1, g2, g3, *self, from, to);
        }
    }

    /// Equal node stores give equal node models.
    proof fn lemma_nodes_eq(g1: Self, g2: Self)
        requires
            g2.nodes_seq() == g1.nodes_seq(),
            g1.node_ids_unique(),
        ensures
            forall|m: Nid| g2.has_node(m) == g1.has_node(m),
            forall|m: Nid| g1.has_node(m) ==> g2.node_of(m) == g1.node_of(m),
    {
        assert forall|m: Nid| g2.has_node(m) == g1.has_node(m) by {
            if g1.has_node(m) {
                let j = g1.node_idx_of(m);
                assert(g2.nodes_seq()[j].id_spec() == m);
            }
            if g2.has_node(m) {
                let j = g2.node_idx_of(m);
                assert(g1.nodes_seq()[j].id_spec() == m);
            }
        }
        assert forall|m: Nid| g1.has_node(m) implies g2.node_of(m) == g1.node_of(m) by {
            let j = g1.node_idx_of(m);
            g1.lemma_node_at(j);
            g2.lemma_node_at(j);
        }
    }

    /// Equal edge stores give equal edge models.
    proof fn lemma_edges_eq(g1: Self, g2: Self)
        requires
            g2.edges_seq() == g1.edges_seq(),
            g1.edge_keys_unique(),
        ensures
            forall|k: Eid| g2.has_edge(k) == g1.has_edge(k),
            forall|k: Eid| g1.has_edge(k) ==> g2.edge_of(k) == g1.edge_of(k),
    {
        assert forall|k: Eid| g2.has_edge(k) == g1.has_edge(k) by {
            if g1.has_edge(k) {
                let j = g1.edge_idx_of(k);
                assert((g2.edges_seq()[j]).0 == k);
            }
            if g2.has_edge(k) {
                let j = g2.edge_idx_of(k);
                assert((g1.edges_seq()[j]).0 == k);
            }
        }
        assert forall|k: Eid| g1.has_edge(k) implies g2.edge_of(k) == g1.edge_of(k) by {
            let j = g1.edge_idx_of(k);
            g1.lemma_edge_at(j);
            g2.lemma_edge_at(j);
        }
    }

    /// Add `to` to the outgoing set of the node at position `i`.
    fn adj_add_to(&mut self, i: usize, to: Nid)
        requires
            old(self).wf(),
            i < old(self).nodes_seq().len(),
        ensures
            final(self).wf(),
            final(self).nodes_seq().len() == old(self).nodes_seq().len(),
            forall|k: int|
                0 <= k < old(self).nodes_seq().len() && k != i ==> final(self).nodes_seq()[k]
                    == old(self).nodes_seq()[k],
            final(self).nodes_seq()[i as int].id_spec() == old(self).nodes_seq()[i as int].id_spec(),
            final(self).edges_seq() == old(self).edges_seq(),
            final(self).directed_spec() == old(self).directed_spec(),
            final(self).weighted_spec() == old(self).weighted_spec(),
            final(self).tracking_spec() == old(self).tracking_spec(),
            final(self).next_id_spec() == old(self).next_id_spec(),
            forall|m: Nid| final(self).has_node(m) == old(self).has_node(m),
            ({
                let nid = old(self).nodes_seq()[i as int].id_spec();
                &&& final(self).node_of(nid).to_spec() == adj_insert(old(self).succ(nid), to)
                &&& final(self).node_of(nid).from_spec() == old(self).pred(nid)
                &&& final(self).node_of(nid).name_spec() == old(self).node_of(nid).name_spec()
                &&& final(self).node_of(nid).pos_spec() == old(self).node_of(nid).pos_spec()
                &&& final(self).node_of(nid).id_spec() == nid
            }),
            forall|m: Nid|
                m != old(self).nodes_seq()[i as int].id_spec() && old(self).has_node(m)
                    ==> final(self).node_of(m) == old(self).node_of(m),
    {
        proof {
            old(self).lemma_node_at(i as int);
        }
        let node = elem_at_mut(&mut self.nodes, i);
        node.base_direct(to);
        proof {
            let pre = old(self).nodes_seq();
            let post = self.nodes_seq();
            assert(post == pre.update(i as int, post[i as int]));
            if !pre[i as int].to_spec().contains(to) {
                lemma_push_no_duplicates(pre[i as int].to_spec(), to);
            }
            Self::lemma_node_update(*old(self), *self, i as int);
        }
    }

    /// Add `from` to the incoming set of the node at position `i`.
    fn adj_add_from(&mut self, i: usize, from: Nid)
        requires
            old(self).wf(),
            i < old(self).nodes_seq().len(),
        ensures
            final(self).wf(),
            final(self).nodes_seq().len() == old(self).nodes_seq().len(),
            forall|k: int|
                0 <= k < old(self).nodes_seq().len() && k != i ==> final(self).nodes_seq()[k]
                    == old(self).nodes_seq()[k],
            final(self).nodes_seq()[i as int].id_spec() == old(self).nodes_seq()[i as int].id_spec(),
            final(self).edges_seq() == old(self).edges_seq(),
            final(self).directed_spec() == old(self).directed_spec(),
            final(self).weighted_spec() == old(self).weighted_spec(),
            final(self).tracking_spec() == old(self).tracking_spec(),
            final(self).next_id_spec() == old(self).next_id_spec(),
            forall|m: Nid| final(self).has_node(m) == old(self).has_node(m),
            ({
                let nid = old(self).nodes_seq()[i as int].id_spec();
                &&& final(self).node_of(nid).from_spec() == adj_insert(old(self).pred(nid), from)
                &&& final(self).node_of(nid).to_spec() == old(self).succ(nid)
                &&& final(self).node_of(nid).name_spec() == old(self).node_of(nid).name_spec()
                &&& final(self).node_of(nid).pos_spec() == old(self).node_of(nid).pos_spec()
                &&& final(self).node_of(nid).id_spec() == nid
            }),
            forall|m: Nid|
                m != old(self).nodes_seq()[i as int].id_spec() && old(self).has_node(m)
                    ==> final(self).node_of(m) == old(self).node_of(m),
    {
        proof {
            old(self).lemma_node_at(i as int);
        }
        let node = elem_at_mut(&mut self.nodes, i);
        node.base_direct_from(from);
        proof {
            let pre = old(self).nodes_seq();
            let post = self.nodes_seq();
            assert(post == pre.update(i as int, post[i as int]));
            if !pre[i as int].from_spec().contains(from) {
                lemma_push_no_duplicates(pre[i as int].from_spec(), from);
            }
            Self::lemma_node_update(*old(self), *self, i as int);
        }
    }

    /// Drop `to` from the outgoing set of the node at position `i`.
    fn adj_remove_to(&mut self, i: usize, to: Nid)
        requires
            old(self).wf(),
            i < old(self).nodes_seq().len(),
        ensures
            final(self).wf(),
            final(self).nodes_seq().len() == old(self).nodes_seq().len(),
            forall|k: int|
                0 <= k < old(self).nodes_seq().len() && k != i ==> final(self).nodes_seq()[k]
                    == old(self).nodes_seq()[k],
            final(self).nodes_seq()[i as int].id_spec() == old(self).nodes_seq()[i as int].id_spec(),
            final(self).edges_seq() == old(self).edges_seq(),
            final(self).directed_spec() == old(self).directed_spec(),
            final(self).weighted_spec() == old(self).weighted_spec(),
            final(self).tracking_spec() == old(self).tracking_spec(),
            final(self).next_id_spec() == old(self).next_id_spec(),
            forall|m: Nid| final(self).has_node(m) == old(self).has_node(m),
            ({
                let nid = old(self).nodes_seq()[i as int].id_spec();
                &&& !final(self).node_of(nid).to_spec().contains(to)
                &&& forall|x: Nid|
                    x != to ==> final(self).node_of(nid).to_spec().contains(x) == old(self).succ(nid).contains(x)
                &&& final(self).node_of(nid).from_spec() == old(self).pred(nid)
                &&& final(self).node_of(nid).name_spec() == old(self).node_of(nid).name_spec()
                &&& final(self).node_of(nid).pos_spec() == old(self).node_of(nid).pos_spec()
                &&& final(self).node_of(nid).id_spec() == nid
            }),
            forall|m: Nid|
                m != old(self).nodes_seq()[i as int].id_spec() && old(self).has_node(m)
                    ==> final(self).node_of(m) == old(self).node_of(m),
    {
        proof {
            old(self).lemma_node_at(i as int);
        }
        let node = elem_at_mut(&mut self.nodes, i);
        node.base_undirect(to);
        proof {
            let pre = old(self).nodes_seq();
            let post = self.nodes_seq();
            assert(post == pre.update(i as int, post[i as int]));
            Self::lemma_node_update(*old(self), *self, i as int);
        }
    }

    /// Drop `from` from the incoming set of the node at position `i`.
    fn adj_remove_from(&mut self, i: usize, from: Nid)
        requires
            old(self).wf(),
            i < old(self).nodes_seq().len(),
        ensures
            final(self).wf(),
            final(self).nodes_seq().len() == old(self).nodes_seq().len(),
            forall|k: int|
                0 <= k < old(self).nodes_seq().len() && k != i ==> final(self).nodes_seq()[k]
                    == old(self).nodes_seq()[k],
            final(self).nodes_seq()[i as int].id_spec() == old(self).nodes_seq()[i as int].id_spec(),
            final(self).edges_seq() == old(self).edges_seq(),
            final(self).directed_spec() == old(self).directed_spec(),
            final(self).weighted_spec() == old(self).weighted_spec(),
            final(self).tracking_spec() == old(self).tracking_spec(),
            final(self).next_id_spec() == old(self).next_id_spec(),
            forall|m: Nid| final(self).has_node(m) == old(self).has_node(m),
            ({
                let nid = old(self).nodes_seq()[i as int].id_spec();
                &&& !final(self).node_of(nid).from_spec().contains(from)
                &&& forall|x: Nid|
                    x != from ==> final(self).node_of(nid).from_spec().contains(x) == old(self).pred(nid).contains(x)
                &&& final(self).node_of(nid).to_spec() == old(self).succ(nid)
                &&& final(self).node_of(nid).name_spec() == old(self).node_of(nid).name_spec()
                &&& final(self).node_of(nid).pos_spec() == old(self).node_of(nid).pos_spec()
                &&& final(self).node_of(nid).id_spec() == nid
            }),
            forall|m: Nid|
                m != old(self).nodes_seq()[i as int].id_spec() && old(self).has_node(m)
                    ==> final(self).node_of(m) == old(self).node_of(m),
    {
        proof {
            old(self).lemma_node_at(i as int);
        }
        let node = elem_at_mut(&mut self.nodes, i);
        node.base_undirect_from(from);
        proof {
            let pre = old(self).nodes_seq();
            let post = self.nodes_seq();
            assert(post == pre.update(i as int, post[i as int]));
            Self::lemma_node_update(*old(self), *self, i as int);
        }
    }
}

/// A duplicate-free sequence stays duplicate-free when a value it does not
/// hold is appended.
pub(crate) proof fn lemma_push_no_duplicates(s: Seq<Nid>, x: Nid)
    requires
        s.no_duplicates(),
        !s.contains(x),
    ensures
        s.push(x).no_duplicates(),
{
    let p = s.push(x);
    assert forall|i: int, j: int| 0 <= i < j < p.len() implies p[i] != p[j] by {
        if j == s.len() {
            assert(p[i] == s[i]);
            if s[i] == x {
                assert(s.contains(x));
            }
        } else {
            assert(p[i] == s[i]);
            assert(p[j] == s[j]);
        }
    }
}

/// The abstract operation set any concrete graph storage must satisfy:
/// create, fetch and remove nodes, connect and disconnect, and bulk visit.
/// Its contracts are stated over an abstract model — which identities are
/// present and which node each maps to — that every implementation defines.
pub trait Backend: Sized {
    /// The node value type stored by this backend.
    type Node: GraphNode;

    /// The edge payload type stored by this backend.
    type Edge: GraphEdge;

    /// The backend's invariant: `default` establishes it and every
    /// operation preserves it.
    spec fn inv(&self) -> bool;

    /// Whether a node with identity `n` is stored.
    spec fn node_present(&self, n: Nid) -> bool;

    /// The stored node with identity `n` (meaningful when present).
    spec fn stored_node(&self, n: Nid) -> Self::Node;

    /// Whether the payload of edge `e` is stored.
    spec fn edge_present(&self, e: Eid) -> bool;

    /// The stored payload of edge `e` (meaningful when present).
    spec fn stored_edge(&self, e: Eid) -> Self::Edge;

    /// Whether the backend can still hand out a fresh identity.
    spec fn can_create(&self) -> bool;

    /// An empty backend.
    fn default() -> (r: Self)
        ensures
            r.inv(),
            r.can_create(),
            forall|n: Nid| !r.node_present(n),
    ;

    /// The stored node with identity `n`, or absent when there is none.
    fn get_node(&self, n: Nid) -> (r: Option<&Self::Node>)
        requires
            self.inv(),
        ensures
            match r {
                Option::Some(node) => self.node_present(n) && *node == self.stored_node(n)
                    && node.id_spec() == n,
                Option::None => !self.node_present(n),
            },
    ;

    /// The stored payload of edge `e`, or absent when there is none.
    fn get_edge(&self, e: Eid) -> (r: Option<&Self::Edge>)
        requires
            self.inv(),
        ensures
            match r {
                Option::Some(p) => self.edge_present(e) && *p == self.stored_edge(e),
                Option::None => !self.edge_present(e),
            },
    ;

    /// A mutable borrow of the stored node with identity `n`, or absent
    /// when there is none. What the borrow leaves behind is up to the
    /// caller; the backend's invariant survives exactly when the caller
    /// kept what it demands of a stored node.
    fn get_node_mut(&mut self, n: Nid) -> (r: Option<&mut Self::Node>)
        requires
            old(self).inv(),
        ensures
            match r {
                Option::Some(node) => old(self).node_present(n) && *node == old(
                    self,
                ).stored_node(n),
                Option::None => !old(self).node_present(n) && *final(self) == *old(self),
            },
    ;

    /// A mutable borrow of the stored payload of edge `e`, or absent when
    /// there is none.
    fn get_edge_mut(&mut self, e: Eid) -> (r: Option<&mut Self::Edge>)
        requires
            old(self).inv(),
        ensures
            match r {
                Option::Some(p) => old(self).edge_present(e) && *p == old(self).stored_edge(e),
                Option::None => !old(self).edge_present(e) && *final(self) == *old(self),
            },
    ;

    /// Create a node with a fresh identity and default payload, store it
    /// and return its identity.
    fn new_node(&mut self) -> (r: Nid)
        requires
            old(self).inv(),
            old(self).can_create(),
        ensures
            final(self).inv(),
            !old(self).node_present(r),
            final(self).node_present(r),
            final(self).stored_node(r).id_spec() == r,
            final(self).stored_node(r).to_spec().len() == 0,
            final(self).stored_node(r).name_spec().len() == 0,
            final(self).stored_node(r).pos_spec() == (0i64, 0i64),
            forall|m: Nid| m != r ==> final(self).node_present(m) == old(self).node_present(m),
    ;

    /// Store a caller-constructed node under its own identity; an identity
    /// already present is rejected with `DuplicateIdentity` and nothing
    /// changes.
    fn add_node(&mut self, node: Self::Node) -> (r: Result<Nid, GraphErr>)
        requires
            old(self).inv(),
            node.to_spec().no_duplicates(),
            node.from_spec().no_duplicates(),
            node.id_spec() < Nid::MAX,
        ensures
            final(self).inv(),
            (r == Err::<Nid, GraphErr>(GraphErr::DuplicateIdentity)) <==> old(self).node_present(
                node.id_spec(),
            ),
            (r is Ok) <==> !old(self).node_present(node.id_spec()),
            r is Err ==> *final(self) == *old(self),
            r matches Ok(nid) ==> nid == node.id_spec() && final(self).node_present(nid)
                && final(self).stored_node(nid) == node,
    ;

    /// Delete the node-mapping entry for `n` only; references to `n` held
    /// elsewhere stay behind.
    fn remove(&mut self, n: Nid) -> (r: Option<Self::Node>)
        requires
            old(self).inv(),
        ensures
            final(self).inv(),
            (r is Some) == old(self).node_present(n),
            match r {
                Option::Some(node) => node.id_spec() == n && !final(self).node_present(n) && (
                forall|m: Nid| m != n ==> final(self).node_present(m) == old(self).node_present(
                    m,
                )),
                Option::None => *final(self) == *old(self),
            },
    ;

    /// Attempt a unidirectional connection; it succeeds exactly when both
    /// nodes are present and the source node's guard accepts the target,
    /// and a failed attempt leaves no trace.
    fn direct(&mut self, from: Nid, to: Nid, e: Self::Edge) -> (r: Result<(), GraphErr>)
        requires
            old(self).inv(),
        ensures
            final(self).inv(),
            (r is Ok) <==> (old(self).node_present(from) && old(self).node_present(to) && old(self).stored_node(from).guard_spec(&old(self).stored_node(to))),
            r is Err ==> *final(self) == *old(self),
            r is Ok ==> final(self).stored_node(from).to_spec().contains(to) && final(self).edge_present((from, to)) && final(self).stored_edge((from, to)) == e,
            forall|m: Nid| final(self).node_present(m) == old(self).node_present(m),
    ;

    /// Remove the (from, to) connection and its adjacency entries; a
    /// connection that does not exist is a no-op, not an error.
    fn undirect(&mut self, from: Nid, to: Nid)
        requires
            old(self).inv(),
        ensures
            final(self).inv(),
            forall|m: Nid| final(self).node_present(m) == old(self).node_present(m),
            !final(self).edge_present((from, to)),
            final(self).node_present(from) ==> !final(self).stored_node(from).to_spec().contains(
                to,
            ),
    ;

    /// Apply a read-only operation to every stored node; iteration order
    /// is unspecified.
    fn with_nodes<F: Fn(&Self::Node)>(&self, f: F)
        requires
            self.inv(),
            forall|m: Nid|
                self.node_present(m) ==> call_requires(f, (&self.stored_node(m),)),
    ;

    /// Replace every stored node by the image the operation gives for
    /// it; the operation must promise to keep each node's identity and
    /// duplicate-free adjacency, so the stored identities survive.
    fn with_nodes_mut<F: Fn(Self::Node) -> Self::Node>(&mut self, f: F)
        requires
            old(self).inv(),
            forall|m: Nid|
                old(self).node_present(m) ==> call_requires(f, (old(self).stored_node(m),)),
            visit_keeps_node::<Self::Node, F>(f),
        ensures
            final(self).inv(),
            forall|m: Nid| final(self).node_present(m) == old(self).node_present(m),
    ;
}

impl<E: GraphEdge, N: GraphNode> Backend for Graph<E, N> {
    type Node = N;

    type Edge = E;

    open spec fn inv(&self) -> bool {
        Graph::wf(self)
    }

    open spec fn node_present(&self, n: Nid) -> bool {
        Graph::has_node(self, n)
    }

    open spec fn stored_node(&self, n: Nid) -> N {
        Graph::node_of(self, n)
    }

    open spec fn edge_present(&self, e: Eid) -> bool {
        Graph::has_edge(self, e)
    }

    open spec fn stored_edge(&self, e: Eid) -> E {
        Graph::edge_of(self, e)
    }

    open spec fn can_create(&self) -> bool {
        Graph::id_headroom(self)
    }

    fn default() -> (r: Self) {
        Graph::default()
    }

    fn get_node(&self, n: Nid) -> (r: Option<&N>) {
        Graph::get_node(self, n)
    }

    fn get_edge(&self, e: Eid) -> (r: Option<&E>) {
        Graph::get_edge(self, e)
    }

    fn get_node_mut(&mut self, n: Nid) -> (r: Option<&mut N>) {
        Graph::get_node_mut(self, n)
    }

    fn get_edge_mut(&mut self, e: Eid) -> (r: Option<&mut E>) {
        Graph::get_edge_mut(self, e)
    }

    fn new_node(&mut self) -> (r: Nid) {
        Graph::new_node(self)
    }

    fn add_node(&mut self, node: N) -> (r: Result<Nid, GraphErr>) {
        Graph::add_node(self, node)
    }

    fn remove(&mut self, n: Nid) -> (r: Option<N>) {
        Graph::remove(self, n)
    }

    fn direct(&mut self, from: Nid, to: Nid, e: E) -> (r: Result<(), GraphErr>) {
        let res = Graph::direct(self, from, to, e);
        proof {
            if res is Ok {
                assert(old(self).has_node(from));
                lemma_adj_insert_contains(old(self).succ(from), to);
                assert((*self).succ(from) == old(self).succ_after_direct(from, to, from));
                if !old(self).directed_spec() && from == to {
                    lemma_adj_insert_contains(
                        adj_insert(old(self).succ(from), to),
                        from,
                    );
                    assert(adj_insert(adj_insert(old(self).succ(from), to), from).contains(to))
                        by {
                        if !adj_insert(old(self).succ(from), to).contains(from) {
                            assert(adj_insert(old(self).succ(from), to).contains(to));
                            let s2 = adj_insert(old(self).succ(from), to);
                            let j = choose|j: int| 0 <= j < s2.len() && s2[j] == to;
                            assert(s2.push(from)[j] == to);
                        }
                    }
                }
            }
        }
        res
    }

    fn undirect(&mut self, from: Nid, to: Nid) {
        Graph::undirect(self, from, to);
        proof {
            if (*self).has_node(from) {
                assert(old(self).has_node(from));
                assert((*self).succ(from).contains(to) == (old(self).succ(from).contains(to)
                    && !old(self).undirect_drops(from, to, from, to)));
            }
        }
    }

    fn with_nodes<F: Fn(&N)>(&self, f: F) {
        proof {
            assert forall|m: Nid| Graph::has_node(self, m) implies call_requires(
                f,
                (&Graph::node_of(self, m),),
            ) by {
                assert(self.node_present(m));
                assert(call_requires(f, (&self.stored_node(m),)));
            }
        }
        Graph::with_nodes(self, f)
    }

    fn with_nodes_mut<F: Fn(N) -> N>(&mut self, f: F) {
        proof {
            assert forall|i: int|
                0 <= i < Graph::nodes_seq(self).len() implies call_requires(
                f,
                (#[trigger] Graph::nodes_seq(self)[i],),
            ) by {
                Graph::lemma_node_at(self, i);
                let m = Graph::nodes_seq(self)[i].id_spec();
                assert(self.node_present(m));
                assert(self.stored_node(m) == Graph::nodes_seq(self)[i]);
                assert(call_requires(f, (self.stored_node(m),)));
            }
            assert(visit_keeps_node::<N, F>(f));
        }
        Graph::with_nodes_mut(self, f)
    }
}

} // verus!

use vstd::prelude::*;

verus! {

use crate::backend::Graph;
use crate::caps::{GraphEdge, GraphNode};
use crate::ids::Nid;

impl<E: GraphEdge, N: GraphNode> Graph<E, N> {
    /// Whether a traversal that stands on a node may move on to `y`: under
    /// tracking mode the target is re-checked for existence (the defensive
    /// check against stale adjacency entries); without tracking any listed
    /// identifier is followed.
    pub open spec fn ok_target(&self, y: Nid) -> bool {
        !self.tracking_spec() || self.has_node(y)
    }

    /// One traversal step: `x` is stored, lists `y` as an outgoing
    /// neighbour, and `y` passes the defensive check.
    pub open spec fn edge_step(&self, x: Nid, y: Nid) -> bool {
        &&& self.has_node(x)
        &&& self.succ(x).contains(y)
        &&& self.ok_target(y)
    }

    /// `p` is a walk: consecutive elements are joined by traversal steps.
    pub open spec fn is_walk(&self, p: Seq<Nid>) -> bool {
        &&& p.len() >= 2
        &&& forall|i: int| 0 <= i < p.len() - 1 ==> self.edge_step(#[trigger] p[i], p[i + 1])
    }

    /// `b` can be reached from `a` by one or more traversal steps.
    pub open spec fn reach(&self, a: Nid, b: Nid) -> bool {
        exists|p: Seq<Nid>| #[trigger] self.is_walk(p) && p.first() == a && p.last() == b
    }

    /// `b` is `a` itself, or reachable from it.
    pub open spec fn reach_star(&self, a: Nid, b: Nid) -> bool {
        a == b || self.reach(a, b)
    }

    /// Whether some node on a path out of `from` closes a cycle.
    pub open spec fn has_cycle_from(&self, from: Nid) -> bool {
        exists|x: Nid| self.reach_star(from, x) && #[trigger] self.reach(x, x)
    }

    /// A single step is a walk of length two.
    pub proof fn lemma_step_reach(&self, a: Nid, b: Nid)
        requires
            self.edge_step(a, b),
        ensures
            self.reach(a, b),
    {
        let p = seq![a, b];
        assert(p.len() == 2);
        assert(p[0] == a);
        assert(p[1] == b);
        assert(self.is_walk(p));
        assert(p.first() == a && p.last() == b);
    }

    /// A walk extended by one step is still a walk.
    pub proof fn lemma_reach_star_step(&self, a: Nid, b: Nid, c: Nid)
        requires
            self.reach_star(a, b),
            self.edge_step(b, c),
        ensures
            self.reach(a, c),
    {
        if a == b {
            self.lemma_step_reach(b, c);
        } else {
            let p = choose|p: Seq<Nid>| #[trigger] self.is_walk(p) && p.first() == a && p.last() == b;
            let q = p.push(c);
            assert forall|i: int| 0 <= i < q.len() - 1 implies self.edge_step(
                #[trigger] q[i],
                q[i + 1],
            ) by {
                if i < p.len() - 1 {
                    assert(q[i] == p[i]);
                    assert(q[i + 1] == p[i + 1]);
                    assert(self.edge_step(p[i], p[i + 1]));
                } else {
                    assert(q[i] == p[p.len() - 1]);
                    assert(q[i + 1] == c);
                }
            }
            assert(self.is_walk(q));
            assert(q.first() == a && q.last() == c);
        }
    }

    /// A walk appended to a reachability fact keeps the start: stepping
    /// through every edge of `p` from something `a` reaches stays reached.
    pub proof fn lemma_reach_along_walk(&self, a: Nid, p: Seq<Nid>)
        requires
            self.is_walk(p),
            self.reach_star(a, p.first()),
        ensures
            self.reach(a, p.last()),
        decreases p.len(),
    {
        if p.len() == 2 {
            assert(self.edge_step(p[0], p[1]));
            self.lemma_reach_star_step(a, p[0], p[1]);
        } else {
            let q = p.drop_last();
            assert forall|i: int| 0 <= i < q.len() - 1 implies self.edge_step(
                #[trigger] q[i],
                q[i + 1],
            ) by {
                assert(q[i] == p[i]);
                assert(q[i + 1] == p[i + 1]);
                assert(self.edge_step(p[i], p[i + 1]));
            }
            assert(self.is_walk(q));
            assert(q.first() == p.first());
            self.lemma_reach_along_walk(a, q);
            assert(q.last() == p[p.len() - 2]);
            assert(self.edge_step(p[p.len() - 2], p[p.len() - 1]));
            self.lemma_reach_star_step(a, p[p.len() - 2], p[p.len() - 1]);
        }
    }

    /// Reachability composes: what `b` reaches, anything reaching `b`
    /// reaches too.
    pub proof fn lemma_reach_star_trans(&self, a: Nid, b: Nid, c: Nid)
        requires
            self.reach_star(a, b),
            self.reach_star(b, c),
        ensures
            self.reach_star(a, c),
    {
        if b != c {
            let p = choose|p: Seq<Nid>|
                #[trigger] self.is_walk(p) && p.first() == b && p.last() == c;
            self.lemma_reach_along_walk(a, p);
        }
    }

    /// The endpoint of a walk that starts inside a step-closed set lies in
    /// that set.
    pub proof fn lemma_walk_closed(&self, s: Seq<Nid>, p: Seq<Nid>)
        requires
            self.is_walk(p),
            s.contains(p.first()),
            forall|x: Nid, y: Nid|
                s.contains(x) && #[trigger] self.edge_step(x, y) ==> s.contains(y),
        ensures
            s.contains(p.last()),
        decreases p.len(),
    {
        if p.len() == 2 {
            assert(self.edge_step(p[0], p[1]));
        } else {
            let q = p.drop_last();
            assert forall|i: int| 0 <= i < q.len() - 1 implies self.edge_step(
                #[trigger] q[i],
                q[i + 1],
            ) by {
                assert(q[i] == p[i]);
                assert(q[i + 1] == p[i + 1]);
                assert(self.edge_step(p[i], p[i + 1]));
            }
            assert(self.is_walk(q));
            self.lemma_walk_closed(s, q);
            assert(q.last() == p[p.len() - 2]);
            assert(self.edge_step(p[p.len() - 2], p[p.len() - 1]));
        }
    }

    /// Everything reachable from a member of a step-closed set is a member.
    pub proof fn lemma_reach_closed(&self, s: Seq<Nid>, a: Nid, b: Nid)
        requires
            s.contains(a),
            forall|x: Nid, y: Nid|
                s.contains(x) && #[trigger] self.edge_step(x, y) ==> s.contains(y),
            self.reach_star(a, b),
        ensures
            s.contains(b),
    {
        if a != b {
            let p = choose|p: Seq<Nid>| #[trigger] self.is_walk(p) && p.first() == a && p.last() == b;
            self.lemma_walk_closed(s, p);
        }
    }

    /// Along a chain of consecutive steps, later entries are reachable from
    /// earlier ones.
    pub proof fn lemma_chain_reach_star(&self, st: Seq<Nid>, k: int, l: int)
        requires
            forall|i: int| 0 <= i < st.len() - 1 ==> self.edge_step(#[trigger] st[i], st[i + 1]),
            0 <= k <= l < st.len(),
        ensures
            self.reach_star(st[k], st[l]),
        decreases l - k,
    {
        if k < l {
            self.lemma_chain_reach_star(st, k, l - 1);
            assert(self.edge_step(st[l - 1], st[l]));
            self.lemma_reach_star_step(st[k], st[l - 1], st[l]);
        }
    }

    /// The condition under which a depth-first search from `from` reports
    /// a path to `to`: the target is another node and is reachable. (The
    /// depth-first result never records its own root, so a root on a cycle
    /// is not reported as reaching itself.)
    pub open spec fn depth_found(&self, from: Nid, to: Nid) -> bool {
        to != from && self.reach(from, to)
    }

    /// The condition under which a breadth-first search from `from`
    /// reports a path to `to`: the target is the root itself or reachable.
    pub open spec fn breadth_found(&self, from: Nid, to: Nid) -> bool {
        to == from || self.reach(from, to)
    }

    /// After a successful connection from `a` to `b` both nodes are stored
    /// and `b` stands in `a`'s outgoing set — and then `b` is reachable
    /// from `a` in one hop.
    pub proof fn lemma_one_hop(&self, a: Nid, b: Nid)
        requires
            self.has_node(a),
            self.has_node(b),
            self.succ(a).contains(b),
        ensures
            self.reach(a, b),
    {
        self.lemma_step_reach(a, b);
    }

    /// A connection attempt towards an identity that is not stored can
    /// never be allowed, even if a stale adjacency entry still references
    /// it: removal makes later attempts towards the removed node fail.
    pub proof fn lemma_absent_target_rejected(&self, from: Nid, to: Nid)
        requires
            !self.has_node(to),
        ensures
            !self.direct_allowed(from, to),
    {
    }

    /// For a pair joined by a directed path, the depth-first and the
    /// breadth-first searches both report presence, though the sequences
    /// they return may differ. (When the two ends are the same node the
    /// depth-first search alone stays silent, which is why the pair must
    /// be two distinct nodes here.)
    pub proof fn lemma_reachable_found_both(&self, from: Nid, to: Nid)
        requires
            self.reach(from, to),
            from != to,
        ensures
            self.depth_found(from, to),
            self.breadth_found(from, to),
    {
    }
}

} // verus!

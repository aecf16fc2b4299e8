use vstd::prelude::*;

verus! {

use crate::backend::{lemma_push_no_duplicates, Graph};
use crate::caps::{GraphEdge, GraphNode};
use crate::ids::{Eid, GraphErr, Nid};
use crate::util::{eid_vec_has, nid_vec_has};

/// A search request: a root, and for the path searches an optional target.
pub enum GraphSearch {
    /// Depth-first: reachability over part of the graph, and the walk
    /// order that cycle detection uses.
    Depth(Nid, Option<Nid>),
    /// Breadth-first: reachability over part of the graph; on an
    /// unweighted graph the natural candidate for shortest paths.
    Breadth(Nid, Option<Nid>),
    /// Weighted shortest path; recognized but not provided.
    Dijkstra(Nid, Nid),
}

/// Concatenation holds exactly the members of both parts.
proof fn lemma_concat_contains(a: Seq<Nid>, b: Seq<Nid>, y: Nid)
    ensures
        (a + b).contains(y) == (a.contains(y) || b.contains(y)),
{
    let s = a + b;
    if a.contains(y) {
        let j = choose|j: int| 0 <= j < a.len() && a[j] == y;
        assert(s[j] == y);
        assert(s.contains(y));
    }
    if b.contains(y) {
        let j = choose|j: int| 0 <= j < b.len() && b[j] == y;
        assert(s[a.len() + j] == y);
        assert(s.contains(y));
    }
    if s.contains(y) {
        let j = choose|j: int| 0 <= j < s.len() && s[j] == y;
        if j < a.len() {
            assert(a[j] == y);
            assert(a.contains(y));
        } else {
            assert(b[j - a.len()] == y);
            assert(b.contains(y));
        }
    }
}

/// The outgoing adjacency of every node in `ns`, concatenated.
pub open spec fn adj_concat<N: GraphNode>(ns: Seq<N>) -> Seq<Nid>
    decreases ns.len(),
{
    if ns.len() == 0 {
        Seq::empty()
    } else {
        adj_concat(ns.drop_last()) + ns.last().to_spec()
    }
}

/// Whatever a node of `ns` lists as an outgoing neighbour occurs in the
/// concatenation.
proof fn lemma_adj_concat_contains<N: GraphNode>(ns: Seq<N>, i: int, y: Nid)
    requires
        0 <= i < ns.len(),
        ns[i].to_spec().contains(y),
    ensures
        adj_concat(ns).contains(y),
    decreases ns.len(),
{
    let a = adj_concat(ns.drop_last());
    let b = ns.last().to_spec();
    if i == ns.len() - 1 {
        let j = choose|j: int| 0 <= j < b.len() && b[j] == y;
        assert((a + b)[a.len() + j] == y);
        assert(adj_concat(ns).contains(y));
    } else {
        assert(ns.drop_last()[i] == ns[i]);
        lemma_adj_concat_contains(ns.drop_last(), i, y);
        let j = choose|j: int| 0 <= j < a.len() && a[j] == y;
        assert((a + b)[j] == y);
        assert(adj_concat(ns).contains(y));
    }
}

/// `r` preceded by the root `from`: the set a traversal has visited.
pub open spec fn with_root(from: Nid, r: Seq<Nid>) -> Seq<Nid> {
    seq![from] + r
}

/// Membership in a visited set is: the root, or a recorded identifier.
proof fn lemma_with_root_contains(from: Nid, r: Seq<Nid>, y: Nid)
    ensures
        with_root(from, r).contains(y) == (y == from || r.contains(y)),
{
    let s = with_root(from, r);
    if y == from {
        assert(s[0] == y);
        assert(s.contains(y));
    }
    if r.contains(y) {
        let j = choose|j: int| 0 <= j < r.len() && r[j] == y;
        assert(s[j + 1] == y);
        assert(s.contains(y));
    }
    if s.contains(y) {
        let j = choose|j: int| 0 <= j < s.len() && s[j] == y;
        if j != 0 {
            assert(r[j - 1] == y);
            assert(r.contains(y));
        }
    }
}

/// A visited set stays duplicate-free when the root was never recorded.
proof fn lemma_with_root_nodup(from: Nid, r: Seq<Nid>)
    requires
        r.no_duplicates(),
        !r.contains(from),
    ensures
        with_root(from, r).no_duplicates(),
{
    let s = with_root(from, r);
    assert forall|i: int, j: int| 0 <= i < j < s.len() implies s[i] != s[j] by {
        if i == 0 {
            assert(s[0] == from);
            assert(s[j] == r[j - 1]);
            if r[j - 1] == from {
                assert(r.contains(from));
            }
        } else {
            assert(s[i] == r[i - 1]);
            assert(s[j] == r[j - 1]);
        }
    }
}

/// Appending one value adds exactly that value to a sequence's members.
proof fn lemma_push_contains(s: Seq<Nid>, x: Nid, z: Nid)
    ensures
        s.push(x).contains(z) == (s.contains(z) || z == x),
{
    let p = s.push(x);
    if s.contains(z) {
        let j = choose|j: int| 0 <= j < s.len() && s[j] == z;
        assert(p[j] == z);
        assert(p.contains(z));
    }
    if z == x {
        assert(p[s.len() as int] == z);
        assert(p.contains(z));
    }
    if p.contains(z) {
        let j = choose|j: int| 0 <= j < p.len() && p[j] == z;
        if j < s.len() {
            assert(s[j] == z);
            assert(s.contains(z));
        }
    }
}

/// A duplicate-free sequence whose members all occur in `u` is no longer
/// than `u`.
proof fn lemma_nodup_len_le(v: Seq<Nid>, u: Seq<Nid>)
    requires
        v.no_duplicates(),
        forall|x: Nid| v.contains(x) ==> u.contains(x),
    ensures
        v.len() <= u.len(),
{
    broadcast use vstd::set::group_set_axioms;
    broadcast use vstd::seq_lib::seq_to_set_is_finite;

    v.unique_seq_to_set();
    u.lemma_cardinality_of_set();
    assert forall|x: Nid| v.to_set().contains(x) implies u.to_set().contains(x) by {
        assert(v.contains(x));
        assert(u.contains(x));
    }
    assert(v.to_set().subset_of(u.to_set()));
    vstd::set_lib::lemma_len_subset(v.to_set(), u.to_set());
}

impl<E: GraphEdge, N: GraphNode> Graph<E, N> {
    /// Every identifier a traversal can record lies in this sequence: the
    /// root plus all outgoing adjacency of the stored nodes. It bounds the
    /// visited set, which is what makes every traversal terminate.
    pub open spec fn universe(&self, from: Nid) -> Seq<Nid> {
        seq![from] + adj_concat(self.nodes_seq())
    }

    /// A neighbour listed by a stored node lies in the universe.
    proof fn lemma_step_target_in_universe(&self, from: Nid, c: Nid, y: Nid)
        requires
            self.wf(),
            self.has_node(c),
            self.succ(c).contains(y),
        ensures
            self.universe(from).contains(y),
    {
        let i = self.node_idx_of(c);
        self.lemma_node_of_id(c);
        lemma_adj_concat_contains(self.nodes_seq(), i, y);
        let a = adj_concat(self.nodes_seq());
        let j = choose|j: int| 0 <= j < a.len() && a[j] == y;
        assert(self.universe(from)[j + 1] == y);
        assert(self.universe(from).contains(y));
    }

    /// The first entry of `edges` that is neither the root nor already
    /// recorded in `seen`, and that passes the defensive existence check.
    fn first_candidate(&self, edges: &Vec<Nid>, from: Nid, seen: &Vec<Nid>) -> (res: Option<
        Nid,
    >)
        requires
            self.wf(),
        ensures
            match res {
                Option::Some(y) => edges@.contains(y) && y != from && !seen@.contains(y)
                    && self.ok_target(y),
                Option::None => forall|y: Nid|
                    edges@.contains(y) ==> (y == from || seen@.contains(y) || !self.ok_target(
                        y,
                    )),
            },
    {
        let mut j: usize = 0;
        while j < edges.len()
            invariant
                self.wf(),
                0 <= j <= edges@.len(),
                forall|k: int|
                    0 <= k < j ==> ((#[trigger] edges@[k]) == from || seen@.contains(edges@[k])
                        || !self.ok_target(edges@[k])),
            decreases edges@.len() - j,
        {
            let y = edges[j];
            if !(y == from || nid_vec_has(seen, y)) {
                let ok = if self.tracking_flag() {
                    self.get_node(y).is_some()
                } else {
                    true
                };
                if ok {
                    proof {
                        assert(edges@[j as int] == y);
                        assert(edges@.contains(y));
                    }
                    return Some(y);
                }
            }
            j = j + 1;
        }
        proof {
            assert forall|y: Nid|
                edges@.contains(y) implies (y == from || seen@.contains(y) || !self.ok_target(
                y,
            )) by {
                let k = choose|k: int| 0 <= k < edges@.len() && edges@[k] == y;
                assert(edges@[k] == from || seen@.contains(edges@[k]) || !self.ok_target(
                    edges@[k],
                ));
            }
        }
        None
    }

    /// The identifiers a depth-first run from `from` records, in the order
    /// they were first entered; the root itself is not recorded. With a
    /// target the run stops as soon as the target is recorded, so the
    /// result is then a partial exploration; without one, or when the
    /// target is unreachable, the run explores everything reachable.
    fn depth_run(&self, from: Nid, tgt: Option<Nid>) -> (r: Vec<Nid>)
        requires
            self.wf(),
        ensures
            !r@.contains(from),
            r@.no_duplicates(),
            forall|i: int| 0 <= i < r@.len() ==> self.reach(from, #[trigger] r@[i]),
            (match tgt {
                Option::Some(t) => r@.contains(t) == (t != from && self.reach(from, t)),
                Option::None => forall|y: Nid|
                    self.reach(from, y) && y != from ==> r@.contains(y),
            }),
            (match tgt {
                Option::Some(t) => r@.contains(t) ==> r@[r@.len() - 1] == t,
                Option::None => true,
            }),
    {
        let ghost us = self.universe(from);
        let mut r: Vec<Nid> = Vec::new();
        let mut stack: Vec<Nid> = Vec::new();
        stack.push(from);
        proof {
            assert(us[0] == from);
            assert(us.contains(from));
        }
        while stack.len() > 0
            invariant_except_break
                (match tgt {
                    Option::Some(t) => !r@.contains(t),
                    Option::None => true,
                }),
            invariant
                self.wf(),
                us == self.universe(from),
                us.contains(from),
                !r@.contains(from),
                r@.no_duplicates(),
                r@.len() + 1 <= us.len(),
                forall|i: int| 0 <= i < r@.len() ==> us.contains(#[trigger] r@[i]),
                forall|i: int| 0 <= i < r@.len() ==> self.reach(from, #[trigger] r@[i]),
                stack@.len() > 0 ==> stack@[0] == from,
                stack@.no_duplicates(),
                forall|i: int|
                    0 <= i < stack@.len() ==> ((#[trigger] stack@[i]) == from || r@.contains(
                        stack@[i],
                    )),
                forall|i: int|
                    0 <= i < stack@.len() - 1 ==> self.edge_step(
                        #[trigger] stack@[i],
                        stack@[i + 1],
                    ),
                forall|x: Nid, y: Nid|
                    (x == from || r@.contains(x)) && !stack@.contains(x)
                        && #[trigger] self.edge_step(x, y) ==> (y == from || r@.contains(y)),
            ensures
                (match tgt {
                    Option::Some(t) => r@.contains(t),
                    Option::None => false,
                }) || stack@.len() == 0,
                (match tgt {
                    Option::Some(t) => r@.contains(t) ==> r@.len() > 0 && r@[r@.len() - 1]
                        == t,
                    Option::None => true,
                }),
            decreases us.len() - r@.len(), stack@.len(),
        {
            let cursor = stack[stack.len() - 1];
            proof {
                assert(stack@[stack@.len() - 1] == cursor);
                assert(stack@.contains(cursor));
            }
            match self.get_node(cursor) {
                Option::Some(node) => {
                    let edges = node.get_base().get_edges();
                    match self.first_candidate(&edges, from, &r) {
                        Option::Some(y) => {
                            let ghost r0 = r@;
                            let ghost st0 = stack@;
                            proof {
                                assert(edges@ == self.succ(cursor));
                                assert(self.edge_step(cursor, y));
                                if cursor == from {
                                    self.lemma_step_reach(cursor, y);
                                } else {
                                    assert(r0.contains(cursor));
                                    let ci = choose|ci: int|
                                        0 <= ci < r0.len() && r0[ci] == cursor;
                                    assert(self.reach(from, cursor));
                                    self.lemma_reach_star_step(from, cursor, y);
                                }
                                assert(self.reach(from, y));
                                self.lemma_step_target_in_universe(from, cursor, y);
                                lemma_push_no_duplicates(r0, y);
                                assert(!st0.contains(y)) by {
                                    if st0.contains(y) {
                                        let k = choose|k: int|
                                            0 <= k < st0.len() && st0[k] == y;
                                        assert(st0[k] == from || r0.contains(st0[k]));
                                    }
                                }
                                lemma_push_no_duplicates(st0, y);
                                lemma_with_root_nodup(from, r0.push(y));
                                lemma_push_contains(r0, y, from);
                                assert forall|x: Nid|
                                    with_root(from, r0.push(y)).contains(x) implies us.contains(
                                    x,
                                ) by {
                                    lemma_with_root_contains(from, r0.push(y), x);
                                    lemma_push_contains(r0, y, x);
                                }
                                lemma_nodup_len_le(with_root(from, r0.push(y)), us);
                                assert(with_root(from, r0.push(y)).len() == r0.len() + 2);
                            }
                            stack.push(y);
                            r.push(y);
                            proof {
                                assert(r@ == r0.push(y));
                                assert(stack@ == st0.push(y));
                                assert forall|i: int|
                                    0 <= i < r@.len() implies us.contains(#[trigger] r@[i])
                                    && self.reach(from, r@[i]) by {
                                    if i < r0.len() {
                                        assert(r@[i] == r0[i]);
                                    } else {
                                        assert(r@[i] == y);
                                    }
                                }
                                assert forall|i: int|
                                    0 <= i < stack@.len() implies ((#[trigger] stack@[i])
                                    == from || r@.contains(stack@[i])) by {
                                    lemma_push_contains(r0, y, stack@[i]);
                                    if i < st0.len() {
                                        assert(stack@[i] == st0[i]);
                                    } else {
                                        assert(stack@[i] == y);
                                    }
                                }
                                assert forall|i: int|
                                    0 <= i < stack@.len() - 1 implies self.edge_step(
                                    #[trigger] stack@[i],
                                    stack@[i + 1],
                                ) by {
                                    if i < st0.len() - 1 {
                                        assert(stack@[i] == st0[i]);
                                        assert(stack@[i + 1] == st0[i + 1]);
                                        assert(self.edge_step(st0[i], st0[i + 1]));
                                    } else {
                                        assert(stack@[i] == st0[st0.len() - 1]);
                                        assert(st0[st0.len() - 1] == cursor);
                                        assert(stack@[i + 1] == y);
                                    }
                                }
                                assert forall|x: Nid, y2: Nid|
                                    (x == from || r@.contains(x)) && !stack@.contains(x)
                                        && #[trigger] self.edge_step(x, y2) implies (y2 == from
                                    || r@.contains(y2)) by {
                                    lemma_push_contains(r0, y, x);
                                    lemma_push_contains(r0, y, y2);
                                    assert(!stack@.contains(x) ==> !st0.contains(x)) by {
                                        if st0.contains(x) {
                                            let k = choose|k: int|
                                                0 <= k < st0.len() && st0[k] == x;
                                            assert(stack@[k] == x);
                                            assert(stack@.contains(x));
                                        }
                                    }
                                    assert(x != y) by {
                                        if x == y {
                                            assert(stack@[stack@.len() - 1] == y);
                                            assert(stack@.contains(x));
                                        }
                                    }
                                }
                            }
                            match tgt {
                                Option::Some(t) => {
                                    if y == t {
                                        proof {
                                            lemma_push_contains(r0, y, t);
                                        }
                                        break ;
                                    }
                                },
                                Option::None => {},
                            }
                        },
                        Option::None => {
                            let ghost st0 = stack@;
                            let _ = stack.pop();
                            proof {
                                assert(stack@ == st0.subrange(0, st0.len() - 1));
                                assert forall|x: Nid, y2: Nid|
                                    (x == from || r@.contains(x)) && !stack@.contains(x)
                                        && #[trigger] self.edge_step(x, y2) implies (y2 == from
                                    || r@.contains(y2)) by {
                                    if x == cursor {
                                        assert(self.succ(cursor).contains(y2));
                                        assert(edges@.contains(y2));
                                        assert(y2 == from || r@.contains(y2) || !self.ok_target(
                                            y2,
                                        ));
                                    } else {
                                        assert(!st0.contains(x)) by {
                                            if st0.contains(x) {
                                                let k = choose|k: int|
                                                    0 <= k < st0.len() && st0[k] == x;
                                                if k < st0.len() - 1 {
                                                    assert(stack@[k] == x);
                                                    assert(stack@.contains(x));
                                                } else {
                                                    assert(st0[k] == cursor);
                                                }
                                            }
                                        }
                                    }
                                }
                            }
                        },
                    }
                },
                Option::None => {
                    let ghost st0 = stack@;
                    let _ = stack.pop();
                    proof {
                        assert(stack@ == st0.subrange(0, st0.len() - 1));
                        assert forall|x: Nid, y2: Nid|
                            (x == from || r@.contains(x)) && !stack@.contains(x)
                                && #[trigger] self.edge_step(x, y2) implies (y2 == from
                            || r@.contains(y2)) by {
                            if x == cursor {
                                assert(self.has_node(x));
                            } else {
                                assert(!st0.contains(x)) by {
                                    if st0.contains(x) {
                                        let k = choose|k: int| 0 <= k < st0.len() && st0[k] == x;
                                        if k < st0.len() - 1 {
                                            assert(stack@[k] == x);
                                            assert(stack@.contains(x));
                                        } else {
                                            assert(st0[k] == cursor);
                                        }
                                    }
                                }
                            }
                        }
                    }
                },
            }
        }
        proof {
            let s = with_root(from, r@);
            assert forall|y: Nid| #[trigger] s.contains(y) implies (y == from || r@.contains(y)) by {
                lemma_with_root_contains(from, r@, y);
            }
            match tgt {
                Option::Some(t) => {
                    if r@.contains(t) {
                        let i = choose|i: int| 0 <= i < r@.len() && r@[i] == t;
                        assert(self.reach(from, t));
                        assert(t != from);
                    } else {
                        assert(stack@.len() == 0);
                        if t != from && self.reach(from, t) {
                            assert forall|x: Nid, y: Nid|
                                s.contains(x) && #[trigger] self.edge_step(x, y) implies s.contains(
                                y,
                            ) by {
                                lemma_with_root_contains(from, r@, x);
                                lemma_with_root_contains(from, r@, y);
                            }
                            lemma_with_root_contains(from, r@, from);
                            self.lemma_reach_closed(s, from, t);
                            lemma_with_root_contains(from, r@, t);
                        }
                    }
                },
                Option::None => {
                    assert(stack@.len() == 0);
                    assert forall|y: Nid| self.reach(from, y) && y != from implies r@.contains(
                        y,
                    ) by {
                        assert forall|x: Nid, y2: Nid|
                            s.contains(x) && #[trigger] self.edge_step(x, y2) implies s.contains(
                            y2,
                        ) by {
                            lemma_with_root_contains(from, r@, x);
                            lemma_with_root_contains(from, r@, y2);
                        }
                        lemma_with_root_contains(from, r@, from);
                        self.lemma_reach_closed(s, from, y);
                        lemma_with_root_contains(from, r@, y);
                    }
                },
            }
        }
        r
    }

    /// The identifiers a breadth-first run from `from` records, in the
    /// order they were first enqueued; the root is recorded first. Seeing
    /// the target stops only the expansion of the current node's neighbour
    /// list; the outer queue keeps draining, so the result is a visitation
    /// order, not a shortest path.
    fn breadth_run(&self, from: Nid, tgt: Option<Nid>) -> (r: Vec<Nid>)
        requires
            self.wf(),
        ensures
            r@.len() >= 1,
            r@[0] == from,
            r@.no_duplicates(),
            forall|i: int| 1 <= i < r@.len() ==> self.reach(from, #[trigger] r@[i]),
            (match tgt {
                Option::Some(t) => r@.contains(t) == (t == from || self.reach(from, t)),
                Option::None => forall|y: Nid| self.reach(from, y) ==> r@.contains(y),
            }),
    {
        let ghost us = self.universe(from);
        let mut r: Vec<Nid> = Vec::new();
        r.push(from);
        proof {
            assert(us[0] == from);
            assert(us.contains(from));
            assert(r@ == Seq::<Nid>::empty().push(from));
            assert(r@.len() == 1);
        }
        let mut qi: usize = 0;
        while qi < r.len()
            invariant
                self.wf(),
                us == self.universe(from),
                r@.len() >= 1,
                r@[0] == from,
                r@.no_duplicates(),
                0 <= qi <= r@.len(),
                r@.len() <= us.len(),
                forall|i: int| 0 <= i < r@.len() ==> us.contains(#[trigger] r@[i]),
                forall|i: int| 1 <= i < r@.len() ==> self.reach(from, #[trigger] r@[i]),
                (match tgt {
                    Option::Some(t) => !r@.contains(t),
                    Option::None => true,
                }) ==> (forall|k: int, y: Nid|
                    0 <= k < qi && #[trigger] self.edge_step(r@[k], y) ==> r@.contains(y)),
            decreases us.len() - qi,
        {
            let cursor = r[qi];
            let ghost rs = r@;
            proof {
                assert(rs[qi as int] == cursor);
                assert(rs.contains(cursor));
            }
            match self.get_node(cursor) {
                Option::Some(node) => {
                    let edges = node.get_base().get_edges();
                    let mut j: usize = 0;
                    while j < edges.len()
                        invariant_except_break
                            self.wf(),
                            us == self.universe(from),
                            edges@ == self.succ(cursor),
                            self.has_node(cursor),
                            0 <= j <= edges@.len(),
                            0 <= qi < r@.len(),
                            r@[qi as int] == cursor,
                            r@.len() >= 1,
                            r@[0] == from,
                            r@.no_duplicates(),
                            r@.len() <= us.len(),
                            rs.len() <= r@.len(),
                            forall|i: int| 0 <= i < rs.len() ==> r@[i] == rs[i],
                            forall|i: int| 0 <= i < r@.len() ==> us.contains(#[trigger] r@[i]),
                            forall|i: int| 1 <= i < r@.len() ==> self.reach(from, #[trigger] r@[i]),
                            forall|k: int| 0 <= k < j ==> (r@.contains(#[trigger] edges@[k])
                                || !self.ok_target(edges@[k])),
                            (match tgt {
                                Option::Some(t) => !r@.contains(t),
                                Option::None => true,
                            }) ==> (forall|k: int, y: Nid|
                                0 <= k < qi && #[trigger] self.edge_step(r@[k], y)
                                    ==> r@.contains(y)),
                        ensures
                            self.wf(),
                            us == self.universe(from),
                            0 <= qi < r@.len(),
                            r@[qi as int] == cursor,
                            r@.len() >= 1,
                            r@[0] == from,
                            r@.no_duplicates(),
                            r@.len() <= us.len(),
                            rs.len() <= r@.len(),
                            forall|i: int| 0 <= i < rs.len() ==> r@[i] == rs[i],
                            forall|i: int| 0 <= i < r@.len() ==> us.contains(#[trigger] r@[i]),
                            forall|i: int| 1 <= i < r@.len() ==> self.reach(from, #[trigger] r@[i]),
                            (match tgt {
                                Option::Some(t) => r@.contains(t),
                                Option::None => false,
                            }) || (forall|y: Nid|
                                edges@.contains(y) ==> r@.contains(y) || !self.ok_target(y)),
                            (match tgt {
                                Option::Some(t) => !r@.contains(t),
                                Option::None => true,
                            }) ==> (forall|k: int, y: Nid|
                                0 <= k < qi && #[trigger] self.edge_step(r@[k], y)
                                    ==> r@.contains(y)),
                        decreases edges@.len() - j,
                    {
                        let y = edges[j];
                        proof {
                            assert(edges@[j as int] == y);
                            assert(edges@.contains(y));
                        }
                        if !nid_vec_has(&r, y) {
                            let ok = if self.tracking_flag() {
                                self.get_node(y).is_some()
                            } else {
                                true
                            };
                            if ok {
                                let ghost r0 = r@;
                                proof {
                                    assert(self.edge_step(cursor, y));
                                    if qi == 0 {
                                        assert(cursor == from);
                                        self.lemma_step_reach(cursor, y);
                                    } else {
                                        assert(self.reach(from, cursor));
                                        self.lemma_reach_star_step(from, cursor, y);
                                    }
                                    self.lemma_step_target_in_universe(from, cursor, y);
                                    lemma_push_no_duplicates(r0, y);
                                    assert forall|x: Nid| r0.push(y).contains(x) implies us.contains(
                                        x,
                                    ) by {
                                        lemma_push_contains(r0, y, x);
                                    }
                                    lemma_nodup_len_le(r0.push(y), us);
                                }
                                r.push(y);
                                proof {
                                    assert(r@ == r0.push(y));
                                    assert forall|i: int|
                                        0 <= i < r@.len() implies us.contains(#[trigger] r@[i])
                                        && (i >= 1 ==> self.reach(from, r@[i])) by {
                                        if i < r0.len() {
                                            assert(r@[i] == r0[i]);
                                        } else {
                                            assert(r@[i] == y);
                                        }
                                    }
                                    assert forall|k: int|
                                        0 <= k < j + 1 implies (r@.contains(#[trigger] edges@[k])
                                        || !self.ok_target(edges@[k])) by {
                                        lemma_push_contains(r0, y, edges@[k]);
                                    }
                                    assert forall|x: Nid| r0.contains(x) implies r@.contains(
                                        x,
                                    ) by {
                                        lemma_push_contains(r0, y, x);
                                    }
                                    match tgt {
                                        Option::Some(t) => {
                                            if !r@.contains(t) {
                                                assert forall|k: int, y2: Nid|
                                                    0 <= k < qi && #[trigger] self.edge_step(
                                                        r@[k],
                                                        y2,
                                                    ) implies r@.contains(y2) by {
                                                    assert(r@[k] == r0[k]);
                                                    lemma_push_contains(r0, y, t);
                                                    assert(!r0.contains(t));
                                                    assert(r0.contains(y2));
                                                    lemma_push_contains(r0, y, y2);
                                                }
                                            }
                                        },
                                        Option::None => {
                                            assert forall|k: int, y2: Nid|
                                                0 <= k < qi && #[trigger] self.edge_step(
                                                    r@[k],
                                                    y2,
                                                ) implies r@.contains(y2) by {
                                                assert(r@[k] == r0[k]);
                                                assert(r0.contains(y2));
                                                lemma_push_contains(r0, y, y2);
                                            }
                                        },
                                    }
                                }
                                match tgt {
                                    Option::Some(t) => {
                                        if y == t {
                                            break ;
                                        }
                                    },
                                    Option::None => {},
                                }
                            }
                        }
                        j = j + 1;
                    }
                },
                Option::None => {},
            }
            qi = qi + 1;
            proof {
                if (match tgt {
                    Option::Some(t) => !r@.contains(t),
                    Option::None => true,
                }) {
                    assert forall|k: int, y: Nid|
                        0 <= k < qi && #[trigger] self.edge_step(r@[k], y) implies r@.contains(
                        y,
                    ) by {
                        if k == qi - 1 {
                            assert(r@[k] == cursor);
                            assert(self.has_node(cursor));
                            assert(self.succ(cursor).contains(y));
                            assert(self.ok_target(y));
                        }
                    }
                }
            }
        }
        proof {
            match tgt {
                Option::Some(t) => {
                    if r@.contains(t) {
                        let i = choose|i: int| 0 <= i < r@.len() && r@[i] == t;
                        if i == 0 {
                            assert(t == from);
                        } else {
                            assert(self.reach(from, t));
                        }
                    } else {
                        if t == from {
                            assert(r@[0] == from);
                            assert(r@.contains(t));
                        }
                        if self.reach(from, t) {
                            assert forall|x: Nid, y: Nid|
                                r@.contains(x) && #[trigger] self.edge_step(x, y) implies r@.contains(
                                y,
                            ) by {
                                let k = choose|k: int| 0 <= k < r@.len() && r@[k] == x;
                            }
                            assert(r@.contains(from));
                            self.lemma_reach_closed(r@, from, t);
                        }
                    }
                },
                Option::None => {
                    assert forall|y: Nid| self.reach(from, y) implies r@.contains(y) by {
                        assert forall|x: Nid, y2: Nid|
                            r@.contains(x) && #[trigger] self.edge_step(x, y2) implies r@.contains(
                            y2,
                        ) by {
                            let k = choose|k: int| 0 <= k < r@.len() && r@[k] == x;
                        }
                        assert(r@[0] == from);
                        assert(r@.contains(from));
                        self.lemma_reach_closed(r@, from, y);
                    }
                },
            }
        }
        r
    }

    /// Run the requested search and return the recorded identifiers if and
    /// only if a target was given and was found; a search without a target
    /// runs but yields nothing, and the weighted variant is a distinct
    /// not-implemented signal rather than an absent result.
    ///
    /// A found depth-first result is the entry order of the run, target
    /// included, root excluded; a found breadth-first result is the full
    /// visitation order starting at the root. Both orders follow the
    /// stored neighbour order, which carries no meaning and must not be
    /// relied upon; the contract pins the order-independent facts — when a
    /// result is present, what it contains, where it ends, that it is
    /// duplicate-free and everything in it reachable — and deliberately
    /// leaves the visitation order open.
    pub fn get_path(&self, s: GraphSearch) -> (r: Result<Option<Vec<Nid>>, GraphErr>)
        requires
            self.wf(),
        ensures
            match s {
                GraphSearch::Depth(from, tgt) => match tgt {
                    Option::None => r == Ok::<Option<Vec<Nid>>, GraphErr>(None),
                    Option::Some(t) => match r {
                        Result::Ok(op) => match op {
                            Option::Some(p) => {
                                &&& self.depth_found(from, t)
                                &&& p@.contains(t)
                                &&& p@.len() > 0
                                &&& p@[p@.len() - 1] == t
                                &&& !p@.contains(from)
                                &&& p@.no_duplicates()
                                &&& forall|i: int|
                                    0 <= i < p@.len() ==> self.reach(from, #[trigger] p@[i])
                            },
                            Option::None => !self.depth_found(from, t),
                        },
                        Result::Err(_) => false,
                    },
                },
                GraphSearch::Breadth(from, tgt) => match tgt {
                    Option::None => r == Ok::<Option<Vec<Nid>>, GraphErr>(None),
                    Option::Some(t) => match r {
                        Result::Ok(op) => match op {
                            Option::Some(p) => {
                                &&& self.breadth_found(from, t)
                                &&& p@.contains(t)
                                &&& p@.len() >= 1
                                &&& p@[0] == from
                                &&& p@.no_duplicates()
                                &&& forall|i: int|
                                    1 <= i < p@.len() ==> self.reach(from, #[trigger] p@[i])
                            },
                            Option::None => !self.breadth_found(from, t),
                        },
                        Result::Err(_) => false,
                    },
                },
                GraphSearch::Dijkstra(_, _) => r == Err::<Option<Vec<Nid>>, GraphErr>(
                    GraphErr::NotImplemented,
                ),
            },
    {
        match s {
            GraphSearch::Depth(from, tgt) => {
                let res = self.depth_run(from, tgt);
                match tgt {
                    Option::Some(t) => {
                        if nid_vec_has(&res, t) {
                            Ok(Some(res))
                        } else {
                            Ok(None)
                        }
                    },
                    Option::None => Ok(None),
                }
            },
            GraphSearch::Breadth(from, tgt) => {
                let res = self.breadth_run(from, tgt);
                match tgt {
                    Option::Some(t) => {
                        if nid_vec_has(&res, t) {
                            Ok(Some(res))
                        } else {
                            Ok(None)
                        }
                    },
                    Option::None => Ok(None),
                }
            },
            GraphSearch::Dijkstra(_, _) => Err(GraphErr::NotImplemented),
        }
    }

    /// One arbitrary outgoing neighbour of `from`: the first in stored
    /// order, re-validated for existence under tracking mode; absent when
    /// the node is absent, has no outgoing edges, or its first neighbour
    /// fails the defensive check.
    pub fn get_next(&self, from: Nid) -> (r: Option<Nid>)
        requires
            self.wf(),
        ensures
            match r {
                Option::Some(y) => self.has_node(from) && self.succ(from).len() > 0 && y
                    == self.succ(from)[0] && self.ok_target(y),
                Option::None => !self.has_node(from) || self.succ(from).len() == 0
                    || !self.ok_target(self.succ(from)[0]),
            },
    {
        match self.get_node(from) {
            Option::Some(node) => {
                let edges = node.get_base().get_edges();
                if edges.len() > 0 {
                    let y = edges[0];
                    let ok = if self.tracking_flag() {
                        self.get_node(y).is_some()
                    } else {
                        true
                    };
                    if ok {
                        Some(y)
                    } else {
                        None
                    }
                } else {
                    None
                }
            },
            Option::None => None,
        }
    }

    /// Whole-graph connectivity testing is recognized but not provided.
    pub fn is_connected(&self) -> (r: Result<bool, GraphErr>)
        ensures
            r == Err::<bool, GraphErr>(GraphErr::NotImplemented),
    {
        Err(GraphErr::NotImplemented)
    }

    /// Completeness testing is recognized but not provided.
    pub fn is_complete(&self) -> (r: Result<bool, GraphErr>)
        ensures
            r == Err::<bool, GraphErr>(GraphErr::NotImplemented),
    {
        Err(GraphErr::NotImplemented)
    }

    /// Weighted shortest-path search is recognized but not provided.
    pub fn get_path_shortest(&self) -> (r: Result<Vec<Nid>, GraphErr>)
        ensures
            r == Err::<Vec<Nid>, GraphErr>(GraphErr::NotImplemented),
    {
        Err(GraphErr::NotImplemented)
    }

    /// Decompose the graph: repeatedly run an untargeted depth-first
    /// search from each node not yet covered, recording each run's visited
    /// sequence (root first). Every stored node appears in some run, each
    /// run holds exactly what is reachable from its root, and no run's
    /// root was already covered by an earlier run.
    pub fn get_all_nodes(&self) -> (r: Vec<Vec<Nid>>)
        requires
            self.wf(),
        ensures
            forall|k: int|
                0 <= k < r@.len() ==> {
                    let run = (#[trigger] r@[k])@;
                    &&& run.len() >= 1
                    &&& self.has_node(run[0])
                    &&& run.no_duplicates()
                    &&& (forall|y: Nid|
                        #[trigger] run.contains(y) == (y == run[0] || self.reach(run[0], y)))
                },
            forall|n: Nid|
                self.has_node(n) ==> exists|k: int|
                    0 <= k < r@.len() && (#[trigger] r@[k])@.contains(n),
            forall|k1: int, k2: int|
                0 <= k1 < k2 < r@.len() ==> !(#[trigger] r@[k1])@.contains((#[trigger] r@[k2])@[0]),
    {
        let ids = self.stored_ids();
        let mut result: Vec<Vec<Nid>> = Vec::new();
        let mut covered: Vec<Nid> = Vec::new();
        let mut i: usize = 0;
        while i < ids.len()
            invariant
                self.wf(),
                ids@.len() == self.nodes_seq().len(),
                forall|j: int|
                    0 <= j < ids@.len() ==> ids@[j] == #[trigger] self.nodes_seq()[j].id_spec(),
                0 <= i <= ids@.len(),
                forall|y: Nid|
                    #[trigger] covered@.contains(y) == (exists|k: int|
                        0 <= k < result@.len() && (#[trigger] result@[k])@.contains(y)),
                forall|k: int|
                    0 <= k < result@.len() ==> {
                        let run = (#[trigger] result@[k])@;
                        &&& run.len() >= 1
                        &&& self.has_node(run[0])
                        &&& run.no_duplicates()
                        &&& (forall|y: Nid|
                            #[trigger] run.contains(y) == (y == run[0] || self.reach(
                                run[0],
                                y,
                            )))
                    },
                forall|k1: int, k2: int|
                    0 <= k1 < k2 < result@.len() ==> !(#[trigger] result@[k1])@.contains(
                        (#[trigger] result@[k2])@[0],
                    ),
                forall|j: int| 0 <= j < i ==> covered@.contains(#[trigger] ids@[j]),
            decreases ids@.len() - i,
        {
            let nid = ids[i];
            if !nid_vec_has(&covered, nid) {
                proof {
                    self.lemma_node_at(i as int);
                    assert(self.has_node(nid));
                }
                let mut tail = self.depth_run(nid, None);
                let ghost tailv = tail@;
                let mut run: Vec<Nid> = Vec::new();
                run.push(nid);
                run.append(&mut tail);
                proof {
                    assert(run@ == seq![nid] + tailv);
                    assert(run@ == with_root(nid, tailv));
                    lemma_with_root_nodup(nid, tailv);
                    assert(run@[0] == nid);
                    assert forall|y: Nid| #[trigger] run@.contains(y) == (y == nid
                        || self.reach(nid, y)) by {
                        lemma_with_root_contains(nid, tailv, y);
                        if tailv.contains(y) {
                            let j = choose|j: int| 0 <= j < tailv.len() && tailv[j] == y;
                            assert(self.reach(nid, y));
                        }
                        if y != nid && self.reach(nid, y) {
                            assert(tailv.contains(y));
                        }
                    }
                }
                let ghost cov0 = covered@;
                let ghost res0 = result@;
                let mut c: usize = 0;
                while c < run.len()
                    invariant
                        0 <= c <= run@.len(),
                        covered@ == cov0 + run@.subrange(0, c as int),
                    decreases run@.len() - c,
                {
                    let ghost covpre = covered@;
                    covered.push(run[c]);
                    proof {
                        assert(covered@ =~= cov0 + run@.subrange(0, c + 1 as int));
                    }
                    c = c + 1;
                }
                proof {
                    assert(run@.subrange(0, run@.len() as int) =~= run@);
                    assert(covered@ == cov0 + run@);
                }
                result.push(run);
                proof {
                    assert(result@ == res0.push(result@[res0.len() as int]));
                    let runv = result@[res0.len() as int]@;
                    assert(runv == with_root(nid, tailv));
                    assert(!cov0.contains(nid));
                    assert forall|y: Nid|
                        #[trigger] covered@.contains(y) == (exists|k: int|
                            0 <= k < result@.len() && (#[trigger] result@[k])@.contains(
                                y,
                            )) by {
                        lemma_concat_contains(cov0, runv, y);
                        if cov0.contains(y) {
                            let k = choose|k: int|
                                0 <= k < res0.len() && (#[trigger] res0[k])@.contains(y);
                            assert(result@[k]@.contains(y));
                        }
                        if runv.contains(y) {
                            assert(result@[res0.len() as int]@.contains(y));
                        }
                        if exists|k: int|
                            0 <= k < result@.len() && (#[trigger] result@[k])@.contains(y) {
                            let k = choose|k: int|
                                0 <= k < result@.len() && (#[trigger] result@[k])@.contains(y);
                            if k < res0.len() {
                                assert(res0[k]@.contains(y));
                                assert(cov0.contains(y));
                            } else {
                                assert(result@[k]@.contains(y));
                            }
                        }
                    }
                    assert forall|k1: int, k2: int|
                        0 <= k1 < k2 < result@.len() implies !(#[trigger] result@[k1])@.contains(
                        (#[trigger] result@[k2])@[0],
                    ) by {
                        if k2 == res0.len() {
                            assert(result@[k2]@[0] == nid);
                            if res0[k1]@.contains(nid) {
                                assert(cov0.contains(nid));
                            }
                        } else {
                            assert(result@[k1] == res0[k1]);
                            assert(result@[k2] == res0[k2]);
                        }
                    }
                    assert forall|j: int| 0 <= j < i + 1 implies covered@.contains(
                        #[trigger] ids@[j],
                    ) by {
                        lemma_concat_contains(cov0, runv, ids@[j]);
                        if j < i {
                            assert(cov0.contains(ids@[j]));
                        } else {
                            assert(runv[0] == nid);
                            assert(runv.contains(nid));
                        }
                    }
                }
            }
            i = i + 1;
        }
        proof {
            assert forall|n: Nid| self.has_node(n) implies exists|k: int|
                0 <= k < result@.len() && (#[trigger] result@[k])@.contains(n) by {
                let j = self.node_idx_of(n);
                assert(self.nodes_seq()[j].id_spec() == n);
                assert(ids@[j] == n);
                assert(covered@.contains(n));
            }
        }
        result
    }

    /// A recorded back-edge pair (y, c): the traversal stood on `c`, which
    /// lists `y`, while `y` was still on the active stack — so `c` is
    /// reachable from `y` and the edge from `c` back to `y` closes a walk.
    pub open spec fn back_edge_sound(&self, from: Nid, pr: Eid) -> bool {
        &&& self.edge_step(pr.1, pr.0)
        &&& self.reach_star(pr.0, pr.1)
        &&& self.reach_star(from, pr.0)
    }

    /// Record, for the node `cursor` under expansion, every outgoing
    /// neighbour that is still on the active stack as a back-edge pair.
    fn record_back_edges(
        &self,
        from: Nid,
        cursor: Nid,
        edges: &Vec<Nid>,
        stack: &Vec<Nid>,
        r: &mut Vec<Eid>,
    )
        requires
            self.wf(),
            stack@.len() > 0,
            stack@[0] == from,
            stack@[stack@.len() - 1] == cursor,
            forall|i: int|
                0 <= i < stack@.len() - 1 ==> self.edge_step(#[trigger] stack@[i], stack@[i + 1]),
            self.has_node(cursor),
            edges@ == self.succ(cursor),
            old(r)@.no_duplicates(),
            forall|i: int|
                0 <= i < old(r)@.len() ==> self.back_edge_sound(from, #[trigger] old(r)@[i]),
        ensures
            final(r)@.no_duplicates(),
            forall|i: int|
                0 <= i < final(r)@.len() ==> self.back_edge_sound(from, #[trigger] final(r)@[i]),
            forall|y: Nid|
                edges@.contains(y) && stack@.contains(y) ==> final(r)@.contains((y, cursor)),
            old(r)@.len() <= final(r)@.len(),
            forall|i: int| 0 <= i < old(r)@.len() ==> final(r)@[i] == old(r)@[i],
    {
        proof {
            assert(self.has_node(from)) by {
                if stack@.len() == 1 {
                    assert(stack@[0] == cursor);
                } else {
                    assert(self.edge_step(stack@[0], stack@[1]));
                }
            }
        }
        let mut j: usize = 0;
        while j < edges.len()
            invariant
                self.wf(),
                stack@.len() > 0,
                stack@[0] == from,
                stack@[stack@.len() - 1] == cursor,
                forall|i: int|
                    0 <= i < stack@.len() - 1 ==> self.edge_step(
                        #[trigger] stack@[i],
                        stack@[i + 1],
                    ),
                self.has_node(cursor),
                self.has_node(from),
                edges@ == self.succ(cursor),
                0 <= j <= edges@.len(),
                r@.no_duplicates(),
                forall|i: int|
                    0 <= i < r@.len() ==> self.back_edge_sound(from, #[trigger] r@[i]),
                forall|k: int|
                    0 <= k < j && stack@.contains(#[trigger] edges@[k]) ==> r@.contains(
                        (edges@[k], cursor),
                    ),
                old(r)@.len() <= r@.len(),
                forall|i: int| 0 <= i < old(r)@.len() ==> r@[i] == old(r)@[i],
            decreases edges@.len() - j,
        {
            let y = edges[j];
            proof {
                assert(edges@[j as int] == y);
            }
            if nid_vec_has(stack, y) {
                if !eid_vec_has(r, (y, cursor)) {
                    let ghost r0 = r@;
                    proof {
                        let k = choose|k: int| 0 <= k < stack@.len() && stack@[k] == y;
                        assert(self.edge_step(cursor, y)) by {
                            assert(self.succ(cursor).contains(y));
                            if self.tracking_spec() {
                                if k == 0 {
                                    assert(y == from);
                                } else {
                                    assert(self.edge_step(stack@[k - 1], stack@[k]));
                                }
                            }
                        }
                        self.lemma_chain_reach_star(stack@, k, stack@.len() - 1);
                        self.lemma_chain_reach_star(stack@, 0, k);
                        assert(self.back_edge_sound(from, (y, cursor)));
                    }
                    r.push((y, cursor));
                    proof {
                        assert(r@ == r0.push((y, cursor)));
                        assert forall|i1: int, i2: int|
                            0 <= i1 < i2 < r@.len() implies r@[i1] != r@[i2] by {
                            if i2 == r0.len() {
                                assert(r@[i1] == r0[i1]);
                                if r0[i1] == (y, cursor) {
                                    assert(r0.contains((y, cursor)));
                                }
                            } else {
                                assert(r@[i1] == r0[i1]);
                                assert(r@[i2] == r0[i2]);
                            }
                        }
                        assert forall|i: int|
                            0 <= i < r@.len() implies self.back_edge_sound(
                            from,
                            #[trigger] r@[i],
                        ) by {
                            if i < r0.len() {
                                assert(r@[i] == r0[i]);
                            } else {
                                assert(r@[i] == (y, cursor));
                            }
                        }
                        assert forall|k2: int|
                            0 <= k2 < j + 1 && stack@.contains(#[trigger] edges@[k2]) implies r@.contains(
                            (edges@[k2], cursor),
                        ) by {
                            if k2 < j {
                                assert(r0.contains((edges@[k2], cursor)));
                                let ii = choose|ii: int|
                                    0 <= ii < r0.len() && r0[ii] == (edges@[k2], cursor);
                                assert(r@[ii] == (edges@[k2], cursor));
                            } else {
                                assert(r@[r0.len() as int] == (y, cursor));
                            }
                        }
                    }
                } else {
                    proof {
                        assert forall|k2: int|
                            0 <= k2 < j + 1 && stack@.contains(#[trigger] edges@[k2]) implies r@.contains(
                            (edges@[k2], cursor),
                        ) by {}
                    }
                }
            }
            j = j + 1;
        }
        proof {
            assert forall|y: Nid|
                edges@.contains(y) && stack@.contains(y) implies r@.contains((y, cursor)) by {
                let k = choose|k: int| 0 <= k < edges@.len() && edges@[k] == y;
                assert(stack@.contains(edges@[k]));
            }
        }
    }

    /// Under the finishing-order property — every step out of a finished
    /// node lands strictly earlier in the finishing order — a walk can only
    /// descend, so its endpoint finishes strictly before its start.
    proof fn lemma_rank_descent(&self, fin: Seq<Nid>, p: Seq<Nid>, i: int)
        requires
            forall|ii: int, y: Nid|
                0 <= ii < fin.len() && #[trigger] self.edge_step(fin[ii], y) ==> (exists|j: int|
                    0 <= j < ii && fin[j] == y),
            self.is_walk(p),
            0 <= i < fin.len(),
            fin[i] == p.first(),
        ensures
            exists|j: int| 0 <= j < i && fin[j] == p.last(),
        decreases p.len(),
    {
        assert(p[0] == p.first());
        assert(self.edge_step(p[0], p[1]));
        assert(self.edge_step(fin[i], p[1]));
        let j1 = choose|j: int| 0 <= j < i && fin[j] == p[1];
        if p.len() == 2 {
            assert(fin[j1] == p.last());
        } else {
            let q = p.drop_first();
            assert forall|ii: int| 0 <= ii < q.len() - 1 implies self.edge_step(
                #[trigger] q[ii],
                q[ii + 1],
            ) by {
                assert(q[ii] == p[ii + 1]);
                assert(q[ii + 1] == p[ii + 2]);
                assert(self.edge_step(p[ii + 1], p[ii + 2]));
            }
            assert(self.is_walk(q));
            assert(q.first() == p[1]);
            self.lemma_rank_descent(fin, q, j1);
            let j = choose|j: int| 0 <= j < j1 && fin[j] == q.last();
            assert(q.last() == p.last());
            assert(fin[j] == p.last());
        }
    }

    /// Detect cycles in the component reachable from `from`: a depth-first
    /// walk that, whenever the node under expansion lists a node still on
    /// the active stack, records the ordered pair (listed node, current
    /// node) as a back-edge. The walk does not stop at the first cycle; it
    /// explores the whole reachable component. The result is empty exactly
    /// when no node reachable from `from` lies on a cycle.
    ///
    /// Which pair stands for a given cycle depends on the walk, and the
    /// walk follows the stored neighbour order — an order that carries no
    /// meaning and that callers must not rely on. The contract therefore
    /// pins every order-independent fact (each pair closes a real cycle,
    /// the pairs are distinct, emptiness is equivalent to acyclicity) and
    /// deliberately leaves the choice of representative pairs open.
    pub fn get_cycle(&self, from: Nid) -> (r: Vec<Eid>)
        requires
            self.wf(),
        ensures
            r@.no_duplicates(),
            forall|i: int|
                0 <= i < r@.len() ==> self.back_edge_sound(from, #[trigger] r@[i]),
            (r@.len() == 0) == !self.has_cycle_from(from),
    {
        let ghost us = self.universe(from);
        let mut r: Vec<Eid> = Vec::new();
        let mut visit: Vec<Nid> = Vec::new();
        let mut stack: Vec<Nid> = Vec::new();
        stack.push(from);
        let ghost mut fin: Seq<Nid> = Seq::empty();
        proof {
            assert(us[0] == from);
            assert(us.contains(from));
        }
        while stack.len() > 0
            invariant
                self.wf(),
                us == self.universe(from),
                us.contains(from),
                !visit@.contains(from),
                visit@.no_duplicates(),
                visit@.len() + 1 <= us.len(),
                forall|i: int| 0 <= i < visit@.len() ==> us.contains(#[trigger] visit@[i]),
                stack@.len() > 0 ==> stack@[0] == from,
                stack@.no_duplicates(),
                forall|i: int|
                    0 <= i < stack@.len() ==> ((#[trigger] stack@[i]) == from || visit@.contains(
                        stack@[i],
                    )),
                forall|i: int|
                    0 <= i < stack@.len() - 1 ==> self.edge_step(
                        #[trigger] stack@[i],
                        stack@[i + 1],
                    ),
                fin.no_duplicates(),
                forall|x: Nid|
                    #[trigger] fin.contains(x) == ((x == from || visit@.contains(x))
                        && !stack@.contains(x)),
                r@.len() == 0 ==> (forall|ii: int, y: Nid|
                    0 <= ii < fin.len() && #[trigger] self.edge_step(fin[ii], y) ==> (
                    exists|j: int| 0 <= j < ii && fin[j] == y)),
                r@.no_duplicates(),
                forall|i: int|
                    0 <= i < r@.len() ==> self.back_edge_sound(from, #[trigger] r@[i]),
            decreases us.len() - visit@.len(), stack@.len(),
        {
            let cursor = stack[stack.len() - 1];
            proof {
                assert(stack@[stack@.len() - 1] == cursor);
                assert(stack@.contains(cursor));
            }
            match self.get_node(cursor) {
                Option::Some(node) => {
                    let edges = node.get_base().get_edges();
                    let ghost r_pre = r@;
                    self.record_back_edges(from, cursor, &edges, &stack, &mut r);
                    proof {
                        if r@.len() == 0 {
                            assert(r_pre.len() == 0);
                        }
                    }
                    match self.first_candidate(&edges, from, &visit) {
                        Option::Some(y) => {
                            let ghost v0 = visit@;
                            let ghost st0 = stack@;
                            proof {
                                assert(edges@ == self.succ(cursor));
                                self.lemma_step_target_in_universe(from, cursor, y);
                                lemma_push_no_duplicates(v0, y);
                                assert(!st0.contains(y)) by {
                                    if st0.contains(y) {
                                        let k = choose|k: int|
                                            0 <= k < st0.len() && st0[k] == y;
                                        assert(st0[k] == from || v0.contains(st0[k]));
                                    }
                                }
                                lemma_push_no_duplicates(st0, y);
                                lemma_with_root_nodup(from, v0.push(y));
                                assert forall|x: Nid|
                                    with_root(from, v0.push(y)).contains(x) implies us.contains(
                                    x,
                                ) by {
                                    lemma_with_root_contains(from, v0.push(y), x);
                                    lemma_push_contains(v0, y, x);
                                }
                                lemma_nodup_len_le(with_root(from, v0.push(y)), us);
                                assert(with_root(from, v0.push(y)).len() == v0.len() + 2);
                            }
                            stack.push(y);
                            visit.push(y);
                            proof {
                                assert(visit@ == v0.push(y));
                                assert(stack@ == st0.push(y));
                                assert forall|i: int|
                                    0 <= i < visit@.len() implies us.contains(
                                    #[trigger] visit@[i],
                                ) by {
                                    if i < v0.len() {
                                        assert(visit@[i] == v0[i]);
                                    } else {
                                        assert(visit@[i] == y);
                                    }
                                }
                                assert forall|i: int|
                                    0 <= i < stack@.len() implies ((#[trigger] stack@[i])
                                    == from || visit@.contains(stack@[i])) by {
                                    lemma_push_contains(v0, y, stack@[i]);
                                    if i < st0.len() {
                                        assert(stack@[i] == st0[i]);
                                    } else {
                                        assert(stack@[i] == y);
                                    }
                                }
                                assert forall|i: int|
                                    0 <= i < stack@.len() - 1 implies self.edge_step(
                                    #[trigger] stack@[i],
                                    stack@[i + 1],
                                ) by {
                                    if i < st0.len() - 1 {
                                        assert(stack@[i] == st0[i]);
                                        assert(stack@[i + 1] == st0[i + 1]);
                                        assert(self.edge_step(st0[i], st0[i + 1]));
                                    } else {
                                        assert(stack@[i] == st0[st0.len() - 1]);
                                        assert(st0[st0.len() - 1] == cursor);
                                        assert(stack@[i + 1] == y);
                                        assert(self.edge_step(cursor, y));
                                    }
                                }
                                assert forall|x: Nid|
                                    #[trigger] fin.contains(x) == ((x == from
                                        || visit@.contains(x)) && !stack@.contains(x)) by {
                                    lemma_push_contains(v0, y, x);
                                    lemma_push_contains(st0, y, x);
                                    if x == y {
                                        assert(stack@[stack@.len() - 1] == y);
                                        assert(stack@.contains(y));
                                    }
                                }
                            }
                        },
                        Option::None => {
                            let ghost st0 = stack@;
                            let _ = stack.pop();
                            proof {
                                assert(stack@ == st0.subrange(0, st0.len() - 1));
                                assert(!fin.contains(cursor));
                                let fin0 = fin;
                                fin = fin.push(cursor);
                                assert forall|i1: int, i2: int|
                                    0 <= i1 < i2 < fin.len() implies fin[i1] != fin[i2] by {
                                    if i2 == fin0.len() {
                                        assert(fin[i1] == fin0[i1]);
                                        if fin0[i1] == cursor {
                                            assert(fin0.contains(cursor));
                                        }
                                    } else {
                                        assert(fin[i1] == fin0[i1]);
                                        assert(fin[i2] == fin0[i2]);
                                    }
                                }
                                assert(!st0.subrange(0, st0.len() - 1).contains(cursor)) by {
                                    if stack@.contains(cursor) {
                                        let k = choose|k: int|
                                            0 <= k < stack@.len() && stack@[k] == cursor;
                                        assert(st0[k] == cursor);
                                        assert(st0[st0.len() - 1] == cursor);
                                    }
                                }
                                assert forall|x: Nid|
                                    #[trigger] fin.contains(x) == ((x == from
                                        || visit@.contains(x)) && !stack@.contains(x)) by {
                                    lemma_push_contains(fin0, cursor, x);
                                    if x == cursor {
                                        assert(fin.contains(cursor)) by {
                                            assert(fin[fin0.len() as int] == cursor);
                                        }
                                    } else {
                                        assert(!st0.contains(x) ==> !stack@.contains(x)) by {
                                            if stack@.contains(x) {
                                                let k = choose|k: int|
                                                    0 <= k < stack@.len() && stack@[k] == x;
                                                assert(st0[k] == x);
                                            }
                                        }
                                        assert(stack@.contains(x) ==> st0.contains(x));
                                        assert(!stack@.contains(x) && st0.contains(x) ==> x
                                            == cursor) by {
                                            if st0.contains(x) && x != cursor {
                                                let k = choose|k: int|
                                                    0 <= k < st0.len() && st0[k] == x;
                                                assert(k < st0.len() - 1);
                                                assert(stack@[k] == x);
                                                assert(stack@.contains(x));
                                            }
                                        }
                                    }
                                }
                                if r@.len() == 0 {
                                    assert forall|ii: int, y: Nid|
                                        0 <= ii < fin.len() && #[trigger] self.edge_step(
                                            fin[ii],
                                            y,
                                        ) implies (exists|j: int|
                                        0 <= j < ii && fin[j] == y) by {
                                        if ii < fin0.len() {
                                            assert(fin[ii] == fin0[ii]);
                                            assert(self.edge_step(fin0[ii], y));
                                            let j = choose|j: int|
                                                0 <= j < ii && fin0[j] == y;
                                            assert(fin[j] == y);
                                        } else {
                                            assert(fin[ii] == cursor);
                                            assert(self.succ(cursor).contains(y));
                                            assert(edges@.contains(y));
                                            assert(r@.contains((y, cursor)) == false);
                                            assert(!st0.contains(y)) by {
                                                if st0.contains(y) {
                                                    assert(r@.contains((y, cursor)));
                                                    let k = choose|k: int|
                                                        0 <= k < r@.len() && r@[k] == (
                                                        y,
                                                        cursor,
                                                        );
                                                }
                                            }
                                            assert(y == from || visit@.contains(y)
                                                || !self.ok_target(y));
                                            assert(self.ok_target(y));
                                            assert(fin0.contains(y));
                                            let j = choose|j: int|
                                                0 <= j < fin0.len() && fin0[j] == y;
                                            assert(fin[j] == y);
                                        }
                                    }
                                }
                            }
                        },
                    }
                },
                Option::None => {
                    let ghost st0 = stack@;
                    let _ = stack.pop();
                    proof {
                        assert(stack@ == st0.subrange(0, st0.len() - 1));
                        assert(!fin.contains(cursor));
                        let fin0 = fin;
                        fin = fin.push(cursor);
                        assert forall|i1: int, i2: int|
                            0 <= i1 < i2 < fin.len() implies fin[i1] != fin[i2] by {
                            if i2 == fin0.len() {
                                assert(fin[i1] == fin0[i1]);
                                if fin0[i1] == cursor {
                                    assert(fin0.contains(cursor));
                                }
                            } else {
                                assert(fin[i1] == fin0[i1]);
                                assert(fin[i2] == fin0[i2]);
                            }
                        }
                        assert forall|x: Nid|
                            #[trigger] fin.contains(x) == ((x == from || visit@.contains(x))
                                && !stack@.contains(x)) by {
                            lemma_push_contains(fin0, cursor, x);
                            if x == cursor {
                                assert(fin.contains(cursor)) by {
                                    assert(fin[fin0.len() as int] == cursor);
                                }
                                assert(!stack@.contains(cursor)) by {
                                    if stack@.contains(cursor) {
                                        let k = choose|k: int|
                                            0 <= k < stack@.len() && stack@[k] == cursor;
                                        assert(st0[k] == cursor);
                                        assert(st0[st0.len() - 1] == cursor);
                                    }
                                }
                            } else {
                                assert(!st0.contains(x) ==> !stack@.contains(x)) by {
                                    if stack@.contains(x) {
                                        let k = choose|k: int|
                                            0 <= k < stack@.len() && stack@[k] == x;
                                        assert(st0[k] == x);
                                    }
                                }
                                assert(!stack@.contains(x) && st0.contains(x) ==> x == cursor)
                                    by {
                                    if st0.contains(x) && x != cursor {
                                        let k = choose|k: int|
                                            0 <= k < st0.len() && st0[k] == x;
                                        assert(k < st0.len() - 1);
                                        assert(stack@[k] == x);
                                        assert(stack@.contains(x));
                                    }
                                }
                            }
                        }
                        if r@.len() == 0 {
                            assert forall|ii: int, y: Nid|
                                0 <= ii < fin.len() && #[trigger] self.edge_step(
                                    fin[ii],
                                    y,
                                ) implies (exists|j: int| 0 <= j < ii && fin[j] == y) by {
                                if ii < fin0.len() {
                                    assert(fin[ii] == fin0[ii]);
                                    assert(self.edge_step(fin0[ii], y));
                                    let j = choose|j: int| 0 <= j < ii && fin0[j] == y;
                                    assert(fin[j] == y);
                                } else {
                                    assert(fin[ii] == cursor);
                                    assert(!self.has_node(cursor));
                                }
                            }
                        }
                    }
                },
            }
        }
        proof {
            if r@.len() == 0 {
                assert(!self.has_cycle_from(from)) by {
                    if self.has_cycle_from(from) {
                        let x = choose|x: Nid|
                            self.reach_star(from, x) && #[trigger] self.reach(x, x);
                        assert(fin.contains(from));
                        assert forall|a: Nid, b: Nid|
                            fin.contains(a) && #[trigger] self.edge_step(a, b) implies fin.contains(
                            b,
                        ) by {
                            let ii = choose|ii: int| 0 <= ii < fin.len() && fin[ii] == a;
                            assert(self.edge_step(fin[ii], b));
                            let j = choose|j: int| 0 <= j < ii && fin[j] == b;
                        }
                        self.lemma_reach_closed(fin, from, x);
                        let i = choose|i: int| 0 <= i < fin.len() && fin[i] == x;
                        let p = choose|p: Seq<Nid>|
                            #[trigger] self.is_walk(p) && p.first() == x && p.last() == x;
                        self.lemma_rank_descent(fin, p, i);
                        let j = choose|j: int| 0 <= j < i && fin[j] == p.last();
                        assert(fin[j] == fin[i]);
                        assert(false);
                    }
                }
            } else {
                let pr = r@[0];
                assert(self.back_edge_sound(from, pr));
                self.lemma_reach_star_step(pr.0, pr.1, pr.0);
                assert(self.reach(pr.0, pr.0));
                assert(self.has_cycle_from(from));
            }
        }
        r
    }
}

} // verus!

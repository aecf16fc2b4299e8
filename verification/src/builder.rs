use vstd::prelude::*;

verus! {

use crate::backend::Graph;
use crate::caps::{GraphEdge, GraphNode};

/// Fluent assembly of a configured graph: set the flags on a
/// work-in-progress configuration, then `build` the graph. Every
/// combination of flags is legal; `tracking` asks the graph to also record,
/// per node, which nodes point into it.
pub struct GraphBuilder<E: GraphEdge, N: GraphNode>(Graph<E, N>);

impl<E: GraphEdge, N: GraphNode> GraphBuilder<E, N> {
    /// The graph under construction.
    pub closed spec fn graph_spec(&self) -> Graph<E, N> {
        self.0
    }

    /// Start from the default configuration: directed, unweighted, not
    /// tracking, empty.
    pub fn new() -> (r: GraphBuilder<E, N>)
        ensures
            r.graph_spec().wf(),
            r.graph_spec().id_headroom(),
            r.graph_spec().nodes_seq().len() == 0,
            r.graph_spec().edges_seq().len() == 0,
            r.graph_spec().directed_spec(),
            !r.graph_spec().weighted_spec(),
            !r.graph_spec().tracking_spec(),
    {
        GraphBuilder(Graph::default())
    }

    /// Choose whether edges are one-way.
    pub fn directed(self, d: bool) -> (r: GraphBuilder<E, N>)
        ensures
            r.graph_spec().nodes_seq() == self.graph_spec().nodes_seq(),
            r.graph_spec().edges_seq() == self.graph_spec().edges_seq(),
            r.graph_spec().directed_spec() == d,
            r.graph_spec().weighted_spec() == self.graph_spec().weighted_spec(),
            r.graph_spec().tracking_spec() == self.graph_spec().tracking_spec(),
            r.graph_spec().next_id_spec() == self.graph_spec().next_id_spec(),
    {
        let mut b = self;
        b.0.set_directed(d);
        b
    }

    /// Choose whether edge payloads are weights.
    pub fn weighted(self, w: bool) -> (r: GraphBuilder<E, N>)
        ensures
            r.graph_spec().nodes_seq() == self.graph_spec().nodes_seq(),
            r.graph_spec().edges_seq() == self.graph_spec().edges_seq(),
            r.graph_spec().directed_spec() == self.graph_spec().directed_spec(),
            r.graph_spec().weighted_spec() == w,
            r.graph_spec().tracking_spec() == self.graph_spec().tracking_spec(),
            r.graph_spec().next_id_spec() == self.graph_spec().next_id_spec(),
    {
        let mut b = self;
        b.0.set_weighted(w);
        b
    }

    /// Choose whether incoming adjacency is recorded per node.
    pub fn tracking(self, t: bool) -> (r: GraphBuilder<E, N>)
        ensures
            r.graph_spec().nodes_seq() == self.graph_spec().nodes_seq(),
            r.graph_spec().edges_seq() == self.graph_spec().edges_seq(),
            r.graph_spec().directed_spec() == self.graph_spec().directed_spec(),
            r.graph_spec().weighted_spec() == self.graph_spec().weighted_spec(),
            r.graph_spec().tracking_spec() == t,
            r.graph_spec().next_id_spec() == self.graph_spec().next_id_spec(),
    {
        let mut b = self;
        b.0.set_tracking(t);
        b
    }

    /// Hand over the configured graph.
    pub fn build(self) -> (g: Graph<E, N>)
        ensures
            g == self.graph_spec(),
    {
        self.0
    }
}

} // verus!

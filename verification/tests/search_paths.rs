use mush::backend::Graph;
use mush::caps::GraphNode;
use mush::builder::GraphBuilder;
use mush::ids::GraphErr;
use mush::items::{Edge, Node};
use mush::search::GraphSearch;

fn e() -> Edge {
    Edge { factor: 1 }
}

/// A small directed, non-tracking graph: nodes n0..n4 with n2 removed,
/// and edges n0->n1, n3->n0, n4->n3.
fn small_graph() -> (Graph<Edge, Node>, Vec<u64>) {
    let mut g: Graph<Edge, Node> = GraphBuilder::new().directed(true).tracking(false).build();
    let mut ids = Vec::new();
    for _ in 0..5 {
        ids.push(g.new_node());
    }
    assert_eq!(g.direct(ids[0], ids[1], e()), Ok(()));
    assert_eq!(g.direct(ids[3], ids[0], e()), Ok(()));
    assert_eq!(g.direct(ids[4], ids[3], e()), Ok(()));
    assert!(g.remove(ids[2]).is_some());
    (g, ids)
}

#[test]
fn stale_target_rejected_then_new_connections_succeed() {
    let (mut g, ids) = small_graph();
    // a stale identity cannot be connected to
    assert_eq!(g.direct(ids[4], ids[2], e()), Err(GraphErr::ToNotFound));
    let n5 = g.new_node();
    assert_eq!(g.direct(n5, ids[3], e()), Ok(()));
    assert_eq!(g.direct(ids[0], n5, e()), Ok(()));
}

#[test]
fn depth_first_direction_matters() {
    let (g, ids) = small_graph();
    // n4 is not forward-reachable from n0
    assert_eq!(g.get_path(GraphSearch::Depth(ids[0], Some(ids[4]))), Ok(None));
    // n0 is reachable from n4 through n3
    let found = g.get_path(GraphSearch::Depth(ids[4], Some(ids[0]))).unwrap();
    let path = found.expect("n0 must be found from n4");
    assert!(path.contains(&ids[0]));
    assert_eq!(path, vec![ids[3], ids[0]]);
}

#[test]
fn unreachable_pair_returns_absent() {
    let (g, ids) = small_graph();
    // n1 has no outgoing edges at all
    assert_eq!(g.get_path(GraphSearch::Depth(ids[1], Some(ids[3]))), Ok(None));
    assert_eq!(g.get_path(GraphSearch::Breadth(ids[1], Some(ids[3]))), Ok(None));
}

#[test]
fn reachable_pair_found_by_both_searches() {
    let (g, ids) = small_graph();
    let depth = g.get_path(GraphSearch::Depth(ids[4], Some(ids[1]))).unwrap();
    let breadth = g.get_path(GraphSearch::Breadth(ids[4], Some(ids[1]))).unwrap();
    let dp = depth.expect("depth-first must report presence");
    let bp = breadth.expect("breadth-first must report presence");
    assert!(dp.contains(&ids[1]));
    assert!(bp.contains(&ids[1]));
    // the two sequences need not agree: depth-first excludes the root,
    // breadth-first starts with it
    assert_eq!(dp, vec![ids[3], ids[0], ids[1]]);
    assert_eq!(bp, vec![ids[4], ids[3], ids[0], ids[1]]);
}

#[test]
fn no_target_yields_absent_even_though_the_walk_runs() {
    let (g, ids) = small_graph();
    assert_eq!(g.get_path(GraphSearch::Depth(ids[4], None)), Ok(None));
    assert_eq!(g.get_path(GraphSearch::Breadth(ids[4], None)), Ok(None));
}

#[test]
fn breadth_first_finds_its_own_root() {
    let (g, ids) = small_graph();
    let r = g.get_path(GraphSearch::Breadth(ids[1], Some(ids[1]))).unwrap();
    assert_eq!(r, Some(vec![ids[1]]));
    // the depth-first result never records its own root
    assert_eq!(g.get_path(GraphSearch::Depth(ids[1], Some(ids[1]))), Ok(None));
}

#[test]
fn dijkstra_is_a_distinct_not_implemented_signal() {
    let (g, ids) = small_graph();
    assert_eq!(
        g.get_path(GraphSearch::Dijkstra(ids[4], ids[0])),
        Err(GraphErr::NotImplemented)
    );
    assert_eq!(g.is_connected(), Err(GraphErr::NotImplemented));
    assert_eq!(g.is_complete(), Err(GraphErr::NotImplemented));
    assert_eq!(g.get_path_shortest(), Err(GraphErr::NotImplemented));
}

#[test]
fn get_next_cases() {
    let mut g: Graph<Edge, Node> = Graph::default();
    let a = g.new_node();
    let b = g.new_node();
    assert_eq!(g.get_next(a), None); // no outgoing edges
    assert_eq!(g.get_next(99), None); // absent node
    assert_eq!(g.direct(a, b, e()), Ok(()));
    assert_eq!(g.get_next(a), Some(b));
}

#[test]
fn without_tracking_stale_neighbours_are_still_followed() {
    let mut g: Graph<Edge, Node> = Graph::default();
    let a = g.new_node();
    let b = g.new_node();
    assert_eq!(g.direct(a, b, e()), Ok(()));
    assert!(g.remove(b).is_some());
    // the adjacency entry is stale, and a non-tracking walk records it
    assert_eq!(g.get_next(a), Some(b));
    let found = g.get_path(GraphSearch::Depth(a, Some(b))).unwrap();
    assert_eq!(found, Some(vec![b]));
}

#[test]
fn tracking_mode_skips_stale_neighbours() {
    let mut g: Graph<Edge, Node> = GraphBuilder::new().tracking(true).build();
    let a = g.new_node();
    let b = g.new_node();
    assert_eq!(g.direct(a, b, e()), Ok(()));
    assert!(g.remove(b).is_some());
    // the defensive existence re-check rejects the stale entry
    assert_eq!(g.get_next(a), None);
    assert_eq!(g.get_path(GraphSearch::Depth(a, Some(b))), Ok(None));
}

#[test]
fn tracking_records_incoming_adjacency() {
    let mut g: Graph<Edge, Node> = GraphBuilder::new().tracking(true).build();
    let a = g.new_node();
    let b = g.new_node();
    assert_eq!(g.direct(a, b, e()), Ok(()));
    let from = g.get_node(b).unwrap().get_base().get_edges_from();
    assert_eq!(from, vec![a]);
    g.undirect(a, b);
    assert!(g.get_node(b).unwrap().get_base().get_edges_from().is_empty());
}

#[test]
fn undirected_graph_mirrors_connections() {
    let mut g: Graph<Edge, Node> = GraphBuilder::new().directed(false).build();
    let a = g.new_node();
    let b = g.new_node();
    assert_eq!(g.direct(a, b, Edge { factor: 4 }), Ok(()));
    assert_eq!(g.get_edge((a, b)).unwrap().factor, 4);
    assert_eq!(g.get_edge((b, a)).unwrap().factor, 4);
    assert_eq!(g.get_next(a), Some(b));
    assert_eq!(g.get_next(b), Some(a));
    g.undirect(a, b);
    assert!(g.get_edge((a, b)).is_none());
    assert!(g.get_edge((b, a)).is_none());
    assert_eq!(g.get_next(a), None);
    assert_eq!(g.get_next(b), None);
}

#[test]
fn seeing_the_target_stops_only_the_current_neighbour_scan() {
    let mut g: Graph<Edge, Node> = Graph::default();
    let n0 = g.new_node();
    let a = g.new_node();
    let t = g.new_node();
    let b = g.new_node();
    assert_eq!(g.direct(n0, a, e()), Ok(()));
    assert_eq!(g.direct(n0, t, e()), Ok(()));
    assert_eq!(g.direct(n0, b, e()), Ok(()));
    let bp = g
        .get_path(GraphSearch::Breadth(n0, Some(t)))
        .unwrap()
        .expect("t is a direct neighbour");
    // the scan of n0's neighbours stops at t, so b is never enqueued, but
    // the outer queue still drains what was enqueued before t
    assert_eq!(bp, vec![n0, a, t]);
}

use std::cell::Cell;

use mush::backend::Graph;
use mush::caps::GraphNode;
use mush::items::{Edge, Node};

fn e() -> Edge {
    Edge { factor: 1 }
}

/// A small directed graph: nodes n0..n4 with n2 removed, and edges
/// n0->n1, n3->n0, n4->n3.
fn core_graph() -> (Graph<Edge, Node>, Vec<u64>) {
    let mut g: Graph<Edge, Node> = Graph::default();
    let mut ids = Vec::new();
    for _ in 0..5 {
        ids.push(g.new_node());
    }
    assert_eq!(g.direct(ids[0], ids[1], e()), Ok(()));
    assert_eq!(g.direct(ids[3], ids[0], e()), Ok(()));
    assert_eq!(g.direct(ids[4], ids[3], e()), Ok(()));
    assert!(g.remove(ids[2]).is_some());
    (g, ids)
}

#[test]
fn adding_two_loops_gives_exactly_two_back_edges() {
    let (mut g, ids) = core_graph();
    // acyclic so far: no back-edge anywhere reachable from n4
    assert!(g.get_cycle(ids[4]).is_empty());

    // two loops through n3: n0 -> n6 -> n3 -> n0 and n0 -> n7 -> n3 -> n0
    let n6 = g.new_node();
    assert_eq!(g.direct(n6, ids[3], e()), Ok(()));
    assert_eq!(g.direct(ids[0], n6, e()), Ok(()));
    let n7 = g.new_node();
    assert_eq!(g.direct(n7, ids[3], e()), Ok(()));
    assert_eq!(g.direct(ids[0], n7, e()), Ok(()));

    let cycles = g.get_cycle(ids[4]);
    assert_eq!(cycles.len(), 2);
    assert!(cycles.contains(&(ids[3], n6)));
    assert!(cycles.contains(&(ids[3], n7)));
}

#[test]
fn two_node_loop_is_detected_from_either_end() {
    let mut g: Graph<Edge, Node> = Graph::default();
    let a = g.new_node();
    let b = g.new_node();
    assert_eq!(g.direct(a, b, e()), Ok(()));
    assert_eq!(g.direct(b, a, e()), Ok(()));
    let from_a = g.get_cycle(a);
    assert_eq!(from_a.len(), 1);
    let from_b = g.get_cycle(b);
    assert_eq!(from_b.len(), 1);
    // the loop is invisible from a node that cannot reach it
    let lone = g.new_node();
    assert!(g.get_cycle(lone).is_empty());
}

#[test]
fn cycle_detection_on_absent_root_is_empty() {
    let g: Graph<Edge, Node> = Graph::default();
    assert!(g.get_cycle(3).is_empty());
}

#[test]
fn decomposition_covers_every_node() {
    let (g, ids) = core_graph();
    let runs = g.get_all_nodes();
    // storage order after removing n2: n0, n1, n3, n4
    assert_eq!(
        runs,
        vec![
            vec![ids[0], ids[1]],
            vec![ids[3], ids[0], ids[1]],
            vec![ids[4], ids[3], ids[0], ids[1]],
        ]
    );
}

#[test]
fn decomposition_of_empty_graph() {
    let g: Graph<Edge, Node> = Graph::default();
    assert!(g.get_all_nodes().is_empty());
}

#[test]
fn with_nodes_visits_every_stored_node() {
    let (g, _ids) = core_graph();
    let count = Cell::new(0u32);
    let sum = Cell::new(0u64);
    g.with_nodes(|n: &Node| {
        count.set(count.get() + 1);
        sum.set(sum.get() + n.get_base().get_id());
    });
    assert_eq!(count.get(), 4);
    assert_eq!(sum.get(), 0 + 1 + 3 + 4);
}

#[test]
fn with_nodes_mut_replaces_every_stored_node() {
    let (mut g, ids) = core_graph();
    g.with_nodes_mut(|mut n: Node| {
        n.set_name("visited");
        n
    });
    for &id in &[ids[0], ids[1], ids[3], ids[4]] {
        assert_eq!(g.get_node(id).unwrap().get_name(), "visited");
    }
    // adjacency survives the rebuild
    assert_eq!(g.get_next(ids[4]), Some(ids[3]));
}

#[test]
fn decomposition_records_stale_identifiers_without_tracking() {
    let mut g: Graph<Edge, Node> = Graph::default();
    let a = g.new_node();
    let b = g.new_node();
    assert_eq!(g.direct(a, b, e()), Ok(()));
    assert!(g.remove(b).is_some());
    // without tracking the stale entry is still walked and recorded
    assert_eq!(g.get_all_nodes(), vec![vec![a, b]]);
}

use mush::backend::{Backend, Graph};
use mush::builder::GraphBuilder;
use mush::caps::{EdgeGuard, GraphEdge, GraphNode};
use mush::ids::GraphErr;
use mush::items::{Edge, Node};
use mush::nodebase::NodeBase;

fn fresh() -> Graph<Edge, Node> {
    Graph::default()
}

#[test]
fn created_node_is_found_under_its_identity() {
    let mut g = fresh();
    let n = g.new_node();
    let node = g.get_node(n).expect("created node must be present");
    assert_eq!(node.get_base().get_id(), n);
}

#[test]
fn identities_are_sequential_and_never_reused() {
    let mut g = fresh();
    let a = g.new_node();
    let b = g.new_node();
    assert_eq!(a, 0);
    assert_eq!(b, 1);
    g.remove(a);
    let c = g.new_node();
    assert_ne!(c, a);
    assert_eq!(c, 2);
}

#[test]
fn get_node_absent() {
    let g = fresh();
    assert!(g.get_node(7).is_none());
}

#[test]
fn remove_returns_the_node_and_only_once() {
    let mut g = fresh();
    let n = g.new_node();
    let removed = g.remove(n);
    assert!(removed.is_some());
    assert_eq!(removed.unwrap().get_base().get_id(), n);
    assert!(g.remove(n).is_none());
    assert!(g.get_node(n).is_none());
}

#[test]
fn add_node_rejects_duplicate_identity() {
    let mut g = fresh();
    let n = g.add_node(Node::with_id(5)).expect("fresh identity accepted");
    assert_eq!(n, 5);
    assert_eq!(g.add_node(Node::with_id(5)), Err(GraphErr::DuplicateIdentity));
    // the generator skips past caller-chosen identities
    let next = g.new_node();
    assert_eq!(next, 6);
}

#[test]
fn direct_fails_on_missing_nodes_with_distinct_reasons() {
    let mut g = fresh();
    let a = g.new_node();
    assert_eq!(g.direct(99, a, Edge::default()), Err(GraphErr::FromNotFound));
    assert_eq!(g.direct(a, 99, Edge::default()), Err(GraphErr::ToNotFound));
}

#[test]
fn default_node_guard_rejects_self_edges() {
    let mut g = fresh();
    let a = g.new_node();
    assert_eq!(g.direct(a, a, Edge::default()), Err(GraphErr::GuardRejected));
    assert!(g.get_edge((a, a)).is_none());
    let b = g.new_node();
    let na = g.get_node(a).unwrap();
    let nb = g.get_node(b).unwrap();
    assert!(na.guard(nb));
    assert!(!na.guard(na));
}

#[test]
fn direct_success_gives_one_hop_adjacency() {
    let mut g = fresh();
    let a = g.new_node();
    let b = g.new_node();
    assert_eq!(g.direct(a, b, Edge::default()), Ok(()));
    assert_eq!(g.get_next(a), Some(b));
    let edges = g.get_node(a).unwrap().get_base().get_edges();
    assert_eq!(edges, vec![b]);
    assert_eq!(g.get_edge((a, b)).unwrap().factor, 1);
}

#[test]
fn repeated_direct_overwrites_the_payload() {
    let mut g = fresh();
    let a = g.new_node();
    let b = g.new_node();
    assert_eq!(g.direct(a, b, Edge { factor: 7 }), Ok(()));
    assert_eq!(g.get_edge((a, b)).unwrap().factor, 7);
    assert_eq!(g.direct(a, b, Edge { factor: 9 }), Ok(()));
    assert_eq!(g.get_edge((a, b)).unwrap().factor, 9);
    let edges = g.get_node(a).unwrap().get_base().get_edges();
    assert_eq!(edges, vec![b]);
}

#[test]
fn undirect_always_leaves_no_edge() {
    let mut g = fresh();
    let a = g.new_node();
    let b = g.new_node();
    // removing a connection that never existed is a quiet no-op
    g.undirect(a, b);
    assert!(g.get_edge((a, b)).is_none());
    assert_eq!(g.direct(a, b, Edge::default()), Ok(()));
    g.undirect(a, b);
    assert!(g.get_edge((a, b)).is_none());
    assert_eq!(g.get_next(a), None);
    // idempotent: a second removal changes nothing
    g.undirect(a, b);
    assert!(g.get_edge((a, b)).is_none());
}

#[test]
fn undirect_tolerates_missing_endpoints() {
    let mut g = fresh();
    let a = g.new_node();
    g.undirect(a, 42);
    g.undirect(42, a);
    assert!(g.get_node(a).is_some());
}

#[test]
fn get_edge_mut_updates_the_payload() {
    let mut g = fresh();
    let a = g.new_node();
    let b = g.new_node();
    assert_eq!(g.direct(a, b, Edge { factor: 3 }), Ok(()));
    g.get_edge_mut((a, b)).unwrap().factor = 11;
    assert_eq!(g.get_edge((a, b)).unwrap().factor, 11);
    assert!(g.get_edge_mut((b, a)).is_none());
}

#[test]
fn node_payload_name_and_position() {
    let mut g = fresh();
    let a = g.new_node();
    assert_eq!(g.get_node(a).unwrap().get_name(), "");
    assert_eq!(g.get_node(a).unwrap().get_position(), (0, 0));
    {
        let node = g.get_node_mut(a).unwrap();
        node.set_name("start");
        node.set_position((3, -4));
    }
    assert_eq!(g.get_node(a).unwrap().get_name(), "start");
    assert_eq!(g.get_node(a).unwrap().get_position(), (3, -4));
    assert_eq!(g.get_node(a).unwrap().get_base().get_id(), a);
}

#[test]
fn node_base_operations() {
    let mut base = NodeBase::new(5);
    assert_eq!(base.get_id(), 5);
    assert!(base.get_edges().is_empty());
    base.direct(7);
    base.direct(8);
    base.direct(7); // already present: no duplicate
    assert_eq!(base.get_edges(), vec![7, 8]);
    base.undirect(7);
    assert_eq!(base.get_edges(), vec![8]);
    base.undirect(7); // absent: no-op
    assert_eq!(base.get_edges(), vec![8]);
    base.direct_from(9);
    assert_eq!(base.get_edges_from(), vec![9]);
    base.undirect_from(9);
    assert!(base.get_edges_from().is_empty());
}

#[test]
fn edge_default_factor() {
    let e: Edge = GraphEdge::default();
    assert_eq!(e.factor, 1);
}

#[test]
fn backend_trait_drives_the_graph_generically() {
    fn create_and_connect<B: Backend>(b: &mut B) -> (u64, u64) {
        let x = b.new_node();
        let y = b.new_node();
        (x, y)
    }
    let mut g: Graph<Edge, Node> = <Graph<Edge, Node> as Backend>::default();
    let (x, y) = create_and_connect(&mut g);
    assert_eq!(Backend::direct(&mut g, x, y, Edge::default()), Ok(()));
    assert!(Backend::get_node(&g, y).is_some());
    assert!(Backend::get_edge(&g, (x, y)).is_some());
    Backend::undirect(&mut g, x, y);
    assert!(Backend::get_edge(&g, (x, y)).is_none());
}

#[test]
fn builder_chain_configures_all_flags() {
    let mut g: Graph<Edge, Node> = GraphBuilder::new()
        .directed(false)
        .weighted(true)
        .tracking(true)
        .build();
    let a = g.new_node();
    let b = g.new_node();
    assert_eq!(g.direct(a, b, Edge::default()), Ok(()));
    // undirected: the mirror edge exists; tracking: incoming recorded
    assert!(g.get_edge((b, a)).is_some());
    assert_eq!(g.get_node(b).unwrap().get_base().get_edges_from(), vec![a]);
    assert_eq!(g.get_node(a).unwrap().get_base().get_edges_from(), vec![]);
}

use naive_force_graph::fixed::{LIMIT, ONE};
use naive_force_graph::node::DEFAULT_MASS;
use naive_force_graph::{EdgeId, ForceGraph, NodeData, NodeId, Parameters, Vec2};

fn data(tag: u32, x: i64, y: i64) -> NodeData<u32> {
    NodeData { user_data: tag, x: x * ONE, y: y * ONE, mass: DEFAULT_MASS, is_anchor: false }
}

fn visited_nodes(graph: &ForceGraph<u32, &'static str>) -> Vec<(NodeId, u32)> {
    graph.visit_nodes(|id, node| {
        assert_eq!(node.index(), id);
        (id, *node.user_data())
    })
}

fn visited_edges(graph: &ForceGraph<u32, &'static str>) -> Vec<(EdgeId, u32, u32, &'static str)> {
    graph.visit_edges(|id, from, to, data| (id, *from.user_data(), *to.user_data(), *data))
}

#[test]
fn a_new_graph_is_empty() {
    let graph: ForceGraph<u32, &'static str> = ForceGraph::new(Parameters::default());
    assert_eq!(graph.node_count(), 0);
    assert_eq!(graph.edge_count(), 0);
    assert_eq!(graph.node_ids(), Vec::new());
    assert_eq!(visited_nodes(&graph), Vec::new());
    assert_eq!(visited_edges(&graph), Vec::new());
    assert_eq!(*graph.parameters(), Parameters::default());
}

#[test]
fn new_brings_the_parameters_into_range() {
    let wild = Parameters { ideal_distance: -3, damping_factor: 5 * ONE, ..Parameters::default() };
    let graph: ForceGraph<u32, &'static str> = ForceGraph::new(wild);
    assert_eq!(graph.parameters().ideal_distance, 1);
    assert_eq!(graph.parameters().damping_factor, ONE);
    assert!(graph.parameters().check());
}

#[test]
fn nodes_get_the_slots_in_the_order_they_are_added() {
    let mut graph: ForceGraph<u32, &'static str> = ForceGraph::new(Parameters::default());
    let a = graph.add_node(data(11, 1, 2));
    let b = graph.add_node(data(22, 3, 4));
    assert_eq!(a, NodeId { slot: 0 });
    assert_eq!(b, NodeId { slot: 1 });
    assert_eq!(graph.node_count(), 2);
    assert_eq!(graph.node_ids(), vec![a, b]);
    assert_eq!(visited_nodes(&graph), vec![(a, 11), (b, 22)]);
    assert!(graph.contains_node(a));
    assert!(!graph.contains_node(NodeId { slot: 2 }));
    let node = graph.node(b).unwrap();
    assert_eq!((node.x(), node.y()), (3 * ONE, 4 * ONE));
    assert_eq!(node.index(), b);
    assert!(node.is_stable());
    assert!(graph.node(NodeId { slot: 9 }).is_none());
}

#[test]
fn a_node_out_of_range_is_placed_at_the_limit() {
    let mut graph: ForceGraph<u32, &'static str> = ForceGraph::new(Parameters::default());
    let a = graph.add_node(NodeData {
        user_data: 1,
        x: i64::MAX,
        y: i64::MIN,
        mass: DEFAULT_MASS,
        is_anchor: false,
    });
    let node = graph.node(a).unwrap();
    assert_eq!((node.x(), node.y()), (LIMIT, -LIMIT));
}

#[test]
fn edges_join_nodes_in_either_direction() {
    let mut graph: ForceGraph<u32, &'static str> = ForceGraph::new(Parameters::default());
    let a = graph.add_node(data(1, 0, 0));
    let b = graph.add_node(data(2, 1, 0));
    let c = graph.add_node(data(3, 2, 0));
    let ab = graph.add_edge(a, b, "ab");
    let cb = graph.add_edge(c, b, "cb");
    assert_eq!(ab, EdgeId { slot: 0 });
    assert_eq!(cb, EdgeId { slot: 1 });
    assert_eq!(graph.edge_count(), 2);
    assert!(graph.contains_edge(ab));
    assert!(!graph.contains_edge(EdgeId { slot: 2 }));
    assert!(graph.linked(a, b));
    assert!(graph.linked(b, a));
    assert!(graph.linked(b, c));
    assert!(!graph.linked(a, c));
    assert!(!graph.linked(a, a));
    assert_eq!(visited_edges(&graph), vec![(ab, 1, 2, "ab"), (cb, 3, 2, "cb")]);
}

#[test]
fn a_removed_node_is_visited_no_more() {
    let mut graph: ForceGraph<u32, &'static str> = ForceGraph::new(Parameters::default());
    let a = graph.add_node(data(1, 0, 0));
    let b = graph.add_node(data(2, 100, 0));
    let c = graph.add_node(data(3, 200, 0));
    graph.remove_node(b);
    assert_eq!(graph.node_count(), 2);
    assert_eq!(graph.node_ids(), vec![a, c]);
    assert_eq!(visited_nodes(&graph), vec![(a, 1), (c, 3)]);
    assert!(!graph.contains_node(b));
    assert!(graph.node(b).is_none());
    graph.update_with(1049, 0);
    graph.update(1049);
    assert_eq!(graph.node_ids(), vec![a, c]);
    assert_eq!(visited_nodes(&graph), vec![(a, 1), (c, 3)]);
    assert!(graph.node(b).is_none());
}

#[test]
fn an_identifier_is_never_used_again() {
    let mut graph: ForceGraph<u32, &'static str> = ForceGraph::new(Parameters::default());
    let a = graph.add_node(data(1, 0, 0));
    let b = graph.add_node(data(2, 100, 0));
    graph.remove_node(b);
    let c = graph.add_node(data(3, 200, 0));
    assert_eq!(c, NodeId { slot: 2 });
    assert!(!graph.contains_node(b));
    assert_eq!(graph.node_ids(), vec![a, c]);
}

#[test]
fn removing_a_node_removes_the_edges_at_it() {
    let mut graph: ForceGraph<u32, &'static str> = ForceGraph::new(Parameters::default());
    let a = graph.add_node(data(1, 0, 0));
    let b = graph.add_node(data(2, 100, 0));
    let c = graph.add_node(data(3, 200, 0));
    let ab = graph.add_edge(a, b, "ab");
    let bc = graph.add_edge(b, c, "bc");
    let ca = graph.add_edge(c, a, "ca");
    graph.remove_node(b);
    assert_eq!(graph.edge_count(), 1);
    assert!(!graph.contains_edge(ab));
    assert!(!graph.contains_edge(bc));
    assert!(graph.contains_edge(ca));
    assert_eq!(visited_edges(&graph), vec![(ca, 3, 1, "ca")]);
    assert!(!graph.linked(a, b));
    assert!(graph.linked(a, c));
}

#[test]
fn removing_an_unknown_node_changes_nothing() {
    let mut graph: ForceGraph<u32, &'static str> = ForceGraph::new(Parameters::default());
    let a = graph.add_node(data(1, 0, 0));
    let b = graph.add_node(data(2, 100, 0));
    graph.add_edge(a, b, "ab");
    graph.remove_node(NodeId { slot: 7 });
    assert_eq!(graph.node_ids(), vec![a, b]);
    assert_eq!(graph.edge_count(), 1);
    graph.remove_node(a);
    graph.remove_node(a);
    assert_eq!(graph.node_ids(), vec![b]);
    assert_eq!(graph.edge_count(), 0);
}

#[test]
fn removing_an_edge_leaves_its_nodes() {
    let mut graph: ForceGraph<u32, &'static str> = ForceGraph::new(Parameters::default());
    let a = graph.add_node(data(1, 0, 0));
    let b = graph.add_node(data(2, 100, 0));
    let c = graph.add_node(data(3, 200, 0));
    let ab = graph.add_edge(a, b, "ab");
    let bc = graph.add_edge(b, c, "bc");
    graph.remove_edge(ab);
    assert_eq!(graph.edge_count(), 1);
    assert_eq!(visited_edges(&graph), vec![(bc, 2, 3, "bc")]);
    assert_eq!(visited_nodes(&graph), vec![(a, 1), (b, 2), (c, 3)]);
    assert_eq!(graph.node(a).unwrap().x(), 0);
    assert_eq!(graph.node(b).unwrap().x(), 100 * ONE);
    assert!(!graph.linked(a, b));
    graph.remove_edge(ab);
    graph.remove_edge(EdgeId { slot: 17 });
    assert_eq!(graph.edge_count(), 1);
    let again = graph.add_edge(a, b, "again");
    assert_eq!(again, EdgeId { slot: 2 });
}

#[test]
fn visitors_may_keep_their_own_tally() {
    let mut graph: ForceGraph<u32, &'static str> = ForceGraph::new(Parameters::default());
    let a = graph.add_node(data(1, 0, 0));
    let b = graph.add_node(data(2, 100, 0));
    graph.add_edge(a, b, "ab");
    let calls = std::cell::Cell::new(0u32);
    let nothing = graph.visit_nodes(|_, _| calls.set(calls.get() + 1));
    assert_eq!(nothing.len(), 2);
    assert_eq!(calls.get(), 2);
    graph.visit_edges(|_, _, _, _| calls.set(calls.get() + 10));
    assert_eq!(calls.get(), 12);
}

#[test]
fn an_edge_can_be_looked_up() {
    let mut graph: ForceGraph<u32, &'static str> = ForceGraph::new(Parameters::default());
    let a = graph.add_node(data(1, 0, 0));
    let b = graph.add_node(data(2, 100, 0));
    let ab = graph.add_edge(a, b, "ab");
    assert_eq!(graph.edge(ab), Some((a, b, &"ab")));
    assert_eq!(graph.edge(EdgeId { slot: 3 }), None);
    graph.remove_edge(ab);
    assert_eq!(graph.edge(ab), None);
}

#[test]
fn set_position_overrides_a_drag() {
    let mut graph: ForceGraph<u32, &'static str> = ForceGraph::new(Parameters::default());
    let a = graph.add_node(data(1, 0, 0));
    let b = graph.add_node(data(2, 100, 0));
    graph.set_position(a, Vec2::new(7 * ONE, -7 * ONE));
    assert_eq!((graph.node(a).unwrap().x(), graph.node(a).unwrap().y()), (7 * ONE, -7 * ONE));
    assert_eq!(graph.node(b).unwrap().x(), 100 * ONE);
    graph.set_position(b, Vec2::new(i64::MAX, 0));
    assert_eq!(graph.node(b).unwrap().x(), LIMIT);
    graph.set_position(NodeId { slot: 5 }, Vec2::new(1, 1));
    assert_eq!(graph.node_count(), 2);
}

#[test]
fn visit_nodes_mut_moves_the_nodes_that_get_an_answer() {
    let mut graph: ForceGraph<u32, &'static str> = ForceGraph::new(Parameters::default());
    let a = graph.add_node(data(1, 0, 0));
    let b = graph.add_node(data(2, 100, 0));
    let c = graph.add_node(data(3, 200, 0));
    graph.visit_nodes_mut(|id, node| {
        if id == b {
            Some(Vec2::new(node.x() + ONE, 5 * ONE))
        } else {
            None
        }
    });
    assert_eq!((graph.node(a).unwrap().x(), graph.node(a).unwrap().y()), (0, 0));
    assert_eq!((graph.node(b).unwrap().x(), graph.node(b).unwrap().y()), (101 * ONE, 5 * ONE));
    assert_eq!((graph.node(c).unwrap().x(), graph.node(c).unwrap().y()), (200 * ONE, 0));
    assert_eq!(*graph.node(b).unwrap().user_data(), 2);
    assert_eq!(graph.node(b).unwrap().index(), b);
}

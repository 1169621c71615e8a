use naive_force_graph::fixed::ONE;
use naive_force_graph::node::DEFAULT_MASS;
use naive_force_graph::{ForceGraph, IntersectionInfo, NodeData, NodeId, Parameters};

fn data(x: i64, y: i64) -> NodeData<()> {
    NodeData { user_data: (), x: x * ONE, y: y * ONE, mass: DEFAULT_MASS, is_anchor: false }
}

fn described(list: &Vec<IntersectionInfo>) -> Vec<(i64, i64, ((NodeId, NodeId), (NodeId, NodeId)))> {
    list.iter().map(|i| (i.x(), i.y(), i.pair())).collect()
}

fn crossed() -> (ForceGraph<(), ()>, [NodeId; 4]) {
    let mut graph: ForceGraph<(), ()> = ForceGraph::new(Parameters::default());
    let a = graph.add_node(data(0, 0));
    let b = graph.add_node(data(10, 10));
    let c = graph.add_node(data(0, 10));
    let d = graph.add_node(data(10, 0));
    graph.add_edge(a, b, ());
    graph.add_edge(c, d, ());
    (graph, [a, b, c, d])
}

#[test]
fn two_crossing_edges_are_reported_once() {
    let (graph, [a, b, c, d]) = crossed();
    let found = graph.intersections();
    assert_eq!(described(&found), vec![(5 * ONE, 5 * ONE, ((a, b), (c, d)))]);
    let visited = graph.visit_intersections(|info| (info.x(), info.y(), info.pair()));
    assert_eq!(visited, described(&found));
}

#[test]
fn edges_with_a_common_end_are_not_reported() {
    let mut graph: ForceGraph<(), ()> = ForceGraph::new(Parameters::default());
    let a = graph.add_node(data(0, 0));
    let b = graph.add_node(data(10, 10));
    let c = graph.add_node(data(0, 10));
    graph.add_edge(a, b, ());
    graph.add_edge(b, c, ());
    graph.add_edge(c, a, ());
    assert_eq!(graph.intersections().len(), 0);
    assert_eq!(graph.neighbor_intersections(a).len(), 0);
    assert_eq!(graph.neighbor_intersections(b).len(), 0);
}

#[test]
fn edges_with_a_common_end_are_left_out_even_where_they_overlap() {
    let mut graph: ForceGraph<(), ()> = ForceGraph::new(Parameters::default());
    let a = graph.add_node(data(0, 0));
    let b = graph.add_node(data(10, 0));
    let c = graph.add_node(data(5, 5));
    let d = graph.add_node(data(5, -5));
    // c-d crosses a-b in the middle; a-c shares an end with each of them.
    graph.add_edge(a, b, ());
    graph.add_edge(c, d, ());
    graph.add_edge(a, c, ());
    let found = graph.intersections();
    assert_eq!(described(&found), vec![(5 * ONE, 0, ((a, b), (c, d)))]);
}

#[test]
fn parallel_edges_are_not_reported() {
    let mut graph: ForceGraph<(), ()> = ForceGraph::new(Parameters::default());
    let a = graph.add_node(data(0, 0));
    let b = graph.add_node(data(10, 0));
    let c = graph.add_node(data(0, 1));
    let d = graph.add_node(data(10, 1));
    graph.add_edge(a, b, ());
    graph.add_edge(c, d, ());
    assert_eq!(graph.intersections().len(), 0);
}

#[test]
fn edges_drawn_as_one_segment_are_not_reported() {
    let mut graph: ForceGraph<(), ()> = ForceGraph::new(Parameters::default());
    let a = graph.add_node(data(0, 0));
    let b = graph.add_node(data(10, 10));
    let c = graph.add_node(data(0, 0));
    let d = graph.add_node(data(10, 10));
    graph.add_edge(a, b, ());
    graph.add_edge(c, d, ());
    assert_eq!(graph.intersections().len(), 0);
}

#[test]
fn removed_edges_are_not_reported() {
    let (mut graph, [_, _, c, _]) = crossed();
    graph.remove_node(c);
    assert_eq!(graph.intersections().len(), 0);
}

#[test]
fn three_edges_give_each_crossing_pair_once() {
    let (mut graph, [a, b, c, d]) = crossed();
    let e = graph.add_node(data(5, -5));
    let f = graph.add_node(data(5, 20));
    graph.add_edge(e, f, ());
    let found = graph.intersections();
    assert_eq!(
        described(&found),
        vec![
            (5 * ONE, 5 * ONE, ((a, b), (c, d))),
            (5 * ONE, 5 * ONE, ((a, b), (e, f))),
            (5 * ONE, 5 * ONE, ((c, d), (e, f))),
        ]
    );
}

#[test]
fn crossings_around_a_node_start_at_the_node() {
    let (graph, [a, b, c, d]) = crossed();
    assert_eq!(
        described(&graph.neighbor_intersections(a)),
        vec![(5 * ONE, 5 * ONE, ((a, b), (c, d)))]
    );
    assert_eq!(
        described(&graph.neighbor_intersections(b)),
        vec![(5 * ONE, 5 * ONE, ((b, a), (c, d)))]
    );
    assert_eq!(
        described(&graph.neighbor_intersections(d)),
        vec![(5 * ONE, 5 * ONE, ((d, c), (a, b)))]
    );
    let visited = graph.visit_neighbor_intersections(c, |info| (info.x(), info.y(), info.pair()));
    assert_eq!(visited, vec![(5 * ONE, 5 * ONE, ((c, d), (a, b)))]);
}

#[test]
fn a_node_without_edges_has_no_crossings_around_it() {
    let (mut graph, _) = crossed();
    let lone = graph.add_node(data(50, 50));
    assert_eq!(graph.neighbor_intersections(lone).len(), 0);
    assert_eq!(graph.neighbor_intersections(NodeId { slot: 99 }).len(), 0);
    assert_eq!(graph.visit_neighbor_intersections(NodeId { slot: 99 }, |info| info.x()).len(), 0);
}

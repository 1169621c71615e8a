use naive_force_graph::fixed::{LIMIT, ONE};
use naive_force_graph::force::banded_force;
use naive_force_graph::node::DEFAULT_MASS;
use naive_force_graph::step::bounce;
use naive_force_graph::{Body, ForceGraph, NodeData, NodeId, Parameters, Vec2};

const FRAME: i64 = 1049;

fn data(x: i64, y: i64) -> NodeData<()> {
    NodeData { user_data: (), x: x * ONE, y: y * ONE, mass: DEFAULT_MASS, is_anchor: false }
}

fn anchor(x: i64, y: i64) -> NodeData<()> {
    NodeData { user_data: (), x: x * ONE, y: y * ONE, mass: DEFAULT_MASS, is_anchor: true }
}

fn state(graph: &ForceGraph<(), ()>, id: NodeId) -> Body {
    graph.node(id).unwrap().state()
}

fn resting(x: i64, y: i64) -> Body {
    Body { x, y, vx: 0, vy: 0, ax: 0, ay: 0, mass: DEFAULT_MASS, is_anchor: false }
}

#[test]
fn a_step_on_an_empty_graph_changes_nothing() {
    let mut graph: ForceGraph<(), ()> = ForceGraph::new(Parameters::default());
    graph.update(FRAME);
    assert_eq!(graph.node_count(), 0);
    assert_eq!(graph.edge_count(), 0);
    assert_eq!(*graph.parameters(), Parameters::default());
}

#[test]
fn a_step_leaves_the_parameters_alone() {
    let mut graph: ForceGraph<(), ()> = ForceGraph::new(Parameters::default());
    graph.add_node(data(0, 0));
    graph.add_node(data(10, 0));
    for _ in 0..150 {
        graph.update(FRAME);
    }
    assert_eq!(*graph.parameters(), Parameters::default());
}

#[test]
fn calculate_force_is_the_banded_force_of_the_graph() {
    let graph: ForceGraph<(), ()> = ForceGraph::new(Parameters::default());
    let diff = Vec2::new(100 * ONE, 0);
    assert_eq!(graph.calculate_force(diff, 100 * ONE, true), Vec2::new(-260870, 0));
    assert_eq!(
        graph.calculate_force(diff, 100 * ONE, true),
        banded_force(&Parameters::default(), diff, 100 * ONE, true)
    );
    assert_eq!(graph.calculate_force(diff, 100 * ONE, false), Vec2::new(0, 0));
}

#[test]
fn two_far_neighbours_approach_each_other() {
    let mut graph: ForceGraph<(), ()> = ForceGraph::new(Parameters::default());
    let a = graph.add_node(data(0, 0));
    let b = graph.add_node(data(100, 0));
    graph.add_edge(a, b, ());
    graph.update(FRAME);
    assert_eq!(state(&graph, a), Body { x: 334135, vx: 20875000, ..resting(0, 0) });
    assert_eq!(state(&graph, b), Body { x: 6224668, vx: -20550000, ..resting(0, 0) });
}

#[test]
fn two_far_nodes_without_an_edge_stay() {
    let mut graph: ForceGraph<(), ()> = ForceGraph::new(Parameters::default());
    let a = graph.add_node(data(0, 0));
    let b = graph.add_node(data(100, 0));
    for _ in 0..10 {
        graph.update(FRAME);
    }
    assert_eq!(state(&graph, a), resting(0, 0));
    assert_eq!(state(&graph, b), resting(100 * ONE, 0));
}

#[test]
fn two_close_nodes_move_apart() {
    let mut graph: ForceGraph<(), ()> = ForceGraph::new(Parameters::default());
    let a = graph.add_node(data(0, 0));
    let b = graph.add_node(data(10, 0));
    graph.update(FRAME);
    assert_eq!(state(&graph, a), Body { x: -42016, vx: -2625000, ..resting(0, 0) });
    assert_eq!(state(&graph, b), Body { x: 696656, vx: 2580000, ..resting(0, 0) });
}

#[test]
fn two_neighbours_settle_near_the_ideal_distance() {
    let mut graph: ForceGraph<(), ()> = ForceGraph::new(Parameters::default());
    let a = graph.add_node(data(0, 0));
    let b = graph.add_node(data(100, 0));
    graph.add_edge(a, b, ());
    for _ in 0..1000 {
        graph.update(FRAME);
    }
    let left = state(&graph, a);
    let right = state(&graph, b);
    assert_eq!((left.vx, left.vy), (0, 0));
    assert_eq!((right.vx, right.vy), (0, 0));
    assert!(graph.node(a).unwrap().is_stable());
    assert!(graph.node(b).unwrap().is_stable());
    let gap = right.x - left.x;
    let ideal = graph.parameters().ideal_distance;
    assert!(gap * 10 >= ideal * 9);
    assert!(gap * 2 <= ideal * 3);
    assert_eq!((left.x, left.y), (1928770, 0));
    assert_eq!((right.x, right.y), (5265252, 0));
    // Once settled, further steps change nothing.
    graph.update(FRAME);
    assert_eq!(state(&graph, a), left);
    assert_eq!(state(&graph, b), right);
}

#[test]
fn a_step_of_no_duration_moves_nothing() {
    let mut graph: ForceGraph<(), ()> = ForceGraph::new(Parameters::default());
    let a = graph.add_node(data(0, 0));
    let b = graph.add_node(data(100, 0));
    let c = graph.add_node(data(10, 10));
    graph.add_edge(a, b, ());
    graph.update(0);
    assert_eq!(state(&graph, a), resting(0, 0));
    assert_eq!(state(&graph, b), resting(100 * ONE, 0));
    assert_eq!(state(&graph, c), resting(10 * ONE, 10 * ONE));
}

#[test]
fn a_step_of_no_duration_keeps_positions_and_damps_velocities() {
    let mut graph: ForceGraph<(), ()> = ForceGraph::new(Parameters::default());
    let a = graph.add_node(data(0, 0));
    let b = graph.add_node(data(100, 0));
    graph.add_edge(a, b, ());
    graph.update(FRAME);
    let moving_a = state(&graph, a);
    let moving_b = state(&graph, b);
    graph.update(0);
    assert_eq!(state(&graph, a), Body { vx: moving_a.vx / 2, ..moving_a });
    assert_eq!(state(&graph, b), Body { vx: moving_b.vx / 2, ..moving_b });
}

#[test]
fn without_damping_a_step_of_no_duration_keeps_velocities_too() {
    let undamped = Parameters { damping_factor: ONE, ..Parameters::default() };
    let mut graph: ForceGraph<(), ()> = ForceGraph::new(undamped);
    let a = graph.add_node(data(0, 0));
    let b = graph.add_node(data(100, 0));
    graph.add_edge(a, b, ());
    graph.update(FRAME);
    let moving_a = state(&graph, a);
    let moving_b = state(&graph, b);
    assert!(moving_a.vx != 0);
    graph.update(0);
    assert_eq!(state(&graph, a), moving_a);
    assert_eq!(state(&graph, b), moving_b);
}

#[test]
fn an_anchor_does_not_move_but_still_pushes() {
    let mut graph: ForceGraph<(), ()> = ForceGraph::new(Parameters::default());
    let fixed = graph.add_node(anchor(0, 0));
    let free = graph.add_node(data(10, 0));
    for _ in 0..20 {
        graph.update(FRAME);
    }
    assert_eq!(state(&graph, fixed), Body { is_anchor: true, ..resting(0, 0) });
    assert!(state(&graph, free).x > 10 * ONE);
    assert_eq!(state(&graph, free).y, 0);
}

#[test]
fn an_anchor_is_not_bounced() {
    let mut graph: ForceGraph<(), ()> = ForceGraph::new(Parameters::default());
    let fixed = graph.add_node(anchor(5, 5));
    let other = graph.add_node(anchor(5, 5));
    graph.update_with(FRAME, 40000);
    assert_eq!(state(&graph, fixed), Body { is_anchor: true, ..resting(5 * ONE, 5 * ONE) });
    assert_eq!(state(&graph, other), Body { is_anchor: true, ..resting(5 * ONE, 5 * ONE) });
}

#[test]
fn the_bounce_vector_follows_the_draw() {
    assert_eq!(bounce(6554, 0), Vec2::new(0, 6554));
    assert_eq!(bounce(6554, 32768), Vec2::new(3277, 6545));
    assert_eq!(bounce(6554, 65535), Vec2::new(6553, 6521));
    // Where the square of x exceeds one, the root is taken of zero.
    assert_eq!(bounce(2 * ONE, 65535), Vec2::new(131070, 0));
    assert_eq!(bounce(2 * ONE, 16384), Vec2::new(32768, 113510));
}

#[test]
fn coincident_nodes_bounce_once_and_end_the_step() {
    let mut graph: ForceGraph<(), ()> = ForceGraph::new(Parameters::default());
    let a = graph.add_node(data(5, 5));
    let b = graph.add_node(data(5, 5));
    let c = graph.add_node(data(6, 5));
    graph.update_with(FRAME, 32768);
    // The first node is moved by the bounce; the step ends before the others.
    assert_eq!(state(&graph, a), resting(5 * ONE + 3277, 5 * ONE + 6545));
    assert_eq!(state(&graph, b), resting(5 * ONE, 5 * ONE));
    assert_eq!(state(&graph, c), resting(6 * ONE, 5 * ONE));
}

#[test]
fn after_a_bounce_the_pair_is_pushed_apart() {
    let mut graph: ForceGraph<(), ()> = ForceGraph::new(Parameters::default());
    let a = graph.add_node(data(5, 5));
    let b = graph.add_node(data(5, 5));
    graph.update_with(FRAME, 0);
    assert_eq!(state(&graph, a), resting(327680, 334234));
    assert_eq!(state(&graph, b), resting(327680, 327680));
    graph.update_with(FRAME, 0);
    assert_eq!(state(&graph, a), Body { y: 501741, vy: 10465000, ..resting(327680, 0) });
    assert_eq!(state(&graph, b), Body { y: 265095, vy: -3910000, ..resting(327680, 0) });
}

#[test]
fn coincident_nodes_stay_in_range_over_many_steps() {
    let mut graph: ForceGraph<(), ()> = ForceGraph::new(Parameters::default());
    let a = graph.add_node(data(5, 5));
    let b = graph.add_node(data(5, 5));
    graph.update(FRAME);
    let first = state(&graph, a);
    let second = state(&graph, b);
    // Exactly one of the two was displaced, by a vector of the coincidence distance.
    assert_eq!(second, resting(5 * ONE, 5 * ONE));
    let moved = Vec2::new(first.x - 5 * ONE, first.y - 5 * ONE);
    assert!(moved.length() >= graph.parameters().really_close_distance);
    assert!(moved.length() <= 2 * graph.parameters().really_close_distance);
    for _ in 0..10000 {
        graph.update(FRAME);
        for id in [a, b] {
            let s = state(&graph, id);
            assert!(s.x.abs() <= LIMIT && s.y.abs() <= LIMIT);
            assert!(s.vx.abs() <= LIMIT && s.vy.abs() <= LIMIT);
        }
    }
    let gap = Vec2::new(state(&graph, a).x - state(&graph, b).x, state(&graph, a).y - state(&graph, b).y);
    assert!(gap.length() >= graph.parameters().really_close_distance);
}

#[test]
fn a_node_at_rest_escapes_from_a_crossing_and_ends_the_step() {
    let mut graph: ForceGraph<(), ()> = ForceGraph::new(Parameters::default());
    let a = graph.add_node(data(0, 0));
    let b = graph.add_node(data(10, 10));
    let c = graph.add_node(data(0, 10));
    let d = graph.add_node(data(10, 0));
    graph.add_edge(a, b, ());
    graph.add_edge(c, d, ());
    graph.update(FRAME);
    // The impulse drives the first node away from the crossing at (5, 5).
    assert_eq!(
        state(&graph, a),
        Body { x: -3301734, y: -3301734, vx: -206275000, vy: -206275000, ..resting(0, 0) }
    );
    assert_eq!(state(&graph, b), resting(10 * ONE, 10 * ONE));
    assert_eq!(state(&graph, c), resting(0, 10 * ONE));
    assert_eq!(state(&graph, d), resting(10 * ONE, 0));
}

#[test]
fn a_moving_node_does_not_escape() {
    let mut graph: ForceGraph<(), ()> = ForceGraph::new(Parameters::default());
    let a = graph.add_node(data(0, 0));
    let b = graph.add_node(data(10, 10));
    let c = graph.add_node(data(0, 10));
    let d = graph.add_node(data(10, 0));
    graph.add_edge(a, b, ());
    graph.add_edge(c, d, ());
    graph.update(FRAME);
    let before = state(&graph, b);
    // In the second step the first node moves, so the pairwise pass runs
    // for it and the step goes on to the second node, which is at rest
    // and escapes in its turn.
    graph.update(FRAME);
    assert!(state(&graph, b) != before);
    assert_eq!(state(&graph, c), resting(0, 10 * ONE));
    assert_eq!(state(&graph, d), resting(10 * ONE, 0));
}

#[test]
fn without_neighbour_awareness_every_pair_repels() {
    let plain = Parameters { neighbor_aware: false, ..Parameters::default() };
    let mut graph: ForceGraph<(), ()> = ForceGraph::new(plain);
    let a = graph.add_node(data(0, 0));
    let b = graph.add_node(data(50, 0));
    graph.update(FRAME);
    assert_eq!(state(&graph, a), Body { x: -3358157, vx: -209800000, ..resting(0, 0) });
    assert_eq!(state(&graph, b), Body { x: 4095851, vx: 51170000, ..resting(0, 0) });
}

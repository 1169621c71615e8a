use naive_force_graph::fixed::{LIMIT, ONE};
use naive_force_graph::node::DEFAULT_MASS;
use naive_force_graph::{Body, Node, NodeData, Parameters, Vec2};

fn data(x: i64, y: i64) -> NodeData<&'static str> {
    NodeData { user_data: "payload", x, y, mass: DEFAULT_MASS, is_anchor: false }
}

#[test]
fn node_data_defaults() {
    let d = NodeData::new(7u8);
    assert_eq!(d.user_data, 7);
    assert_eq!(d.x, 0);
    assert_eq!(d.y, 0);
    assert_eq!(d.mass, 10 * ONE);
    assert!(!d.is_anchor);
}

#[test]
fn node_data_default_has_the_default_payload() {
    let d: NodeData<u32> = NodeData::default();
    assert_eq!(d.user_data, 0);
    assert_eq!((d.x, d.y), (0, 0));
    assert_eq!(d.mass, DEFAULT_MASS);
    assert!(!d.is_anchor);
    let placed = NodeData { user_data: 5u32, x: 100 * ONE, ..NodeData::default() };
    assert_eq!((placed.user_data, placed.x, placed.y), (5, 100 * ONE, 0));
}

#[test]
fn a_new_node_is_at_rest_where_its_data_says() {
    let n = Node::new(data(3 * ONE, -4 * ONE));
    assert_eq!(n.x(), 3 * ONE);
    assert_eq!(n.y(), -4 * ONE);
    assert_eq!(n.mass(), 10 * ONE);
    assert!(!n.is_anchor());
    assert_eq!(n.velocity(), Vec2::new(0, 0));
    assert!(n.is_stable());
    assert_eq!(*n.user_data(), "payload");
    assert_eq!(
        n.state(),
        Body { x: 3 * ONE, y: -4 * ONE, vx: 0, vy: 0, ax: 0, ay: 0, mass: 10 * ONE, is_anchor: false }
    );
}

#[test]
fn a_new_node_is_brought_into_range() {
    let n = Node::new(data(i64::MAX, i64::MIN));
    assert_eq!(n.x(), LIMIT);
    assert_eq!(n.y(), -LIMIT);
}

#[test]
fn apply_accumulates_the_force() {
    let p = Parameters::default();
    let mut n = Node::new(data(0, 0));
    n.apply(Vec2::new(ONE, -2 * ONE), &p);
    n.apply(Vec2::new(ONE, ONE), &p);
    assert_eq!(n.state().ax, 2 * ONE);
    assert_eq!(n.state().ay, -ONE);
    assert!(n.is_stable());
}

#[test]
fn apply_bounds_each_component_by_the_force_limit() {
    let p = Parameters::default();
    let mut n = Node::new(data(0, 0));
    n.apply(Vec2::new(5000 * ONE, -5000 * ONE), &p);
    assert_eq!(n.state().ax, 1000 * ONE);
    assert_eq!(n.state().ay, -1000 * ONE);
    let tight = Parameters { force_max: ONE, ..Parameters::default() };
    let mut m = Node::new(data(0, 0));
    m.apply(Vec2::new(3 * ONE, ONE / 2), &tight);
    assert_eq!(m.state().ax, ONE);
    assert_eq!(m.state().ay, ONE / 2);
}

#[test]
fn update_integrates_velocity_and_position() {
    let p = Parameters::default();
    let start = Body {
        x: 10 * ONE,
        y: -5 * ONE,
        vx: 3 * ONE,
        vy: -ONE,
        ax: 2 * ONE,
        ay: ONE / 2,
        mass: 10 * ONE,
        is_anchor: false,
    };
    // v = (3 + 2 * 0.016 * 10000) * 0.5 = 161.5, x = 10 + 161.5 * 0.016 = 12.58
    let next = start.integrate(&p, 1049);
    assert_eq!(
        next,
        Body { x: 824841, y: -286268, vx: 10588304, vy: 2587232, ax: 0, ay: 0, ..start }
    );
}

#[test]
fn update_of_no_duration_only_damps() {
    let p = Parameters::default();
    let start = Body {
        x: 10 * ONE,
        y: -5 * ONE,
        vx: 3 * ONE,
        vy: -ONE,
        ax: 2 * ONE,
        ay: ONE / 2,
        mass: 10 * ONE,
        is_anchor: false,
    };
    let next = start.integrate(&p, 0);
    assert_eq!(next, Body { vx: 3 * ONE / 2, vy: -ONE / 2, ax: 0, ay: 0, ..start });
    let undamped = Parameters { damping_factor: ONE, ..Parameters::default() };
    assert_eq!(start.integrate(&undamped, 0), Body { ax: 0, ay: 0, ..start });
}

#[test]
fn node_update_matches_the_body() {
    let p = Parameters::default();
    let mut n = Node::new(data(10 * ONE, -5 * ONE));
    n.apply(Vec2::new(2 * ONE, ONE / 2), &p);
    let expected = n.state().integrate(&p, 1049);
    n.update(&p, 1049);
    assert_eq!(n.state(), expected);
    assert!(!n.is_stable());
    assert_eq!(n.state().ax, 0);
    assert_eq!(n.state().ay, 0);
    assert_eq!(*n.user_data(), "payload");
}

#[test]
fn a_node_is_stable_only_with_zero_velocity() {
    let still = Body { x: 5, y: 5, vx: 0, vy: 0, ax: 9, ay: 9, mass: ONE, is_anchor: false };
    assert!(still.is_stable());
    assert!(!Body { vx: 1, ..still }.is_stable());
    assert!(!Body { vy: -1, ..still }.is_stable());
}

#[test]
fn displace_and_set_position() {
    let mut n = Node::new(data(ONE, ONE));
    n.displace(Vec2::new(5, -5));
    assert_eq!((n.x(), n.y()), (ONE + 5, ONE - 5));
    n.set_position(Vec2::new(i64::MAX, 12));
    assert_eq!((n.x(), n.y()), (LIMIT, 12));
    n.displace(Vec2::new(1, 0));
    assert_eq!(n.x(), LIMIT);
    n.set_anchor(true);
    assert!(n.is_anchor());
}

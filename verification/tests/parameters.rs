use naive_force_graph::fixed::{LIMIT, ONE};
use naive_force_graph::Parameters;

#[test]
fn defaults_are_the_documented_ones() {
    let p = Parameters::default();
    assert_eq!(p.ideal_distance, 45 * ONE);
    assert_eq!(p.really_close_distance, 6554);
    assert_eq!(p.spring_factor, 10000 * ONE);
    assert_eq!(p.escape_intersection_factor, 100 * ONE);
    assert_eq!(p.distance_factor, 19661);
    assert_eq!(p.force_max, 1000 * ONE);
    assert_eq!(p.damping_factor, ONE / 2);
    assert!(p.neighbor_aware);
    assert_eq!(p.repulsion_coefficient, 1000 * ONE);
    assert_eq!(p.attraction_coefficient, ONE / 2);
    assert!(p.check());
}

#[test]
fn valid_parameters_are_left_alone() {
    let p = Parameters::default();
    assert_eq!(p.normalized(), p);
}

#[test]
fn an_ideal_distance_that_is_not_positive_is_raised() {
    let zero = Parameters { ideal_distance: 0, ..Parameters::default() };
    assert!(!zero.check());
    assert_eq!(zero.normalized().ideal_distance, 1);
    let negative = Parameters { ideal_distance: -45 * ONE, ..Parameters::default() };
    assert!(!negative.check());
    assert_eq!(negative.normalized().ideal_distance, 1);
    assert!(negative.normalized().check());
}

#[test]
fn every_field_is_brought_into_range() {
    let wild = Parameters {
        ideal_distance: i64::MAX,
        really_close_distance: -1,
        spring_factor: -1,
        escape_intersection_factor: i64::MAX,
        distance_factor: 2 * ONE,
        force_max: -7,
        damping_factor: 0,
        neighbor_aware: false,
        repulsion_coefficient: i64::MIN,
        attraction_coefficient: i64::MAX,
    };
    assert!(!wild.check());
    let p = wild.normalized();
    assert_eq!(
        p,
        Parameters {
            ideal_distance: LIMIT,
            really_close_distance: 1,
            spring_factor: 0,
            escape_intersection_factor: LIMIT,
            distance_factor: ONE,
            force_max: 0,
            damping_factor: 1,
            neighbor_aware: false,
            repulsion_coefficient: 0,
            attraction_coefficient: LIMIT,
        }
    );
    assert!(p.check());
}

//! The pairwise force model: three bands of distance around the ideal
//! one, or, where neighbourhood is left out of account, inverse-square
//! repulsion with springs between neighbours.

use vstd::arithmetic::div_mod::{
    lemma_div_basics, lemma_div_is_ordered_by_denominator, lemma_div_multiples_vanish,
    lemma_div_multiples_vanish_quotient, lemma_div_pos_is_pos,
};
use vstd::prelude::*;
use crate::fixed::{
    div_spec, div_toward_zero, fx_div, fx_mul, fx_pow, lemma_pow_bounded, lemma_pow_monotone,
    lemma_product_bound, mul_spec, pow_spec, sat, saturate, trunc_div, LIMIT, ONE,
};
use crate::node::Body;
use crate::params::Parameters;
use crate::vec2::Vec2;

verus! {

/// Whether `d` lies below nine tenths of the ideal distance.
pub open spec fn in_close_band(p: Parameters, d: int) -> bool {
    10 * d < 9 * p.ideal_distance
}

/// Whether `d` lies above one and a half times the ideal distance.
pub open spec fn in_far_band(p: Parameters, d: int) -> bool {
    2 * d > 3 * p.ideal_distance
}

/// The distance that the force law works with: one in place of a distance
/// that is not positive.
pub open spec fn effective_distance(distance: int) -> int {
    if distance <= 0 {
        ONE as int
    } else {
        distance
    }
}

/// The divisor of the close-range push: the distance, but at least the
/// coincidence distance, raised to the distance exponent; at least one raw unit.
pub open spec fn attenuation(p: Parameters, d: int) -> int {
    let base = if d < p.really_close_distance {
        p.really_close_distance as int
    } else {
        d
    };
    let g = pow_spec(base, p.distance_factor as int);
    if g < 1 {
        1
    } else {
        g
    }
}

/// One component of the close-range push: the unit direction divided by
/// the attenuation.
pub open spec fn push_component(p: Parameters, c: int, d: int) -> int {
    sat(trunc_div(sat(c) * ONE * ONE, d * attenuation(p, d)))
}

/// One component of the long-range pull between neighbours: the unit
/// direction, reversed, times the distance raised to the distance exponent.
pub open spec fn pull_component(p: Parameters, c: int, d: int) -> int {
    sat(trunc_div(-(sat(c) * pow_spec(d, p.distance_factor as int)), d))
}

/// The force on a node that stands at `diff` from another one, `distance` apart.
///
/// Below nine tenths of the ideal distance the node is pushed away. Above
/// one and a half times the ideal distance it is pulled back if the two are
/// neighbours. In every other case there is no force.
pub open spec fn force_spec(p: Parameters, diff: Vec2, distance: int, is_neighbor: bool) -> Vec2 {
    let d = effective_distance(distance);
    if in_close_band(p, d) {
        Vec2 {
            x: push_component(p, diff.x as int, d) as i64,
            y: push_component(p, diff.y as int, d) as i64,
        }
    } else if in_far_band(p, d) && is_neighbor {
        Vec2 {
            x: pull_component(p, diff.x as int, d) as i64,
            y: pull_component(p, diff.y as int, d) as i64,
        }
    } else {
        Vec2::zero()
    }
}

fn push(c: i64, d: i64, g: i64) -> (r: i64)
    requires
        d > 0,
        1 <= g <= LIMIT,
    ensures
        r == sat(trunc_div(sat(c as int) * ONE * ONE, d * g)),
{
    let c: i64 = saturate(c as i128);
    proof {
        lemma_product_bound(d as int, g as int, 0x8000_0000_0000_0000, LIMIT as int);
        assert(d * g > 0) by (nonlinear_arith)
            requires
                d > 0,
                g >= 1,
        ;
    }
    let num: i128 = (c as i128) * 4294967296;
    assert(num == c * ONE * ONE);
    let den: i128 = (d as i128) * (g as i128);
    saturate(div_toward_zero(num, den))
}

fn pull(c: i64, d: i64, g: i64) -> (r: i64)
    requires
        d > 0,
        0 <= g <= LIMIT,
    ensures
        r == sat(trunc_div(-(sat(c as int) * g), d as int)),
{
    let c: i64 = saturate(c as i128);
    proof {
        lemma_product_bound(c as int, g as int, LIMIT as int, LIMIT as int);
    }
    let num: i128 = -((c as i128) * (g as i128));
    saturate(div_toward_zero(num, d as i128))
}

/// One component of the spring between two neighbours: half the spring
/// coefficient times the component `c` of the way to the neighbour.
pub open spec fn spring_component(p: Parameters, c: int) -> int {
    sat(trunc_div(sat(c) * p.attraction_coefficient, 2 * ONE))
}

/// The spring force on `n1` from its neighbour `n2`. It points from `n1`
/// toward `n2` and grows with the distance.
pub open spec fn attraction_spec(p: Parameters, n1: Body, n2: Body) -> Vec2 {
    let d = n2.position().minus(n1.position());
    Vec2 {
        x: spring_component(p, d.x as int) as i64,
        y: spring_component(p, d.y as int) as i64,
    }
}

/// The strength of the repulsion between two masses `distance` apart:
/// the repulsion coefficient times the product of the masses, divided
/// twice by the distance.
pub open spec fn repulsion_strength(p: Parameters, m1: int, m2: int, distance: int) -> int {
    let d = effective_distance(distance);
    div_spec(div_spec(mul_spec(p.repulsion_coefficient as int, mul_spec(m1, m2)), d), d)
}

/// One component of the repulsion: the unit direction toward the other
/// node, reversed, times the strength.
pub open spec fn repel_component(p: Parameters, c: int, strength: int, distance: int) -> int {
    sat(trunc_div(-(sat(c) * strength), effective_distance(distance)))
}

/// The repulsion on `n1` from `n2`: it points from `n2` toward `n1` and
/// falls with the square of the distance. A distance of zero counts as one.
pub open spec fn repulsion_spec(p: Parameters, n1: Body, n2: Body) -> Vec2 {
    let d = n2.position().minus(n1.position());
    let distance = d.length_spec();
    let strength = repulsion_strength(p, n1.mass as int, n2.mass as int, distance);
    Vec2 {
        x: repel_component(p, d.x as int, strength, distance) as i64,
        y: repel_component(p, d.y as int, strength, distance) as i64,
    }
}

/// The force on the node `me` from the node `other`.
///
/// Where the parameters take neighbourhood into account it is the force of
/// the three bands. Where they do not, it is the repulsion, and for two
/// neighbours the spring force is added.
pub open spec fn pair_force_spec(p: Parameters, me: Body, other: Body, linked: bool) -> Vec2 {
    if p.neighbor_aware {
        let diff = me.position().minus(other.position());
        force_spec(p, diff, diff.length_spec(), linked)
    } else if linked {
        repulsion_spec(p, me, other).plus(attraction_spec(p, me, other))
    } else {
        repulsion_spec(p, me, other)
    }
}

fn spring(p: &Parameters, c: i64) -> (r: i64)
    requires
        p.is_valid(),
    ensures
        r == spring_component(*p, c as int),
        -LIMIT <= r <= LIMIT,
{
    let c: i64 = saturate(c as i128);
    proof {
        lemma_product_bound(c as int, p.attraction_coefficient as int, LIMIT as int, LIMIT as int);
    }
    let num: i128 = (c as i128) * (p.attraction_coefficient as i128);
    saturate(div_toward_zero(num, 131072))
}

fn repel(c: i64, strength: i64, d: i64) -> (r: i64)
    requires
        d > 0,
        -LIMIT <= strength <= LIMIT,
    ensures
        r == sat(trunc_div(-(sat(c as int) * strength), d as int)),
        -LIMIT <= r <= LIMIT,
{
    let c: i64 = saturate(c as i128);
    proof {
        lemma_product_bound(c as int, strength as int, LIMIT as int, LIMIT as int);
    }
    let num: i128 = -((c as i128) * (strength as i128));
    saturate(div_toward_zero(num, d as i128))
}

/// The spring force on `n1` from its neighbour `n2`.
pub fn attraction(n1: &Body, n2: &Body, p: &Parameters) -> (f: Vec2)
    requires
        p.is_valid(),
    ensures
        f == attraction_spec(*p, *n1, *n2),
        f.bounded(),
{
    let from = Vec2 { x: n1.x, y: n1.y };
    let to = Vec2 { x: n2.x, y: n2.y };
    let d = to.sub(from);
    Vec2 { x: spring(p, d.x), y: spring(p, d.y) }
}

/// The repulsion on `n1` from `n2`.
pub fn repulsion(n1: &Body, n2: &Body, p: &Parameters) -> (f: Vec2)
    requires
        p.is_valid(),
    ensures
        f == repulsion_spec(*p, *n1, *n2),
        f.bounded(),
{
    let from = Vec2 { x: n1.x, y: n1.y };
    let to = Vec2 { x: n2.x, y: n2.y };
    let d = to.sub(from);
    let measured: i64 = d.length();
    let distance: i64 = if measured <= 0 {
        ONE
    } else {
        measured
    };
    let strength: i64 = fx_div(
        fx_div(fx_mul(p.repulsion_coefficient, fx_mul(n1.mass, n2.mass)), distance),
        distance,
    );
    Vec2 { x: repel(d.x, strength, distance), y: repel(d.y, strength, distance) }
}

/// The force on the node `me` from the node `other`.
pub fn pair_force(p: &Parameters, me: &Body, other: &Body, linked: bool) -> (f: Vec2)
    requires
        p.is_valid(),
    ensures
        f == pair_force_spec(*p, *me, *other, linked),
        f.bounded(),
{
    if p.neighbor_aware {
        let here = Vec2 { x: me.x, y: me.y };
        let there = Vec2 { x: other.x, y: other.y };
        let diff = here.sub(there);
        banded_force(p, diff, diff.length(), linked)
    } else if linked {
        repulsion(me, other, p).add(attraction(me, other, p))
    } else {
        repulsion(me, other, p)
    }
}

/// The force of the three-band model.
pub fn banded_force(p: &Parameters, diff: Vec2, distance: i64, is_neighbor: bool) -> (f: Vec2)
    requires
        p.is_valid(),
    ensures
        f == force_spec(*p, diff, distance as int, is_neighbor),
        f.bounded(),
{
    let d: i64 = if distance <= 0 {
        ONE
    } else {
        distance
    };
    if (d as i128) * 10 < (p.ideal_distance as i128) * 9 {
        let base: i64 = if d < p.really_close_distance {
            p.really_close_distance
        } else {
            d
        };
        let raw: i64 = fx_pow(base, p.distance_factor);
        let g: i64 = if raw < 1 {
            1
        } else {
            raw
        };
        Vec2 { x: push(diff.x, d, g), y: push(diff.y, d, g) }
    } else if (d as i128) * 2 > (p.ideal_distance as i128) * 3 && is_neighbor {
        let g: i64 = fx_pow(d, p.distance_factor);
        Vec2 { x: pull(diff.x, d, g), y: pull(diff.y, d, g) }
    } else {
        Vec2 { x: 0, y: 0 }
    }
}

/// The divisor of the close-range push never shrinks as the distance grows.
pub proof fn lemma_attenuation_monotone(p: Parameters, d1: int, d2: int)
    requires
        p.is_valid(),
        d1 <= d2,
    ensures
        1 <= attenuation(p, d1) <= attenuation(p, d2),
{
    let b1 = if d1 < p.really_close_distance {
        p.really_close_distance as int
    } else {
        d1
    };
    let b2 = if d2 < p.really_close_distance {
        p.really_close_distance as int
    } else {
        d2
    };
    lemma_pow_monotone(b1, b2, p.distance_factor as int);
}

/// The push on a node that stands `d` to the right of another one is one
/// divided by the attenuation at `d`.
pub proof fn lemma_push_on_axis(p: Parameters, d: int, is_neighbor: bool)
    requires
        p.is_valid(),
        0 < d,
        in_close_band(p, d),
    ensures
        force_spec(p, Vec2 { x: d as i64, y: 0 }, d, is_neighbor) == (Vec2 {
            x: sat((ONE * ONE) / attenuation(p, d)) as i64,
            y: 0,
        }),
{
    let g = attenuation(p, d);
    lemma_attenuation_monotone(p, d, d);
    assert(d <= LIMIT);
    assert(sat(d) == d);
    assert(d * ONE * ONE == d * (ONE * ONE)) by (nonlinear_arith);
    assert(d * (ONE * ONE) >= 0) by (nonlinear_arith)
        requires
            d > 0,
    ;
    lemma_div_multiples_vanish_quotient(d, ONE * ONE, g);
    assert(trunc_div(sat(0) * ONE * ONE, d * g) == 0) by {
        assert(d * g > 0) by (nonlinear_arith)
            requires
                d > 0,
                g >= 1,
        ;
        assert(sat(0) * ONE * ONE == 0);
        lemma_div_basics(d * g);
    }
}

/// Close range: for two nodes on a horizontal line, closer than nine
/// tenths of the ideal distance, the push never grows as the distance
/// grows, and it is never negative.
pub proof fn lemma_push_weakens_with_distance(p: Parameters, d1: int, d2: int, is_neighbor: bool)
    requires
        p.is_valid(),
        0 < d1 <= d2,
        in_close_band(p, d2),
    ensures
        0 <= force_spec(p, Vec2 { x: d2 as i64, y: 0 }, d2, is_neighbor).x <= force_spec(
            p,
            Vec2 { x: d1 as i64, y: 0 },
            d1,
            is_neighbor,
        ).x,
{
    lemma_push_on_axis(p, d1, is_neighbor);
    lemma_push_on_axis(p, d2, is_neighbor);
    lemma_attenuation_monotone(p, d1, d2);
    let g1 = attenuation(p, d1);
    let g2 = attenuation(p, d2);
    lemma_div_is_ordered_by_denominator(ONE * ONE, g1, g2);
    lemma_div_pos_is_pos(ONE * ONE, g2);
}

/// Long range: beyond one and a half times the ideal distance, two nodes
/// that are not neighbours exert no force on each other, and each
/// component of the force between two neighbours points against the
/// difference of their positions, so that it pulls them together.
pub proof fn lemma_far_pair(p: Parameters, diff: Vec2, d: int)
    requires
        p.is_valid(),
        0 < d,
        in_far_band(p, d),
    ensures
        force_spec(p, diff, d, false) == Vec2::zero(),
        diff.x >= 0 ==> force_spec(p, diff, d, true).x <= 0,
        diff.x <= 0 ==> force_spec(p, diff, d, true).x >= 0,
        diff.y >= 0 ==> force_spec(p, diff, d, true).y <= 0,
        diff.y <= 0 ==> force_spec(p, diff, d, true).y >= 0,
{
    lemma_pull_sign(p, diff.x as int, d);
    lemma_pull_sign(p, diff.y as int, d);
}

/// A pull component has the sign opposite to that of the difference.
proof fn lemma_pull_sign(p: Parameters, c: int, d: int)
    requires
        p.is_valid(),
        0 < d,
    ensures
        c >= 0 ==> pull_component(p, c, d) <= 0,
        c <= 0 ==> pull_component(p, c, d) >= 0,
{
    let g = pow_spec(d, p.distance_factor as int);
    lemma_pow_monotone(d, d, p.distance_factor as int);
    let s = sat(c);
    if c >= 0 {
        assert(s * g >= 0) by (nonlinear_arith)
            requires
                s >= 0,
                g >= 0,
        ;
        lemma_div_pos_is_pos(s * g, d);
    }
    if c <= 0 {
        assert(-(s * g) >= 0) by (nonlinear_arith)
            requires
                s <= 0,
                g >= 0,
        ;
        lemma_div_pos_is_pos(-(s * g), d);
    }
}

/// The pull on a node that stands `d` to the right of a neighbour is the
/// distance raised to the distance exponent, toward the neighbour.
pub proof fn lemma_pull_on_axis(p: Parameters, d: int)
    requires
        p.is_valid(),
        0 < d <= LIMIT,
        !in_close_band(p, d),
        in_far_band(p, d),
    ensures
        force_spec(p, Vec2 { x: d as i64, y: 0 }, d, true) == (Vec2 {
            x: (-pow_spec(d, p.distance_factor as int)) as i64,
            y: 0,
        }),
{
    let g = pow_spec(d, p.distance_factor as int);
    lemma_pow_bounded(d, p.distance_factor as int);
    assert(sat(d) == d);
    assert(sat(0) == 0);
    assert(d * g >= 0) by (nonlinear_arith)
        requires
            d > 0,
            g >= 0,
    ;
    lemma_div_multiples_vanish(g, d);
    assert(d * g == g * d) by (nonlinear_arith);
    if d * g == 0 {
        assert(g == 0) by (nonlinear_arith)
            requires
                d > 0,
                d * g == 0,
        ;
    }
    assert(0 * g == 0);
    lemma_div_basics(d);
}

/// A distance of zero counts as a distance of one, so the force is
/// defined; two nodes at the same place exert no force on each other.
pub proof fn lemma_zero_distance(p: Parameters, diff: Vec2, is_neighbor: bool)
    requires
        p.is_valid(),
    ensures
        force_spec(p, diff, 0, is_neighbor) == force_spec(p, diff, ONE as int, is_neighbor),
        force_spec(p, diff, 0, is_neighbor).bounded(),
        force_spec(p, Vec2::zero(), 0, is_neighbor) == Vec2::zero(),
{
    let g = attenuation(p, ONE as int);
    lemma_attenuation_monotone(p, ONE as int, ONE as int);
    assert(ONE * g > 0) by (nonlinear_arith)
        requires
            g >= 1,
            ONE == 65536,
    ;
    assert(sat(0) * ONE * ONE == 0);
    lemma_div_basics(ONE * g);
    lemma_div_basics(ONE as int);
    assert(sat(0) * pow_spec(ONE as int, p.distance_factor as int) == 0);
}

/// Rounding toward zero commutes with a change of sign.
proof fn lemma_trunc_div_odd(a: int, b: int)
    requires
        b > 0,
    ensures
        trunc_div(-a, b) == -trunc_div(a, b),
{
    if a == 0 {
        lemma_div_basics(b);
    }
}

/// The force of the three bands on one node of a pair is the opposite of
/// the force on the other.
pub proof fn lemma_banded_force_is_mutual(p: Parameters, diff: Vec2, distance: int, is_neighbor: bool)
    requires
        p.is_valid(),
        diff.bounded(),
    ensures
        force_spec(p, Vec2 { x: (-diff.x) as i64, y: (-diff.y) as i64 }, distance, is_neighbor).x
            == -force_spec(p, diff, distance, is_neighbor).x,
        force_spec(p, Vec2 { x: (-diff.x) as i64, y: (-diff.y) as i64 }, distance, is_neighbor).y
            == -force_spec(p, diff, distance, is_neighbor).y,
{
    let d = effective_distance(distance);
    let g = attenuation(p, d);
    let h = pow_spec(d, p.distance_factor as int);
    lemma_attenuation_monotone(p, d, d);
    assert(d * g > 0) by (nonlinear_arith)
        requires
            d > 0,
            g >= 1,
    ;
    lemma_mirror(diff.x as int, ONE * ONE, d * g);
    lemma_mirror(diff.y as int, ONE * ONE, d * g);
    lemma_mirror(diff.x as int, h, d);
    lemma_mirror(diff.y as int, h, d);
    assert(sat(diff.x as int) * ONE * ONE == sat(diff.x as int) * (ONE * ONE)) by (nonlinear_arith);
    assert(sat(diff.y as int) * ONE * ONE == sat(diff.y as int) * (ONE * ONE)) by (nonlinear_arith);
    assert(sat(-diff.x) * ONE * ONE == sat(-diff.x) * (ONE * ONE)) by (nonlinear_arith);
    assert(sat(-diff.y) * ONE * ONE == sat(-diff.y) * (ONE * ONE)) by (nonlinear_arith);
}

/// Changing the sign of `c` changes the sign of the saturated quotient
/// of `c * k` by `d`, and of that of `-(c * k)` by `d`.
proof fn lemma_mirror(c: int, k: int, d: int)
    requires
        d > 0,
    ensures
        sat(trunc_div(sat(-c) * k, d)) == -sat(trunc_div(sat(c) * k, d)),
        sat(trunc_div(-(sat(-c) * k), d)) == -sat(trunc_div(-(sat(c) * k), d)),
{
    assert(sat(-c) == -sat(c));
    assert((-sat(c)) * k == -(sat(c) * k)) by (nonlinear_arith);
    lemma_trunc_div_odd(sat(c) * k, d);
    lemma_trunc_div_odd(-(sat(c) * k), d);
}

/// The repulsion on one node of a pair is the opposite of the repulsion
/// on the other, and so is the spring force.
pub proof fn lemma_plain_forces_are_mutual(p: Parameters, a: Body, b: Body)
    requires
        p.is_valid(),
    ensures
        repulsion_spec(p, b, a).x == -repulsion_spec(p, a, b).x,
        repulsion_spec(p, b, a).y == -repulsion_spec(p, a, b).y,
        attraction_spec(p, b, a).x == -attraction_spec(p, a, b).x,
        attraction_spec(p, b, a).y == -attraction_spec(p, a, b).y,
{
    let d = b.position().minus(a.position());
    let e = a.position().minus(b.position());
    assert(e.x == -d.x && e.y == -d.y);
    assert(sat(e.x as int) == -sat(d.x as int));
    assert(sat(e.y as int) == -sat(d.y as int));
    assert(sat(e.x as int) * sat(e.x as int) == sat(d.x as int) * sat(d.x as int))
        by (nonlinear_arith)
        requires
            sat(e.x as int) == -sat(d.x as int),
    ;
    assert(sat(e.y as int) * sat(e.y as int) == sat(d.y as int) * sat(d.y as int))
        by (nonlinear_arith)
        requires
            sat(e.y as int) == -sat(d.y as int),
    ;
    assert(e.length_spec() == d.length_spec());
    assert(a.mass * b.mass == b.mass * a.mass) by (nonlinear_arith);
    assert(mul_spec(a.mass as int, b.mass as int) == mul_spec(b.mass as int, a.mass as int));
    let distance = d.length_spec();
    let strength = repulsion_strength(p, a.mass as int, b.mass as int, distance);
    assert(strength == repulsion_strength(p, b.mass as int, a.mass as int, distance));
    let far = effective_distance(distance);
    lemma_mirror(d.x as int, strength, far);
    lemma_mirror(d.y as int, strength, far);
    lemma_mirror(d.x as int, p.attraction_coefficient as int, 2 * ONE);
    lemma_mirror(d.y as int, p.attraction_coefficient as int, 2 * ONE);
}

} // verus!

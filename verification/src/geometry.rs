//! Where two straight segments cross.

use vstd::arithmetic::div_mod::{
    lemma_div_is_ordered, lemma_div_multiples_vanish, lemma_div_pos_is_pos,
};
use vstd::prelude::*;
use crate::fixed::{div_toward_zero, lemma_product_bound, sat, saturate, trunc_div, LIMIT};
use crate::vec2::Vec2;

verus! {

/// `a * d - b * c`: the determinant of the matrix with rows `(a, b)` and `(c, d)`.
pub open spec fn det(a: int, b: int, c: int, d: int) -> int {
    a * d - b * c
}

/// The determinant of the two directions with saturated end points. It is
/// zero exactly when the segments are parallel or one of them is a point.
pub open spec fn denominator(a0: Vec2, a1: Vec2, b0: Vec2, b1: Vec2) -> int {
    det(sat(a1.x as int) - sat(a0.x as int), sat(a1.y as int) - sat(a0.y as int),
        sat(b1.x as int) - sat(b0.x as int), sat(b1.y as int) - sat(b0.y as int))
}

/// The denominator times the position of the crossing along the second segment.
pub open spec fn numerator_s(a0: Vec2, a1: Vec2, b0: Vec2, b1: Vec2) -> int {
    det(sat(a1.x as int) - sat(a0.x as int), sat(a1.y as int) - sat(a0.y as int),
        sat(a0.x as int) - sat(b0.x as int), sat(a0.y as int) - sat(b0.y as int))
}

/// The denominator times the position of the crossing along the first segment.
pub open spec fn numerator_t(a0: Vec2, a1: Vec2, b0: Vec2, b1: Vec2) -> int {
    det(sat(b1.x as int) - sat(b0.x as int), sat(b1.y as int) - sat(b0.y as int),
        sat(a0.x as int) - sat(b0.x as int), sat(a0.y as int) - sat(b0.y as int))
}

/// Whether `n / d` lies between zero and one, for a `d` that is not zero.
pub open spec fn is_fraction(n: int, d: int) -> bool {
    if d > 0 {
        0 <= n <= d
    } else {
        d <= n <= 0
    }
}

/// Whether the segment from `a0` to `a1` and the one from `b0` to `b1`
/// have a single common point. Parallel segments have none.
pub open spec fn segments_cross(a0: Vec2, a1: Vec2, b0: Vec2, b1: Vec2) -> bool {
    let d = denominator(a0, a1, b0, b1);
    &&& d != 0
    &&& is_fraction(numerator_s(a0, a1, b0, b1), d)
    &&& is_fraction(numerator_t(a0, a1, b0, b1), d)
}

/// `from` moved by the fraction `n / d` of `span`, rounded toward `from`.
pub open spec fn along(from: int, span: int, n: int, d: int) -> int {
    if d > 0 {
        sat(from + trunc_div(n * span, d))
    } else {
        sat(from + trunc_div((-n) * span, -d))
    }
}

/// The common point of two segments that cross: the point of the first
/// segment at the fraction `numerator_t / denominator` of its length.
pub open spec fn crossing_point(a0: Vec2, a1: Vec2, b0: Vec2, b1: Vec2) -> Vec2 {
    let d = denominator(a0, a1, b0, b1);
    let n = numerator_t(a0, a1, b0, b1);
    Vec2 {
        x: along(sat(a0.x as int), sat(a1.x as int) - sat(a0.x as int), n, d) as i64,
        y: along(sat(a0.y as int), sat(a1.y as int) - sat(a0.y as int), n, d) as i64,
    }
}

/// The two fractions solve the system of the crossing: before rounding, the
/// point at `numerator_t / denominator` of the first segment is the point at
/// `numerator_s / denominator` of the second.
pub proof fn lemma_fractions_meet(a0: Vec2, a1: Vec2, b0: Vec2, b1: Vec2)
    ensures
        ({
            let d = denominator(a0, a1, b0, b1);
            let s = numerator_s(a0, a1, b0, b1);
            let t = numerator_t(a0, a1, b0, b1);
            &&& d * sat(a0.x as int) + t * (sat(a1.x as int) - sat(a0.x as int)) == d * sat(
                b0.x as int,
            ) + s * (sat(b1.x as int) - sat(b0.x as int))
            &&& d * sat(a0.y as int) + t * (sat(a1.y as int) - sat(a0.y as int)) == d * sat(
                b0.y as int,
            ) + s * (sat(b1.y as int) - sat(b0.y as int))
        }),
{
    let ax = sat(a1.x as int) - sat(a0.x as int);
    let ay = sat(a1.y as int) - sat(a0.y as int);
    let bx = sat(b1.x as int) - sat(b0.x as int);
    let by = sat(b1.y as int) - sat(b0.y as int);
    let u = sat(a0.x as int) - sat(b0.x as int);
    let v = sat(a0.y as int) - sat(b0.y as int);
    let x0 = sat(a0.x as int);
    let x2 = sat(b0.x as int);
    let y0 = sat(a0.y as int);
    let y2 = sat(b0.y as int);
    lemma_cramer(ax, ay, bx, by, u, v);
    let d = ax * by - ay * bx;
    assert(d * x0 - d * x2 == d * u) by (nonlinear_arith)
        requires
            u == x0 - x2,
    ;
    assert(d * y0 - d * y2 == d * v) by (nonlinear_arith)
        requires
            v == y0 - y2,
    ;
}

/// Cramer's rule for two lines, cleared of its denominator.
proof fn lemma_cramer(ax: int, ay: int, bx: int, by: int, u: int, v: int)
    ensures
        (ax * by - ay * bx) * u + (bx * v - by * u) * ax == (ax * v - ay * u) * bx,
        (ax * by - ay * bx) * v + (bx * v - by * u) * ay == (ax * v - ay * u) * by,
{
    assert((ax * by - ay * bx) * u == ax * by * u - ay * bx * u) by (nonlinear_arith);
    assert((bx * v - by * u) * ax == bx * v * ax - by * u * ax) by (nonlinear_arith);
    assert((ax * v - ay * u) * bx == ax * v * bx - ay * u * bx) by (nonlinear_arith);
    assert(ax * by * u == by * u * ax) by (nonlinear_arith);
    assert(bx * v * ax == ax * v * bx) by (nonlinear_arith);
    assert(ay * bx * u == ay * u * bx) by (nonlinear_arith);
    assert((ax * by - ay * bx) * v == ax * by * v - ay * bx * v) by (nonlinear_arith);
    assert((bx * v - by * u) * ay == bx * v * ay - by * u * ay) by (nonlinear_arith);
    assert((ax * v - ay * u) * by == ax * v * by - ay * u * by) by (nonlinear_arith);
    assert(ax * by * v == ax * v * by) by (nonlinear_arith);
    assert(ay * bx * v == bx * v * ay) by (nonlinear_arith);
    assert(by * u * ay == ay * u * by) by (nonlinear_arith);
}

/// Segments whose directions have a determinant of zero, parallel ones
/// among them, do not cross.
pub proof fn lemma_parallel_never_cross(a0: Vec2, a1: Vec2, b0: Vec2, b1: Vec2)
    requires
        denominator(a0, a1, b0, b1) == 0,
    ensures
        !segments_cross(a0, a1, b0, b1),
{
}

/// A point moved along a span by a fraction between zero and one stays
/// between the start and the end of the span.
proof fn lemma_along_between(from: int, span: int, n: int, d: int)
    requires
        d != 0,
        is_fraction(n, d),
        -LIMIT <= from <= LIMIT,
        -LIMIT <= from + span <= LIMIT,
    ensures
        span >= 0 ==> from <= along(from, span, n, d) <= from + span,
        span <= 0 ==> from + span <= along(from, span, n, d) <= from,
{
    let m = if d > 0 {
        n
    } else {
        -n
    };
    let e = if d > 0 {
        d
    } else {
        -d
    };
    assert(0 <= m <= e);
    if span >= 0 {
        assert(0 <= m * span <= e * span) by (nonlinear_arith)
            requires
                0 <= m <= e,
                span >= 0,
        ;
        lemma_div_pos_is_pos(m * span, e);
        lemma_div_is_ordered(m * span, e * span, e);
        assert(e * span == span * e) by (nonlinear_arith);
        lemma_div_multiples_vanish(span, e);
    } else {
        assert(0 <= -(m * span) <= e * (-span)) by (nonlinear_arith)
            requires
                0 <= m <= e,
                span < 0,
        ;
        lemma_div_pos_is_pos(-(m * span), e);
        lemma_div_is_ordered(-(m * span), e * (-span), e);
        assert(e * (-span) == (-span) * e) by (nonlinear_arith);
        lemma_div_multiples_vanish(-span, e);
        if m * span == 0 {
            assert(trunc_div(m * span, e) == 0);
        }
    }
}

/// The point at which two segments cross lies in the box that the first
/// segment spans.
pub proof fn lemma_crossing_point_in_box(a0: Vec2, a1: Vec2, b0: Vec2, b1: Vec2)
    requires
        segments_cross(a0, a1, b0, b1),
    ensures
        ({
            let c = crossing_point(a0, a1, b0, b1);
            let x0 = sat(a0.x as int);
            let x1 = sat(a1.x as int);
            let y0 = sat(a0.y as int);
            let y1 = sat(a1.y as int);
            &&& (x0 <= c.x <= x1 || x1 <= c.x <= x0)
            &&& (y0 <= c.y <= y1 || y1 <= c.y <= y0)
        }),
{
    let d = denominator(a0, a1, b0, b1);
    let n = numerator_t(a0, a1, b0, b1);
    let x0 = sat(a0.x as int);
    let x1 = sat(a1.x as int);
    let y0 = sat(a0.y as int);
    let y1 = sat(a1.y as int);
    lemma_along_between(x0, x1 - x0, n, d);
    lemma_along_between(y0, y1 - y0, n, d);
}

fn determinant(a: i64, b: i64, c: i64, d: i64) -> (r: i128)
    requires
        -2199023255552 <= a <= 2199023255552,
        -2199023255552 <= b <= 2199023255552,
        -2199023255552 <= c <= 2199023255552,
        -2199023255552 <= d <= 2199023255552,
    ensures
        r == det(a as int, b as int, c as int, d as int),
        -9671406556917033397649408 <= r <= 9671406556917033397649408,
{
    proof {
        lemma_product_bound(a as int, d as int, 2199023255552, 2199023255552);
        lemma_product_bound(b as int, c as int, 2199023255552, 2199023255552);
        assert(2199023255552int * 2199023255552int == 4835703278458516698824704int);
    }
    (a as i128) * (d as i128) - (b as i128) * (c as i128)
}

fn move_along(from: i64, span: i64, n: i128, d: i128) -> (r: i64)
    requires
        -LIMIT <= from <= LIMIT,
        -2199023255552 <= span <= 2199023255552,
        -9671406556917033397649408 <= n <= 9671406556917033397649408,
        -9671406556917033397649408 <= d <= 9671406556917033397649408,
        d != 0,
    ensures
        r == along(from as int, span as int, n as int, d as int),
        -LIMIT <= r <= LIMIT,
{
    let (n, d): (i128, i128) = if d > 0 {
        (n, d)
    } else {
        (-n, -d)
    };
    proof {
        lemma_product_bound(n as int, span as int, 9671406556917033397649408, 2199023255552);
        assert(9671406556917033397649408int * 2199023255552int
            == 21267647932558653966460912964485513216int);
    }
    let step: i128 = div_toward_zero(n * (span as i128), d);
    saturate(from as i128 + step)
}

/// The point where two segments cross, if they do.
pub fn get_line_intersection(first: &(Vec2, Vec2), second: &(Vec2, Vec2)) -> (r: Option<Vec2>)
    ensures
        r is Some <==> segments_cross(first.0, first.1, second.0, second.1),
        r is Some ==> r->0 == crossing_point(first.0, first.1, second.0, second.1),
        r is Some ==> r->0.bounded(),
{
    let x0: i64 = saturate(first.0.x as i128);
    let y0: i64 = saturate(first.0.y as i128);
    let x1: i64 = saturate(first.1.x as i128);
    let y1: i64 = saturate(first.1.y as i128);
    let x2: i64 = saturate(second.0.x as i128);
    let y2: i64 = saturate(second.0.y as i128);
    let x3: i64 = saturate(second.1.x as i128);
    let y3: i64 = saturate(second.1.y as i128);
    let d: i128 = determinant(x1 - x0, y1 - y0, x3 - x2, y3 - y2);
    if d == 0 {
        return None;
    }
    let s: i128 = determinant(x1 - x0, y1 - y0, x0 - x2, y0 - y2);
    let t: i128 = determinant(x3 - x2, y3 - y2, x0 - x2, y0 - y2);
    let s_fits: bool = if d > 0 {
        0 <= s && s <= d
    } else {
        d <= s && s <= 0
    };
    let t_fits: bool = if d > 0 {
        0 <= t && t <= d
    } else {
        d <= t && t <= 0
    };
    if s_fits && t_fits {
        Some(Vec2 { x: move_along(x0, x1 - x0, t, d), y: move_along(y0, y1 - y0, t, d) })
    } else {
        None
    }
}

} // verus!

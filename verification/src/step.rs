//! What one simulation step does to a graph, as a function on the model.

use vstd::arithmetic::div_mod::lemma_div_multiples_vanish;
use vstd::prelude::*;
use crate::fixed::{
    add_spec, fx_mul, fx_sqrt, in_range, mul_spec, sqrt_fx_spec, trunc_div, ONE,
};
use crate::force::{force_spec, pair_force_spec};
use crate::model::{IntersectionInfo, World};
use crate::node::{Body, NodeId};
use crate::params::Parameters;
use crate::vec2::Vec2;

verus! {

/// The displacement that separates two coincident nodes, for one random
/// draw: `draw` is a fraction of one, `x = draw * d` and
/// `y = sqrt(1 - x * x) * d`, where `d` is the coincidence distance.
pub open spec fn bounce_spec(d: int, draw: int) -> Vec2 {
    let x = mul_spec(draw, d);
    let y = mul_spec(sqrt_fx_spec(ONE - mul_spec(x, x)), d);
    Vec2 { x: x as i64, y: y as i64 }
}

/// The displacement of a bounce for the random fraction `draw / 65536`.
pub fn bounce(really_close_distance: i64, draw: u16) -> (r: Vec2)
    ensures
        r == bounce_spec(really_close_distance as int, draw as int),
        r.bounded(),
{
    let x: i64 = fx_mul(draw as i64, really_close_distance);
    let y: i64 = fx_mul(fx_sqrt(ONE - fx_mul(x, x)), really_close_distance);
    Vec2 { x, y }
}

/// Sixteen random bits from `rand::random`, read as a fraction of one.
/// Nothing is claimed of the value: two calls may differ.
#[verifier::external_body]
pub(crate) fn random_draw() -> (r: u16) {
    rand::random::<u16>()
}

/// The first crossing of `list`, from index `k` on, that lies at least
/// the coincidence distance `d` away from `at`.
pub open spec fn first_escape(list: Seq<IntersectionInfo>, at: Vec2, d: int, k: int) -> Option<
    IntersectionInfo,
>
    decreases list.len() - k,
{
    if k < 0 || k >= list.len() {
        None
    } else if at.minus(list[k].point()).length_spec() >= d {
        Some(list[k])
    } else {
        first_escape(list, at, d, k + 1)
    }
}

/// The impulse that drives a node at `at` away from a crossing at `point`:
/// the force between two nodes that are not neighbours, times the escape factor.
pub open spec fn escape_force(p: Parameters, at: Vec2, point: Vec2) -> Vec2 {
    let diff = at.minus(point);
    force_spec(p, diff, diff.length_spec(), false).scaled(p.escape_intersection_factor as int)
}

impl World {
    /// The state `b` of node `m` after the forces of the active nodes
    /// from index `k` on are accumulated, and whether the scan ended early
    /// at a node that lies closer to `m` than the coincidence distance.
    pub open spec fn scan_pairs(self, m: NodeId, k: int, b: Body) -> (Body, bool)
        decreases self.order.len() - k,
    {
        if k < 0 || k >= self.order.len() {
            (b, false)
        } else {
            let n = self.order[k];
            if n == m {
                self.scan_pairs(m, k + 1, b)
            } else {
                let diff = b.position().minus(self.body(n).position());
                let d = diff.length_spec();
                if d < self.params.really_close_distance {
                    (b, true)
                } else {
                    self.scan_pairs(
                        m,
                        k + 1,
                        b.accumulated(
                            self.params,
                            pair_force_spec(self.params, b, self.body(n), self.linked(m, n)),
                        ),
                    )
                }
            }
        }
    }

    /// The crossing that node `m` escapes from in this step, if any: a node
    /// at rest escapes from the first crossing around it that lies at
    /// least the coincidence distance away.
    pub open spec fn escape_of(self, m: NodeId) -> Option<IntersectionInfo> {
        if self.body(m).stable() {
            first_escape(
                self.local_crossings(m),
                self.body(m).position(),
                self.params.really_close_distance as int,
                0,
            )
        } else {
            None
        }
    }

    /// The state of node `m` after its part of a step, and whether the
    /// step ends with it.
    ///
    /// An anchor stays as it is. A node that escapes from a crossing takes
    /// the escape impulse in place of the pairwise forces, and the step
    /// ends. A node that lies on another one is integrated with the
    /// forces accumulated so far and bounces, and the step ends. Any other
    /// node takes the force of every other active node and is integrated.
    pub open spec fn step_body(self, m: NodeId, dt: int, draw: int) -> (Body, bool) {
        let b = self.body(m);
        if b.is_anchor {
            (b, false)
        } else {
            match self.escape_of(m) {
                Some(crossing) => (
                    b.accumulated(
                        self.params,
                        escape_force(self.params, b.position(), crossing.point()),
                    ).integrated(self.params, dt),
                    true,
                ),
                None => {
                    let scanned = self.scan_pairs(m, 0, b);
                    let moved = scanned.0.integrated(self.params, dt);
                    if scanned.1 {
                        (
                            moved.displaced(
                                bounce_spec(self.params.really_close_distance as int, draw),
                            ),
                            true,
                        )
                    } else {
                        (moved, false)
                    }
                },
            }
        }
    }

    /// The states of all nodes after the active nodes from index `k` on
    /// have had their part of the step, one after the other.
    pub open spec fn run(self, k: int, dt: int, draw: int) -> Seq<Option<Body>>
        decreases self.order.len() - k,
    {
        if k < 0 || k >= self.order.len() {
            self.bodies
        } else {
            let m = self.order[k];
            let stepped = self.step_body(m, dt, draw);
            let next = self.with_body(m, stepped.0);
            if stepped.1 {
                next.bodies
            } else {
                next.run(k + 1, dt, draw)
            }
        }
    }

    /// The graph after one step of `dt`, for the random fraction `draw / 65536`.
    pub open spec fn update_spec(self, dt: int, draw: int) -> World {
        World { bodies: self.run(0, dt, draw), ..self }
    }
}

/// Whether two states agree in position, velocity, mass and anchoring.
pub open spec fn motion_kept(a: Body, b: Body) -> bool {
    &&& a.x == b.x
    &&& a.y == b.y
    &&& a.vx == b.vx
    &&& a.vy == b.vy
    &&& a.mass == b.mass
    &&& a.is_anchor == b.is_anchor
}

/// A velocity component is unchanged by a step of no duration if nothing
/// is damped or the component is zero.
proof fn lemma_velocity_kept(p: Parameters, v: int, a: int)
    requires
        p.is_valid(),
        in_range(v),
        p.damping_factor == ONE || v == 0,
    ensures
        Body::next_velocity(p, v, a, 0) == v,
        mul_spec(v, 0) == 0,
{
    assert(a * 0 == 0);
    assert(trunc_div(0, ONE as int) == 0);
    assert(mul_spec(a, 0) == 0);
    assert(0 * p.spring_factor == 0);
    assert(mul_spec(0, p.spring_factor as int) == 0);
    assert(add_spec(v, 0) == v);
    assert(v * 0 == 0);
    if v == 0 {
        assert(0 * p.damping_factor == 0);
    } else {
        if v >= 0 {
            lemma_div_multiples_vanish(v, ONE as int);
        } else {
            lemma_div_multiples_vanish(-v, ONE as int);
            assert((-v) * ONE == -(v * ONE)) by (nonlinear_arith);
        }
        assert(trunc_div(v * ONE, ONE as int) == v);
    }
}

/// A state in range keeps its motion over a step of no duration if
/// nothing is damped or the body is at rest.
proof fn lemma_integrated_still(p: Parameters, b: Body)
    requires
        p.is_valid(),
        b.bounded(),
        p.damping_factor == ONE || b.stable(),
    ensures
        motion_kept(b.integrated(p, 0), b),
        b.integrated(p, 0).bounded(),
{
    lemma_velocity_kept(p, b.vx as int, b.ax as int);
    lemma_velocity_kept(p, b.vy as int, b.ay as int);
}

impl World {
    /// Whether any two different active nodes lie at least the
    /// coincidence distance apart.
    pub open spec fn spread(self) -> bool {
        forall|k: int, l: int|
            0 <= k < self.order.len() && 0 <= l < self.order.len() && k != l ==> self.gap(
                #[trigger] self.order[k],
                #[trigger] self.order[l],
            ) >= self.params.really_close_distance
    }

    /// The distance between two nodes.
    pub open spec fn gap(self, a: NodeId, b: NodeId) -> int {
        self.body(a).position().minus(self.body(b).position()).length_spec()
    }

    /// Whether a step of no duration leaves every velocity as it is:
    /// nothing is damped, or every node is at rest.
    pub open spec fn quiet(self) -> bool {
        self.params.damping_factor == ONE || forall|i: int|
            0 <= i < self.bodies.len() && self.bodies[i] is Some ==> (#[trigger] self.bodies[i])->0.stable()
    }

    /// Whether `self` has the nodes of `other`, each with the position,
    /// velocity, mass and anchoring it has there.
    pub open spec fn same_motion(self, other: World) -> bool {
        &&& self.bodies.len() == other.bodies.len()
        &&& forall|i: int|
            0 <= i < self.bodies.len() ==> ((#[trigger] self.bodies[i]) is Some <==> other.bodies[i] is Some)
        &&& forall|i: int|
            0 <= i < self.bodies.len() && self.bodies[i] is Some ==> motion_kept(
                (#[trigger] self.bodies[i])->0,
                other.bodies[i]->0,
            )
    }

    /// Among nodes that are spread out, the scan of the pairs of `m` runs
    /// to its end and changes nothing but the accumulated acceleration.
    proof fn lemma_scan_still(self, m: NodeId, at: int, k: int, b: Body)
        requires
            self.wf(),
            self.spread(),
            0 <= at < self.order.len(),
            self.order[at] == m,
            0 <= k,
            b.bounded(),
            b.position() == self.body(m).position(),
        ensures
            !self.scan_pairs(m, k, b).1,
            motion_kept(self.scan_pairs(m, k, b).0, b),
            self.scan_pairs(m, k, b).0.bounded(),
        decreases self.order.len() - k,
    {
        if k < self.order.len() {
            let n = self.order[k];
            if n == m {
                self.lemma_scan_still(m, at, k + 1, b);
            } else {
                assert(self.gap(self.order[at], self.order[k]) >= self.params.really_close_distance);
                let diff = b.position().minus(self.body(n).position());
                let next = b.accumulated(
                    self.params,
                    pair_force_spec(self.params, b, self.body(n), self.linked(m, n)),
                );
                self.lemma_scan_still(m, at, k + 1, next);
            }
        }
    }

    /// Among quiet nodes that are spread out, the part that a node has in
    /// a step of no duration leaves its motion as it is.
    proof fn lemma_step_still(self, at: int, draw: int)
        requires
            self.wf(),
            self.spread(),
            self.quiet(),
            0 <= at < self.order.len(),
        ensures
            motion_kept(self.step_body(self.order[at], 0, draw).0, self.body(self.order[at])),
            self.step_body(self.order[at], 0, draw).0.bounded(),
    {
        let m = self.order[at];
        let b = self.body(m);
        assert(self.live(self.order[at]));
        assert(self.bodies[m.slot as int]->0.bounded());
        if !b.is_anchor {
            match self.escape_of(m) {
                Some(crossing) => {
                    let pushed = b.accumulated(
                        self.params,
                        escape_force(self.params, b.position(), crossing.point()),
                    );
                    lemma_integrated_still(self.params, pushed);
                },
                None => {
                    self.lemma_scan_still(m, at, 0, b);
                    lemma_integrated_still(self.params, self.scan_pairs(m, 0, b).0);
                },
            }
        }
    }

    /// Replacing the state of an active node by one with the same motion
    /// keeps a graph well formed, spread out and quiet.
    proof fn lemma_replace_still(self, at: int, b: Body)
        requires
            self.wf(),
            self.spread(),
            self.quiet(),
            0 <= at < self.order.len(),
            b.bounded(),
            motion_kept(b, self.body(self.order[at])),
        ensures
            self.with_body(self.order[at], b).wf(),
            self.with_body(self.order[at], b).spread(),
            self.with_body(self.order[at], b).quiet(),
            self.with_body(self.order[at], b).same_motion(self),
    {
        let m = self.order[at];
        let next = self.with_body(m, b);
        assert(self.live(self.order[at]));
        self.lemma_with_body(m, b);
        assert forall|i: int, j: int|
            0 <= i < next.order.len() && 0 <= j < next.order.len() && i != j implies next.gap(
            #[trigger] next.order[i],
            #[trigger] next.order[j],
        ) >= next.params.really_close_distance by {
            assert(self.live(self.order[i]));
            assert(self.live(self.order[j]));
            assert(next.body(next.order[i]).position() == self.body(self.order[i]).position());
            assert(next.body(next.order[j]).position() == self.body(self.order[j]).position());
            assert(self.gap(self.order[i], self.order[j]) >= self.params.really_close_distance);
        }
        if self.params.damping_factor != ONE {
            assert forall|i: int| 0 <= i < next.bodies.len() && next.bodies[i] is Some implies (
            #[trigger] next.bodies[i])->0.stable() by {
                assert(self.bodies[i] is Some);
                assert(self.bodies[i]->0.stable());
            }
        }
    }

    /// Having the same motion carries over from one graph to the next.
    proof fn lemma_same_motion_chain(self, mid: World, last: World)
        requires
            self.same_motion(mid),
            mid.same_motion(last),
        ensures
            self.same_motion(last),
    {
        assert forall|i: int| 0 <= i < self.bodies.len() implies ((#[trigger] self.bodies[i]) is Some
            <==> last.bodies[i] is Some) by {
            assert(mid.bodies[i] is Some <==> last.bodies[i] is Some);
        }
        assert forall|i: int| 0 <= i < self.bodies.len() && self.bodies[i] is Some implies motion_kept(
            (#[trigger] self.bodies[i])->0,
            last.bodies[i]->0,
        ) by {
            assert(mid.bodies[i] is Some);
            assert(motion_kept(mid.bodies[i]->0, last.bodies[i]->0));
        }
    }

    /// Among quiet nodes that are spread out, the rest of a step of no
    /// duration leaves every motion as it is.
    proof fn lemma_run_still(self, k: int, draw: int)
        requires
            self.wf(),
            self.spread(),
            self.quiet(),
            0 <= k,
        ensures
            (World { bodies: self.run(k, 0, draw), ..self }).same_motion(self),
        decreases self.order.len() - k,
    {
        if k < self.order.len() {
            let m = self.order[k];
            let stepped = self.step_body(m, 0, draw);
            let next = self.with_body(m, stepped.0);
            self.lemma_step_still(k, draw);
            self.lemma_replace_still(k, stepped.0);
            if !stepped.1 {
                next.lemma_run_still(k + 1, draw);
                let last = World { bodies: next.run(k + 1, 0, draw), ..next };
                last.lemma_same_motion_chain(next, self);
                assert(self.run(k, 0, draw) == next.run(k + 1, 0, draw));
            } else {
                assert(self.run(k, 0, draw) == next.bodies);
            }
        }
    }

    /// A step of no duration changes no position and no velocity, where
    /// no two nodes coincide and either nothing is damped or every node
    /// is at rest.
    pub proof fn lemma_step_of_no_duration(self, draw: int)
        requires
            self.wf(),
            self.spread(),
            self.quiet(),
        ensures
            self.update_spec(0, draw).same_motion(self),
            self.update_spec(0, draw).order == self.order,
            self.update_spec(0, draw).links == self.links,
    {
        self.lemma_run_still(0, draw);
    }
}

/// Integration gives a state in range, whatever it starts from.
proof fn lemma_integrated_bounded(p: Parameters, b: Body, dt: int)
    ensures
        b.integrated(p, dt).bounded(),
        b.integrated(p, dt).is_anchor == b.is_anchor,
        b.integrated(p, dt).mass == b.mass,
{
}

impl World {
    /// Whether `self` has the nodes of `other`, each anchored or free as
    /// it is there, and each anchor in the state it has there.
    pub open spec fn same_nodes(self, other: World) -> bool {
        &&& self.bodies.len() == other.bodies.len()
        &&& forall|i: int|
            0 <= i < self.bodies.len() ==> ((#[trigger] self.bodies[i]) is Some <==> other.bodies[i] is Some)
        &&& forall|i: int|
            0 <= i < self.bodies.len() && self.bodies[i] is Some ==> (#[trigger] self.bodies[i])->0.is_anchor
                == other.bodies[i]->0.is_anchor
        &&& forall|i: int|
            0 <= i < self.bodies.len() && self.bodies[i] is Some && other.bodies[i]->0.is_anchor
                ==> #[trigger] self.bodies[i] == other.bodies[i]
    }

    /// The part that a node has in a step leaves it in range, anchored or
    /// free as it was, and unchanged if it is an anchor.
    proof fn lemma_step_kind(self, m: NodeId, dt: int, draw: int)
        requires
            self.wf(),
            self.live(m),
        ensures
            self.step_body(m, dt, draw).0.bounded(),
            self.step_body(m, dt, draw).0.is_anchor == self.body(m).is_anchor,
            self.body(m).is_anchor ==> self.step_body(m, dt, draw).0 == self.body(m),
    {
        let b = self.body(m);
        assert(self.bodies[m.slot as int]->0.bounded());
        if !b.is_anchor {
            match self.escape_of(m) {
                Some(crossing) => {
                    let pushed = b.accumulated(
                        self.params,
                        escape_force(self.params, b.position(), crossing.point()),
                    );
                    lemma_integrated_bounded(self.params, pushed, dt);
                },
                None => {
                    self.lemma_scan_kind(m, 0, b);
                    lemma_integrated_bounded(self.params, self.scan_pairs(m, 0, b).0, dt);
                },
            }
        }
    }

    /// The scan of the pairs of a node leaves it anchored or free as it was.
    proof fn lemma_scan_kind(self, m: NodeId, k: int, b: Body)
        requires
            0 <= k,
        ensures
            self.scan_pairs(m, k, b).0.is_anchor == b.is_anchor,
        decreases self.order.len() - k,
    {
        if k < self.order.len() {
            let n = self.order[k];
            if n == m {
                self.lemma_scan_kind(m, k + 1, b);
            } else {
                let diff = b.position().minus(self.body(n).position());
                let d = diff.length_spec();
                if d >= self.params.really_close_distance {
                    self.lemma_scan_kind(
                        m,
                        k + 1,
                        b.accumulated(
                            self.params,
                            pair_force_spec(self.params, b, self.body(n), self.linked(m, n)),
                        ),
                    );
                }
            }
        }
    }

    /// Replacing the state of a live node by one in range and of the same
    /// kind keeps the nodes of a graph.
    proof fn lemma_replace_kind(self, m: NodeId, b: Body)
        requires
            self.wf(),
            self.live(m),
            b.bounded(),
            b.is_anchor == self.body(m).is_anchor,
            self.body(m).is_anchor ==> b == self.body(m),
        ensures
            self.with_body(m, b).wf(),
            self.with_body(m, b).same_nodes(self),
    {
        self.lemma_with_body(m, b);
    }

    /// Having the same nodes carries over from one graph to the next.
    proof fn lemma_same_nodes_chain(self, mid: World, last: World)
        requires
            self.same_nodes(mid),
            mid.same_nodes(last),
        ensures
            self.same_nodes(last),
    {
        assert forall|i: int| 0 <= i < self.bodies.len() implies ((#[trigger] self.bodies[i]) is Some
            <==> last.bodies[i] is Some) by {
            assert(mid.bodies[i] is Some <==> last.bodies[i] is Some);
        }
        assert forall|i: int| 0 <= i < self.bodies.len() && self.bodies[i] is Some implies (
        #[trigger] self.bodies[i])->0.is_anchor == last.bodies[i]->0.is_anchor by {
            assert(mid.bodies[i] is Some);
            assert(mid.bodies[i]->0.is_anchor == last.bodies[i]->0.is_anchor);
        }
        assert forall|i: int|
            0 <= i < self.bodies.len() && self.bodies[i] is Some
                && last.bodies[i]->0.is_anchor implies #[trigger] self.bodies[i]
            == last.bodies[i] by {
            assert(mid.bodies[i] is Some);
            assert(mid.bodies[i] == last.bodies[i]);
        }
    }

    /// The rest of a step keeps the graph well formed and keeps its nodes.
    proof fn lemma_run_keeps_nodes(self, k: int, dt: int, draw: int)
        requires
            self.wf(),
            0 <= k,
        ensures
            (World { bodies: self.run(k, dt, draw), ..self }).wf(),
            (World { bodies: self.run(k, dt, draw), ..self }).same_nodes(self),
        decreases self.order.len() - k,
    {
        if k < self.order.len() {
            let m = self.order[k];
            let stepped = self.step_body(m, dt, draw);
            let next = self.with_body(m, stepped.0);
            assert(self.live(self.order[k]));
            self.lemma_step_kind(m, dt, draw);
            self.lemma_replace_kind(m, stepped.0);
            if !stepped.1 {
                next.lemma_run_keeps_nodes(k + 1, dt, draw);
                let last = World { bodies: next.run(k + 1, dt, draw), ..next };
                last.lemma_same_nodes_chain(next, self);
                assert(self.run(k, dt, draw) == next.run(k + 1, dt, draw));
            } else {
                assert(self.run(k, dt, draw) == next.bodies);
            }
        } else {
            assert((World { bodies: self.run(k, dt, draw), ..self }) == self);
        }
    }

    /// A step keeps a graph well formed. It adds no node and removes none,
    /// it leaves the edges and the order of the nodes as they are, and it
    /// leaves every anchor in the state it had.
    pub proof fn lemma_step_keeps_nodes(self, dt: int, draw: int)
        requires
            self.wf(),
        ensures
            self.update_spec(dt, draw).wf(),
            self.update_spec(dt, draw).same_nodes(self),
            self.update_spec(dt, draw).order == self.order,
            self.update_spec(dt, draw).links == self.links,
            self.update_spec(dt, draw).params == self.params,
            forall|n: NodeId| self.update_spec(dt, draw).live(n) == self.live(n),
    {
        self.lemma_run_keeps_nodes(0, dt, draw);
        let after = self.update_spec(dt, draw);
        assert forall|n: NodeId| after.live(n) == self.live(n) by {
            if n.slot < self.bodies.len() {
                assert(after.bodies[n.slot as int] is Some <==> self.bodies[n.slot as int] is Some);
            }
        }
    }
}

impl World {
    /// A step on a graph without nodes changes nothing.
    pub proof fn lemma_step_without_nodes(self, dt: int, draw: int)
        requires
            self.order.len() == 0,
        ensures
            self.update_spec(dt, draw) == self,
    {
    }
}

} // verus!

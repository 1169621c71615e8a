//! Nodes: a caller's payload together with the physical state of a point mass.

use vstd::prelude::*;
use crate::fixed::{
    add_spec, clamp, clamp_spec, fx_add, fx_mul, mul_spec, sat, saturate, LIMIT,
};
use crate::params::Parameters;
use crate::vec2::Vec2;

verus! {

/// Largest velocity component, in magnitude, of a node that counts as at rest.
pub const STABLE_EPSILON: i64 = 0;

/// The mass of a node for which none is given: ten.
pub const DEFAULT_MASS: i64 = 655360;

/// The stable identifier of a node: the number of the slot it was stored in.
/// A slot is never used again, so an identifier never names two nodes.
#[derive(Debug, PartialEq, Eq, Structural, Clone, Copy, Hash)]
pub struct NodeId {
    pub slot: usize,
}

/// The physical state of a node.
#[derive(Debug, PartialEq, Eq, Structural, Clone, Copy)]
pub struct Body {
    pub x: i64,
    pub y: i64,
    pub vx: i64,
    pub vy: i64,
    pub ax: i64,
    pub ay: i64,
    pub mass: i64,
    pub is_anchor: bool,
}

impl Body {
    /// Whether position, velocity and acceleration lie in the stored range.
    pub open spec fn bounded(self) -> bool {
        &&& -LIMIT <= self.x <= LIMIT
        &&& -LIMIT <= self.y <= LIMIT
        &&& -LIMIT <= self.vx <= LIMIT
        &&& -LIMIT <= self.vy <= LIMIT
        &&& -LIMIT <= self.ax <= LIMIT
        &&& -LIMIT <= self.ay <= LIMIT
    }

    pub open spec fn position(self) -> Vec2 {
        Vec2 { x: self.x, y: self.y }
    }

    /// Whether both velocity components are within `STABLE_EPSILON` of zero.
    pub open spec fn stable(self) -> bool {
        &&& -STABLE_EPSILON <= self.vx <= STABLE_EPSILON
        &&& -STABLE_EPSILON <= self.vy <= STABLE_EPSILON
    }

    /// The state after `force`, each component bounded by the force limit,
    /// is added to the accumulated acceleration.
    pub open spec fn accumulated(self, p: Parameters, force: Vec2) -> Body {
        Body {
            ax: add_spec(
                self.ax as int,
                clamp_spec(force.x as int, -p.force_max, p.force_max as int),
            ) as i64,
            ay: add_spec(
                self.ay as int,
                clamp_spec(force.y as int, -p.force_max, p.force_max as int),
            ) as i64,
            ..self
        }
    }

    /// The velocity component that follows `v` under the acceleration `a`:
    /// `(v + a * dt * spring_factor) * damping_factor`.
    pub open spec fn next_velocity(p: Parameters, v: int, a: int, dt: int) -> int {
        mul_spec(
            add_spec(v, mul_spec(mul_spec(a, dt), p.spring_factor as int)),
            p.damping_factor as int,
        )
    }

    /// The state after one step of `dt`: the velocity takes up the
    /// acceleration and is damped, the position moves by the new velocity
    /// times `dt`, and the acceleration is cleared.
    pub open spec fn integrated(self, p: Parameters, dt: int) -> Body {
        let vx = Body::next_velocity(p, self.vx as int, self.ax as int, dt);
        let vy = Body::next_velocity(p, self.vy as int, self.ay as int, dt);
        Body {
            x: add_spec(self.x as int, mul_spec(vx, dt)) as i64,
            y: add_spec(self.y as int, mul_spec(vy, dt)) as i64,
            vx: vx as i64,
            vy: vy as i64,
            ax: 0,
            ay: 0,
            ..self
        }
    }

    /// The state with the position moved by `by`.
    pub open spec fn displaced(self, by: Vec2) -> Body {
        Body {
            x: add_spec(self.x as int, by.x as int) as i64,
            y: add_spec(self.y as int, by.y as int) as i64,
            ..self
        }
    }

    /// The state with the position set to `to`, brought into range.
    pub open spec fn moved_to(self, to: Vec2) -> Body {
        Body { x: sat(to.x as int) as i64, y: sat(to.y as int) as i64, ..self }
    }
}

impl Body {
    /// Adds `force`, bounded by the force limit, to the accumulated acceleration.
    pub fn accumulate(self, parameters: &Parameters, force: Vec2) -> (r: Body)
        requires
            parameters.is_valid(),
        ensures
            r == self.accumulated(*parameters, force),
            self.bounded() ==> r.bounded(),
    {
        let fx: i64 = clamp(force.x, -parameters.force_max, parameters.force_max);
        let fy: i64 = clamp(force.y, -parameters.force_max, parameters.force_max);
        Body { ax: fx_add(self.ax, fx), ay: fx_add(self.ay, fy), ..self }
    }

    /// Advances velocity and position by one step of `dt` and clears the
    /// accumulated acceleration.
    pub fn integrate(self, parameters: &Parameters, dt: i64) -> (r: Body)
        requires
            parameters.is_valid(),
        ensures
            r == self.integrated(*parameters, dt as int),
            r.bounded(),
    {
        let vx: i64 = fx_mul(
            fx_add(self.vx, fx_mul(fx_mul(self.ax, dt), parameters.spring_factor)),
            parameters.damping_factor,
        );
        let vy: i64 = fx_mul(
            fx_add(self.vy, fx_mul(fx_mul(self.ay, dt), parameters.spring_factor)),
            parameters.damping_factor,
        );
        Body {
            x: fx_add(self.x, fx_mul(vx, dt)),
            y: fx_add(self.y, fx_mul(vy, dt)),
            vx,
            vy,
            ax: 0,
            ay: 0,
            ..self
        }
    }

    /// Moves the position by `by`.
    pub fn displace(self, by: Vec2) -> (r: Body)
        ensures
            r == self.displaced(by),
            self.bounded() ==> r.bounded(),
    {
        Body { x: fx_add(self.x, by.x), y: fx_add(self.y, by.y), ..self }
    }

    /// Whether the body is at rest.
    pub fn is_stable(&self) -> (r: bool)
        ensures
            r == self.stable(),
    {
        -STABLE_EPSILON <= self.vx && self.vx <= STABLE_EPSILON && -STABLE_EPSILON <= self.vy
            && self.vy <= STABLE_EPSILON
    }
}

/// What a caller gives for a new node: a payload, a position, a mass and
/// whether the node is anchored.
#[derive(Debug)]
pub struct NodeData<T> {
    pub user_data: T,
    pub x: i64,
    pub y: i64,
    pub mass: i64,
    pub is_anchor: bool,
}

impl<T> NodeData<T> {
    /// The state of a node made of this data: at rest at the position
    /// given, brought into range.
    pub open spec fn resting(self) -> Body {
        Body {
            x: sat(self.x as int) as i64,
            y: sat(self.y as int) as i64,
            vx: 0,
            vy: 0,
            ax: 0,
            ay: 0,
            mass: self.mass,
            is_anchor: self.is_anchor,
        }
    }

    /// A free node at the origin with the default mass.
    pub fn new(user_data: T) -> (r: Self)
        ensures
            r.user_data == user_data,
            r.x == 0,
            r.y == 0,
            r.mass == DEFAULT_MASS,
            !r.is_anchor,
    {
        NodeData { user_data, x: 0, y: 0, mass: DEFAULT_MASS, is_anchor: false }
    }
}

impl<T: Default> Default for NodeData<T> {
    /// A free node at the origin with the default mass and the default payload.
    fn default() -> (r: Self)
        ensures
            r.x == 0,
            r.y == 0,
            r.mass == DEFAULT_MASS,
            !r.is_anchor,
    {
        NodeData { user_data: T::default(), x: 0, y: 0, mass: DEFAULT_MASS, is_anchor: false }
    }
}

/// A node of the graph: the caller's data, velocity, accumulated
/// acceleration, and the identifier under which the graph holds it.
#[derive(Debug)]
pub struct Node<T> {
    data: NodeData<T>,
    ax: i64,
    ay: i64,
    vx: i64,
    vy: i64,
    id: Option<NodeId>,
}

impl<T> Node<T> {
    /// The physical state.
    pub closed spec fn body(&self) -> Body {
        Body {
            x: self.data.x,
            y: self.data.y,
            vx: self.vx,
            vy: self.vy,
            ax: self.ax,
            ay: self.ay,
            mass: self.data.mass,
            is_anchor: self.data.is_anchor,
        }
    }

    /// The identifier, once the node is part of a graph.
    pub closed spec fn id_spec(&self) -> Option<NodeId> {
        self.id
    }

    /// The caller's payload.
    pub closed spec fn payload(&self) -> T {
        self.data.user_data
    }

    /// A node at rest at the position that `data` gives, brought into
    /// range, and not yet part of a graph.
    pub fn new(data: NodeData<T>) -> (r: Self)
        ensures
            r.body() == data.resting(),
            r.body().bounded(),
            r.payload() == data.user_data,
            r.id_spec() is None,
    {
        let x: i64 = saturate(data.x as i128);
        let y: i64 = saturate(data.y as i128);
        Self {
            data: NodeData {
                user_data: data.user_data,
                x,
                y,
                mass: data.mass,
                is_anchor: data.is_anchor,
            },
            ax: 0,
            ay: 0,
            vx: 0,
            vy: 0,
            id: None,
        }
    }

    /// The identifier under which the graph holds this node.
    pub fn index(&self) -> (r: NodeId)
        requires
            self.id_spec() is Some,
        ensures
            Some(r) == self.id_spec(),
    {
        self.id.unwrap()
    }

    pub fn x(&self) -> (r: i64)
        ensures
            r == self.body().x,
    {
        self.data.x
    }

    pub fn y(&self) -> (r: i64)
        ensures
            r == self.body().y,
    {
        self.data.y
    }

    pub fn mass(&self) -> (r: i64)
        ensures
            r == self.body().mass,
    {
        self.data.mass
    }

    pub fn is_anchor(&self) -> (r: bool)
        ensures
            r == self.body().is_anchor,
    {
        self.data.is_anchor
    }

    /// The velocity.
    pub fn velocity(&self) -> (r: Vec2)
        ensures
            r == (Vec2 { x: self.body().vx, y: self.body().vy }),
    {
        Vec2 { x: self.vx, y: self.vy }
    }

    pub fn user_data(&self) -> (r: &T)
        ensures
            *r == self.payload(),
    {
        &self.data.user_data
    }

    /// The whole physical state.
    pub fn state(&self) -> (r: Body)
        ensures
            r == self.body(),
    {
        Body {
            x: self.data.x,
            y: self.data.y,
            vx: self.vx,
            vy: self.vy,
            ax: self.ax,
            ay: self.ay,
            mass: self.data.mass,
            is_anchor: self.data.is_anchor,
        }
    }

    /// Records the identifier under which the graph holds the node.
    pub(crate) fn register(&mut self, id: NodeId)
        ensures
            final(self).id_spec() == Some(id),
            final(self).body() == old(self).body(),
            final(self).payload() == old(self).payload(),
    {
        self.id = Some(id);
    }

    /// Replaces the physical state.
    pub(crate) fn set_state(&mut self, b: Body)
        ensures
            final(self).body() == b,
            final(self).id_spec() == old(self).id_spec(),
            final(self).payload() == old(self).payload(),
    {
        self.data.x = b.x;
        self.data.y = b.y;
        self.data.mass = b.mass;
        self.data.is_anchor = b.is_anchor;
        self.vx = b.vx;
        self.vy = b.vy;
        self.ax = b.ax;
        self.ay = b.ay;
    }

    /// Adds `force`, bounded by the force limit, to the accumulated acceleration.
    pub fn apply(&mut self, force: Vec2, parameters: &Parameters)
        requires
            parameters.is_valid(),
        ensures
            final(self).body() == old(self).body().accumulated(*parameters, force),
            final(self).id_spec() == old(self).id_spec(),
            final(self).payload() == old(self).payload(),
            old(self).body().bounded() ==> final(self).body().bounded(),
    {
        let next = self.state().accumulate(parameters, force);
        self.set_state(next);
    }

    /// Advances velocity and position by one step of `dt` and clears the
    /// accumulated acceleration.
    pub fn update(&mut self, parameters: &Parameters, dt: i64)
        requires
            parameters.is_valid(),
        ensures
            final(self).body() == old(self).body().integrated(*parameters, dt as int),
            final(self).id_spec() == old(self).id_spec(),
            final(self).payload() == old(self).payload(),
            final(self).body().bounded(),
    {
        let next = self.state().integrate(parameters, dt);
        self.set_state(next);
    }

    /// Whether the node is at rest.
    pub fn is_stable(&self) -> (r: bool)
        ensures
            r == self.body().stable(),
    {
        self.state().is_stable()
    }

    /// Moves the node by `by`.
    pub fn displace(&mut self, by: Vec2)
        ensures
            final(self).body() == old(self).body().displaced(by),
            final(self).id_spec() == old(self).id_spec(),
            final(self).payload() == old(self).payload(),
            old(self).body().bounded() ==> final(self).body().bounded(),
    {
        let next = self.state().displace(by);
        self.set_state(next);
    }

    /// Puts the node at `to`, brought into range: the override of a drag.
    pub fn set_position(&mut self, to: Vec2)
        ensures
            final(self).body() == old(self).body().moved_to(to),
            final(self).id_spec() == old(self).id_spec(),
            final(self).payload() == old(self).payload(),
            old(self).body().bounded() ==> final(self).body().bounded(),
    {
        self.data.x = saturate(to.x as i128);
        self.data.y = saturate(to.y as i128);
    }

    /// Makes the node an anchor, or frees it.
    pub fn set_anchor(&mut self, is_anchor: bool)
        ensures
            final(self).body() == (Body { is_anchor, ..old(self).body() }),
            final(self).id_spec() == old(self).id_spec(),
            final(self).payload() == old(self).payload(),
    {
        self.data.is_anchor = is_anchor;
    }
}

} // verus!

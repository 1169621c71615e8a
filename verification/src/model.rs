//! The mathematical model of a graph and of one simulation step.

use vstd::prelude::*;
use crate::geometry::{crossing_point, segments_cross};
use crate::node::{Body, NodeId};
use crate::params::Parameters;
use crate::vec2::Vec2;

verus! {

/// One crossing of two edges: the point, and the end nodes of each edge.
#[derive(Debug, Clone, Copy)]
pub struct IntersectionInfo {
    x: i64,
    y: i64,
    pair: ((NodeId, NodeId), (NodeId, NodeId)),
}

impl IntersectionInfo {
    /// The crossing point.
    pub closed spec fn point(&self) -> Vec2 {
        Vec2 { x: self.x, y: self.y }
    }

    /// The end nodes of the first edge and those of the second.
    pub closed spec fn ends(&self) -> ((NodeId, NodeId), (NodeId, NodeId)) {
        self.pair
    }

    /// The record of the crossing at `at` of the edges with the ends `pair`.
    pub closed spec fn of(at: Vec2, pair: ((NodeId, NodeId), (NodeId, NodeId))) -> IntersectionInfo {
        IntersectionInfo { x: at.x, y: at.y, pair }
    }

    /// A record holds the point and the ends it was made of, and nothing else.
    pub proof fn lemma_of(at: Vec2, pair: ((NodeId, NodeId), (NodeId, NodeId)))
        ensures
            IntersectionInfo::of(at, pair).point() == at,
            IntersectionInfo::of(at, pair).ends() == pair,
            forall|i: IntersectionInfo|
                i.point() == at && i.ends() == pair ==> i == IntersectionInfo::of(at, pair),
    {
    }

    pub(crate) fn new(at: Vec2, pair: ((NodeId, NodeId), (NodeId, NodeId))) -> (r: Self)
        ensures
            r == IntersectionInfo::of(at, pair),
    {
        IntersectionInfo { x: at.x, y: at.y, pair }
    }

    pub fn x(&self) -> (r: i64)
        ensures
            r == self.point().x,
    {
        self.x
    }

    pub fn y(&self) -> (r: i64)
        ensures
            r == self.point().y,
    {
        self.y
    }

    pub fn pair(&self) -> (r: ((NodeId, NodeId), (NodeId, NodeId)))
        ensures
            r == self.ends(),
    {
        self.pair
    }
}

/// A graph as the simulation sees it.
pub struct World {
    /// The physical state of the node in each slot; `None` once it is removed.
    pub bodies: Seq<Option<Body>>,
    /// The end nodes of the edge in each slot; `None` once it is removed.
    pub links: Seq<Option<(NodeId, NodeId)>>,
    /// The identifiers of the active nodes, in the order of a step.
    pub order: Seq<NodeId>,
    pub params: Parameters,
}

impl World {
    /// Whether `id` names a node that is part of the graph.
    pub open spec fn live(self, id: NodeId) -> bool {
        id.slot < self.bodies.len() && self.bodies[id.slot as int] is Some
    }

    /// The state of the live node `id`.
    pub open spec fn body(self, id: NodeId) -> Body {
        self.bodies[id.slot as int]->0
    }

    /// Whether `e` names an edge that is part of the graph.
    pub open spec fn live_edge(self, e: int) -> bool {
        0 <= e < self.links.len() && self.links[e] is Some
    }

    /// The graph's invariant: the parameters are valid, every state is in
    /// range, the active identifiers are exactly the live nodes, each
    /// once, and every edge joins live nodes.
    pub open spec fn wf(self) -> bool {
        &&& self.params.is_valid()
        &&& forall|i: int|
            0 <= i < self.bodies.len() && self.bodies[i] is Some ==> (#[trigger] self.bodies[i])->0.bounded()
        &&& forall|k: int| 0 <= k < self.order.len() ==> self.live(#[trigger] self.order[k])
        &&& forall|k: int, l: int|
            0 <= k < l < self.order.len() ==> #[trigger] self.order[k] != #[trigger] self.order[l]
        &&& forall|id: NodeId| #[trigger] self.live(id) ==> self.order.contains(id)
        &&& forall|e: int|
            #[trigger] self.live_edge(e) ==> self.live(self.ends(e).0) && self.live(self.ends(e).1)
    }

    /// The end nodes of the live edge `e`.
    pub open spec fn ends(self, e: int) -> (NodeId, NodeId) {
        self.links[e]->0
    }

    /// The same graph with the state of node `id` replaced by `b`.
    pub open spec fn with_body(self, id: NodeId, b: Body) -> World {
        World { bodies: self.bodies.update(id.slot as int, Some(b)), ..self }
    }

    /// Replacing the state of a live node by one in range keeps the
    /// graph well formed and every node live.
    pub proof fn lemma_with_body(self, id: NodeId, b: Body)
        requires
            self.wf(),
            self.live(id),
            b.bounded(),
        ensures
            self.with_body(id, b).wf(),
            forall|n: NodeId| self.with_body(id, b).live(n) == self.live(n),
    {
        let w = self.with_body(id, b);
        assert forall|n: NodeId| w.live(n) == self.live(n) by {}
        assert forall|k: int| 0 <= k < w.order.len() implies w.live(#[trigger] w.order[k]) by {
            assert(self.live(self.order[k]));
        }
        assert forall|n: NodeId| #[trigger] w.live(n) implies w.order.contains(n) by {
            assert(self.live(n));
        }
        assert forall|e: int| #[trigger] w.live_edge(e) implies w.live(w.ends(e).0) && w.live(
            w.ends(e).1,
        ) by {
            assert(self.live_edge(e));
        }
    }

    /// The graph with one more node in the state `b`: it takes the next
    /// slot and comes last in the order of a step.
    pub open spec fn with_node(self, b: Body) -> World {
        World {
            bodies: self.bodies.push(Some(b)),
            order: self.order.push(NodeId { slot: self.bodies.len() as usize }),
            ..self
        }
    }

    /// The graph with one more edge, from `a` to `b`, in the next slot.
    pub open spec fn with_edge(self, a: NodeId, b: NodeId) -> World {
        World { links: self.links.push(Some((a, b))), ..self }
    }

    /// Adding a node in range keeps the graph well formed and every
    /// other node as it was.
    pub proof fn lemma_node_added(self, b: Body)
        requires
            self.wf(),
            b.bounded(),
            self.bodies.len() <= usize::MAX,
        ensures
            self.with_node(b).wf(),
            self.with_node(b).live(NodeId { slot: self.bodies.len() as usize }),
            forall|n: NodeId| self.live(n) ==> #[trigger] self.with_node(b).live(n) && self.with_node(
                b,
            ).body(n) == self.body(n),
    {
        let w = self.with_node(b);
        let id = NodeId { slot: self.bodies.len() as usize };
        assert forall|k: int| 0 <= k < w.order.len() implies w.live(#[trigger] w.order[k]) by {
            if k < self.order.len() {
                assert(self.live(self.order[k]));
            }
        }
        assert forall|k: int, l: int| 0 <= k < l < w.order.len() implies #[trigger] w.order[k]
            != #[trigger] w.order[l] by {
            if l == self.order.len() {
                assert(self.live(self.order[k]));
            }
        }
        assert forall|n: NodeId| #[trigger] w.live(n) implies w.order.contains(n) by {
            if n.slot < self.bodies.len() {
                assert(self.live(n));
                let k = choose|k: int| 0 <= k < self.order.len() && self.order[k] == n;
                assert(w.order[k] == n);
            } else {
                assert(w.order[self.order.len() as int] == n);
            }
        }
        assert forall|e: int| #[trigger] w.live_edge(e) implies w.live(w.ends(e).0) && w.live(
            w.ends(e).1,
        ) by {
            assert(self.live_edge(e));
        }
    }

    /// Adding an edge between two nodes of the graph keeps the graph well
    /// formed.
    pub proof fn lemma_edge_added(self, a: NodeId, b: NodeId)
        requires
            self.wf(),
            self.live(a),
            self.live(b),
        ensures
            self.with_edge(a, b).wf(),
            self.with_edge(a, b).joins(self.links.len() as int, a, b),
    {
        let w = self.with_edge(a, b);
        assert forall|k: int| 0 <= k < w.order.len() implies w.live(#[trigger] w.order[k]) by {
            assert(self.live(self.order[k]));
        }
        assert forall|n: NodeId| #[trigger] w.live(n) implies w.order.contains(n) by {
            assert(self.live(n));
        }
        assert forall|e: int| #[trigger] w.live_edge(e) implies w.live(w.ends(e).0) && w.live(
            w.ends(e).1,
        ) by {
            if e < self.links.len() {
                assert(self.live_edge(e));
            }
        }
    }

    /// The place of the active node `id` in the order of a step.
    pub open spec fn position(self, id: NodeId) -> int {
        choose|k: int| 0 <= k < self.order.len() && self.order[k] == id
    }

    /// The graph without the node `id` and without the edges at it. The
    /// other nodes and edges keep their slots, their state and their order.
    pub open spec fn without_node(self, id: NodeId) -> World {
        if self.live(id) {
            World {
                bodies: self.bodies.update(id.slot as int, None),
                links: Seq::new(
                    self.links.len(),
                    |e: int|
                        if self.touches(e, id) {
                            None
                        } else {
                            self.links[e]
                        },
                ),
                order: self.order.remove(self.position(id)),
                ..self
            }
        } else {
            self
        }
    }

    /// Removing a node takes it out of the graph and out of the order of
    /// a step, together with the edges at it. Every other node stays, with
    /// its state, and every other edge stays.
    pub proof fn lemma_node_removed(self, id: NodeId)
        requires
            self.wf(),
            self.live(id),
        ensures
            self.without_node(id).wf(),
            !self.without_node(id).live(id),
            !self.without_node(id).order.contains(id),
            self.without_node(id).order.len() == self.order.len() - 1,
            forall|n: NodeId|
                n != id && self.live(n) ==> #[trigger] self.without_node(id).live(n)
                    && self.without_node(id).body(n) == self.body(n) && self.without_node(
                    id,
                ).order.contains(n),
            forall|e: int| #[trigger]
                self.without_node(id).live_edge(e) <==> self.live_edge(e) && !self.touches(e, id),
            forall|e: int| #[trigger]
                self.without_node(id).live_edge(e) ==> self.without_node(id).ends(e) == self.ends(e),
    {
        let w = self.without_node(id);
        let k = self.position(id);
        assert(self.order.contains(id));
        assert(0 <= k < self.order.len() && self.order[k] == id);
        assert forall|j: int| 0 <= j < w.order.len() implies w.live(#[trigger] w.order[j]) && w.order[j]
            != id by {
            let i = if j < k {
                j
            } else {
                j + 1
            };
            assert(w.order[j] == self.order[i]);
            assert(self.live(self.order[i]));
            assert(self.order[i] != self.order[k]);
        }
        assert forall|i: int, j: int| 0 <= i < j < w.order.len() implies #[trigger] w.order[i]
            != #[trigger] w.order[j] by {
            let i0 = if i < k {
                i
            } else {
                i + 1
            };
            let j0 = if j < k {
                j
            } else {
                j + 1
            };
            assert(self.order[i0] != self.order[j0]);
        }
        assert forall|n: NodeId| #[trigger] w.live(n) implies w.order.contains(n) by {
            assert(self.live(n));
            let i = choose|i: int| 0 <= i < self.order.len() && self.order[i] == n;
            assert(i != k);
            let j = if i < k {
                i
            } else {
                i - 1
            };
            assert(w.order[j] == n);
        }
        assert forall|e: int| #[trigger] w.live_edge(e) implies w.live(w.ends(e).0) && w.live(
            w.ends(e).1,
        ) by {
            assert(self.live_edge(e));
            assert(!self.touches(e, id));
        }
        assert forall|n: NodeId| n != id && self.live(n) implies #[trigger] w.live(n) && w.body(n)
            == self.body(n) && w.order.contains(n) by {
            assert(n.slot != id.slot);
            assert(w.live(n));
            assert(w.order.contains(n));
        }
        if w.order.contains(id) {
            let j = choose|j: int| 0 <= j < w.order.len() && w.order[j] == id;
            assert(w.live(w.order[j]));
        }
    }

    /// Removing an edge takes it out of the graph and leaves every node
    /// and every other edge as it was.
    pub proof fn lemma_edge_removed(self, e: int)
        requires
            self.wf(),
        ensures
            self.without_edge(e).wf(),
            !self.without_edge(e).live_edge(e),
            self.without_edge(e).bodies == self.bodies,
            self.without_edge(e).order == self.order,
            forall|other: int|
                other != e ==> #[trigger] self.without_edge(e).live_edge(other) == self.live_edge(
                    other,
                ),
            forall|other: int|
                other != e && #[trigger] self.live_edge(other) ==> self.without_edge(e).ends(other)
                    == self.ends(other),
    {
        let w = self.without_edge(e);
        assert forall|k: int| 0 <= k < w.order.len() implies w.live(#[trigger] w.order[k]) by {
            assert(self.live(self.order[k]));
        }
        assert forall|n: NodeId| #[trigger] w.live(n) implies w.order.contains(n) by {
            assert(self.live(n));
        }
        assert forall|j: int| #[trigger] w.live_edge(j) implies w.live(w.ends(j).0) && w.live(
            w.ends(j).1,
        ) by {
            assert(self.live_edge(j));
        }
    }

    /// The graph without the edge in slot `e`. Nothing else changes.
    pub open spec fn without_edge(self, e: int) -> World {
        if self.live_edge(e) {
            World { links: self.links.update(e, None), ..self }
        } else {
            self
        }
    }

    /// The number of edges among the first `k` slots.
    pub open spec fn edges_before(self, k: int) -> nat
        decreases k,
    {
        if k <= 0 {
            0
        } else if self.live_edge(k - 1) {
            self.edges_before(k - 1) + 1
        } else {
            self.edges_before(k - 1)
        }
    }

    /// The slots, in rising order, of the edges among the first `k` slots.
    pub open spec fn edge_slots_before(self, k: int) -> Seq<int>
        decreases k,
    {
        if k <= 0 {
            Seq::empty()
        } else if self.live_edge(k - 1) {
            self.edge_slots_before(k - 1).push(k - 1)
        } else {
            self.edge_slots_before(k - 1)
        }
    }

    /// The slots of the edges, in rising order.
    pub open spec fn edge_slots(self) -> Seq<int> {
        self.edge_slots_before(self.links.len() as int)
    }

    /// There are as many slots of edges as there are edges, and each of
    /// them holds an edge.
    pub proof fn lemma_edge_slots(self, k: int)
        requires
            k <= self.links.len(),
        ensures
            self.edge_slots_before(k).len() == self.edges_before(k),
            forall|i: int|
                0 <= i < self.edge_slots_before(k).len() ==> self.live_edge(
                    #[trigger] self.edge_slots_before(k)[i],
                ) && self.edge_slots_before(k)[i] < k,
        decreases k,
    {
        if k > 0 {
            self.lemma_edge_slots(k - 1);
        }
    }

    /// The number of edges.
    pub open spec fn edge_total(self) -> nat {
        self.edges_before(self.links.len() as int)
    }

    /// Whether edge `e` has `id` as one of its ends.
    pub open spec fn touches(self, e: int, id: NodeId) -> bool {
        self.live_edge(e) && (self.ends(e).0 == id || self.ends(e).1 == id)
    }

    /// Whether some edge joins `a` and `b`.
    pub open spec fn linked(self, a: NodeId, b: NodeId) -> bool {
        exists|e: int| #[trigger] self.joins(e, a, b)
    }

    /// Whether edge `e` joins `a` and `b`, in either direction.
    pub open spec fn joins(self, e: int, a: NodeId, b: NodeId) -> bool {
        self.live_edge(e) && (self.links[e] == Some((a, b)) || self.links[e] == Some((b, a)))
    }

    /// The segment that edge `e` is drawn as.
    pub open spec fn segment(self, e: int) -> (Vec2, Vec2) {
        (self.body(self.ends(e).0).position(), self.body(self.ends(e).1).position())
    }

    /// The segment of edge `e` drawn from its end `id` to the other end.
    pub open spec fn segment_from(self, e: int, id: NodeId) -> (Vec2, Vec2) {
        (self.body(id).position(), self.body(self.far_end(e, id)).position())
    }

    /// The end of edge `e` that is not `id`, or `id` where both ends are.
    pub open spec fn far_end(self, e: int, id: NodeId) -> NodeId {
        if self.ends(e).0 == id {
            self.ends(e).1
        } else {
            self.ends(e).0
        }
    }

    /// Whether the edges with the ends `p` and `q` have an end in common.
    pub open spec fn share_end(p: (NodeId, NodeId), q: (NodeId, NodeId)) -> bool {
        p.0 == q.0 || p.0 == q.1 || p.1 == q.0 || p.1 == q.1
    }

    /// Whether two edges, drawn as `s` and `t`, are reported as crossing:
    /// they have no end in common, they are not drawn as the same
    /// segment, and the segments cross.
    pub open spec fn reportable(
        p: (NodeId, NodeId),
        s: (Vec2, Vec2),
        q: (NodeId, NodeId),
        t: (Vec2, Vec2),
    ) -> bool {
        &&& !World::share_end(p, q)
        &&& s != t
        &&& segments_cross(s.0, s.1, t.0, t.1)
    }

    /// What the pair of edges `i` and `j` adds to the list of all crossings.
    pub open spec fn pair_crossing(self, i: int, j: int) -> Seq<IntersectionInfo> {
        if self.live_edge(i) && self.live_edge(j) && World::reportable(
            self.ends(i),
            self.segment(i),
            self.ends(j),
            self.segment(j),
        ) {
            let s = self.segment(i);
            let t = self.segment(j);
            seq![IntersectionInfo::of(
                    crossing_point(s.0, s.1, t.0, t.1),
                    (self.ends(i), self.ends(j)),
                ),
            ]
        } else {
            Seq::empty()
        }
    }

    /// The crossings of the pairs of edges from `(i, j)` on, each pair of
    /// two different edges taken once, the lower slot first.
    pub open spec fn crossings_from(self, i: int, j: int) -> Seq<IntersectionInfo>
        decreases self.links.len() - i, self.links.len() - j,
    {
        if i < 0 || j < 0 || i >= self.links.len() {
            Seq::empty()
        } else if j >= self.links.len() {
            self.crossings_from(i + 1, i + 2)
        } else {
            self.pair_crossing(i, j) + self.crossings_from(i, j + 1)
        }
    }

    /// All crossings of two edges of the graph.
    pub open spec fn crossings(self) -> Seq<IntersectionInfo> {
        self.crossings_from(0, 1)
    }

    /// Whether `x` is the record of the crossing of the edges `i` and `j`.
    pub open spec fn records(self, x: IntersectionInfo, i: int, j: int) -> bool {
        &&& self.live_edge(i)
        &&& self.live_edge(j)
        &&& World::reportable(self.ends(i), self.segment(i), self.ends(j), self.segment(j))
        &&& x == IntersectionInfo::of(
            crossing_point(
                self.segment(i).0,
                self.segment(i).1,
                self.segment(j).0,
                self.segment(j).1,
            ),
            (self.ends(i), self.ends(j)),
        )
    }

    /// Whether `x` is the record of the crossing of two edges of the
    /// graph, the lower slot first.
    pub open spec fn reported(self, x: IntersectionInfo) -> bool {
        exists|a: int, b: int| a < b && #[trigger] self.records(x, a, b)
    }

    /// Every record in the list of crossings is that of two edges of the
    /// graph that are reported as crossing, the lower slot first.
    pub proof fn lemma_crossings_sound(self, i: int, j: int)
        requires
            0 <= i < j,
        ensures
            forall|k: int|
                0 <= k < self.crossings_from(i, j).len() ==> self.reported(
                    #[trigger] self.crossings_from(i, j)[k],
                ),
        decreases self.links.len() - i, self.links.len() - j,
    {
        if i >= self.links.len() {
            assert(self.crossings_from(i, j).len() == 0);
        } else {
            if j >= self.links.len() {
                self.lemma_crossings_sound(i + 1, i + 2);
                assert(self.crossings_from(i, j) == self.crossings_from(i + 1, i + 2));
            } else {
                self.lemma_crossings_sound(i, j + 1);
                let here = self.pair_crossing(i, j);
                let rest = self.crossings_from(i, j + 1);
                assert forall|k: int| 0 <= k < self.crossings_from(i, j).len() implies self.reported(
                    #[trigger] self.crossings_from(i, j)[k],
                ) by {
                    if k < here.len() {
                        assert(self.records(here[0], i, j));
                    } else {
                        assert(self.crossings_from(i, j)[k] == rest[k - here.len()]);
                    }
                }
            }
        }
    }

    /// Every pair of edges that is reported as crossing has its record in
    /// the list of crossings.
    pub proof fn lemma_crossings_complete(self, i: int, j: int, a: int, b: int)
        requires
            0 <= i < j,
            i <= a < b < self.links.len(),
            a > i || b >= j,
            self.live_edge(a),
            self.live_edge(b),
            World::reportable(self.ends(a), self.segment(a), self.ends(b), self.segment(b)),
        ensures
            exists|k: int|
                0 <= k < self.crossings_from(i, j).len() && self.records(
                    #[trigger] self.crossings_from(i, j)[k],
                    a,
                    b,
                ),
        decreases self.links.len() - i, self.links.len() - j,
    {
        if j >= self.links.len() {
            self.lemma_crossings_complete(i + 1, i + 2, a, b);
            assert(self.crossings_from(i, j) == self.crossings_from(i + 1, i + 2));
        } else {
            let here = self.pair_crossing(i, j);
            let rest = self.crossings_from(i, j + 1);
            if a == i && b == j {
                assert(self.crossings_from(i, j)[0] == here[0]);
                assert(self.records(self.crossings_from(i, j)[0], a, b));
            } else {
                self.lemma_crossings_complete(i, j + 1, a, b);
                let k = choose|k: int| 0 <= k < rest.len() && self.records(#[trigger] rest[k], a, b);
                assert(self.crossings_from(i, j)[k + here.len()] == rest[k]);
            }
        }
    }

    /// No record in the list of crossings is that of two edges with a
    /// common end.
    pub proof fn lemma_crossings_have_no_common_end(self, k: int)
        requires
            0 <= k < self.crossings().len(),
        ensures
            !World::share_end(self.crossings()[k].ends().0, self.crossings()[k].ends().1),
    {
        self.lemma_crossings_sound(0, 1);
        let x = self.crossings()[k];
        let (a, b) = choose|a: int, b: int| a < b && #[trigger] self.records(x, a, b);
        IntersectionInfo::lemma_of(
            crossing_point(
                self.segment(a).0,
                self.segment(a).1,
                self.segment(b).0,
                self.segment(b).1,
            ),
            (self.ends(a), self.ends(b)),
        );
    }

    /// What edge `i` at node `id` and edge `j` away from it add to the
    /// list of the crossings around `id`.
    pub open spec fn local_pair_crossing(self, id: NodeId, i: int, j: int) -> Seq<IntersectionInfo> {
        if self.touches(i, id) && self.live_edge(j) && !self.touches(j, id) && World::reportable(
            (id, self.far_end(i, id)),
            self.segment_from(i, id),
            self.ends(j),
            self.segment(j),
        ) {
            let s = self.segment_from(i, id);
            let t = self.segment(j);
            seq![
                IntersectionInfo::of(
                    crossing_point(s.0, s.1, t.0, t.1),
                    ((id, self.far_end(i, id)), self.ends(j)),
                ),
            ]
        } else {
            Seq::empty()
        }
    }

    /// The crossings around `id` of the pairs of edges from `(i, j)` on.
    pub open spec fn local_crossings_from(self, id: NodeId, i: int, j: int) -> Seq<IntersectionInfo>
        decreases self.links.len() - i, self.links.len() - j,
    {
        if i < 0 || j < 0 || i >= self.links.len() {
            Seq::empty()
        } else if j >= self.links.len() {
            self.local_crossings_from(id, i + 1, 0)
        } else {
            self.local_pair_crossing(id, i, j) + self.local_crossings_from(id, i, j + 1)
        }
    }

    /// The crossings of an edge at `id` with an edge that does not touch `id`.
    pub open spec fn local_crossings(self, id: NodeId) -> Seq<IntersectionInfo> {
        self.local_crossings_from(id, 0, 0)
    }
}

} // verus!

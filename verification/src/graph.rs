//! The engine: a store of nodes and edges, and the simulation step on it.

use vstd::prelude::*;
use crate::fixed::{sat, saturate};
use crate::force::{banded_force, force_spec, pair_force};
use crate::geometry::{crossing_point, get_line_intersection};
use crate::model::{IntersectionInfo, World};
use crate::node::{Body, Node, NodeData, NodeId};
use crate::params::Parameters;
use crate::step::{bounce, first_escape, random_draw};
use crate::vec2::Vec2;

verus! {

/// The stable identifier of an edge: the number of the slot it was stored in.
#[derive(Debug, PartialEq, Eq, Structural, Clone, Copy, Hash)]
pub struct EdgeId {
    pub slot: usize,
}

/// An edge as the store holds it.
#[derive(Debug)]
struct Edge<E> {
    a: NodeId,
    b: NodeId,
    data: E,
}

/// A graph whose nodes move under the forces between them.
#[derive(Debug)]
pub struct ForceGraph<NodeUserData = (), EdgeUserData = ()> {
    nodes: Vec<Option<Node<NodeUserData>>>,
    edges: Vec<Option<Edge<EdgeUserData>>>,
    active: Vec<NodeId>,
    parameters: Parameters,
}

impl<NodeUserData, EdgeUserData> ForceGraph<NodeUserData, EdgeUserData> {
    /// The graph as the simulation sees it.
    pub closed spec fn world(&self) -> World {
        World {
            bodies: Seq::new(
                self.nodes@.len(),
                |i: int|
                    match self.nodes@[i] {
                        Some(n) => Some(n.body()),
                        None => None,
                    },
            ),
            links: Seq::new(
                self.edges@.len(),
                |i: int|
                    match self.edges@[i] {
                        Some(e) => Some((e.a, e.b)),
                        None => None,
                    },
            ),
            order: self.active@,
            params: self.parameters,
        }
    }

    /// The payload of the node in each slot.
    pub closed spec fn node_payloads(&self) -> Seq<Option<NodeUserData>> {
        Seq::new(
            self.nodes@.len(),
            |i: int|
                match self.nodes@[i] {
                    Some(n) => Some(n.payload()),
                    None => None,
                },
        )
    }

    /// The payload of the edge in each slot.
    pub closed spec fn edge_payloads(&self) -> Seq<Option<EdgeUserData>> {
        Seq::new(
            self.edges@.len(),
            |i: int|
                match self.edges@[i] {
                    Some(e) => Some(e.data),
                    None => None,
                },
        )
    }

    /// The invariant of the engine: the model is well formed, and every
    /// node knows the identifier of the slot that holds it.
    pub closed spec fn wf(&self) -> bool {
        &&& self.world().wf()
        &&& forall|i: int|
            0 <= i < self.nodes@.len() && self.nodes@[i] is Some ==> (#[trigger] self.nodes@[i])->0.id_spec()
                == Some(NodeId { slot: i as usize })
    }

    /// An empty graph with `parameters`, each brought into its valid range.
    pub fn new(parameters: Parameters) -> (r: Self)
        ensures
            r.wf(),
            r.world() == (World {
                bodies: Seq::empty(),
                links: Seq::empty(),
                order: Seq::empty(),
                params: parameters.normalized_spec(),
            }),
            r.node_payloads() == Seq::<Option<NodeUserData>>::empty(),
            r.edge_payloads() == Seq::<Option<EdgeUserData>>::empty(),
    {
        let r = Self {
            nodes: Vec::new(),
            edges: Vec::new(),
            active: Vec::new(),
            parameters: parameters.normalized(),
        };
        assert(r.world().bodies =~= Seq::empty());
        assert(r.world().links =~= Seq::empty());
        assert(r.world().order =~= Seq::empty());
        assert(r.node_payloads() =~= Seq::empty());
        assert(r.edge_payloads() =~= Seq::empty());
        r
    }

    /// The parameters in force.
    pub fn parameters(&self) -> (r: &Parameters)
        ensures
            *r == self.world().params,
    {
        &self.parameters
    }

    /// The number of nodes.
    pub fn node_count(&self) -> (r: usize)
        ensures
            r == self.world().order.len(),
    {
        self.active.len()
    }

    /// Whether `id` names a node of the graph.
    pub fn contains_node(&self, id: NodeId) -> (r: bool)
        ensures
            r == self.world().live(id),
    {
        id.slot < self.nodes.len() && self.nodes[id.slot].is_some()
    }

    /// The node that `id` names, if it is part of the graph.
    pub fn node(&self, id: NodeId) -> (r: Option<&Node<NodeUserData>>)
        ensures
            r is Some <==> self.world().live(id),
            r is Some ==> r->0.body() == self.world().body(id) && Some(r->0.payload())
                == self.node_payloads()[id.slot as int],
            r is Some && self.wf() ==> r->0.id_spec() == Some(id),
    {
        if id.slot < self.nodes.len() {
            self.nodes[id.slot].as_ref()
        } else {
            None
        }
    }

    /// Adds a node at rest at the position that `data` gives, brought
    /// into range, and makes it the last of the active nodes.
    pub fn add_node(&mut self, data: NodeData<NodeUserData>) -> (id: NodeId)
        requires
            old(self).wf(),
        ensures
            final(self).wf(),
            id.slot == old(self).world().bodies.len(),
            final(self).world() == old(self).world().with_node(data.resting()),
            final(self).node_payloads() == old(self).node_payloads().push(Some(data.user_data)),
            final(self).edge_payloads() == old(self).edge_payloads(),
    {
        let id = NodeId { slot: self.nodes.len() };
        let mut node = Node::new(data);
        node.register(id);
        self.nodes.push(Some(node));
        self.active.push(id);
        proof {
            let w0 = old(self).world();
            let w1 = self.world();
            assert(w1.bodies =~= w0.bodies.push(Some(data.resting())));
            assert(w1.links =~= w0.links);
            assert(self.node_payloads() =~= old(self).node_payloads().push(Some(data.user_data)));
            assert(self.edge_payloads() =~= old(self).edge_payloads());
            w0.lemma_node_added(data.resting());
        }
        id
    }

    /// The number of edges.
    pub fn edge_count(&self) -> (r: usize)
        ensures
            r == self.world().edge_total(),
    {
        let mut total: usize = 0;
        let mut k: usize = 0;
        while k < self.edges.len()
            invariant
                k <= self.edges.len(),
                total <= k,
                total == self.world().edges_before(k as int),
            decreases self.edges.len() - k,
        {
            if self.edges[k].is_some() {
                total = total + 1;
            }
            k = k + 1;
        }
        total
    }

    /// Whether `id` names an edge of the graph.
    pub fn contains_edge(&self, id: EdgeId) -> (r: bool)
        ensures
            r == self.world().live_edge(id.slot as int),
    {
        id.slot < self.edges.len() && self.edges[id.slot].is_some()
    }

    /// Adds an edge between two nodes of the graph.
    pub fn add_edge(&mut self, node1: NodeId, node2: NodeId, data: EdgeUserData) -> (id: EdgeId)
        requires
            old(self).wf(),
            old(self).world().live(node1),
            old(self).world().live(node2),
        ensures
            final(self).wf(),
            id.slot == old(self).world().links.len(),
            final(self).world() == old(self).world().with_edge(node1, node2),
            final(self).node_payloads() == old(self).node_payloads(),
            final(self).edge_payloads() == old(self).edge_payloads().push(Some(data)),
    {
        let id = EdgeId { slot: self.edges.len() };
        self.edges.push(Some(Edge { a: node1, b: node2, data }));
        proof {
            let w0 = old(self).world();
            let w1 = self.world();
            assert(w1.bodies =~= w0.bodies);
            assert(w1.links =~= w0.links.push(Some((node1, node2))));
            assert(self.node_payloads() =~= old(self).node_payloads());
            assert(self.edge_payloads() =~= old(self).edge_payloads().push(Some(data)));
            assert(self.nodes@ == old(self).nodes@);
            w0.lemma_edge_added(node1, node2);
        }
        id
    }

    /// Removes an edge. An identifier that names no edge changes nothing.
    pub fn remove_edge(&mut self, id: EdgeId)
        requires
            old(self).wf(),
        ensures
            final(self).wf(),
            final(self).world() == old(self).world().without_edge(id.slot as int),
            final(self).node_payloads() == old(self).node_payloads(),
            old(self).world().live_edge(id.slot as int) ==> final(self).edge_payloads() == old(
                self,
            ).edge_payloads().update(id.slot as int, None),
            !old(self).world().live_edge(id.slot as int) ==> final(self).edge_payloads() == old(
                self,
            ).edge_payloads(),
    {
        if id.slot < self.edges.len() && self.edges[id.slot].is_some() {
            self.edges[id.slot] = None;
            proof {
                let w0 = old(self).world();
                let w1 = self.world();
                assert(w1.bodies =~= w0.bodies);
                assert(w1.links =~= w0.links.update(id.slot as int, None));
                assert(self.node_payloads() =~= old(self).node_payloads());
                assert(self.edge_payloads() =~= old(self).edge_payloads().update(
                    id.slot as int,
                    None,
                ));
                assert(self.nodes@ == old(self).nodes@);
                w0.lemma_edge_removed(id.slot as int);
            }
        }
    }

    /// Removes a node and the edges at it. An identifier that names no
    /// node changes nothing.
    pub fn remove_node(&mut self, id: NodeId)
        requires
            old(self).wf(),
        ensures
            final(self).wf(),
            final(self).world() == old(self).world().without_node(id),
            old(self).world().live(id) ==> final(self).node_payloads() == old(
                self,
            ).node_payloads().update(id.slot as int, None),
            !old(self).world().live(id) ==> final(self).node_payloads() == old(self).node_payloads(),
            final(self).edge_payloads() == Seq::new(
                old(self).edge_payloads().len(),
                |e: int|
                    if old(self).world().without_node(id).live_edge(e) {
                        old(self).edge_payloads()[e]
                    } else {
                        None
                    },
            ),
    {
        if !(id.slot < self.nodes.len() && self.nodes[id.slot].is_some()) {
            assert(self.edge_payloads() =~= Seq::new(
                self.edge_payloads().len(),
                |e: int|
                    if self.world().without_node(id).live_edge(e) {
                        self.edge_payloads()[e]
                    } else {
                        None
                    },
            ));
            return ;
        }
        let ghost w0 = self.world();
        let mut k: usize = 0;
        while k < self.active.len() && self.active[k].slot != id.slot
            invariant
                self.active@ == w0.order,
                k <= self.active.len(),
                forall|j: int| 0 <= j < k ==> w0.order[j] != id,
            decreases self.active.len() - k,
        {
            k = k + 1;
        }
        proof {
            assert(w0.live(id));
            assert(w0.order.contains(id));
            assert(k < w0.order.len());
            assert(w0.order[k as int] == id);
            assert(w0.position(id) == k);
        }
        self.active.remove(k);
        self.nodes[id.slot] = None;
        let mut e: usize = 0;
        while e < self.edges.len()
            invariant
                e <= self.edges.len(),
                self.edges@.len() == old(self).edges@.len(),
                self.nodes@ == old(self).nodes@.update(id.slot as int, None),
                self.active@ == w0.order.remove(k as int),
                self.parameters == old(self).parameters,
                w0 == old(self).world(),
                forall|j: int|
                    0 <= j < e ==> #[trigger] self.edges@[j] == (if w0.touches(j, id) {
                        None
                    } else {
                        old(self).edges@[j]
                    }),
                forall|j: int| e <= j < self.edges@.len() ==> self.edges@[j] == old(self).edges@[j],
            decreases self.edges.len() - e,
        {
            let touches: bool = match &self.edges[e] {
                Some(edge) => edge.a.slot == id.slot || edge.b.slot == id.slot,
                None => false,
            };
            if touches {
                self.edges[e] = None;
            }
            e = e + 1;
        }
        proof {
            let w1 = self.world();
            let goal = w0.without_node(id);
            assert(w1.bodies =~= goal.bodies);
            assert(w1.links =~= goal.links);
            assert(w1.order =~= goal.order);
            assert(self.node_payloads() =~= old(self).node_payloads().update(id.slot as int, None));
            assert(self.edge_payloads() =~= Seq::new(
                old(self).edge_payloads().len(),
                |e: int|
                    if goal.live_edge(e) {
                        old(self).edge_payloads()[e]
                    } else {
                        None
                    },
            ));
            w0.lemma_node_removed(id);
        }
    }

    /// The identifiers of the nodes, in the order of a step.
    pub fn node_ids(&self) -> (r: Vec<NodeId>)
        ensures
            r@ == self.world().order,
    {
        self.active.clone()
    }

    /// The position of a node of the graph.
    fn position_of(&self, id: NodeId) -> (r: Vec2)
        requires
            self.world().live(id),
        ensures
            r == self.world().body(id).position(),
    {
        match &self.nodes[id.slot] {
            Some(node) => Vec2 { x: node.x(), y: node.y() },
            None => Vec2 { x: 0, y: 0 },
        }
    }

    /// The end nodes of the edge in slot `e`, if there is one.
    fn ends_of(&self, e: usize) -> (r: Option<(NodeId, NodeId)>)
        requires
            e < self.world().links.len(),
        ensures
            r == self.world().links[e as int],
    {
        match &self.edges[e] {
            Some(edge) => Some((edge.a, edge.b)),
            None => None,
        }
    }

    /// Whether some edge joins `a` and `b`.
    pub fn linked(&self, a: NodeId, b: NodeId) -> (r: bool)
        ensures
            r == self.world().linked(a, b),
    {
        let mut e: usize = 0;
        while e < self.edges.len()
            invariant
                e <= self.edges.len(),
                forall|j: int| 0 <= j < e ==> !self.world().joins(j, a, b),
            decreases self.edges.len() - e,
        {
            match self.ends_of(e) {
                Some(ends) => {
                    if (ends.0.slot == a.slot && ends.1.slot == b.slot) || (ends.0.slot == b.slot
                        && ends.1.slot == a.slot) {
                        assert(self.world().joins(e as int, a, b));
                        return true;
                    }
                },
                None => {},
            }
            e = e + 1;
        }
        false
    }

    /// Whether two edges are reported as crossing, and where.
    fn report(
        first: (NodeId, NodeId),
        s: (Vec2, Vec2),
        second: (NodeId, NodeId),
        t: (Vec2, Vec2),
    ) -> (r: Option<IntersectionInfo>)
        ensures
            r is Some <==> World::reportable(first, s, second, t),
            r is Some ==> r->0 == IntersectionInfo::of(
                crossing_point(s.0, s.1, t.0, t.1),
                (first, second),
            ),
    {
        if first.0.slot == second.0.slot || first.0.slot == second.1.slot || first.1.slot
            == second.0.slot || first.1.slot == second.1.slot {
            return None;
        }
        if s.0.x == t.0.x && s.0.y == t.0.y && s.1.x == t.1.x && s.1.y == t.1.y {
            return None;
        }
        match get_line_intersection(&s, &t) {
            Some(at) => Some(IntersectionInfo::new(at, (first, second))),
            None => None,
        }
    }

    /// What the pair of edges in the slots `i` and `j` adds to the list
    /// of all crossings.
    fn edge_crossing(&self, i: usize, j: usize) -> (r: Option<IntersectionInfo>)
        requires
            self.wf(),
            i < self.world().links.len(),
            j < self.world().links.len(),
        ensures
            r is Some ==> self.world().pair_crossing(i as int, j as int) == seq![r->0],
            r is None ==> self.world().pair_crossing(i as int, j as int) == Seq::<
                IntersectionInfo,
            >::empty(),
    {
        let first = match self.ends_of(i) {
            Some(ends) => ends,
            None => { return None; },
        };
        let second = match self.ends_of(j) {
            Some(ends) => ends,
            None => { return None; },
        };
        proof {
            assert(self.world().live_edge(i as int));
            assert(self.world().live_edge(j as int));
        }
        let s = (self.position_of(first.0), self.position_of(first.1));
        let t = (self.position_of(second.0), self.position_of(second.1));
        Self::report(first, s, second, t)
    }

    /// All crossings of two edges: every pair of edges is tested once.
    /// Two edges with a common end are left out, and so are two edges
    /// drawn as the same segment.
    pub fn intersections(&self) -> (r: Vec<IntersectionInfo>)
        requires
            self.wf(),
        ensures
            r@ == self.world().crossings(),
    {
        let ghost w = self.world();
        let mut out: Vec<IntersectionInfo> = Vec::new();
        let n: usize = self.edges.len();
        let mut i: usize = 0;
        while i < n
            invariant
                self.wf(),
                w == self.world(),
                n == w.links.len(),
                i <= n,
                out@ + w.crossings_from(i as int, i + 1) == w.crossings(),
            decreases n - i,
        {
            let mut j: usize = i + 1;
            while j < n
                invariant
                    self.wf(),
                    w == self.world(),
                    n == w.links.len(),
                    i < n,
                    i + 1 <= j <= n,
                    out@ + w.crossings_from(i as int, j as int) == w.crossings(),
                decreases n - j,
            {
                let ghost before = out@;
                let found = self.edge_crossing(i, j);
                match found {
                    Some(crossing) => {
                        out.push(crossing);
                    },
                    None => {},
                }
                proof {
                    let here = w.pair_crossing(i as int, j as int);
                    let rest = w.crossings_from(i as int, j + 1);
                    assert(w.crossings_from(i as int, j as int) == here + rest);
                    assert(out@ =~= before + here);
                    assert((before + here) + rest =~= before + (here + rest));
                }
                j = j + 1;
            }
            assert(w.crossings_from(i as int, j as int) == w.crossings_from(i + 1, i + 2));
            i = i + 1;
        }
        assert(w.crossings_from(i as int, i + 1) =~= Seq::empty());
        assert(out@ + Seq::<IntersectionInfo>::empty() =~= out@);
        out
    }

    /// What the edge in slot `i` at node `n` and the edge in slot `j`
    /// away from it add to the list of the crossings around `n`.
    fn local_edge_crossing(&self, n: NodeId, i: usize, j: usize) -> (r: Option<IntersectionInfo>)
        requires
            self.wf(),
            self.world().live(n),
            i < self.world().links.len(),
            j < self.world().links.len(),
        ensures
            r is Some ==> self.world().local_pair_crossing(n, i as int, j as int) == seq![r->0],
            r is None ==> self.world().local_pair_crossing(n, i as int, j as int) == Seq::<
                IntersectionInfo,
            >::empty(),
    {
        let first = match self.ends_of(i) {
            Some(ends) => ends,
            None => { return None; },
        };
        let second = match self.ends_of(j) {
            Some(ends) => ends,
            None => { return None; },
        };
        proof {
            assert(self.world().live_edge(i as int));
            assert(self.world().live_edge(j as int));
        }
        if first.0.slot != n.slot && first.1.slot != n.slot {
            return None;
        }
        if second.0.slot == n.slot || second.1.slot == n.slot {
            return None;
        }
        let other: NodeId = if first.0.slot == n.slot {
            first.1
        } else {
            first.0
        };
        let s = (self.position_of(n), self.position_of(other));
        let t = (self.position_of(second.0), self.position_of(second.1));
        Self::report((n, other), s, second, t)
    }

    /// The crossings around one node: each edge at `n`, drawn from `n`,
    /// is tested against each edge that does not touch `n`. For an
    /// identifier that names no node the list is empty.
    pub fn neighbor_intersections(&self, n: NodeId) -> (r: Vec<IntersectionInfo>)
        requires
            self.wf(),
        ensures
            self.world().live(n) ==> r@ == self.world().local_crossings(n),
            !self.world().live(n) ==> r@ == Seq::<IntersectionInfo>::empty(),
    {
        let ghost w = self.world();
        let mut out: Vec<IntersectionInfo> = Vec::new();
        if !self.contains_node(n) {
            return out;
        }
        let count: usize = self.edges.len();
        let mut i: usize = 0;
        while i < count
            invariant
                self.wf(),
                w == self.world(),
                w.live(n),
                count == w.links.len(),
                i <= count,
                out@ + w.local_crossings_from(n, i as int, 0) == w.local_crossings(n),
            decreases count - i,
        {
            let mut j: usize = 0;
            while j < count
                invariant
                    self.wf(),
                    w == self.world(),
                    w.live(n),
                    count == w.links.len(),
                    i < count,
                    j <= count,
                    out@ + w.local_crossings_from(n, i as int, j as int) == w.local_crossings(n),
                decreases count - j,
            {
                let ghost before = out@;
                let found = self.local_edge_crossing(n, i, j);
                match found {
                    Some(crossing) => {
                        out.push(crossing);
                    },
                    None => {},
                }
                proof {
                    let here = w.local_pair_crossing(n, i as int, j as int);
                    let rest = w.local_crossings_from(n, i as int, j + 1);
                    assert(w.local_crossings_from(n, i as int, j as int) == here + rest);
                    assert(out@ =~= before + here);
                    assert((before + here) + rest =~= before + (here + rest));
                }
                j = j + 1;
            }
            assert(w.local_crossings_from(n, i as int, j as int) == w.local_crossings_from(
                n,
                i + 1,
                0,
            ));
            i = i + 1;
        }
        assert(w.local_crossings_from(n, i as int, 0) =~= Seq::empty());
        assert(out@ + Seq::<IntersectionInfo>::empty() =~= out@);
        out
    }

    /// The force of the three-band model under the parameters in force.
    pub fn calculate_force(&self, diff: Vec2, distance: i64, is_neighbor: bool) -> (f: Vec2)
        requires
            self.wf(),
        ensures
            f == force_spec(self.world().params, diff, distance as int, is_neighbor),
            f.bounded(),
    {
        banded_force(&self.parameters, diff, distance, is_neighbor)
    }

    /// The state of a node of the graph.
    fn state_of(&self, id: NodeId) -> (r: Body)
        requires
            self.world().live(id),
        ensures
            r == self.world().body(id),
    {
        match &self.nodes[id.slot] {
            Some(node) => node.state(),
            None => Body { x: 0, y: 0, vx: 0, vy: 0, ax: 0, ay: 0, mass: 0, is_anchor: true },
        }
    }

    /// Accumulates on `start`, the state of node `m`, the force of every
    /// other active node, up to the first one that lies on `m`.
    fn scan(&self, m: NodeId, start: Body) -> (r: (Body, bool))
        requires
            self.wf(),
            start.bounded(),
        ensures
            r == self.world().scan_pairs(m, 0, start),
            r.0.bounded(),
    {
        let ghost w = self.world();
        let mut b: Body = start;
        let mut k: usize = 0;
        while k < self.active.len()
            invariant
                self.wf(),
                w == self.world(),
                k <= self.active.len(),
                b.bounded(),
                w.scan_pairs(m, k as int, b) == w.scan_pairs(m, 0, start),
            decreases self.active.len() - k,
        {
            let n: NodeId = self.active[k];
            if n.slot != m.slot {
                assert(w.live(w.order[k as int]));
                let here = Vec2 { x: b.x, y: b.y };
                let diff = here.sub(self.position_of(n));
                let d: i64 = diff.length();
                if d < self.parameters.really_close_distance {
                    return (b, true);
                }
                let other: Body = self.state_of(n);
                let f = pair_force(&self.parameters, &b, &other, self.linked(m, n));
                b = b.accumulate(&self.parameters, f);
            }
            k = k + 1;
        }
        (b, false)
    }

    /// The first crossing of `list` that lies at least the coincidence
    /// distance away from `at`.
    fn find_escape(&self, list: &Vec<IntersectionInfo>, at: Vec2) -> (r: Option<IntersectionInfo>)
        ensures
            r == first_escape(list@, at, self.world().params.really_close_distance as int, 0),
    {
        let mut k: usize = 0;
        while k < list.len()
            invariant
                k <= list.len(),
                first_escape(list@, at, self.world().params.really_close_distance as int, k as int)
                    == first_escape(list@, at, self.world().params.really_close_distance as int, 0),
            decreases list.len() - k,
        {
            let crossing: IntersectionInfo = list[k];
            let point = Vec2 { x: crossing.x(), y: crossing.y() };
            if at.sub(point).length() >= self.parameters.really_close_distance {
                return Some(crossing);
            }
            k = k + 1;
        }
        None
    }

    /// The state of node `m` after its part of a step, and whether the
    /// step ends with it.
    fn step(&self, m: NodeId, dt: i64, draw: u16) -> (r: (Body, bool))
        requires
            self.wf(),
            self.world().live(m),
        ensures
            r == self.world().step_body(m, dt as int, draw as int),
            r.0.bounded(),
    {
        let b: Body = self.state_of(m);
        if b.is_anchor {
            return (b, false);
        }
        let here = Vec2 { x: b.x, y: b.y };
        let escape: Option<IntersectionInfo> = if b.is_stable() {
            let around = self.neighbor_intersections(m);
            self.find_escape(&around, here)
        } else {
            None
        };
        match escape {
            Some(crossing) => {
                let point = Vec2 { x: crossing.x(), y: crossing.y() };
                let diff = here.sub(point);
                let mut impulse = banded_force(&self.parameters, diff, diff.length(), false);
                impulse.mul_assign(self.parameters.escape_intersection_factor);
                (b.accumulate(&self.parameters, impulse).integrate(&self.parameters, dt), true)
            },
            None => {
                let scanned = self.scan(m, b);
                let moved = scanned.0.integrate(&self.parameters, dt);
                if scanned.1 {
                    (moved.displace(bounce(self.parameters.really_close_distance, draw)), true)
                } else {
                    (moved, false)
                }
            },
        }
    }

    /// Replaces the state of a node of the graph.
    fn put_body(&mut self, id: NodeId, b: Body)
        requires
            old(self).wf(),
            old(self).world().live(id),
            b.bounded(),
        ensures
            final(self).wf(),
            final(self).world() == old(self).world().with_body(id, b),
            final(self).node_payloads() == old(self).node_payloads(),
            final(self).edge_payloads() == old(self).edge_payloads(),
            forall|n: NodeId|
                old(self).world().live(n) && n.slot != id.slot ==> final(self).node_at(n) == old(
                    self,
                ).node_at(n),
    {
        match &mut self.nodes[id.slot] {
            Some(node) => {
                node.set_state(b);
            },
            None => {},
        }
        proof {
            let w0 = old(self).world();
            let w1 = self.world();
            assert(w1.bodies =~= w0.with_body(id, b).bodies);
            assert(w1.links =~= w0.links);
            assert(self.node_payloads() =~= old(self).node_payloads());
            assert(self.edge_payloads() =~= old(self).edge_payloads());
            w0.lemma_with_body(id, b);
        }
    }

    /// One step of `dt` for a given random draw: `draw / 65536` is the
    /// random fraction that a bounce uses.
    pub fn update_with(&mut self, dt: i64, draw: u16)
        requires
            old(self).wf(),
        ensures
            final(self).wf(),
            final(self).world() == old(self).world().update_spec(dt as int, draw as int),
            final(self).node_payloads() == old(self).node_payloads(),
            final(self).edge_payloads() == old(self).edge_payloads(),
    {
        let ghost start = self.world();
        let mut k: usize = 0;
        while k < self.active.len()
            invariant
                self.wf(),
                k <= self.active.len(),
                start == old(self).world(),
                self.world().links == start.links,
                self.world().order == start.order,
                self.world().params == start.params,
                self.world().run(k as int, dt as int, draw as int) == start.run(
                    0,
                    dt as int,
                    draw as int,
                ),
                self.node_payloads() == old(self).node_payloads(),
                self.edge_payloads() == old(self).edge_payloads(),
            decreases self.active.len() - k,
        {
            let m: NodeId = self.active[k];
            let ghost before = self.world();
            assert(before.live(before.order[k as int]));
            let stepped = self.step(m, dt, draw);
            self.put_body(m, stepped.0);
            if stepped.1 {
                proof {
                    let w1 = self.world();
                    assert(w1.bodies == start.run(0, dt as int, draw as int));
                    assert(w1 == old(self).world().update_spec(dt as int, draw as int));
                }
                return ;
            }
            k = k + 1;
        }
        proof {
            let w1 = self.world();
            assert(w1.bodies == start.run(0, dt as int, draw as int));
            assert(w1 == old(self).world().update_spec(dt as int, draw as int));
        }
    }

    /// The node in slot `id.slot`, for an identifier that names one.
    pub closed spec fn node_at(&self, id: NodeId) -> Node<NodeUserData> {
        self.nodes@[id.slot as int]->0
    }

    /// The payload of the edge in slot `e`, for a slot that holds one.
    pub closed spec fn edge_data_at(&self, e: int) -> EdgeUserData {
        self.edges@[e]->0.data
    }

    /// What `node_at` gives is the node that the model and the payloads describe.
    pub proof fn lemma_node_at(&self, id: NodeId)
        requires
            self.wf(),
            self.world().live(id),
        ensures
            self.node_at(id).body() == self.world().body(id),
            self.node_at(id).id_spec() == Some(id),
            Some(self.node_at(id).payload()) == self.node_payloads()[id.slot as int],
    {
    }

    /// Calls `f` once for each node, in the order of a step, and returns
    /// what `f` returned, in that order.
    pub fn visit_nodes<R, F: Fn(NodeId, &Node<NodeUserData>) -> R>(&self, f: F) -> (r: Vec<R>)
        requires
            self.wf(),
            forall|k: int|
                0 <= k < self.world().order.len() ==> f.requires(
                    (#[trigger] self.world().order[k], &self.node_at(self.world().order[k])),
                ),
        ensures
            r@.len() == self.world().order.len(),
            forall|k: int|
                0 <= k < r@.len() ==> f.ensures(
                    (self.world().order[k], &self.node_at(self.world().order[k])),
                    #[trigger] r@[k],
                ),
    {
        let mut out: Vec<R> = Vec::new();
        let mut k: usize = 0;
        while k < self.active.len()
            invariant
                self.wf(),
                k <= self.active.len(),
                out@.len() == k,
                forall|k: int|
                    0 <= k < self.world().order.len() ==> f.requires(
                        (#[trigger] self.world().order[k], &self.node_at(self.world().order[k])),
                    ),
                forall|j: int|
                    0 <= j < k ==> f.ensures(
                        (self.world().order[j], &self.node_at(self.world().order[j])),
                        #[trigger] out@[j],
                    ),
            decreases self.active.len() - k,
        {
            let id: NodeId = self.active[k];
            assert(self.world().live(self.world().order[k as int]));
            match &self.nodes[id.slot] {
                Some(node) => {
                    out.push(f(id, node));
                },
                None => {},
            }
            k = k + 1;
        }
        out
    }

    /// Calls `f` once for each edge, in the order of the slots, with the
    /// two end nodes and the payload of the edge, and returns what `f`
    /// returned, in that order.
    pub fn visit_edges<
        R,
        F: Fn(EdgeId, &Node<NodeUserData>, &Node<NodeUserData>, &EdgeUserData) -> R,
    >(&self, f: F) -> (r: Vec<R>)
        requires
            self.wf(),
            forall|e: int| #[trigger]
                self.world().live_edge(e) ==> f.requires(
                    (
                        EdgeId { slot: e as usize },
                        &self.node_at(self.world().ends(e).0),
                        &self.node_at(self.world().ends(e).1),
                        &self.edge_data_at(e),
                    ),
                ),
        ensures
            r@.len() == self.world().edge_slots().len(),
            forall|k: int|
                0 <= k < r@.len() ==> f.ensures(
                    (
                        EdgeId { slot: self.world().edge_slots()[k] as usize },
                        &self.node_at(self.world().ends(self.world().edge_slots()[k]).0),
                        &self.node_at(self.world().ends(self.world().edge_slots()[k]).1),
                        &self.edge_data_at(self.world().edge_slots()[k]),
                    ),
                    #[trigger] r@[k],
                ),
    {
        let ghost w = self.world();
        let mut out: Vec<R> = Vec::new();
        let mut e: usize = 0;
        while e < self.edges.len()
            invariant
                self.wf(),
                w == self.world(),
                e <= self.edges.len(),
                out@.len() == w.edge_slots_before(e as int).len(),
                forall|e: int| #[trigger]
                    w.live_edge(e) ==> f.requires(
                        (
                            EdgeId { slot: e as usize },
                            &self.node_at(w.ends(e).0),
                            &self.node_at(w.ends(e).1),
                            &self.edge_data_at(e),
                        ),
                    ),
                forall|k: int|
                    0 <= k < out@.len() ==> f.ensures(
                        (
                            EdgeId { slot: w.edge_slots_before(e as int)[k] as usize },
                            &self.node_at(w.ends(w.edge_slots_before(e as int)[k]).0),
                            &self.node_at(w.ends(w.edge_slots_before(e as int)[k]).1),
                            &self.edge_data_at(w.edge_slots_before(e as int)[k]),
                        ),
                        #[trigger] out@[k],
                    ),
            decreases self.edges.len() - e,
        {
            match &self.edges[e] {
                Some(edge) => {
                    assert(w.live_edge(e as int));
                    assert(w.live(w.ends(e as int).0));
                    assert(w.live(w.ends(e as int).1));
                    match (&self.nodes[edge.a.slot], &self.nodes[edge.b.slot]) {
                        (Some(from), Some(to)) => {
                            out.push(f(EdgeId { slot: e }, from, to, &edge.data));
                        },
                        _ => {},
                    }
                },
                None => {},
            }
            e = e + 1;
        }
        out
    }

    /// The ends and the payload of the edge that `id` names, if it is
    /// part of the graph.
    pub fn edge(&self, id: EdgeId) -> (r: Option<(NodeId, NodeId, &EdgeUserData)>)
        ensures
            r is Some <==> self.world().live_edge(id.slot as int),
            r is Some ==> ({
                let found = r->0;
                &&& (found.0, found.1) == self.world().ends(id.slot as int)
                &&& *found.2 == self.edge_data_at(id.slot as int)
            }),
    {
        if id.slot < self.edges.len() {
            match &self.edges[id.slot] {
                Some(edge) => Some((edge.a, edge.b, &edge.data)),
                None => None,
            }
        } else {
            None
        }
    }

    /// Calls `f` once for each crossing of two edges, in the order of
    /// `intersections`, and returns what `f` returned, in that order.
    pub fn visit_intersections<R, F: Fn(IntersectionInfo) -> R>(&self, f: F) -> (r: Vec<R>)
        requires
            self.wf(),
            forall|k: int|
                0 <= k < self.world().crossings().len() ==> f.requires(
                    (#[trigger] self.world().crossings()[k],),
                ),
        ensures
            r@.len() == self.world().crossings().len(),
            forall|k: int|
                0 <= k < r@.len() ==> f.ensures((self.world().crossings()[k],), #[trigger] r@[k]),
    {
        let list = self.intersections();
        Self::visit_list(&list, f)
    }

    /// Calls `f` once for each crossing around the node `n`, in the order
    /// of `neighbor_intersections`, and returns what `f` returned, in
    /// that order. For an identifier that names no node, `f` is not called.
    pub fn visit_neighbor_intersections<R, F: Fn(IntersectionInfo) -> R>(
        &self,
        n: NodeId,
        f: F,
    ) -> (r: Vec<R>)
        requires
            self.wf(),
            forall|k: int|
                0 <= k < self.world().local_crossings(n).len() ==> f.requires(
                    (#[trigger] self.world().local_crossings(n)[k],),
                ),
        ensures
            self.world().live(n) ==> r@.len() == self.world().local_crossings(n).len(),
            self.world().live(n) ==> forall|k: int|
                0 <= k < r@.len() ==> f.ensures(
                    (self.world().local_crossings(n)[k],),
                    #[trigger] r@[k],
                ),
            !self.world().live(n) ==> r@.len() == 0,
    {
        let list = self.neighbor_intersections(n);
        Self::visit_list(&list, f)
    }

    /// Calls `f` once for each record of `list`, in order, and returns
    /// what `f` returned, in that order.
    fn visit_list<R, F: Fn(IntersectionInfo) -> R>(list: &Vec<IntersectionInfo>, f: F) -> (r: Vec<R>)
        requires
            forall|k: int| 0 <= k < list@.len() ==> f.requires((#[trigger] list@[k],)),
        ensures
            r@.len() == list@.len(),
            forall|k: int| 0 <= k < r@.len() ==> f.ensures((list@[k],), #[trigger] r@[k]),
    {
        let mut out: Vec<R> = Vec::new();
        let mut k: usize = 0;
        while k < list.len()
            invariant
                k <= list.len(),
                out@.len() == k,
                forall|k: int| 0 <= k < list@.len() ==> f.requires((#[trigger] list@[k],)),
                forall|j: int| 0 <= j < k ==> f.ensures((list@[j],), #[trigger] out@[j]),
            decreases list.len() - k,
        {
            out.push(f(list[k]));
            k = k + 1;
        }
        out
    }

    /// Puts a node at `to`, brought into range: the override of a drag.
    /// Velocity and acceleration stay. An identifier that names no node
    /// changes nothing.
    pub fn set_position(&mut self, id: NodeId, to: Vec2)
        requires
            old(self).wf(),
        ensures
            final(self).wf(),
            old(self).world().live(id) ==> final(self).world() == old(self).world().with_body(
                id,
                old(self).world().body(id).moved_to(to),
            ),
            !old(self).world().live(id) ==> final(self).world() == old(self).world(),
            final(self).node_payloads() == old(self).node_payloads(),
            final(self).edge_payloads() == old(self).edge_payloads(),
            forall|n: NodeId|
                old(self).world().live(n) && n.slot != id.slot ==> final(self).node_at(n) == old(
                    self,
                ).node_at(n),
    {
        if self.contains_node(id) {
            let b: Body = self.state_of(id);
            let moved = Body { x: saturate(to.x as i128), y: saturate(to.y as i128), ..b };
            self.put_body(id, moved);
        }
    }

    /// The state that a node takes when the caller answers `answer` for
    /// it: the position given, or the state as it was.
    pub open spec fn answered(b: Body, answer: Option<Vec2>) -> Body {
        match answer {
            Some(to) => b.moved_to(to),
            None => b,
        }
    }

    /// Whether a node went from `before` to `after` by what `f` answered
    /// when it was shown the node.
    pub open spec fn visited<F: Fn(NodeId, &Node<NodeUserData>) -> Option<Vec2>>(
        f: F,
        id: NodeId,
        node: Node<NodeUserData>,
        before: Body,
        after: Body,
    ) -> bool {
        exists|answer: Option<Vec2>| #[trigger]
            f.ensures((id, &node), answer) && after == Self::answered(before, answer)
    }

    /// Calls `f` once for each node, in the order of a step, and puts the
    /// node at the position that `f` returns for it, if it returns one.
    pub fn visit_nodes_mut<F: Fn(NodeId, &Node<NodeUserData>) -> Option<Vec2>>(&mut self, f: F)
        requires
            old(self).wf(),
            forall|k: int|
                0 <= k < old(self).world().order.len() ==> f.requires(
                    (#[trigger] old(self).world().order[k], &old(self).node_at(old(self).world().order[k])),
                ),
        ensures
            final(self).wf(),
            final(self).world().links == old(self).world().links,
            final(self).world().order == old(self).world().order,
            final(self).world().params == old(self).world().params,
            final(self).world().bodies.len() == old(self).world().bodies.len(),
            final(self).node_payloads() == old(self).node_payloads(),
            final(self).edge_payloads() == old(self).edge_payloads(),
            forall|k: int|
                0 <= k < old(self).world().order.len() ==> Self::visited(
                    f,
                    #[trigger] old(self).world().order[k],
                    old(self).node_at(old(self).world().order[k]),
                    old(self).world().body(old(self).world().order[k]),
                    final(self).world().body(old(self).world().order[k]),
                ),
    {
        let ghost w0 = self.world();
        let mut k: usize = 0;
        while k < self.active.len()
            invariant
                self.wf(),
                w0 == old(self).world(),
                old(self).wf(),
                k <= self.active.len(),
                self.world().links == w0.links,
                self.world().order == w0.order,
                self.world().params == w0.params,
                self.world().bodies.len() == w0.bodies.len(),
                self.node_payloads() == old(self).node_payloads(),
                self.edge_payloads() == old(self).edge_payloads(),
                forall|j: int|
                    0 <= j < w0.order.len() ==> f.requires(
                        (#[trigger] w0.order[j], &old(self).node_at(w0.order[j])),
                    ),
                forall|j: int|
                    k <= j < w0.order.len() ==> self.node_at(#[trigger] w0.order[j]) == old(
                        self,
                    ).node_at(w0.order[j]),
                forall|j: int|
                    0 <= j < k ==> Self::visited(
                        f,
                        #[trigger] w0.order[j],
                        old(self).node_at(w0.order[j]),
                        w0.body(w0.order[j]),
                        self.world().body(w0.order[j]),
                    ),
            decreases self.active.len() - k,
        {
            let id: NodeId = self.active[k];
            let ghost before = self.world();
            assert(w0.order[k as int] == id);
            assert(before.live(before.order[k as int]));
            assert(w0.live(w0.order[k as int]));
            let ghost seen = self.node_at(id);
            assert(seen == old(self).node_at(w0.order[k as int]));
            let answer: Option<Vec2> = match &self.nodes[id.slot] {
                Some(node) => f(id, node),
                None => None,
            };
            assert(f.ensures((id, &seen), answer));
            proof {
                old(self).lemma_node_at(id);
                self.lemma_node_at(id);
            }
            match answer {
                Some(to) => {
                    self.set_position(id, to);
                },
                None => {},
            }
            proof {
                let now = self.world();
                assert(now.body(id) == Self::answered(w0.body(id), answer));
                assert forall|j: int| 0 <= j < k + 1 implies Self::visited(
                    f,
                    #[trigger] w0.order[j],
                    old(self).node_at(w0.order[j]),
                    w0.body(w0.order[j]),
                    now.body(w0.order[j]),
                ) by {
                    if j < k {
                        assert(w0.order[j] != w0.order[k as int]);
                        assert(w0.order[j].slot != id.slot);
                        assert(now.body(w0.order[j]) == before.body(w0.order[j]));
                    }
                }
                assert forall|j: int| k + 1 <= j < w0.order.len() implies self.node_at(
                    #[trigger] w0.order[j],
                ) == old(self).node_at(w0.order[j]) by {
                    assert(w0.order[k as int] != w0.order[j]);
                    assert(w0.order[j].slot != id.slot);
                    assert(before.live(before.order[j]));
                }
            }
            k = k + 1;
        }
    }

    /// One step of `dt`, with a fresh random draw for the bounce of two
    /// coincident nodes.
    pub fn update(&mut self, dt: i64)
        requires
            old(self).wf(),
        ensures
            final(self).wf(),
            exists|draw: u16|
                final(self).world() == #[trigger] old(self).world().update_spec(
                    dt as int,
                    draw as int,
                ),
            final(self).node_payloads() == old(self).node_payloads(),
            final(self).edge_payloads() == old(self).edge_payloads(),
    {
        let draw: u16 = random_draw();
        self.update_with(dt, draw);
    }
}

} // verus!

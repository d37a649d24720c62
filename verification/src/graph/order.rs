use vstd::prelude::*;
use crate::store::EntityId;
use crate::store::entity::count_true;
use crate::store::entity::lemma_count_true_update;
use super::NodeGraph;
use super::node::NodeHeader;
use super::port::PortOwner;
use super::connection::ConnectionEndpoints;

verus! {

/// Position of `x` in `ids`, if it occurs there.
fn position_of(ids: &Vec<EntityId>, x: EntityId) -> (r: Option<usize>)
    ensures
        match r {
            Some(i) => i < ids@.len() && ids@[i as int] == x,
            None => !ids@.contains(x),
        },
{
    let mut i: usize = 0;
    while i < ids.len()
        invariant
            i <= ids@.len(),
            forall|k: int| 0 <= k < i ==> ids@[k] != x,
        decreases ids.len() - i,
    {
        if ids[i] == x {
            return Some(i);
        }
        i = i + 1;
    }
    None
}

/// Whether every dependency edge into position `k` starts at a placed position.
fn all_sources_placed(edges: &Vec<(usize, usize)>, placed: &Vec<bool>, k: usize) -> (r: bool)
    requires
        forall|e: int| 0 <= e < edges@.len() ==> (#[trigger] edges@[e]).0 < placed@.len(),
    ensures
        r <==> forall|e: int| 0 <= e < edges@.len() && (#[trigger] edges@[e]).1 == k ==> placed@[edges@[e].0 as int],
{
    let mut e: usize = 0;
    while e < edges.len()
        invariant
            e <= edges@.len(),
            forall|f: int| 0 <= f < edges@.len() ==> (#[trigger] edges@[f]).0 < placed@.len(),
            forall|f: int| 0 <= f < e && (#[trigger] edges@[f]).1 == k ==> placed@[edges@[f].0 as int],
        decreases edges.len() - e,
    {
        let (a, b) = edges[e];
        if b == k && !placed[a] {
            return false;
        }
        e = e + 1;
    }
    true
}

/// `rest` holds exactly the nodes at the positions that are not placed.
#[verifier::opaque]
spec fn rest_ok(nodes: Seq<EntityId>, placed: Seq<bool>, rest: Seq<EntityId>) -> bool {
    &&& forall|x: EntityId| #[trigger] rest.contains(x) ==> exists|j: int|
        0 <= j < nodes.len() && !placed[j] && nodes[j] == x
    &&& forall|j: int| 0 <= j < nodes.len() && !placed[j] ==> rest.contains(#[trigger] nodes[j])
}

/// The nodes at the positions that are not placed, in position order.
fn unplaced(nodes: &Vec<EntityId>, placed: &Vec<bool>) -> (rest: Vec<EntityId>)
    requires
        nodes@.no_duplicates(),
        placed@.len() == nodes@.len(),
    ensures
        rest@.no_duplicates(),
        rest_ok(nodes@, placed@, rest@),
{
    let n = nodes.len();
    let mut rest: Vec<EntityId> = Vec::new();
    let mut k: usize = 0;
    while k < n
        invariant
            n == nodes@.len(),
            placed@.len() == n,
            k <= n,
            nodes@.no_duplicates(),
            rest@.no_duplicates(),
            forall|x: EntityId| #[trigger] rest@.contains(x) ==> exists|j: int|
                0 <= j < k && !placed@[j] && nodes@[j] == x,
            forall|j: int| 0 <= j < k && !placed@[j] ==> rest@.contains(#[trigger] nodes@[j]),
        decreases n - k,
    {
        if !placed[k] {
            proof {
                assert(!rest@.contains(nodes@[k as int])) by {
                    if rest@.contains(nodes@[k as int]) {
                        let j = choose|j: int| 0 <= j < k && !placed@[j] && nodes@[j] == nodes@[k as int];
                    }
                }
            }
            let ghost r0 = rest@;
            rest.push(nodes[k]);
            proof {
                assert forall|x: EntityId| #[trigger] rest@.contains(x) implies exists|j: int|
                    0 <= j < k + 1 && !placed@[j] && nodes@[j] == x by {
                    if x != nodes@[k as int] {
                        let i = choose|i: int| 0 <= i < rest@.len() && rest@[i] == x;
                        assert(r0[i] == x);
                        assert(r0.contains(x));
                    }
                }
                assert forall|j: int| 0 <= j < k + 1 && !placed@[j] implies rest@.contains(#[trigger] nodes@[j]) by {
                    if j < k {
                        assert(r0.contains(nodes@[j]));
                        let i = choose|i: int| 0 <= i < r0.len() && r0[i] == nodes@[j];
                        assert(rest@[i] == nodes@[j]);
                    } else {
                        assert(rest@[r0.len() as int] == nodes@[j]);
                    }
                }
            }
        }
        k = k + 1;
    }
    proof {
        reveal(rest_ok);
    }
    rest
}

proof fn lemma_count_true_zero(s: Seq<bool>)
    requires
        forall|k: int| 0 <= k < s.len() ==> !s[k],
    ensures
        count_true(s) == 0,
    decreases s.len(),
{
    if s.len() > 0 {
        lemma_count_true_zero(s.drop_last());
    }
}

proof fn lemma_count_true_bound(s: Seq<bool>)
    ensures
        count_true(s) <= s.len(),
    decreases s.len(),
{
    if s.len() > 0 {
        lemma_count_true_bound(s.drop_last());
    }
}

impl<F: Copy> NodeGraph<F> {
    /// Whether a connection runs from a port of node `u` to a port of node
    /// `v`, two distinct nodes: `v` then depends on `u`.
    #[verifier::opaque]
    pub open spec fn feeds(&self, u: EntityId, v: EntityId) -> bool {
        &&& self.node_set().contains(u)
        &&& self.node_set().contains(v)
        &&& u != v
        &&& exists|c: EntityId|
            #[trigger] self.endpoints(c) matches Some(ep) && self.owner_of(ep.source_port) == Some(u)
                && self.owner_of(ep.target_port) == Some(v)
    }

    /// The pair of distinct nodes whose ports a connection with endpoints
    /// `ep` joins, if it joins two.
    pub open spec fn link_of(&self, ep: ConnectionEndpoints) -> Option<(EntityId, EntityId)> {
        match (self.owner_of(ep.source_port), self.owner_of(ep.target_port)) {
            (Some(u), Some(v)) => if self.node_set().contains(u) && self.node_set().contains(v) && u != v {
                Some((u, v))
            } else {
                None
            },
            _ => None,
        }
    }

    /// Every node of the graph exactly once, each after all the nodes it
    /// depends on.
    pub open spec fn is_topological_order(&self, s: Seq<EntityId>) -> bool {
        &&& s.no_duplicates()
        &&& forall|x: EntityId| #[trigger] s.contains(x) <==> self.node_set().contains(x)
        &&& forall|i: int, j: int|
            0 <= i < s.len() && 0 <= j < s.len() && #[trigger] self.feeds(s[i], s[j]) ==> i < j
    }

    /// Every member of `t` is a node that depends on another member of `t`:
    /// no member of `t` can come first in an evaluation order.
    pub open spec fn all_blocked(&self, t: Set<EntityId>) -> bool {
        forall|v: EntityId|
            #[trigger] t.contains(v) ==> self.node_set().contains(v) && exists|u: EntityId|
                t.contains(u) && #[trigger] self.feeds(u, v)
    }

    /// Whether the dependencies between nodes run in a circle somewhere.
    #[verifier::opaque]
    pub open spec fn has_dependency_cycle(&self) -> bool {
        exists|t: Set<EntityId>| #[trigger] self.all_blocked(t) && !t.is_empty()
    }

    /// A sequence that holds every dependency of each of its members before
    /// that member shares no element with a blocked set.
    proof fn lemma_closed_prefix_avoids_blocked(&self, s: Seq<EntityId>, t: Set<EntityId>)
        requires
            forall|k: int, u: EntityId| 0 <= k < s.len() && #[trigger] self.feeds(u, s[k]) ==> exists|j: int|
                0 <= j < k && s[j] == u,
            self.all_blocked(t),
        ensures
            forall|k: int| 0 <= k < s.len() ==> !t.contains(#[trigger] s[k]),
        decreases s.len(),
    {
        if s.len() > 0 {
            let p = s.drop_last();
            assert forall|k: int, u: EntityId| 0 <= k < p.len() && #[trigger] self.feeds(u, p[k]) implies exists|j: int|
                0 <= j < k && p[j] == u by {
                assert(s[k] == p[k]);
                let j = choose|j: int| 0 <= j < k && s[j] == u;
                assert(p[j] == u);
            }
            self.lemma_closed_prefix_avoids_blocked(p, t);
            let last = s.len() - 1;
            if t.contains(s[last]) {
                let u = choose|u: EntityId| t.contains(u) && #[trigger] self.feeds(u, s[last]);
                let j = choose|j: int| 0 <= j < last && s[j] == u;
                assert(p[j] == s[j]);
                assert(!t.contains(p[j]));
            }
            assert forall|k: int| 0 <= k < s.len() implies !t.contains(#[trigger] s[k]) by {
                if k < last {
                    assert(s[k] == p[k]);
                }
            }
        }
    }

    /// A graph whose nodes have an evaluation order has no dependency cycle.
    pub proof fn lemma_order_excludes_cycle(&self, s: Seq<EntityId>, t: Set<EntityId>)
        requires
            self.is_topological_order(s),
            self.all_blocked(t),
        ensures
            t.is_empty(),
    {
        reveal(NodeGraph::feeds);
        assert forall|k: int, u: EntityId| 0 <= k < s.len() && #[trigger] self.feeds(u, s[k]) implies exists|j: int|
            0 <= j < k && s[j] == u by {
            assert(self.node_set().contains(u));
            assert(s.contains(u));
            let j = choose|j: int| 0 <= j < s.len() && s[j] == u;
            assert(self.feeds(s[j], s[k]));
        }
        self.lemma_closed_prefix_avoids_blocked(s, t);
        if !t.is_empty() {
            let v = t.choose();
            assert(t.contains(v));
            assert(self.node_set().contains(v));
            assert(s.contains(v));
            let k = choose|k: int| 0 <= k < s.len() && s[k] == v;
            assert(!t.contains(s[k]));
        }
    }

    /// The nodes as a list without repeats, and every dependency between
    /// them as a pair of positions in that list.
    fn dependency_lists(&self) -> (r: (Vec<EntityId>, Vec<(usize, usize)>))
        requires
            self.wd().wf(),
        ensures
            self.lists_ok(r.0@, r.1@),
    {
        reveal(NodeGraph::feeds);
        let q = self.world.query::<NodeHeader>();
        let mut nodes: Vec<EntityId> = Vec::new();
        let mut k: usize = 0;
        while k < q.len()
            invariant
                k <= q@.len(),
                nodes@.len() == k,
                forall|i: int| 0 <= i < k ==> nodes@[i] == (#[trigger] q@[i]).0,
            decreases q.len() - k,
        {
            nodes.push(q[k].0);
            k = k + 1;
        }
        proof {
            assert(nodes@.no_duplicates()) by {
                assert forall|a: int, b: int| 0 <= a < nodes@.len() && 0 <= b < nodes@.len() && a != b implies nodes@[a]
                    != nodes@[b] by {
                    assert(nodes@[a] == q@[a].0 && nodes@[b] == q@[b].0);
                    if a < b {
                        assert(q@[a].0.index < q@[b].0.index);
                    } else {
                        assert(q@[b].0.index < q@[a].0.index);
                    }
                }
            }
            assert forall|x: EntityId| #[trigger] nodes@.contains(x) <==> self.node_set().contains(x) by {
                if nodes@.contains(x) {
                    let i = choose|i: int| 0 <= i < nodes@.len() && nodes@[i] == x;
                    assert(nodes@[i] == q@[i].0);
                }
                if self.node_set().contains(x) {
                    let i = choose|i: int| 0 <= i < q@.len() && #[trigger] q@[i].0 == x;
                    assert(nodes@[i] == q@[i].0);
                }
            }
        }
        let conns = self.world.query::<ConnectionEndpoints>();
        let mut edges: Vec<(usize, usize)> = Vec::new();
        let mut j: usize = 0;
        while j < conns.len()
            invariant
                j <= conns@.len(),
                self.wd().wf(),
                nodes@.no_duplicates(),
                forall|x: EntityId| #[trigger] nodes@.contains(x) <==> self.node_set().contains(x),
                forall|i: int|
                    0 <= i < conns@.len() ==> self.wd().comp::<ConnectionEndpoints>(#[trigger] conns@[i].0)
                        == Some(*conns@[i].1),
                forall|e: int|
                    0 <= e < edges@.len() ==> (#[trigger] edges@[e]).0 < nodes@.len() && edges@[e].1
                        < nodes@.len() && self.feeds(nodes@[edges@[e].0 as int], nodes@[edges@[e].1 as int]),
                forall|i: int|
                    0 <= i < j ==> match self.link_of(*#[trigger] conns@[i].1) {
                        Some((u, v)) => exists|e: int|
                            0 <= e < edges@.len() && nodes@[(#[trigger] edges@[e]).0 as int] == u
                                && nodes@[edges@[e].1 as int] == v,
                        None => true,
                    },
            decreases conns.len() - j,
        {
            let ep = conns[j].1;
            let src = self.world.get::<PortOwner>(ep.source_port);
            let tgt = self.world.get::<PortOwner>(ep.target_port);
            let ghost old_edges = edges@;
            match (src, tgt) {
                (Some(s), Some(t)) => {
                    if s.0 != t.0 {
                        let si = position_of(&nodes, s.0);
                        let ti = position_of(&nodes, t.0);
                        match (si, ti) {
                            (Some(a), Some(b)) => {
                                proof {
                                    reveal(NodeGraph::feeds);
                                    let c = conns@[j as int].0;
                                    assert(self.endpoints(c) == Some(*ep));
                                    assert(nodes@.contains(nodes@[a as int]));
                                    assert(nodes@.contains(nodes@[b as int]));
                                    assert(self.link_of(*ep) == Some((nodes@[a as int], nodes@[b as int])));
                                    assert(self.feeds(nodes@[a as int], nodes@[b as int]));
                                }
                                edges.push((a, b));
                                proof {
                                    assert(edges@[old_edges.len() as int] == (a, b));
                                }
                            },
                            _ => {},
                        }
                    }
                },
                _ => {},
            }
            proof {
                assert forall|e: int| 0 <= e < old_edges.len() implies #[trigger] edges@[e] == old_edges[e] by {}
                assert forall|i: int| 0 <= i < j + 1 implies match self.link_of(*#[trigger] conns@[i].1) {
                    Some((u, v)) => exists|e: int|
                        0 <= e < edges@.len() && nodes@[(#[trigger] edges@[e]).0 as int] == u
                            && nodes@[edges@[e].1 as int] == v,
                    None => true,
                } by {
                    if let Some((u, v)) = self.link_of(*conns@[i].1) {
                        if i < j {
                            let e = choose|e: int|
                                0 <= e < old_edges.len() && nodes@[(#[trigger] old_edges[e]).0 as int] == u
                                    && nodes@[old_edges[e].1 as int] == v;
                            assert(edges@[e] == old_edges[e]);
                        } else {
                            assert(nodes@.contains(u));
                            assert(nodes@.contains(v));
                            let e = old_edges.len() as int;
                            assert(nodes@[edges@[e].0 as int] == u);
                        }
                    }
                }
            }
            j = j + 1;
        }
        proof {
            assert forall|u: EntityId, v: EntityId| #[trigger] self.feeds(u, v) implies exists|e: int|
                0 <= e < edges@.len() && nodes@[(#[trigger] edges@[e]).0 as int] == u && nodes@[edges@[e].1 as int]
                    == v by {
                let c = choose|c: EntityId|
                    #[trigger] self.endpoints(c) matches Some(ep) && self.owner_of(ep.source_port) == Some(u)
                        && self.owner_of(ep.target_port) == Some(v);
                let i = choose|i: int| 0 <= i < conns@.len() && #[trigger] conns@[i].0 == c;
                assert(self.link_of(*conns@[i].1) == Some((u, v)));
                let e = choose|e: int|
                    0 <= e < edges@.len() && nodes@[(#[trigger] edges@[e]).0 as int] == u
                        && nodes@[edges@[e].1 as int] == v;
                assert(0 <= e < edges@.len() && nodes@[edges@[e].0 as int] == u && nodes@[edges@[e].1 as int] == v);
            }
        }
        let r = (nodes, edges);
        proof {
            reveal(NodeGraph::nodes_ok);
            reveal(NodeGraph::edges_in_range);
            reveal(NodeGraph::edges_sound);
            reveal(NodeGraph::edges_complete);
            assert forall|u: EntityId, v: EntityId| #[trigger] self.feeds(u, v) implies exists|e: int|
                0 <= e < r.1@.len() && r.0@[(#[trigger] r.1@[e]).0 as int] == u && r.0@[r.1@[e].1 as int] == v by {
                let e = choose|e: int|
                    0 <= e < edges@.len() && nodes@[(#[trigger] edges@[e]).0 as int] == u
                        && nodes@[edges@[e].1 as int] == v;
                assert(r.1@[e] == edges@[e]);
            }
        }
        r
    }

    /// The node list holds each node once.
    #[verifier::opaque]
    spec fn nodes_ok(&self, nodes: Seq<EntityId>) -> bool {
        &&& nodes.no_duplicates()
        &&& forall|x: EntityId| #[trigger] nodes.contains(x) <==> self.node_set().contains(x)
    }

    /// Each edge joins two positions of the node list.
    #[verifier::opaque]
    spec fn edges_in_range(nodes: Seq<EntityId>, edges: Seq<(usize, usize)>) -> bool {
        forall|e: int| 0 <= e < edges.len() ==> (#[trigger] edges[e]).0 < nodes.len() && edges[e].1 < nodes.len()
    }

    /// Each edge is a dependency between the nodes at its two positions.
    #[verifier::opaque]
    spec fn edges_sound(&self, nodes: Seq<EntityId>, edges: Seq<(usize, usize)>) -> bool {
        forall|e: int|
            0 <= e < edges.len() ==> #[trigger] self.feeds(nodes[edges[e].0 as int], nodes[edges[e].1 as int])
    }

    /// Each dependency between nodes appears as an edge.
    #[verifier::opaque]
    spec fn edges_complete(&self, nodes: Seq<EntityId>, edges: Seq<(usize, usize)>) -> bool {
        forall|u: EntityId, v: EntityId| #[trigger] self.feeds(u, v) ==> exists|e: int|
            0 <= e < edges.len() && nodes[(#[trigger] edges[e]).0 as int] == u && nodes[edges[e].1 as int] == v
    }

    /// The node list holds each node once, and the edge list holds exactly
    /// the dependencies between nodes, as positions in the node list.
    spec fn lists_ok(&self, nodes: Seq<EntityId>, edges: Seq<(usize, usize)>) -> bool {
        &&& self.nodes_ok(nodes)
        &&& Self::edges_in_range(nodes, edges)
        &&& self.edges_sound(nodes, edges)
        &&& self.edges_complete(nodes, edges)
    }

    /// `order` lists the placed nodes once each, every one after all the
    /// nodes it depends on.
    #[verifier::opaque]
    spec fn order_ok(&self, nodes: Seq<EntityId>, placed: Seq<bool>, order: Seq<EntityId>) -> bool {
        &&& placed.len() == nodes.len()
        &&& order.no_duplicates()
        &&& order.len() == count_true(placed)
        &&& forall|x: EntityId| #[trigger] order.contains(x) <==> exists|j: int|
            0 <= j < nodes.len() && placed[j] && nodes[j] == x
        &&& forall|a: int, b: int|
            0 <= a < order.len() && 0 <= b < order.len() && #[trigger] self.feeds(order[a], order[b]) ==> a < b
        &&& forall|j: int, u: EntityId|
            0 <= j < order.len() && #[trigger] self.feeds(u, order[j]) ==> exists|i: int|
                0 <= i < j && order[i] == u
    }

    /// Position `j` has a dependency edge from a position that is not placed.
    spec fn stuck_at(edges: Seq<(usize, usize)>, placed: Seq<bool>, j: int) -> bool {
        exists|e: int| 0 <= e < edges.len() && (#[trigger] edges[e]).1 == j && !placed[edges[e].0 as int]
    }

    /// Every position below `k` that is not placed has a dependency edge from
    /// a position that is not placed either.
    spec fn stuck_below(edges: Seq<(usize, usize)>, placed: Seq<bool>, k: int) -> bool {
        forall|j: int| 0 <= j < k && !placed[j] ==> #[trigger] Self::stuck_at(edges, placed, j)
    }

    proof fn lemma_order_start(&self, nodes: Seq<EntityId>, placed: Seq<bool>)
        requires
            placed.len() == nodes.len(),
            forall|k: int| 0 <= k < placed.len() ==> !placed[k],
        ensures
            self.order_ok(nodes, placed, Seq::empty()),
    {
        reveal(NodeGraph::order_ok);
        lemma_count_true_zero(placed);
    }

    proof fn lemma_order_len(&self, nodes: Seq<EntityId>, placed: Seq<bool>, order: Seq<EntityId>)
        requires
            self.order_ok(nodes, placed, order),
        ensures
            order.len() <= nodes.len(),
            order.len() == count_true(placed),
            placed.len() == nodes.len(),
    {
        reveal(NodeGraph::order_ok);
        lemma_count_true_bound(placed);
    }

    /// Placing a node whose dependencies are all placed keeps the order valid.
    proof fn lemma_place(
        &self,
        nodes: Seq<EntityId>,
        edges: Seq<(usize, usize)>,
        p0: Seq<bool>,
        o0: Seq<EntityId>,
        k: int,
    )
        requires
            self.lists_ok(nodes, edges),
            self.order_ok(nodes, p0, o0),
            0 <= k < nodes.len(),
            !p0[k],
            forall|e: int| 0 <= e < edges.len() && (#[trigger] edges[e]).1 == k ==> p0[edges[e].0 as int],
        ensures
            self.order_ok(nodes, p0.update(k, true), o0.push(nodes[k])),
    {
        reveal(NodeGraph::order_ok);
        reveal(NodeGraph::nodes_ok);
        reveal(NodeGraph::edges_in_range);
        reveal(NodeGraph::edges_complete);
        let v = nodes[k];
        let n = nodes.len();
        let placed = p0.update(k, true);
        let order = o0.push(v);
        assert(!o0.contains(v)) by {
            if o0.contains(v) {
                let j = choose|j: int| 0 <= j < n && p0[j] && nodes[j] == v;
                assert(nodes[j] == nodes[k]);
            }
        }
        lemma_count_true_update(p0, k, true);
        assert forall|x: EntityId| #[trigger] order.contains(x) <==> exists|j: int|
            0 <= j < n && placed[j] && nodes[j] == x by {
            if order.contains(x) {
                if x == v {
                    assert(placed[k] && nodes[k] == x);
                } else {
                    let i = choose|i: int| 0 <= i < order.len() && order[i] == x;
                    assert(o0[i] == x);
                    assert(o0.contains(x));
                    let j = choose|j: int| 0 <= j < n && p0[j] && nodes[j] == x;
                    assert(placed[j]);
                }
            }
            if exists|j: int| 0 <= j < n && placed[j] && nodes[j] == x {
                let j = choose|j: int| 0 <= j < n && placed[j] && nodes[j] == x;
                if j == k {
                    assert(order[o0.len() as int] == x);
                } else {
                    assert(p0[j]);
                    assert(o0.contains(x));
                    let i = choose|i: int| 0 <= i < o0.len() && o0[i] == x;
                    assert(order[i] == x);
                }
            }
        }
        assert forall|j: int, u: EntityId|
            0 <= j < order.len() && #[trigger] self.feeds(u, order[j]) implies exists|i: int|
                0 <= i < j && order[i] == u by {
            if j < o0.len() {
                assert(order[j] == o0[j]);
                let i = choose|i: int| 0 <= i < j && o0[i] == u;
                assert(order[i] == u);
            } else {
                let e = choose|e: int|
                    0 <= e < edges.len() && nodes[(#[trigger] edges[e]).0 as int] == u && nodes[edges[e].1 as int]
                        == v;
                assert(nodes[edges[e].1 as int] == nodes[k]);
                assert(edges[e].1 == k);
                assert(p0[edges[e].0 as int]);
                assert(o0.contains(u));
                let i = choose|i: int| 0 <= i < o0.len() && o0[i] == u;
                assert(order[i] == u);
            }
        }
        assert forall|a: int, b: int|
            0 <= a < order.len() && 0 <= b < order.len() && #[trigger] self.feeds(order[a], order[b]) implies a
                < b by {
            if a == o0.len() && b < o0.len() {
                assert(order[b] == o0[b]);
                let i = choose|i: int| 0 <= i < b && o0[i] == v;
                assert(o0.contains(v));
            } else if a < o0.len() && b < o0.len() {
                assert(order[a] == o0[a] && order[b] == o0[b]);
            }
        }
    }

    /// When every node is placed, the order is a topological order.
    proof fn lemma_finish_ok(
        &self,
        nodes: Seq<EntityId>,
        edges: Seq<(usize, usize)>,
        placed: Seq<bool>,
        order: Seq<EntityId>,
        rest: Seq<EntityId>,
    )
        requires
            self.lists_ok(nodes, edges),
            self.order_ok(nodes, placed, order),
            placed.len() == nodes.len(),
            rest_ok(nodes, placed, rest),
            rest.len() == 0,
        ensures
            self.is_topological_order(order),
            !self.has_dependency_cycle(),
    {
        reveal(rest_ok);
        assert forall|j: int| 0 <= j < nodes.len() implies placed[j] by {
            if !placed[j] {
                assert(rest.contains(nodes[j]));
            }
        }
        reveal(NodeGraph::order_ok);
        reveal(NodeGraph::nodes_ok);
        assert forall|x: EntityId| #[trigger] order.contains(x) <==> self.node_set().contains(x) by {
            if self.node_set().contains(x) {
                assert(nodes.contains(x));
                let j = choose|j: int| 0 <= j < nodes.len() && nodes[j] == x;
                assert(placed[j]);
            }
            if order.contains(x) {
                let j = choose|j: int| 0 <= j < nodes.len() && placed[j] && nodes[j] == x;
                assert(nodes.contains(x));
            }
        }
        assert forall|t: Set<EntityId>| #[trigger] self.all_blocked(t) implies t.is_empty() by {
            self.lemma_order_excludes_cycle(order, t);
        }
        reveal(NodeGraph::has_dependency_cycle);
    }

    /// An unplaced position that is stuck depends on an unplaced node.
    proof fn lemma_stuck_pred(
        &self,
        nodes: Seq<EntityId>,
        edges: Seq<(usize, usize)>,
        placed: Seq<bool>,
        j: int,
    ) -> (u: EntityId)
        requires
            self.lists_ok(nodes, edges),
            placed.len() == nodes.len(),
            0 <= j < nodes.len(),
            Self::stuck_at(edges, placed, j),
        ensures
            self.feeds(u, nodes[j]),
            exists|i: int| 0 <= i < nodes.len() && !placed[i] && nodes[i] == u,
    {
        reveal(NodeGraph::edges_in_range);
        reveal(NodeGraph::edges_sound);
        let e = choose|e: int| 0 <= e < edges.len() && (#[trigger] edges[e]).1 == j && !placed[edges[e].0 as int];
        assert(edges[e].0 < nodes.len());
        assert(self.feeds(nodes[edges[e].0 as int], nodes[edges[e].1 as int]));
        nodes[edges[e].0 as int]
    }

    /// When no further node can be placed, every unplaced node depends on
    /// another unplaced node.
    proof fn lemma_rest_blocked(
        &self,
        nodes: Seq<EntityId>,
        edges: Seq<(usize, usize)>,
        placed: Seq<bool>,
        rest: Seq<EntityId>,
    )
        requires
            self.lists_ok(nodes, edges),
            placed.len() == nodes.len(),
            Self::stuck_below(edges, placed, nodes.len() as int),
            forall|x: EntityId| #[trigger] rest.contains(x) ==> exists|j: int|
                0 <= j < nodes.len() && !placed[j] && nodes[j] == x,
            forall|j: int| 0 <= j < nodes.len() && !placed[j] ==> rest.contains(#[trigger] nodes[j]),
        ensures
            self.all_blocked(rest.to_set()),
    {
        let n = nodes.len();
        let rs = rest.to_set();
        assert forall|v: EntityId| #[trigger] rs.contains(v) implies self.node_set().contains(v) && exists|u: EntityId|
            rs.contains(u) && #[trigger] self.feeds(u, v) by {
            assert(rest.contains(v));
            let j = choose|j: int| 0 <= j < n && !placed[j] && nodes[j] == v;
            assert(Self::stuck_at(edges, placed, j));
            let u = self.lemma_stuck_pred(nodes, edges, placed, j);
            let i = choose|i: int| 0 <= i < nodes.len() && !placed[i] && nodes[i] == u;
            assert(rest.contains(nodes[i]));
            assert(rs.contains(u));
            reveal(NodeGraph::feeds);
        }
    }

    /// Every blocked set lies within the unplaced nodes.
    proof fn lemma_rest_maximal(
        &self,
        nodes: Seq<EntityId>,
        edges: Seq<(usize, usize)>,
        placed: Seq<bool>,
        order: Seq<EntityId>,
        rest: Seq<EntityId>,
        t: Set<EntityId>,
    )
        requires
            self.lists_ok(nodes, edges),
            self.order_ok(nodes, placed, order),
            forall|j: int| 0 <= j < nodes.len() && !placed[j] ==> rest.contains(#[trigger] nodes[j]),
            self.all_blocked(t),
        ensures
            t.subset_of(rest.to_set()),
    {
        reveal(NodeGraph::order_ok);
        reveal(NodeGraph::nodes_ok);
        let n = nodes.len();
        self.lemma_closed_prefix_avoids_blocked(order, t);
        assert forall|x: EntityId| t.contains(x) implies rest.to_set().contains(x) by {
            assert(nodes.contains(x));
            let j = choose|j: int| 0 <= j < n && nodes[j] == x;
            if placed[j] {
                assert(order.contains(x));
                let i = choose|i: int| 0 <= i < order.len() && order[i] == x;
            } else {
                assert(rest.contains(nodes[j]));
            }
        }
    }

    /// When no further node can be placed and some node is left, the nodes
    /// left form the largest blocked set, and it is not empty.
    proof fn lemma_finish_err(
        &self,
        nodes: Seq<EntityId>,
        edges: Seq<(usize, usize)>,
        placed: Seq<bool>,
        order: Seq<EntityId>,
        rest: Seq<EntityId>,
    )
        requires
            self.lists_ok(nodes, edges),
            self.order_ok(nodes, placed, order),
            placed.len() == nodes.len(),
            Self::stuck_below(edges, placed, nodes.len() as int),
            rest_ok(nodes, placed, rest),
            rest.len() > 0,
        ensures
            self.all_blocked(rest.to_set()),
            forall|t: Set<EntityId>| #[trigger] self.all_blocked(t) ==> t.subset_of(rest.to_set()),
            self.has_dependency_cycle(),
    {
        reveal(rest_ok);
        self.lemma_rest_blocked(nodes, edges, placed, rest);
        assert forall|t: Set<EntityId>| #[trigger] self.all_blocked(t) implies t.subset_of(rest.to_set()) by {
            self.lemma_rest_maximal(nodes, edges, placed, order, rest, t);
        }
        assert(rest.to_set().contains(rest[0]));
        reveal(NodeGraph::has_dependency_cycle);
    }

    proof fn lemma_nodes_distinct(&self, nodes: Seq<EntityId>, edges: Seq<(usize, usize)>)
        requires
            self.lists_ok(nodes, edges),
        ensures
            nodes.no_duplicates(),
    {
        reveal(NodeGraph::nodes_ok);
    }

    /// One pass over the nodes, placing each node whose dependencies are all
    /// placed. Returns whether it placed any.
    fn place_round(
        &self,
        nodes: &Vec<EntityId>,
        edges: &Vec<(usize, usize)>,
        placed: &mut Vec<bool>,
        order: &mut Vec<EntityId>,
    ) -> (progress: bool)
        requires
            self.lists_ok(nodes@, edges@),
            self.order_ok(nodes@, old(placed)@, old(order)@),
        ensures
            self.order_ok(nodes@, final(placed)@, final(order)@),
            progress ==> final(order)@.len() > old(order)@.len(),
            !progress ==> final(placed)@ == old(placed)@ && final(order)@ == old(order)@,
            !progress ==> Self::stuck_below(edges@, final(placed)@, nodes@.len() as int),
    {
        proof {
            reveal(NodeGraph::order_ok);
            reveal(NodeGraph::edges_in_range);
        }
        let n = nodes.len();
        let mut progress = false;
        let mut k: usize = 0;
        while k < n
            invariant
                n == nodes@.len(),
                k <= n,
                self.lists_ok(nodes@, edges@),
                self.order_ok(nodes@, placed@, order@),
                forall|e: int| 0 <= e < edges@.len() ==> (#[trigger] edges@[e]).0 < n,
                progress ==> order@.len() > old(order)@.len(),
                !progress ==> placed@ == old(placed)@ && order@ == old(order)@,
                !progress ==> Self::stuck_below(edges@, placed@, k as int),
            decreases n - k,
        {
            proof {
                reveal(NodeGraph::order_ok);
            }
            if !placed[k] {
                let ready = all_sources_placed(edges, placed, k);
                if ready {
                    proof {
                        self.lemma_place(nodes@, edges@, placed@, order@, k as int);
                    }
                    placed.set(k, true);
                    order.push(nodes[k]);
                    progress = true;
                }
            }
            k = k + 1;
        }
        progress
    }

    /// Topological sort of all nodes: every node once, each after the nodes
    /// it depends on (sources first, sinks last). Where dependencies run in
    /// a circle, returns as its error the nodes that take part in a cycle.
    pub fn topological_sort(&self) -> (r: Result<Vec<EntityId>, Vec<EntityId>>)
        requires
            self.wd().wf(),
        ensures
            r is Ok <==> !self.has_dependency_cycle(),
            match r {
                Ok(order) => self.is_topological_order(order@),
                Err(cycle) => {
                    &&& cycle@.len() > 0
                    &&& cycle@.no_duplicates()
                    &&& forall|x: EntityId| #[trigger] cycle@.contains(x) <==> self.node_set().contains(x) && self.on_cycle(x)
                },
            },
    {
        let (nodes, edges) = self.dependency_lists();
        let n = nodes.len();
        let mut placed: Vec<bool> = Vec::new();
        let mut i: usize = 0;
        while i < n
            invariant
                i <= n,
                placed@.len() == i,
                forall|k: int| 0 <= k < i ==> !placed@[k],
            decreases n - i,
        {
            placed.push(false);
            i = i + 1;
        }
        let mut order: Vec<EntityId> = Vec::new();
        proof {
            self.lemma_order_start(nodes@, placed@);
        }
        let mut progress = true;
        while progress
            invariant
                n == nodes@.len(),
                self.lists_ok(nodes@, edges@),
                self.order_ok(nodes@, placed@, order@),
                !progress ==> Self::stuck_below(edges@, placed@, n as int),
            decreases n - order@.len() + (if progress { 1int } else { 0int }),
        {
            proof {
                self.lemma_order_len(nodes@, placed@, order@);
            }
            progress = self.place_round(&nodes, &edges, &mut placed, &mut order);
            proof {
                self.lemma_order_len(nodes@, placed@, order@);
            }
        }
        proof {
            self.lemma_order_len(nodes@, placed@, order@);
            self.lemma_nodes_distinct(nodes@, edges@);
        }
        let rest = unplaced(&nodes, &placed);
        if rest.len() == 0 {
            proof {
                self.lemma_finish_ok(nodes@, edges@, placed@, order@, rest@);
            }
            Ok(order)
        } else {
            proof {
                self.lemma_finish_err(nodes@, edges@, placed@, order@, rest@);
            }
            let cycle = self.cycle_nodes(&nodes, &edges);
            proof {
                reveal(NodeGraph::nodes_ok);
                assert(rest@.contains(rest@[0]));
                self.lemma_blocked_has_cycle(nodes@, rest@.to_set(), rest@[0]);
                let x = choose|x: EntityId| nodes@.contains(x) && #[trigger] self.on_cycle(x);
                assert(cycle@.contains(x));
            }
            Err(cycle)
        }
    }

    /// Nodes in evaluation order; empty where dependencies run in a circle.
    pub fn eval_order(&self) -> (r: Vec<EntityId>)
        requires
            self.wd().wf(),
        ensures
            !self.has_dependency_cycle() ==> self.is_topological_order(r@),
            self.has_dependency_cycle() ==> r@.len() == 0,
    {
        match self.topological_sort() {
            Ok(order) => order,
            Err(_) => Vec::new(),
        }
    }

    /// Step `i` of walk `p`: its `i`-th node feeds the next one.
    pub open spec fn path_step(&self, p: Seq<EntityId>, i: int) -> bool {
        self.feeds(p[i], p[i + 1])
    }

    /// `p` is a walk of one or more steps along dependencies.
    pub open spec fn feeds_path(&self, p: Seq<EntityId>) -> bool {
        &&& p.len() >= 2
        &&& forall|i: int| 0 <= i < p.len() - 1 ==> #[trigger] self.path_step(p, i)
    }

    /// Node `v` depends, through one or more connections, on node `u`.
    pub open spec fn reaches(&self, u: EntityId, v: EntityId) -> bool {
        exists|p: Seq<EntityId>| #[trigger] self.feeds_path(p) && p[0] == u && p.last() == v
    }

    /// Node `v` lies on a dependency cycle: it depends, through others, on
    /// itself.
    pub open spec fn on_cycle(&self, v: EntityId) -> bool {
        self.reaches(v, v)
    }

    proof fn lemma_reach_one(&self, u: EntityId, v: EntityId)
        requires
            self.feeds(u, v),
        ensures
            self.reaches(u, v),
    {
        let p = seq![u, v];
        assert(self.path_step(p, 0));
        assert(self.feeds_path(p));
    }

    proof fn lemma_reach_extend(&self, u: EntityId, x: EntityId, y: EntityId)
        requires
            self.reaches(u, x),
            self.feeds(x, y),
        ensures
            self.reaches(u, y),
    {
        let p = choose|p: Seq<EntityId>| #[trigger] self.feeds_path(p) && p[0] == u && p.last() == x;
        let q = p.push(y);
        assert forall|i: int| 0 <= i < q.len() - 1 implies #[trigger] self.path_step(q, i) by {
            if i < p.len() - 1 {
                assert(self.path_step(p, i));
            }
        }
        assert(self.feeds_path(q));
    }

    /// Marks closed along the edges and set on every successor of node `k`
    /// cover every node that depends, through one or more connections, on
    /// node `k`.
    proof fn lemma_marks_complete(
        &self,
        nodes: Seq<EntityId>,
        edges: Seq<(usize, usize)>,
        mark: Seq<bool>,
        k: int,
        p: Seq<EntityId>,
    )
        requires
            self.lists_ok(nodes, edges),
            mark.len() == nodes.len(),
            0 <= k < nodes.len(),
            forall|e: int| 0 <= e < edges.len() && (#[trigger] edges[e]).0 == k ==> mark[edges[e].1 as int],
            forall|e: int| 0 <= e < edges.len() && mark[(#[trigger] edges[e]).0 as int] ==> mark[edges[e].1 as int],
            self.feeds_path(p),
            p[0] == nodes[k],
        ensures
            exists|j: int| 0 <= j < nodes.len() && nodes[j] == p.last() && mark[j],
        decreases p.len(),
    {
        reveal(NodeGraph::edges_complete);
        reveal(NodeGraph::edges_in_range);
        reveal(NodeGraph::nodes_ok);
        let m = p.len() - 2;
        assert(self.path_step(p, m));
        let x = p[m];
        let y = p.last();
        assert(self.feeds(x, y));
        let e = choose|e: int| 0 <= e < edges.len() && nodes[(#[trigger] edges[e]).0 as int] == x && nodes[edges[e].1 as int] == y;
        if p.len() == 2 {
            assert(edges[e].0 == k) by {
                assert(nodes[edges[e].0 as int] == nodes[k]);
            }
        } else {
            let q = p.drop_last();
            assert forall|i: int| 0 <= i < q.len() - 1 implies #[trigger] self.path_step(q, i) by {
                assert(self.path_step(p, i));
            }
            self.lemma_marks_complete(nodes, edges, mark, k, q);
            let j = choose|j: int| 0 <= j < nodes.len() && nodes[j] == q.last() && mark[j];
            assert(edges[e].0 == j) by {
                assert(nodes[edges[e].0 as int] == nodes[j]);
            }
        }
    }

    /// Whether node `nodes[k]` lies on a dependency cycle, found by marking
    /// every node that depends on it until nothing changes.
    fn reaches_itself(&self, nodes: &Vec<EntityId>, edges: &Vec<(usize, usize)>, k: usize) -> (r: bool)
        requires
            self.lists_ok(nodes@, edges@),
            k < nodes@.len(),
        ensures
            r == self.on_cycle(nodes@[k as int]),
    {
        proof {
            reveal(NodeGraph::edges_sound);
            reveal(NodeGraph::edges_in_range);
        }
        let n = nodes.len();
        let ghost u = nodes@[k as int];
        let mut mark: Vec<bool> = Vec::new();
        let mut i: usize = 0;
        while i < n
            invariant
                i <= n,
                mark@.len() == i,
                forall|j: int| 0 <= j < i ==> !mark@[j],
            decreases n - i,
        {
            mark.push(false);
            i = i + 1;
        }
        let mut e: usize = 0;
        while e < edges.len()
            invariant
                self.lists_ok(nodes@, edges@),
                n == nodes@.len(),
                k < n,
                u == nodes@[k as int],
                mark@.len() == n,
                e <= edges@.len(),
                forall|j: int| 0 <= j < n && #[trigger] mark@[j] ==> self.reaches(u, nodes@[j]),
                forall|e2: int| 0 <= e2 < e && (#[trigger] edges@[e2]).0 == k ==> mark@[edges@[e2].1 as int],
            decreases edges.len() - e,
        {
            proof {
                reveal(NodeGraph::edges_sound);
                reveal(NodeGraph::edges_in_range);
            }
            let (a, b) = edges[e];
            if a == k {
                proof {
                    assert(self.feeds(nodes@[a as int], nodes@[b as int]));
                    self.lemma_reach_one(u, nodes@[b as int]);
                }
                mark.set(b, true);
            }
            e = e + 1;
        }
        let mut changed = true;
        proof {
            lemma_count_true_bound(mark@);
        }
        while changed
            invariant
                self.lists_ok(nodes@, edges@),
                n == nodes@.len(),
                k < n,
                u == nodes@[k as int],
                mark@.len() == n,
                count_true(mark@) <= n,
                forall|j: int| 0 <= j < n && #[trigger] mark@[j] ==> self.reaches(u, nodes@[j]),
                forall|e2: int| 0 <= e2 < edges@.len() && (#[trigger] edges@[e2]).0 == k ==> mark@[edges@[e2].1 as int],
                !changed ==> forall|e2: int|
                    0 <= e2 < edges@.len() && mark@[(#[trigger] edges@[e2]).0 as int] ==> mark@[edges@[e2].1 as int],
            decreases n - count_true(mark@) + (if changed { 1int } else { 0int }),
        {
            proof {
                reveal(NodeGraph::edges_in_range);
            }
            changed = false;
            let ghost c0 = count_true(mark@);
            let ghost m0 = mark@;
            let mut e: usize = 0;
            while e < edges.len()
                invariant
                    self.lists_ok(nodes@, edges@),
                    n == nodes@.len(),
                    k < n,
                    u == nodes@[k as int],
                    mark@.len() == n,
                    e <= edges@.len(),
                    count_true(mark@) <= n,
                    count_true(mark@) >= c0,
                    changed ==> count_true(mark@) > c0,
                    !changed ==> mark@ == m0,
                    forall|j: int| 0 <= j < n && #[trigger] mark@[j] ==> self.reaches(u, nodes@[j]),
                    forall|j: int| 0 <= j < n && #[trigger] m0[j] ==> mark@[j],
                    forall|e2: int| 0 <= e2 < edges@.len() && (#[trigger] edges@[e2]).0 == k ==> m0[edges@[e2].1 as int],
                    !changed ==> forall|e2: int|
                        0 <= e2 < e && mark@[(#[trigger] edges@[e2]).0 as int] ==> mark@[edges@[e2].1 as int],
                decreases edges.len() - e,
            {
                proof {
                    reveal(NodeGraph::edges_sound);
                    reveal(NodeGraph::edges_in_range);
                }
                let (a, b) = edges[e];
                if mark[a] && !mark[b] {
                    proof {
                        assert(self.feeds(nodes@[a as int], nodes@[b as int]));
                        self.lemma_reach_extend(u, nodes@[a as int], nodes@[b as int]);
                        lemma_count_true_update(mark@, b as int, true);
                        lemma_count_true_bound(mark@.update(b as int, true));
                    }
                    mark.set(b, true);
                    changed = true;
                }
                e = e + 1;
            }
        }
        proof {
            if self.on_cycle(u) {
                let p = choose|p: Seq<EntityId>| #[trigger] self.feeds_path(p) && p[0] == u && p.last() == u;
                self.lemma_marks_complete(nodes@, edges@, mark@, k as int, p);
                let j = choose|j: int| 0 <= j < nodes@.len() && nodes@[j] == p.last() && mark@[j];
                reveal(NodeGraph::nodes_ok);
                assert(j == k as int);
            }
        }
        mark[k]
    }

    /// Walking back from `v` through a set where every member depends on
    /// another member: the `i`-th node met.
    spec fn back_walk(&self, t: Set<EntityId>, v: EntityId, i: nat) -> EntityId
        decreases i,
    {
        if i == 0 {
            v
        } else {
            let w = self.back_walk(t, v, (i - 1) as nat);
            choose|x: EntityId| t.contains(x) && self.feeds(x, w)
        }
    }

    proof fn lemma_back_walk(&self, t: Set<EntityId>, v: EntityId, i: nat)
        requires
            self.all_blocked(t),
            t.contains(v),
        ensures
            t.contains(self.back_walk(t, v, i)),
            t.contains(self.back_walk(t, v, i + 1)),
            self.feeds(self.back_walk(t, v, i + 1), self.back_walk(t, v, i)),
        decreases i,
    {
        if i > 0 {
            self.lemma_back_walk(t, v, (i - 1) as nat);
            assert((i - 1) as nat + 1 == i);
        }
        let w = self.back_walk(t, v, i);
        assert(t.contains(w));
        let x = choose|x: EntityId| t.contains(x) && #[trigger] self.feeds(x, w);
        assert(t.contains(x) && self.feeds(x, w));
        assert(self.back_walk(t, v, i + 1) == choose|x: EntityId| t.contains(x) && self.feeds(x, w));
    }

    /// A walk back through such a set meets some node twice within as many
    /// steps as there are nodes.
    proof fn lemma_back_walk_repeats(&self, nodes: Seq<EntityId>, t: Set<EntityId>, v: EntityId) -> (r: (
        nat,
        nat,
    ))
        requires
            forall|x: EntityId| #[trigger] nodes.contains(x) <==> self.node_set().contains(x),
            self.all_blocked(t),
            t.contains(v),
        ensures
            r.0 < r.1,
            self.back_walk(t, v, r.0) == self.back_walk(t, v, r.1),
            nodes.contains(self.back_walk(t, v, r.1)),
    {
        let n = nodes.len();
        let w = Seq::new(n + 1, |i: int| self.back_walk(t, v, i as nat));
        assert forall|i: int| 0 <= i < w.len() implies nodes.contains(#[trigger] w[i]) by {
            self.lemma_back_walk(t, v, i as nat);
            assert(self.node_set().contains(w[i]));
        }
        assert(!w.no_duplicates()) by {
            if w.no_duplicates() {
                w.unique_seq_to_set();
                nodes.lemma_cardinality_of_set();
                vstd::seq_lib::seq_to_set_is_finite(nodes);
                assert(w.to_set().subset_of(nodes.to_set())) by {
                    assert forall|x: EntityId| w.to_set().contains(x) implies nodes.to_set().contains(x) by {
                        let i = choose|i: int| 0 <= i < w.len() && w[i] == x;
                        assert(nodes.contains(w[i]));
                    }
                }
                vstd::set_lib::lemma_len_subset(w.to_set(), nodes.to_set());
            }
        }
        let (i, j) = choose|i: int, j: int| 0 <= i < w.len() && 0 <= j < w.len() && i != j && w[i] == w[j];
        let (lo, hi) = if i < j { (i, j) } else { (j, i) };
        assert(nodes.contains(w[hi]));
        (lo as nat, hi as nat)
    }

    /// A node met twice on a walk back through such a set lies on a
    /// dependency cycle.
    proof fn lemma_repeat_is_cycle(&self, t: Set<EntityId>, v: EntityId, lo: nat, hi: nat)
        requires
            self.all_blocked(t),
            t.contains(v),
            lo < hi,
            self.back_walk(t, v, lo) == self.back_walk(t, v, hi),
        ensures
            self.on_cycle(self.back_walk(t, v, hi)),
    {
        let q = Seq::new((hi - lo + 1) as nat, |m: int| self.back_walk(t, v, (hi - m) as nat));
        assert forall|m: int| 0 <= m < q.len() - 1 implies #[trigger] self.path_step(q, m) by {
            self.lemma_back_walk(t, v, (hi - m - 1) as nat);
            assert((hi - m - 1) as nat + 1 == (hi - m) as nat);
        }
        assert(self.feeds_path(q));
        assert(q[0] == self.back_walk(t, v, hi));
        assert(q.last() == self.back_walk(t, v, lo));
    }

    /// A non-empty set of nodes that each depend on another member holds a
    /// node on a dependency cycle.
    proof fn lemma_blocked_has_cycle(&self, nodes: Seq<EntityId>, t: Set<EntityId>, v: EntityId)
        requires
            forall|x: EntityId| #[trigger] nodes.contains(x) <==> self.node_set().contains(x),
            self.all_blocked(t),
            t.contains(v),
        ensures
            exists|x: EntityId| nodes.contains(x) && #[trigger] self.on_cycle(x),
    {
        let (lo, hi) = self.lemma_back_walk_repeats(nodes, t, v);
        self.lemma_repeat_is_cycle(t, v, lo, hi);
        let x = self.back_walk(t, v, hi);
        assert(nodes.contains(x) && self.on_cycle(x));
    }

    /// The nodes of `nodes` that lie on a dependency cycle, in order.
    fn cycle_nodes(&self, nodes: &Vec<EntityId>, edges: &Vec<(usize, usize)>) -> (r: Vec<EntityId>)
        requires
            self.lists_ok(nodes@, edges@),
        ensures
            r@.no_duplicates(),
            forall|x: EntityId| #[trigger] r@.contains(x) <==> self.node_set().contains(x) && self.on_cycle(x),
    {
        proof {
            reveal(NodeGraph::nodes_ok);
        }
        let mut r: Vec<EntityId> = Vec::new();
        let mut k: usize = 0;
        while k < nodes.len()
            invariant
                self.lists_ok(nodes@, edges@),
                k <= nodes@.len(),
                r@.no_duplicates(),
                forall|x: EntityId| #[trigger] r@.contains(x) <==> exists|j: int|
                    0 <= j < k && nodes@[j] == x && self.on_cycle(x),
            decreases nodes.len() - k,
        {
            proof {
                reveal(NodeGraph::nodes_ok);
            }
            let ghost r0 = r@;
            if self.reaches_itself(nodes, edges, k) {
                proof {
                    assert(!r0.contains(nodes@[k as int])) by {
                        if r0.contains(nodes@[k as int]) {
                            let j = choose|j: int| 0 <= j < k && nodes@[j] == nodes@[k as int] && self.on_cycle(nodes@[k as int]);
                        }
                    }
                }
                r.push(nodes[k]);
                proof {
                    assert forall|x: EntityId| #[trigger] r@.contains(x) <==> exists|j: int|
                        0 <= j < k + 1 && nodes@[j] == x && self.on_cycle(x) by {
                        if r@.contains(x) && x != nodes@[k as int] {
                            let i = choose|i: int| 0 <= i < r@.len() && r@[i] == x;
                            assert(r0.contains(x)) by {
                                assert(r0[i] == x);
                            }
                        }
                        if exists|j: int| 0 <= j < k + 1 && nodes@[j] == x && self.on_cycle(x) {
                            if x == nodes@[k as int] {
                                assert(r@[r@.len() - 1] == x);
                            } else {
                                assert(r0.contains(x));
                                let i = choose|i: int| 0 <= i < r0.len() && r0[i] == x;
                                assert(r@[i] == x);
                            }
                        }
                    }
                }
            }
            k = k + 1;
        }
        proof {
            reveal(NodeGraph::nodes_ok);
            assert forall|x: EntityId| #[trigger] r@.contains(x) <==> self.node_set().contains(x) && self.on_cycle(x) by {
                if r@.contains(x) {
                    let j = choose|j: int| 0 <= j < k && nodes@[j] == x && self.on_cycle(x);
                    assert(nodes@.contains(nodes@[j]));
                }
                if self.node_set().contains(x) && self.on_cycle(x) {
                    assert(nodes@.contains(x));
                    let j = choose|j: int| 0 <= j < nodes@.len() && nodes@[j] == x;
                    assert(0 <= j < k && nodes@[j] == x && self.on_cycle(x));
                }
            }
        }
        r
    }

    /// In an evaluation order, the node that owns a connection's source port
    /// comes before the node that owns its target port.
    pub proof fn lemma_connection_runs_forward(&self, s: Seq<EntityId>, c: EntityId, i: int, j: int)
        requires
            self.is_topological_order(s),
            self.endpoints(c) is Some,
            0 <= i < s.len(),
            0 <= j < s.len(),
            self.owner_of(self.endpoints(c)->0.source_port) == Some(s[i]),
            self.owner_of(self.endpoints(c)->0.target_port) == Some(s[j]),
            i != j,
        ensures
            i < j,
    {
        reveal(NodeGraph::feeds);
        assert(s.contains(s[i]));
        assert(s.contains(s[j]));
        assert(self.feeds(s[i], s[j]));
    }
}

} // verus!

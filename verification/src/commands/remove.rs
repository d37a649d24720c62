use vstd::prelude::*;
use crate::store::EntityId;
use crate::store::change::ComponentKind;
use crate::graph::NodeGraph;
use crate::graph::node::{NodeHeader, NodePosition};
use crate::graph::port::{PortDirection, PortLabel, PortSocketType};
use crate::graph::connection::ConnectionEndpoints;
use crate::store::component::contains_id;
use crate::types::socket_type::SocketType;
use super::Command;

verus! {

/// What a port of a removed node is rebuilt from.
#[derive(Debug)]
pub struct PortSnapshot {
    pub direction: PortDirection,
    pub socket_type: SocketType,
    pub label: String,
}

/// A connection of a removed node: its far end, on the side where it was,
/// and the index of the node's port that held it.
#[derive(Debug, Clone, Copy)]
pub struct ConnectionSnapshot {
    pub source_external: Option<EntityId>,
    pub target_external: Option<EntityId>,
    pub local_port_index: usize,
}

/// Everything needed to rebuild a removed node.
#[derive(Debug)]
pub struct NodeSnapshot<F> {
    pub header: NodeHeader,
    pub position: NodePosition<F>,
    pub ports: Vec<PortSnapshot>,
    pub connections: Vec<ConnectionSnapshot>,
}

/// Port `p` has a direction, a socket type and a label.
pub open spec fn port_complete<F: Copy>(g: NodeGraph<F>, p: EntityId) -> bool {
    &&& g.dir_of(p) is Some
    &&& g.socket_of(p) is Some
    &&& g.wd().comp::<PortLabel>(p) is Some
}

/// Port `p` has the direction, socket type and label recorded in `s`.
pub open spec fn port_snapshot_matches<F: Copy>(g: NodeGraph<F>, p: EntityId, s: PortSnapshot) -> bool {
    &&& g.dir_of(p) == Some(s.direction)
    &&& g.socket_of(p) == Some(s.socket_type)
    &&& g.wd().comp::<PortLabel>(p) matches Some(l) && l.0@ == s.label@
}

/// The record of a connection with endpoints `ep`, held by the port at
/// index `k` of a node whose ports are `ports`.
pub open spec fn connection_record(ports: Seq<EntityId>, ep: ConnectionEndpoints, k: int) -> ConnectionSnapshot {
    ConnectionSnapshot {
        source_external: if ports.contains(ep.source_port) { None } else { Some(ep.source_port) },
        target_external: if ports.contains(ep.target_port) { None } else { Some(ep.target_port) },
        local_port_index: k as usize,
    }
}

/// `acc` extended with those of the first `j` connections of `cs` that it
/// does not hold yet, each paired with port index `k`.
pub open spec fn new_conns(acc: Seq<(EntityId, int)>, cs: Seq<EntityId>, k: int, j: nat) -> Seq<(EntityId, int)>
    decreases j,
{
    if j == 0 || j > cs.len() {
        acc
    } else {
        let before = new_conns(acc, cs, k, (j - 1) as nat);
        if before.map_values(|e: (EntityId, int)| e.0).contains(cs[j - 1]) {
            before
        } else {
            before.push((cs[j - 1], k))
        }
    }
}

/// The distinct connections on the first `k` ports of `ps`, in the order
/// they are first met, each with the index of the first port that holds it.
pub open spec fn conns_in_order<F: Copy>(g: NodeGraph<F>, ps: Seq<EntityId>, k: nat) -> Seq<(EntityId, int)>
    decreases k,
{
    if k == 0 || k > ps.len() {
        Seq::empty()
    } else {
        let prev = conns_in_order(g, ps, (k - 1) as nat);
        new_conns(prev, g.conns_of(ps[k - 1]), k - 1, g.conns_of(ps[k - 1]).len())
    }
}

/// Node `n` has a header and a position, each of its ports is complete,
/// and each connection on them has endpoints.
pub open spec fn snapshot_possible<F: Copy>(g: NodeGraph<F>, n: EntityId) -> bool {
    let ps = g.ports_of(n);
    &&& g.wd().comp::<NodeHeader>(n) is Some
    &&& g.wd().comp::<NodePosition<F>>(n) is Some
    &&& forall|k: int| 0 <= k < ps.len() ==> port_complete(g, #[trigger] ps[k])
    &&& forall|k: int, j: int|
        0 <= k < ps.len() && 0 <= j < g.conns_of(ps[k]).len() ==> (#[trigger] g.endpoints(
            g.conns_of(ps[k])[j],
        )) is Some
}

/// `s` records node `n` of `g`: its header, position and ports, and its
/// distinct connections in the order they are first met.
pub open spec fn snapshot_of<F: Copy>(g: NodeGraph<F>, n: EntityId, s: NodeSnapshot<F>) -> bool {
    let ps = g.ports_of(n);
    &&& g.wd().comp::<NodeHeader>(n) matches Some(h) && s.header.title@ == h.title@ && s.header.color == h.color
        && s.header.collapsed == h.collapsed
    &&& g.wd().comp::<NodePosition<F>>(n) == Some(s.position)
    &&& s.ports@.len() == ps.len()
    &&& forall|k: int| 0 <= k < ps.len() ==> port_snapshot_matches(g, #[trigger] ps[k], s.ports@[k])
    &&& s.connections@ == conns_in_order(g, ps, ps.len()).map_values(
        |e: (EntityId, int)| connection_record(ps, g.endpoints(e.0)->0, e.1),
    )
}

/// Fresh ids that rebuilding from `s` may take: the node, its ports, and
/// up to two connections per saved connection.
pub open spec fn ids_to_restore<F>(s: NodeSnapshot<F>) -> int {
    1 + s.ports@.len() as int + 2 * s.connections@.len() as int
}

/// Remove a node with its ports and connections; undo rebuilds it from a
/// snapshot taken by `execute` and reconnects it.
#[derive(Debug)]
pub struct RemoveNodeCommand<F> {
    pub node_id: EntityId,
    /// Snapshot for undo, taken by `execute`.
    snapshot: Option<NodeSnapshot<F>>,
}

impl<F: Copy> RemoveNodeCommand<F> {
    pub fn new(node_id: EntityId) -> (r: Self)
        ensures
            r.node() == node_id,
            r.snap() is None,
    {
        RemoveNodeCommand { node_id, snapshot: None }
    }

    /// The node that `execute` removes, or that undo rebuilt.
    pub closed spec fn node(&self) -> EntityId {
        self.node_id
    }

    /// The snapshot that `execute` took.
    pub closed spec fn snap(&self) -> Option<NodeSnapshot<F>> {
        self.snapshot
    }

    /// Record node `node_id` of `graph`, or `None` when something a
    /// snapshot needs is missing.
    pub fn snapshot_node(graph: &NodeGraph<F>, node_id: EntityId) -> (r: Option<NodeSnapshot<F>>)
        requires
            graph.wf(),
        ensures
            r is Some <==> snapshot_possible(*graph, node_id),
            r matches Some(s) ==> snapshot_of(*graph, node_id, s),
    {
        let world = graph.world_ref();
        let header = match world.get::<NodeHeader>(node_id) {
            Some(h) => NodeHeader { title: h.title.clone(), color: h.color, collapsed: h.collapsed },
            None => {
                return None;
            },
        };
        let position = match world.get::<NodePosition<F>>(node_id) {
            Some(p) => NodePosition { x: p.x, y: p.y },
            None => {
                return None;
            },
        };
        let port_ids = graph.node_ports(node_id);
        let ghost ps = port_ids@;
        let mut ports: Vec<PortSnapshot> = Vec::new();
        let mut k: usize = 0;
        while k < port_ids.len()
            invariant
                graph.wf(),
                *world == graph.wd(),
                port_ids@ == ps,
                ps == graph.ports_of(node_id),
                k <= ps.len(),
                ports@.len() == k,
                forall|a: int| 0 <= a < k ==> port_snapshot_matches(*graph, #[trigger] ps[a], ports@[a]),
                forall|a: int| 0 <= a < k ==> port_complete(*graph, #[trigger] ps[a]),
            decreases port_ids.len() - k,
        {
            let pid = port_ids[k];
            let direction = match world.get::<PortDirection>(pid) {
                Some(d) => *d,
                None => {
                    return None;
                },
            };
            let socket_type = match world.get::<PortSocketType>(pid) {
                Some(s) => s.0,
                None => {
                    return None;
                },
            };
            let label = match world.get::<PortLabel>(pid) {
                Some(l) => l.0.clone(),
                None => {
                    return None;
                },
            };
            ports.push(PortSnapshot { direction, socket_type, label });
            k = k + 1;
        }
        let mut connections: Vec<ConnectionSnapshot> = Vec::new();
        let mut seen: Vec<EntityId> = Vec::new();
        let ghost mut order: Seq<(EntityId, int)> = Seq::empty();
        let mut k: usize = 0;
        while k < port_ids.len()
            invariant
                graph.wf(),
                *world == graph.wd(),
                port_ids@ == ps,
                ps == graph.ports_of(node_id),
                k <= ps.len(),
                order == conns_in_order(*graph, ps, k as nat),
                seen@ == order.map_values(|e: (EntityId, int)| e.0),
                connections@ == order.map_values(
                    |e: (EntityId, int)| connection_record(ps, graph.endpoints(e.0)->0, e.1),
                ),
                forall|a: int| 0 <= a < order.len() ==> (#[trigger] graph.endpoints(order[a].0)) is Some,
                forall|a: int, j: int|
                    0 <= a < k && 0 <= j < graph.conns_of(ps[a]).len() ==> (#[trigger] graph.endpoints(
                        graph.conns_of(ps[a])[j],
                    )) is Some,
            decreases port_ids.len() - k,
        {
            let conns = graph.port_connections(port_ids[k]);
            let ghost start = order;
            let mut j: usize = 0;
            while j < conns.len()
                invariant
                    graph.wf(),
                    *world == graph.wd(),
                    port_ids@ == ps,
                    ps == graph.ports_of(node_id),
                    k < ps.len(),
                    conns@ == graph.conns_of(ps[k as int]),
                    j <= conns@.len(),
                    start == conns_in_order(*graph, ps, k as nat),
                    order == new_conns(start, conns@, k as int, j as nat),
                    seen@ == order.map_values(|e: (EntityId, int)| e.0),
                    connections@ == order.map_values(
                        |e: (EntityId, int)| connection_record(ps, graph.endpoints(e.0)->0, e.1),
                    ),
                    forall|a: int| 0 <= a < order.len() ==> (#[trigger] graph.endpoints(order[a].0)) is Some,
                    forall|b: int| 0 <= b < j ==> (#[trigger] graph.endpoints(conns@[b])) is Some,
                decreases conns.len() - j,
            {
                let c = conns[j];
                if !contains_id(&seen, c) {
                    let ep = match world.get::<ConnectionEndpoints>(c) {
                        Some(e) => *e,
                        None => {
                            proof {
                                assert(graph.endpoints(graph.conns_of(ps[k as int])[j as int]) is None);
                            }
                            return None;
                        },
                    };
                    let source_external = if contains_id(port_ids, ep.source_port) {
                        None
                    } else {
                        Some(ep.source_port)
                    };
                    let target_external = if contains_id(port_ids, ep.target_port) {
                        None
                    } else {
                        Some(ep.target_port)
                    };
                    connections.push(ConnectionSnapshot { source_external, target_external, local_port_index: k });
                    seen.push(c);
                    proof {
                        order = order.push((c, k as int));
                        assert(seen@ =~= order.map_values(|e: (EntityId, int)| e.0));
                        assert(connections@ =~= order.map_values(
                            |e: (EntityId, int)| connection_record(ps, graph.endpoints(e.0)->0, e.1),
                        ));
                    }
                } else {
                    proof {
                        let a = choose|a: int| 0 <= a < seen@.len() && seen@[a] == c;
                        assert(order[a].0 == c);
                    }
                }
                j = j + 1;
            }
            k = k + 1;
        }
        proof {
            assert(snapshot_possible(*graph, node_id));
        }
        Some(NodeSnapshot { header, position, ports, connections })
    }
}

impl<F: Copy> Command<F> for RemoveNodeCommand<F> {
    /// A node that can own ports is gone, with its ports and their
    /// connections; otherwise nothing changes.
    open spec fn executes(&self, g0: NodeGraph<F>, g1: NodeGraph<F>) -> bool {
        if g0.can_own_ports(self.node()) {
            &&& !g1.wd().alive(self.node())
            &&& forall|p: EntityId| #[trigger] g0.ports_of(self.node()).contains(p) ==> !g1.wd().alive(p)
            &&& forall|c: EntityId| #[trigger] g0.touches_node(self.node(), c) ==> !g1.wd().alive(c)
        } else {
            g1 == g0
        }
    }

    /// From the snapshot, where there is room, a new node with its header
    /// fields, position and ports; otherwise nothing changes.
    open spec fn undoes(&self, g0: NodeGraph<F>, g1: NodeGraph<F>) -> bool {
        match self.snap() {
            None => g1 == g0,
            Some(s) => if g0.wd().room() < ids_to_restore(s) {
                g1 == g0
            } else {
                exists|n: EntityId|
                    {
                        &&& !g0.wd().alive(n)
                        &&& #[trigger] g1.wd().alive(n)
                        &&& g1.wd().comp::<NodeHeader>(n) matches Some(h) && h.title@ == s.header.title@ && h.color
                            == s.header.color && h.collapsed == s.header.collapsed
                        &&& g1.wd().comp::<NodePosition<F>>(n) == Some(s.position)
                        &&& g1.ports_of(n).len() == s.ports@.len()
                        &&& forall|k: int|
                            0 <= k < s.ports@.len() ==> g1.owner_of(#[trigger] g1.ports_of(n)[k]) == Some(n)
                                && port_snapshot_matches(g1, g1.ports_of(n)[k], s.ports@[k])
                    }
            },
        }
    }

    /// Take a snapshot of the node, then remove it.
    fn execute(&mut self, graph: &mut NodeGraph<F>)
        ensures
            final(self).node() == old(self).node(),
            match final(self).snap() {
                Some(s) => snapshot_of(*old(graph), old(self).node(), s),
                None => !snapshot_possible(*old(graph), old(self).node()),
            },
            !old(graph).can_own_ports(old(self).node()) ==> *final(graph) == *old(graph),
            old(graph).can_own_ports(old(self).node()) ==> {
                &&& !final(graph).wd().alive(old(self).node())
                &&& forall|p: EntityId|
                    #[trigger] old(graph).ports_of(old(self).node()).contains(p) ==> !final(graph).wd().alive(p)
                &&& forall|c: EntityId|
                    #[trigger] old(graph).touches_node(old(self).node(), c) ==> !final(graph).wd().alive(c)
            },
    {
        self.snapshot = Self::snapshot_node(graph, self.node_id);
        if graph.accepts_ports(self.node_id) {
            graph.remove_node(self.node_id);
        }
    }

    /// Rebuild the node from the snapshot, with its header, position and
    /// ports, then make its saved connections again. Nothing happens when
    /// there is no snapshot or the graph has no room for what the snapshot
    /// may need.
    fn undo(&mut self, graph: &mut NodeGraph<F>)
        ensures
            final(self).snap() == old(self).snap(),
            old(self).snap() is None ==> *final(graph) == *old(graph) && *final(self) == *old(self),
            old(self).snap() matches Some(s) ==> (old(graph).wd().room() < ids_to_restore(s) ==> *final(graph)
                == *old(graph) && *final(self) == *old(self)),
            old(self).snap() matches Some(s) ==> (old(graph).wd().room() >= ids_to_restore(s) ==> {
                let n = final(self).node();
                &&& !old(graph).wd().alive(n)
                &&& final(graph).wd().alive(n)
                &&& final(graph).wd().comp::<NodeHeader>(n) matches Some(h) && h.title@ == s.header.title@
                    && h.color == s.header.color && h.collapsed == s.header.collapsed
                &&& final(graph).wd().comp::<NodePosition<F>>(n) == Some(s.position)
                &&& final(graph).ports_of(n).len() == s.ports@.len()
                &&& forall|k: int|
                    0 <= k < s.ports@.len() ==> final(graph).owner_of(#[trigger] final(graph).ports_of(n)[k])
                        == Some(n) && port_snapshot_matches(*final(graph), final(graph).ports_of(n)[k], s.ports@[k])
            }),
    {
        let snap = match &self.snapshot {
            Some(s) => s,
            None => {
                return;
            },
        };
        let needed: u128 = 1u128 + snap.ports.len() as u128 + 2 * (snap.connections.len() as u128);
        if (graph.room_left() as u128) < needed {
            return;
        }
        let node_id = graph.add_node(snap.header.title.as_str(), (snap.position.x, snap.position.y));
        let header = NodeHeader { title: snap.header.title.clone(), color: snap.header.color, collapsed: snap.header.collapsed };
        graph.set_component(node_id, header);
        proof {
            assert(graph.wd().comp::<NodePosition<F>>(node_id) == Some(snap.position));
        }
        let ghost g1 = *graph;
        let mut i: usize = 0;
        while i < snap.ports.len()
            invariant
                graph.wf(),
                graph.can_own_ports(node_id),
                i <= snap.ports@.len(),
                graph.wd().room() >= g1.wd().room() - i,
                g1.wd().room() >= needed - 1,
                needed == 1 + snap.ports@.len() + 2 * snap.connections@.len(),
                graph.ports_of(node_id).len() == i,
                graph.wd().comp::<NodeHeader>(node_id) == g1.wd().comp::<NodeHeader>(node_id),
                graph.wd().comp::<NodePosition<F>>(node_id) == g1.wd().comp::<NodePosition<F>>(node_id),
                forall|k: int| 0 <= k < i ==> #[trigger] graph.wd().alive(graph.ports_of(node_id)[k]),
                forall|k: int|
                    0 <= k < i ==> graph.owner_of(#[trigger] graph.ports_of(node_id)[k]) == Some(node_id)
                        && port_snapshot_matches(*graph, graph.ports_of(node_id)[k], snap.ports@[k]),
            decreases snap.ports.len() - i,
        {
            let ghost g0 = *graph;
            let ps = &snap.ports[i];
            let pid = graph.add_port(node_id, ps.direction, ps.socket_type, ps.label.as_str());
            proof {
                let ks = set![ComponentKind::PortOwner, ComponentKind::PortDirection, ComponentKind::PortSocketType, ComponentKind::PortLabel, ComponentKind::PortIndex];
                graph.wd().lemma_comp_kept::<NodeHeader>(&g0.wd(), ks, node_id);
                graph.wd().lemma_comp_kept::<NodePosition<F>>(&g0.wd(), ks, node_id);
                assert(graph.ports_of(node_id) == g0.ports_of(node_id).push(pid));
            }
            i = i + 1;
        }
        let new_ports = crate::store::component::copy_ids(graph.node_ports(node_id));
        let ghost g2 = *graph;
        proof {
            assert(new_ports@ == g2.ports_of(node_id));
        }
        let mut c: usize = 0;
        while c < snap.connections.len()
            invariant
                graph.wf(),
                graph.wd().room() >= g2.wd().room() - 2 * c,
                g2.wd().room() >= 2 * snap.connections@.len(),
                c <= snap.connections@.len(),
                new_ports@ == g2.ports_of(node_id),
                graph.can_own_ports(node_id),
                graph.pbn() == g2.pbn(),
                graph.wd().comp::<NodeHeader>(node_id) == g2.wd().comp::<NodeHeader>(node_id),
                graph.wd().comp::<NodePosition<F>>(node_id) == g2.wd().comp::<NodePosition<F>>(node_id),
                forall|k: int|
                    0 <= k < new_ports@.len() ==> {
                        &&& #[trigger] graph.wd().alive(new_ports@[k])
                        &&& graph.owner_of(new_ports@[k]) == g2.owner_of(new_ports@[k])
                        &&& graph.dir_of(new_ports@[k]) == g2.dir_of(new_ports@[k])
                        &&& graph.socket_of(new_ports@[k]) == g2.socket_of(new_ports@[k])
                        &&& graph.wd().comp::<PortLabel>(new_ports@[k]) == g2.wd().comp::<PortLabel>(new_ports@[k])
                    },
            decreases snap.connections.len() - c,
        {
            let cs = snap.connections[c];
            if cs.local_port_index < new_ports.len() {
                let local_port = new_ports[cs.local_port_index];
                match cs.source_external {
                    Some(src) => {
                        let ghost g0 = *graph;
                        let r = graph.connect(src, local_port);
                        proof {
                            lemma_connect_spares(g0, *graph, src, local_port, r);
                            lemma_connect_keeps(g0, *graph, node_id, new_ports@);
                        }
                    },
                    None => {},
                }
                match cs.target_external {
                    Some(tgt) => {
                        let ghost g0 = *graph;
                        let r = graph.connect(local_port, tgt);
                        proof {
                            lemma_connect_spares(g0, *graph, local_port, tgt, r);
                            lemma_connect_keeps(g0, *graph, node_id, new_ports@);
                        }
                    },
                    None => {},
                }
            }
            c = c + 1;
        }
        self.node_id = node_id;
    }

    open spec fn tells_description(&self) -> bool {
        true
    }

    open spec fn description_text(&self) -> Seq<char> {
        "Remove node"@
    }

    fn description(&self) -> &str
    {
        "Remove node"
    }
}

/// Undoing a removal rebuilds the node as it was: from a snapshot of node
/// `n` of `g0`, the node `m` that undo makes in `g1` has `n`'s header
/// fields and position, and ports with the same directions, socket types
/// and labels, in the same order.
pub proof fn lemma_undo_rebuilds<F: Copy>(g0: NodeGraph<F>, n: EntityId, s: NodeSnapshot<F>, g1: NodeGraph<F>, m: EntityId)
    requires
        snapshot_of(g0, n, s),
        g1.wd().comp::<NodeHeader>(m) matches Some(h) && h.title@ == s.header.title@ && h.color == s.header.color
            && h.collapsed == s.header.collapsed,
        g1.wd().comp::<NodePosition<F>>(m) == Some(s.position),
        g1.ports_of(m).len() == s.ports@.len(),
        forall|k: int|
            0 <= k < s.ports@.len() ==> g1.owner_of(#[trigger] g1.ports_of(m)[k]) == Some(m) && port_snapshot_matches(
                g1,
                g1.ports_of(m)[k],
                s.ports@[k],
            ),
    ensures
        g1.wd().comp::<NodeHeader>(m) matches Some(h1) && g0.wd().comp::<NodeHeader>(n) matches Some(h0) && h1.title@
            == h0.title@ && h1.color == h0.color && h1.collapsed == h0.collapsed,
        g1.wd().comp::<NodePosition<F>>(m) == g0.wd().comp::<NodePosition<F>>(n),
        g1.ports_of(m).len() == g0.ports_of(n).len(),
        forall|k: int|
            0 <= k < g0.ports_of(n).len() ==> {
                &&& g1.owner_of(#[trigger] g1.ports_of(m)[k]) == Some(m)
                &&& g1.dir_of(g1.ports_of(m)[k]) == g0.dir_of(g0.ports_of(n)[k])
                &&& g1.socket_of(g1.ports_of(m)[k]) == g0.socket_of(g0.ports_of(n)[k])
                &&& g1.wd().comp::<PortLabel>(g1.ports_of(m)[k]) matches Some(l1) && g0.wd().comp::<PortLabel>(
                    g0.ports_of(n)[k],
                ) matches Some(l0) && l1.0@ == l0.0@
            },
{
    assert forall|k: int| 0 <= k < g0.ports_of(n).len() implies {
        &&& g1.owner_of(#[trigger] g1.ports_of(m)[k]) == Some(m)
        &&& g1.dir_of(g1.ports_of(m)[k]) == g0.dir_of(g0.ports_of(n)[k])
        &&& g1.socket_of(g1.ports_of(m)[k]) == g0.socket_of(g0.ports_of(n)[k])
        &&& g1.wd().comp::<PortLabel>(g1.ports_of(m)[k]) matches Some(l1) && g0.wd().comp::<PortLabel>(
            g0.ports_of(n)[k],
        ) matches Some(l0) && l1.0@ == l0.0@
    } by {
        assert(port_snapshot_matches(g0, g0.ports_of(n)[k], s.ports@[k]));
        assert(port_snapshot_matches(g1, g1.ports_of(m)[k], s.ports@[k]));
    }
}

/// A call of `connect` that took `g0` to `g1`, touching no component but
/// connection endpoints and keeping every live entity that is not a
/// connection, left node `n` and its ports `ps` as they were.
proof fn lemma_connect_keeps<F: Copy>(g0: NodeGraph<F>, g1: NodeGraph<F>, n: EntityId, ps: Seq<EntityId>)
    requires
        g0.wf(),
        g0.can_own_ports(n),
        ps == g0.ports_of(n),
        g1.wd().comps().same_except_kinds(g0.wd().comps(), set![ComponentKind::ConnectionEndpoints]),
        forall|e: EntityId|
            g0.wd().alive(e) && g0.endpoints(e) is None ==> #[trigger] g1.wd().alive(e) && g1.endpoints(e) is None,
    ensures
        g1.can_own_ports(n),
        g1.wd().comp::<NodeHeader>(n) == g0.wd().comp::<NodeHeader>(n),
        g1.wd().comp::<NodePosition<F>>(n) == g0.wd().comp::<NodePosition<F>>(n),
        forall|k: int|
            0 <= k < ps.len() ==> {
                &&& #[trigger] g1.wd().alive(ps[k])
                &&& g1.owner_of(ps[k]) == g0.owner_of(ps[k])
                &&& g1.dir_of(ps[k]) == g0.dir_of(ps[k])
                &&& g1.socket_of(ps[k]) == g0.socket_of(ps[k])
                &&& g1.wd().comp::<PortLabel>(ps[k]) == g0.wd().comp::<PortLabel>(ps[k])
            },
{
    let ks = set![ComponentKind::ConnectionEndpoints];
    assert(g1.wd().alive(n) && g1.endpoints(n) is None);
    g1.wd().lemma_comp_kept::<crate::graph::port::PortOwner>(&g0.wd(), ks, n);
    g1.wd().lemma_comp_kept::<NodeHeader>(&g0.wd(), ks, n);
    g1.wd().lemma_comp_kept::<NodePosition<F>>(&g0.wd(), ks, n);
    assert forall|k: int| 0 <= k < ps.len() implies {
        &&& #[trigger] g1.wd().alive(ps[k])
        &&& g1.owner_of(ps[k]) == g0.owner_of(ps[k])
        &&& g1.dir_of(ps[k]) == g0.dir_of(ps[k])
        &&& g1.socket_of(ps[k]) == g0.socket_of(ps[k])
        &&& g1.wd().comp::<PortLabel>(ps[k]) == g0.wd().comp::<PortLabel>(ps[k])
    } by {
        let p = ps[k];
        assert(g0.ports_of(n).contains(p));
        assert(g0.owner_of(p) == Some(n));
        assert(g1.wd().alive(p));
        g1.wd().lemma_comp_kept::<crate::graph::port::PortOwner>(&g0.wd(), ks, p);
        g1.wd().lemma_comp_kept::<PortDirection>(&g0.wd(), ks, p);
        g1.wd().lemma_comp_kept::<PortSocketType>(&g0.wd(), ks, p);
        g1.wd().lemma_comp_kept::<PortLabel>(&g0.wd(), ks, p);
    }
}

/// What a `connect` call from `g0`, as its contract states it, keeps for
/// `lemma_connect_keeps`: each live entity that is not a connection stays
/// alive.
pub(crate) proof fn lemma_connect_spares<F: Copy>(g0: NodeGraph<F>, g1: NodeGraph<F>, src: EntityId, tgt: EntityId, r: Result<EntityId, crate::graph::ConnectionError>)
    requires
        g0.wf(),
        match g0.validation(src, tgt) {
            Err(e) => r == Err::<EntityId, crate::graph::ConnectionError>(e) && g1 == g0,
            Ok((out, inp)) => r matches Ok(c) && {
                let replaced = g0.conns_of(inp);
                &&& !g0.wd().alive(c)
                &&& forall|e: EntityId|
                    e != c && !replaced.contains(e) ==> #[trigger] g1.wd().alive(e) == g0.wd().alive(e)
                &&& forall|e: EntityId|
                    e != c && !replaced.contains(e) ==> #[trigger] g1.endpoints(e) == g0.endpoints(e)
            },
        },
    ensures
        forall|e: EntityId|
            g0.wd().alive(e) && g0.endpoints(e) is None ==> #[trigger] g1.wd().alive(e) && g1.endpoints(e) is None,
{
    assert forall|e: EntityId| g0.wd().alive(e) && g0.endpoints(e) is None implies #[trigger] g1.wd().alive(e) && g1.endpoints(e) is None by {
        match g0.validation(src, tgt) {
            Ok((out, inp)) => {
                if g0.conns_of(inp).contains(e) {
                    assert(false);
                }
            },
            Err(_) => {},
        }
    }
}

} // verus!

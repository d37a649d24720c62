use vstd::prelude::*;
use crate::store::EntityId;
use crate::graph::NodeGraph;
use crate::graph::node::{NodeHeader, NodePosition};
use crate::graph::port::{PortDirection, PortLabel, PortOwner, PortSocketType};
use crate::graph::connection::ConnectionEndpoints;
use crate::store::change::ComponentKind;
use crate::store::component::contains_id;
use crate::graph::group::GroupIOKind;
use crate::graph::keeps::{keeps_nodes, lemma_keeps_trans, lemma_keeps_by_kinds};
use crate::serialization::{
    IdMap, SerializedConnection, SerializedGraph, SerializedNode, SerializedPort, connection_record, port_record,
};

verus! {

/// `sn` records node `n` of `g` for the clipboard: its id, header, position
/// and ports; clipboard records carry no reroute, subgraph or group data.
pub open spec fn clip_record<F: Copy>(g: NodeGraph<F>, n: EntityId, sn: SerializedNode<F>) -> bool {
    &&& sn.id == n.index
    &&& g.wd().comp::<NodeHeader>(n) == Some(sn.header)
    &&& (g.wd().comp::<NodePosition<F>>(n) matches Some(p) ==> sn.position == (p.x, p.y))
    &&& sn.ports@.len() == g.ports_of(n).len()
    &&& forall|j: int| 0 <= j < sn.ports@.len() ==> port_record(g, g.ports_of(n)[j], #[trigger] sn.ports@[j])
    &&& !sn.is_reroute
    &&& sn.subgraph_id is None
    &&& sn.group_io_kind is None
}

/// The first `i` ids of `ids` that are nodes (have a header), in order.
pub open spec fn kept_nodes<F: Copy>(g: NodeGraph<F>, ids: Seq<EntityId>, i: nat) -> Seq<EntityId>
    decreases i,
{
    if i == 0 || i > ids.len() {
        Seq::empty()
    } else {
        let before = kept_nodes(g, ids, (i - 1) as nat);
        if g.wd().comp::<NodeHeader>(ids[i - 1]) is Some {
            before.push(ids[i - 1])
        } else {
            before
        }
    }
}

/// Connection `c` joins two ports whose owners both occur in `nodes`.
pub open spec fn joins_within<F: Copy>(g: NodeGraph<F>, c: EntityId, nodes: Seq<EntityId>) -> bool {
    match g.endpoints(c) {
        Some(ep) => match (g.owner_of(ep.source_port), g.owner_of(ep.target_port)) {
            (Some(so), Some(to)) => nodes.contains(so) && nodes.contains(to),
            _ => false,
        },
        None => false,
    }
}

/// `acc` extended with those of the first `j` connections of `cs` that
/// join nodes of `nodes` and whose index `acc` does not hold yet.
pub open spec fn add_internal<F: Copy>(
    g: NodeGraph<F>,
    acc: Seq<EntityId>,
    cs: Seq<EntityId>,
    nodes: Seq<EntityId>,
    j: nat,
) -> Seq<EntityId>
    decreases j,
{
    if j == 0 || j > cs.len() {
        acc
    } else {
        let before = add_internal(g, acc, cs, nodes, (j - 1) as nat);
        let c = cs[j - 1];
        if !before.map_values(|e: EntityId| e.index).contains(c.index) && joins_within(g, c, nodes) {
            before.push(c)
        } else {
            before
        }
    }
}

/// `acc` extended, port by port, with the new internal connections on the
/// first `k` ports of `ps`.
pub open spec fn internal_on_ports<F: Copy>(
    g: NodeGraph<F>,
    acc: Seq<EntityId>,
    ps: Seq<EntityId>,
    nodes: Seq<EntityId>,
    k: nat,
) -> Seq<EntityId>
    decreases k,
{
    if k == 0 || k > ps.len() {
        acc
    } else {
        let before = internal_on_ports(g, acc, ps, nodes, (k - 1) as nat);
        add_internal(g, before, g.conns_of(ps[k - 1]), nodes, g.conns_of(ps[k - 1]).len())
    }
}

/// The connections between nodes of `ids` met on the ports of the first
/// `i` nodes of `ids`, in the order they are met, each index once.
pub open spec fn internal_conns<F: Copy>(g: NodeGraph<F>, ids: Seq<EntityId>, i: nat) -> Seq<EntityId>
    decreases i,
{
    if i == 0 || i > ids.len() {
        Seq::empty()
    } else {
        let before = internal_conns(g, ids, (i - 1) as nat);
        let n = ids[i - 1];
        if g.wd().comp::<NodeHeader>(n) is Some {
            internal_on_ports(g, before, g.ports_of(n), ids, g.ports_of(n).len())
        } else {
            before
        }
    }
}

/// Whether `x` occurs in `v`.
fn contains_index(v: &Vec<u32>, x: u32) -> (r: bool)
    ensures
        r == v@.contains(x),
{
    let mut i: usize = 0;
    while i < v.len()
        invariant
            i <= v@.len(),
            forall|j: int| 0 <= j < i ==> v@[j] != x,
        decreases v.len() - i,
    {
        if v[i] == x {
            return true;
        }
        i = i + 1;
    }
    false
}

/// Whether connection `c` of `graph` joins two ports owned by nodes of
/// `node_ids`.
fn joins_nodes<F: Copy>(graph: &NodeGraph<F>, c: EntityId, node_ids: &[EntityId]) -> (r: bool)
    requires
        graph.wd().wf(),
    ensures
        r == joins_within(*graph, c, node_ids@),
{
    let w = graph.world_ref();
    match w.get::<ConnectionEndpoints>(c) {
        Some(ep) => {
            let so = w.get::<PortOwner>(ep.source_port);
            let to = w.get::<PortOwner>(ep.target_port);
            match (so, to) {
                (Some(so), Some(to)) => contains_id(node_ids, so.0) && contains_id(node_ids, to.0),
                _ => false,
            }
        },
        None => false,
    }
}

/// The record of one node for the clipboard.
fn clip_node<F: Copy + Default>(graph: &NodeGraph<F>, n: EntityId, header: &NodeHeader) -> (r: SerializedNode<F>)
    requires
        graph.wf(),
        graph.wd().comp::<NodeHeader>(n) == Some(*header),
    ensures
        clip_record(*graph, n, r),
{
    let zero = F::default();
    let position = match graph.world_ref().get::<NodePosition<F>>(n) {
        Some(p) => (p.x, p.y),
        None => (zero, zero),
    };
    let port_ids = graph.node_ports(n);
    let mut ports: Vec<SerializedPort> = Vec::new();
    let mut j: usize = 0;
    while j < port_ids.len()
        invariant
            graph.wf(),
            port_ids@ == graph.ports_of(n),
            j <= port_ids@.len(),
            ports@.len() == j,
            forall|i: int| 0 <= i < j ==> port_record(*graph, port_ids@[i], #[trigger] ports@[i]),
        decreases port_ids.len() - j,
    {
        ports.push(graph.serialize_port(port_ids[j]));
        j = j + 1;
    }
    SerializedNode {
        id: n.index,
        header: header.clone(),
        position,
        ports,
        is_reroute: false,
        subgraph_id: None,
        group_io_kind: None,
    }
}

/// Copy the nodes `node_ids` of `graph` (those that have a header), with
/// their ports and the connections among them, for pasting.
pub fn copy_nodes<F: Copy + Default>(graph: &NodeGraph<F>, node_ids: &[EntityId]) -> (r: SerializedGraph<F>)
    requires
        graph.wf(),
    ensures
        ({
            let kept = kept_nodes(*graph, node_ids@, node_ids@.len());
            &&& r.nodes@.len() == kept.len()
            &&& forall|i: int| 0 <= i < kept.len() ==> clip_record(*graph, kept[i], #[trigger] r.nodes@[i])
        }),
        ({
            let ic = internal_conns(*graph, node_ids@, node_ids@.len());
            &&& r.connections@.len() == ic.len()
            &&& forall|i: int| 0 <= i < ic.len() ==> connection_record(*graph, ic[i], #[trigger] r.connections@[i])
        }),
        r.frames@.len() == 0,
{
    let ghost ids = node_ids@;
    let mut nodes: Vec<SerializedNode<F>> = Vec::new();
    let mut connections: Vec<SerializedConnection> = Vec::new();
    let mut seen: Vec<u32> = Vec::new();
    let ghost mut found: Seq<EntityId> = Seq::empty();
    let mut i: usize = 0;
    while i < node_ids.len()
        invariant
            graph.wf(),
            node_ids@ == ids,
            i <= ids.len(),
            nodes@.len() == kept_nodes(*graph, ids, i as nat).len(),
            forall|a: int|
                0 <= a < nodes@.len() ==> clip_record(*graph, kept_nodes(*graph, ids, i as nat)[a], #[trigger] nodes@[a]),
            found == internal_conns(*graph, ids, i as nat),
            seen@ == found.map_values(|e: EntityId| e.index),
            connections@.len() == found.len(),
            forall|a: int| 0 <= a < found.len() ==> connection_record(*graph, found[a], #[trigger] connections@[a]),
        decreases node_ids.len() - i,
    {
        let n = node_ids[i];
        match graph.world_ref().get::<NodeHeader>(n) {
            Some(header) => {
                nodes.push(clip_node(graph, n, header));
                let port_ids = graph.node_ports(n);
                let ghost before_node = found;
                let mut k: usize = 0;
                while k < port_ids.len()
                    invariant
                        graph.wf(),
                        node_ids@ == ids,
                        port_ids@ == graph.ports_of(n),
                        k <= port_ids@.len(),
                        found == internal_on_ports(*graph, before_node, port_ids@, ids, k as nat),
                        seen@ == found.map_values(|e: EntityId| e.index),
                        connections@.len() == found.len(),
                        forall|a: int| 0 <= a < found.len() ==> connection_record(*graph, found[a], #[trigger] connections@[a]),
                    decreases port_ids.len() - k,
                {
                    let conns = graph.port_connections(port_ids[k]);
                    let ghost before_port = found;
                    let mut j: usize = 0;
                    while j < conns.len()
                        invariant
                            graph.wf(),
                            node_ids@ == ids,
                            conns@ == graph.conns_of(port_ids@[k as int]),
                            j <= conns@.len(),
                            found == add_internal(*graph, before_port, conns@, ids, j as nat),
                            seen@ == found.map_values(|e: EntityId| e.index),
                            connections@.len() == found.len(),
                            forall|a: int|
                                0 <= a < found.len() ==> connection_record(*graph, found[a], #[trigger] connections@[a]),
                        decreases conns.len() - j,
                    {
                        let c = conns[j];
                        if !contains_index(&seen, c.index) && joins_nodes(graph, c, node_ids) {
                            let ep = graph.world_ref().get::<ConnectionEndpoints>(c).unwrap();
                            connections.push(
                                SerializedConnection {
                                    id: c.index,
                                    source_port: ep.source_port.index,
                                    target_port: ep.target_port.index,
                                },
                            );
                            seen.push(c.index);
                            proof {
                                found = found.push(c);
                                assert(seen@ =~= found.map_values(|e: EntityId| e.index));
                            }
                        }
                        j = j + 1;
                    }
                    k = k + 1;
                }
            },
            None => {},
        }
        i = i + 1;
    }
    SerializedGraph { nodes, connections, frames: Vec::new() }
}

/// Port `p` of `g` belongs to `n` and was made from the stored port `sp`.
pub open spec fn port_pasted<F: Copy>(g: NodeGraph<F>, p: EntityId, n: EntityId, sp: SerializedPort) -> bool {
    &&& g.owner_of(p) == Some(n)
    &&& g.dir_of(p) == Some(sp.direction)
    &&& g.socket_of(p) == Some(sp.socket_type)
    &&& g.wd().comp::<PortLabel>(p) matches Some(l) && l.0@ == sp.label@
}

/// Node `n` of `g` was made from the stored node `sn`: it has its header
/// and position, and its ports were made, in order, from `sn`'s ports.
pub open spec fn pasted_from<F: Copy>(g: NodeGraph<F>, n: EntityId, sn: SerializedNode<F>) -> bool {
    &&& g.can_own_ports(n)
    &&& g.wd().comp::<NodeHeader>(n) == Some(sn.header)
    &&& g.wd().comp::<NodePosition<F>>(n) == Some(NodePosition { x: sn.position.0, y: sn.position.1 })
    &&& g.ports_of(n).len() == sn.ports@.len()
    &&& forall|j: int| 0 <= j < sn.ports@.len() ==> port_pasted(g, #[trigger] g.ports_of(n)[j], n, sn.ports@[j])
}

/// Stored ports of the first `i` stored nodes, all told.
pub open spec fn ports_total<F>(nodes: Seq<SerializedNode<F>>, i: nat) -> int
    decreases i,
{
    if i == 0 || i > nodes.len() {
        0
    } else {
        ports_total(nodes, (i - 1) as nat) + nodes[i - 1].ports@.len()
    }
}

/// Fresh ids that pasting `data` may take: its nodes, their ports and one
/// per stored connection.
pub open spec fn paste_ids_needed<F>(data: SerializedGraph<F>) -> int {
    data.nodes@.len() + ports_total(data.nodes@, data.nodes@.len()) + data.connections@.len()
}

proof fn lemma_ports_total_grows<F>(nodes: Seq<SerializedNode<F>>, i: nat, j: nat)
    requires
        i <= j <= nodes.len(),
    ensures
        ports_total(nodes, i) <= ports_total(nodes, j),
    decreases j,
{
    if i < j {
        lemma_ports_total_grows(nodes, i, (j - 1) as nat);
    }
}

proof fn lemma_pasted_kept<F: Copy>(g0: NodeGraph<F>, g1: NodeGraph<F>, n: EntityId, sn: SerializedNode<F>)
    requires
        g0.wf(),
        pasted_from(g0, n, sn),
        keeps_nodes(g0, g1),
    ensures
        pasted_from(g1, n, sn),
{
    assert(g1.wd().alive(n));
    assert forall|j: int| 0 <= j < sn.ports@.len() implies port_pasted(g1, #[trigger] g1.ports_of(n)[j], n, sn.ports@[j]) by {
        let p = g0.ports_of(n)[j];
        assert(port_pasted(g0, g0.ports_of(n)[j], n, sn.ports@[j]));
        assert(g0.owner_of(p) is Some);
        assert(g1.wd().alive(p));
    }
}

/// Paste one stored node with its ports, recording the new ids in `ids`.
fn paste_one<F: Copy>(graph: &mut NodeGraph<F>, sn: &SerializedNode<F>, ids: &mut IdMap) -> (n: EntityId)
    requires
        old(graph).wf(),
        old(graph).wd().room() >= 1 + sn.ports@.len(),
        old(ids).wf(),
    ensures
        final(graph).wf(),
        final(ids).wf(),
        final(graph).wd().room() >= old(graph).wd().room() - 1 - sn.ports@.len(),
        !old(graph).wd().alive(n),
        pasted_from(*final(graph), n, *sn),
        keeps_nodes(*old(graph), *final(graph)),
        forall|e: EntityId| #[trigger] old(graph).wd().alive(e) ==> final(graph).wd().alive(e),
{
    let n = graph.add_node(sn.header.title.as_str(), sn.position);
    let ghost g1 = *graph;
    proof {
        assert forall|e: EntityId| old(graph).wd().alive(e) && old(graph).endpoints(e) is None implies {
            &&& #[trigger] g1.wd().alive(e)
            &&& g1.endpoints(e) is None
            &&& g1.ports_of(e) == old(graph).ports_of(e)
            &&& g1.owner_of(e) == old(graph).owner_of(e)
            &&& g1.dir_of(e) == old(graph).dir_of(e)
            &&& g1.socket_of(e) == old(graph).socket_of(e)
            &&& g1.wd().comp::<PortLabel>(e) == old(graph).wd().comp::<PortLabel>(e)
            &&& g1.wd().comp::<NodeHeader>(e) == old(graph).wd().comp::<NodeHeader>(e)
            &&& g1.wd().comp::<NodePosition<F>>(e) == old(graph).wd().comp::<NodePosition<F>>(e)
            &&& g1.wd().comp::<GroupIOKind>(e) == old(graph).wd().comp::<GroupIOKind>(e)
        } by {
            let ks = set![ComponentKind::NodeHeader, ComponentKind::NodePosition];
            g1.wd().lemma_comp_kept::<PortSocketType>(&old(graph).wd(), ks, e);
            g1.wd().lemma_comp_kept::<PortLabel>(&old(graph).wd(), ks, e);
            g1.wd().lemma_comp_kept::<GroupIOKind>(&old(graph).wd(), ks, e);
        }
    }
    graph.set_component(n, sn.header.clone());
    let ghost g2 = *graph;
    proof {
        crate::store::components::lemma_same_except_single(g2.wd().comps(), g1.wd().comps(), ComponentKind::NodeHeader);
        let ks = set![ComponentKind::NodeHeader];
        g2.wd().lemma_comp_kept::<NodePosition<F>>(&g1.wd(), ks, n);
        assert forall|e: EntityId| old(graph).wd().alive(e) && old(graph).endpoints(e) is None implies {
            &&& #[trigger] g2.wd().alive(e)
            &&& g2.endpoints(e) is None
            &&& g2.ports_of(e) == old(graph).ports_of(e)
            &&& g2.owner_of(e) == old(graph).owner_of(e)
            &&& g2.dir_of(e) == old(graph).dir_of(e)
            &&& g2.socket_of(e) == old(graph).socket_of(e)
            &&& g2.wd().comp::<PortLabel>(e) == old(graph).wd().comp::<PortLabel>(e)
            &&& g2.wd().comp::<NodeHeader>(e) == old(graph).wd().comp::<NodeHeader>(e)
            &&& g2.wd().comp::<NodePosition<F>>(e) == old(graph).wd().comp::<NodePosition<F>>(e)
            &&& g2.wd().comp::<GroupIOKind>(e) == old(graph).wd().comp::<GroupIOKind>(e)
        } by {
            assert(g1.wd().alive(e));
            g2.wd().lemma_comp_kept::<PortSocketType>(&g1.wd(), ks, e);
            g2.wd().lemma_comp_kept::<PortLabel>(&g1.wd(), ks, e);
            g2.wd().lemma_comp_kept::<NodePosition<F>>(&g1.wd(), ks, e);
            g2.wd().lemma_comp_kept::<GroupIOKind>(&g1.wd(), ks, e);
        }
    }
    ids.insert(sn.id, n);
    let mut j: usize = 0;
    while j < sn.ports.len()
        invariant
            graph.wf(),
            ids.wf(),
            graph.can_own_ports(n),
            !old(graph).wd().alive(n),
            j <= sn.ports@.len(),
            graph.wd().room() >= g2.wd().room() - j,
            g2.wd().room() >= sn.ports@.len(),
            g2.wd().room() >= old(graph).wd().room() - 1,
            graph.ports_of(n).len() == j,
            graph.wd().comp::<NodeHeader>(n) == Some(sn.header),
            graph.wd().comp::<NodePosition<F>>(n) == Some(NodePosition { x: sn.position.0, y: sn.position.1 }),
            forall|a: int| 0 <= a < j ==> port_pasted(*graph, #[trigger] graph.ports_of(n)[a], n, sn.ports@[a]),
            keeps_nodes(*old(graph), *graph),
            forall|e: EntityId| #[trigger] old(graph).wd().alive(e) ==> graph.wd().alive(e),
        decreases sn.ports.len() - j,
    {
        let ghost g0 = *graph;
        let sp = &sn.ports[j];
        let pid = graph.add_port(n, sp.direction, sp.socket_type, sp.label.as_str());
        ids.insert(sp.id, pid);
        proof {
            let ks = set![ComponentKind::PortOwner, ComponentKind::PortDirection, ComponentKind::PortSocketType, ComponentKind::PortLabel, ComponentKind::PortIndex];
            graph.wd().lemma_comp_kept::<NodeHeader>(&g0.wd(), ks, n);
            graph.wd().lemma_comp_kept::<NodePosition<F>>(&g0.wd(), ks, n);
            assert(graph.ports_of(n) == g0.ports_of(n).push(pid));
            assert forall|e: EntityId| g0.wd().alive(e) && g0.endpoints(e) is None && e != n implies {
                &&& #[trigger] graph.wd().alive(e)
                &&& graph.endpoints(e) is None
                &&& graph.ports_of(e) == g0.ports_of(e)
                &&& graph.owner_of(e) == g0.owner_of(e)
                &&& graph.dir_of(e) == g0.dir_of(e)
                &&& graph.socket_of(e) == g0.socket_of(e)
                &&& graph.wd().comp::<PortLabel>(e) == g0.wd().comp::<PortLabel>(e)
                &&& graph.wd().comp::<NodeHeader>(e) == g0.wd().comp::<NodeHeader>(e)
                &&& graph.wd().comp::<NodePosition<F>>(e) == g0.wd().comp::<NodePosition<F>>(e)
                &&& graph.wd().comp::<GroupIOKind>(e) == g0.wd().comp::<GroupIOKind>(e)
            } by {
                graph.wd().lemma_comp_kept::<NodeHeader>(&g0.wd(), ks, e);
                graph.wd().lemma_comp_kept::<NodePosition<F>>(&g0.wd(), ks, e);
                graph.wd().lemma_comp_kept::<GroupIOKind>(&g0.wd(), ks, e);
            }
            assert(keeps_nodes(*old(graph), *graph)) by {
                assert forall|e: EntityId| old(graph).wd().alive(e) && old(graph).endpoints(e) is None implies {
                    &&& #[trigger] graph.wd().alive(e)
                    &&& graph.endpoints(e) is None
                    &&& graph.ports_of(e) == old(graph).ports_of(e)
                    &&& graph.owner_of(e) == old(graph).owner_of(e)
                    &&& graph.dir_of(e) == old(graph).dir_of(e)
                    &&& graph.socket_of(e) == old(graph).socket_of(e)
                    &&& graph.wd().comp::<PortLabel>(e) == old(graph).wd().comp::<PortLabel>(e)
                    &&& graph.wd().comp::<NodeHeader>(e) == old(graph).wd().comp::<NodeHeader>(e)
                    &&& graph.wd().comp::<NodePosition<F>>(e) == old(graph).wd().comp::<NodePosition<F>>(e)
                    &&& graph.wd().comp::<GroupIOKind>(e) == old(graph).wd().comp::<GroupIOKind>(e)
                } by {
                    assert(g0.wd().alive(e));
                    assert(e != n);
                }
            }
            assert forall|a: int| 0 <= a < j + 1 implies port_pasted(*graph, #[trigger] graph.ports_of(n)[a], n, sn.ports@[a]) by {
                if a < j {
                    assert(port_pasted(g0, g0.ports_of(n)[a], n, sn.ports@[a]));
                    assert(g0.ports_of(n)[a] != pid);
                }
            }
        }
        j = j + 1;
    }
    n
}

/// Paste clipboard data at its stored positions: each stored node with its
/// header and ports, then each stored connection whose two port ids were
/// pasted. Returns the new nodes, in the order of `data.nodes`. Nothing
/// happens when the graph has no room for what the data may need.
pub fn paste_nodes<F: Copy>(graph: &mut NodeGraph<F>, data: &SerializedGraph<F>) -> (r: Vec<EntityId>)
    requires
        old(graph).wf(),
    ensures
        final(graph).wf(),
        old(graph).wd().room() < paste_ids_needed(*data) ==> r@.len() == 0 && *final(graph) == *old(graph),
        old(graph).wd().room() >= paste_ids_needed(*data) ==> {
            &&& r@.len() == data.nodes@.len()
            &&& r@.no_duplicates()
            &&& forall|i: int|
                0 <= i < r@.len() ==> !old(graph).wd().alive(#[trigger] r@[i]) && pasted_from(
                    *final(graph),
                    r@[i],
                    data.nodes@[i],
                )
        },
{
    let room = graph.room_left() as u128;
    let mut needed: u128 = data.connections.len() as u128;
    let mut i: usize = 0;
    while i < data.nodes.len()
        invariant
            graph.wf(),
            *graph == *old(graph),
            old(graph).wd().room() >= 0 ==> room == old(graph).wd().room(),
            old(graph).wd().room() < 0 ==> room == 0,
            i <= data.nodes@.len(),
            needed == data.connections@.len() + i + ports_total(data.nodes@, i as nat),
            needed <= room + 0x1_0000_0000_0000_0000 + 0x1_0000_0000_0000_0000,
            room <= u64::MAX,
        decreases data.nodes.len() - i,
    {
        if needed > room {
            proof {
                lemma_ports_total_grows(data.nodes@, i as nat, data.nodes@.len());
            }
            return Vec::new();
        }
        needed = needed + 1 + data.nodes[i].ports.len() as u128;
        i = i + 1;
    }
    proof {
        lemma_ports_total_grows(data.nodes@, 0, data.nodes@.len());
    }
    if needed > room || needed == 0 {
        return Vec::new();
    }
    let mut ids = IdMap::new();
    let mut new_nodes: Vec<EntityId> = Vec::new();
    let mut i: usize = 0;
    while i < data.nodes.len()
        invariant
            graph.wf(),
            ids.wf(),
            i <= data.nodes@.len(),
            graph.wd().room() >= old(graph).wd().room() - i - ports_total(data.nodes@, i as nat),
            old(graph).wd().room() >= paste_ids_needed(*data),
            new_nodes@.len() == i,
            new_nodes@.no_duplicates(),
            keeps_nodes(*old(graph), *graph),
            forall|e: EntityId| #[trigger] old(graph).wd().alive(e) ==> graph.wd().alive(e),
            forall|a: int|
                0 <= a < i ==> !old(graph).wd().alive(#[trigger] new_nodes@[a]) && pasted_from(
                    *graph,
                    new_nodes@[a],
                    data.nodes@[a],
                ),
        decreases data.nodes.len() - i,
    {
        let ghost g0 = *graph;
        proof {
            lemma_ports_total_grows(data.nodes@, (i + 1) as nat, data.nodes@.len());
        }
        let n = paste_one(graph, &data.nodes[i], &mut ids);
        proof {
            lemma_keeps_trans(*old(graph), g0, *graph);
            assert forall|a: int| 0 <= a < i implies !old(graph).wd().alive(#[trigger] new_nodes@[a]) && pasted_from(
                *graph,
                new_nodes@[a],
                data.nodes@[a],
            ) by {
                lemma_pasted_kept(g0, *graph, new_nodes@[a], data.nodes@[a]);
            }
            assert forall|a: int| 0 <= a < i implies #[trigger] new_nodes@[a] != n by {
                assert(g0.can_own_ports(new_nodes@[a]));
            }
        }
        new_nodes.push(n);
        i = i + 1;
    }
    let ghost g_nodes = *graph;
    let mut c: usize = 0;
    while c < data.connections.len()
        invariant
            graph.wf(),
            ids.wf(),
            c <= data.connections@.len(),
            graph.wd().room() >= g_nodes.wd().room() - c,
            g_nodes.wd().room() >= data.connections@.len(),
            keeps_nodes(g_nodes, *graph),
        decreases data.connections.len() - c,
    {
        let sc = &data.connections[c];
        match (ids.get(sc.source_port), ids.get(sc.target_port)) {
            (Some(src), Some(tgt)) => {
                let ghost g0 = *graph;
                let r = graph.connect(src, tgt);
                proof {
                    crate::commands::remove::lemma_connect_spares(g0, *graph, src, tgt, r);
                    lemma_keeps_by_kinds(g0, *graph, set![ComponentKind::ConnectionEndpoints]);
                    lemma_keeps_trans(g_nodes, g0, *graph);
                }
            },
            _ => {},
        }
        c = c + 1;
    }
    proof {
        assert forall|a: int| 0 <= a < new_nodes@.len() implies !old(graph).wd().alive(#[trigger] new_nodes@[a]) && pasted_from(
            *graph,
            new_nodes@[a],
            data.nodes@[a],
        ) by {
            lemma_pasted_kept(g_nodes, *graph, new_nodes@[a], data.nodes@[a]);
        }
    }
    new_nodes
}

/// Pasting a copied node gives back the node: the pasted node has the
/// header and position of the node copied, and ports with the same
/// directions, socket types and labels, in the same order.
pub proof fn lemma_paste_of_copy<F: Copy>(
    g0: NodeGraph<F>,
    n: EntityId,
    sn: SerializedNode<F>,
    g1: NodeGraph<F>,
    m: EntityId,
)
    requires
        clip_record(g0, n, sn),
        pasted_from(g1, m, sn),
        forall|j: int|
            0 <= j < g0.ports_of(n).len() ==> crate::commands::remove::port_complete(g0, #[trigger] g0.ports_of(n)[j]),
    ensures
        g1.wd().comp::<NodeHeader>(m) == g0.wd().comp::<NodeHeader>(n),
        g0.wd().comp::<NodePosition<F>>(n) is Some ==> g1.wd().comp::<NodePosition<F>>(m) == g0.wd().comp::<
            NodePosition<F>,
        >(n),
        g1.ports_of(m).len() == g0.ports_of(n).len(),
        forall|j: int|
            0 <= j < g0.ports_of(n).len() ==> {
                &&& g1.owner_of(#[trigger] g1.ports_of(m)[j]) == Some(m)
                &&& g1.dir_of(g1.ports_of(m)[j]) == g0.dir_of(g0.ports_of(n)[j])
                &&& g1.socket_of(g1.ports_of(m)[j]) == g0.socket_of(g0.ports_of(n)[j])
                &&& g1.wd().comp::<PortLabel>(g1.ports_of(m)[j]) matches Some(l1) && g0.wd().comp::<PortLabel>(
                    g0.ports_of(n)[j],
                ) matches Some(l0) && l1.0@ == l0.0@
            },
{
    assert forall|j: int| 0 <= j < g0.ports_of(n).len() implies {
        &&& g1.owner_of(#[trigger] g1.ports_of(m)[j]) == Some(m)
        &&& g1.dir_of(g1.ports_of(m)[j]) == g0.dir_of(g0.ports_of(n)[j])
        &&& g1.socket_of(g1.ports_of(m)[j]) == g0.socket_of(g0.ports_of(n)[j])
        &&& g1.wd().comp::<PortLabel>(g1.ports_of(m)[j]) matches Some(l1) && g0.wd().comp::<PortLabel>(
            g0.ports_of(n)[j],
        ) matches Some(l0) && l1.0@ == l0.0@
    } by {
        assert(port_record(g0, g0.ports_of(n)[j], sn.ports@[j]));
        assert(port_pasted(g1, g1.ports_of(m)[j], m, sn.ports@[j]));
        assert(crate::commands::remove::port_complete(g0, g0.ports_of(n)[j]));
    }
}

} // verus!

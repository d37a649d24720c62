use vstd::prelude::*;
use crate::store::EntityId;
use crate::types::socket_type::{SocketType, compatible};
use crate::graph::{NodeGraph, ConnectionError, GroupIOKind};
use crate::graph::node::{NodeHeader, NodePosition};
use crate::graph::port::{PortDirection, PortSocketType, PortLabel};
use crate::graph::connection::ConnectionEndpoints;
use crate::graph::frame::{FrameLabel, FrameColor, FrameRect, FrameMembers};
use crate::graph::group::{SubgraphRoot, GroupIOLabel};
use crate::graph::reroute::IsReroute;
use vstd::string::StrSliceExecFns;
use crate::store::ComponentKind;
use crate::graph::edits::lemma_validation_same;
use crate::graph::keeps::{
    keeps_nodes, keeps_nodes_but, lemma_add_node_keeps, lemma_set_header_keeps_but, lemma_set_other_keeps, lemma_keeps_weaken,
    lemma_keeps_but_trans, lemma_set_io_kind_keeps_but, lemma_add_port_keeps_but, lemma_keeps_join, lemma_keeps_by_kinds,
    lemma_connect_keeps_nodes,
};

verus! {

/// A port as stored: its id, direction, socket type and label.
#[derive(Debug, Clone)]
pub struct SerializedPort {
    pub id: u32,
    pub direction: PortDirection,
    pub socket_type: SocketType,
    pub label: String,
}

/// A connection as stored: its id and the ids of its two ports.
#[derive(Debug, Clone, Copy, PartialEq, Eq)]
pub struct SerializedConnection {
    pub id: u32,
    pub source_port: u32,
    pub target_port: u32,
}

/// A frame as stored: label, color and the ids of its member nodes.
#[derive(Debug, Clone)]
pub struct SerializedFrame {
    pub label: String,
    pub color: [u8; 3],
    pub member_node_ids: Vec<u32>,
}

/// A node as stored, with its ports.
#[derive(Debug)]
pub struct SerializedNode<F> {
    pub id: u32,
    pub header: NodeHeader,
    pub position: (F, F),
    pub ports: Vec<SerializedPort>,
    pub is_reroute: bool,
    pub subgraph_id: Option<u32>,
    pub group_io_kind: Option<GroupIOKind>,
}

/// A whole graph as stored.
#[derive(Debug)]
pub struct SerializedGraph<F> {
    pub nodes: Vec<SerializedNode<F>>,
    pub connections: Vec<SerializedConnection>,
    pub frames: Vec<SerializedFrame>,
}

/// A whole editor as stored: each graph under its id, the root graph's id
/// and the next graph id to hand out.
#[derive(Debug)]
pub struct SerializedGraphEditor<F> {
    pub root_graph_id: u32,
    pub graphs: Vec<(u32, SerializedGraph<F>)>,
    pub next_graph_id: u32,
}

/// Why a stored graph could not be rebuilt.
#[derive(Debug, Clone, Copy, PartialEq, Eq)]
pub enum DeserializeError {
    /// A connection names a port id that no stored node or port has.
    OrphanedConnection { source_port: u32, target_port: u32 },
    /// Connecting the two ports of a stored connection failed.
    ConnectionFailed { source_port: u32, target_port: u32, reason: ConnectionError },
    /// Two stored graphs carry the same id.
    DuplicateGraphId { id: u32 },
    /// No stored graph carries the root graph's id.
    MissingRootGraph { root_graph_id: u32 },
}

/// No two stored graphs carry the same id.
pub open spec fn graph_ids_unique<F>(data: SerializedGraphEditor<F>) -> bool {
    forall|i: int, j: int|
        0 <= i < data.graphs@.len() && 0 <= j < data.graphs@.len() && data.graphs@[i].0 == data.graphs@[j].0 ==> i == j
}

/// Some stored graph carries the root graph's id.
pub open spec fn has_root_graph<F>(data: SerializedGraphEditor<F>) -> bool {
    exists|i: int| 0 <= i < data.graphs@.len() && data.graphs@[i].0 == data.root_graph_id
}

/// From stored ids to the entities rebuilt for them; a later entry for the
/// same stored id replaces the earlier one.
pub struct IdMap {
    entries: Vec<(u32, EntityId)>,
}

impl View for IdMap {
    type V = Map<u32, EntityId>;

    closed spec fn view(&self) -> Map<u32, EntityId> {
        self.as_map()
    }
}

impl IdMap {
    /// Each stored id with an entry, sent to the entity of that entry.
    #[verifier::opaque]
    closed spec fn as_map(&self) -> Map<u32, EntityId> {
        Map::new(
            |k: u32| exists|i: int| 0 <= i < self.entries@.len() && self.entries@[i].0 == k,
            |k: u32| self.entries@[choose|i: int| 0 <= i < self.entries@.len() && self.entries@[i].0 == k].1,
        )
    }
}

impl IdMap {
    /// No stored id occurs twice.
    pub closed spec fn wf(&self) -> bool {
        forall|i: int, j: int|
            0 <= i < self.entries@.len() && 0 <= j < self.entries@.len() && self.entries@[i].0
                == self.entries@[j].0 ==> i == j
    }

    pub fn new() -> (r: Self)
        ensures
            r.wf(),
            r@ == Map::<u32, EntityId>::empty(),
    {
        reveal(IdMap::as_map);
        let r = IdMap { entries: Vec::new() };
        assert(r@ =~= Map::<u32, EntityId>::empty());
        r
    }

    fn find(&self, k: u32) -> (r: Option<usize>)
        requires
            self.wf(),
        ensures
            match r {
                Some(i) => i < self.entries@.len() && self.entries@[i as int].0 == k,
                None => !self@.contains_key(k),
            },
    {
        reveal(IdMap::as_map);
        let mut i: usize = 0;
        while i < self.entries.len()
            invariant
                i <= self.entries@.len(),
                forall|j: int| 0 <= j < i ==> self.entries@[j].0 != k,
            decreases self.entries.len() - i,
        {
            if self.entries[i].0 == k {
                return Some(i);
            }
            i = i + 1;
        }
        None
    }

    proof fn lemma_at(&self, i: int)
        requires
            self.wf(),
            0 <= i < self.entries@.len(),
        ensures
            self@.contains_key(self.entries@[i].0),
            self@[self.entries@[i].0] == self.entries@[i].1,
    {
        reveal(IdMap::as_map);
        let k = self.entries@[i].0;
        assert(exists|j: int| 0 <= j < self.entries@.len() && self.entries@[j].0 == k);
        let j = choose|j: int| 0 <= j < self.entries@.len() && self.entries@[j].0 == k;
        assert(j == i);
    }

    /// The entity rebuilt for stored id `k`.
    pub fn get(&self, k: u32) -> (r: Option<EntityId>)
        requires
            self.wf(),
        ensures
            r == (if self@.contains_key(k) { Some(self@[k]) } else { None }),
    {
        match self.find(k) {
            Some(i) => {
                proof {
                    self.lemma_at(i as int);
                }
                Some(self.entries[i].1)
            },
            None => None,
        }
    }

    /// Record the entity rebuilt for stored id `k`, replacing an earlier one.
    pub fn insert(&mut self, k: u32, v: EntityId)
        requires
            old(self).wf(),
        ensures
            final(self).wf(),
            final(self)@ == old(self)@.insert(k, v),
    {
        reveal(IdMap::as_map);
        let ghost at: int;
        match self.find(k) {
            Some(i) => {
                self.entries.set(i, (k, v));
                proof {
                    at = i as int;
                }
            },
            None => {
                proof {
                    at = self.entries@.len() as int;
                }
                self.entries.push((k, v));
            },
        }
        proof {
            assert(self.entries@[at] == (k, v));
            assert forall|x: u32| #[trigger] self@.contains_key(x) == old(self)@.insert(k, v).contains_key(x) by {
                if old(self)@.contains_key(x) {
                    let j = choose|j: int| 0 <= j < old(self).entries@.len() && old(self).entries@[j].0 == x;
                    if j != at {
                        assert(self.entries@[j].0 == x);
                    }
                }
                if self@.contains_key(x) && x != k {
                    let j = choose|j: int| 0 <= j < self.entries@.len() && self.entries@[j].0 == x;
                    assert(old(self).entries@[j].0 == x);
                }
                if x == k {
                    assert(0 <= at < self.entries@.len() && self.entries@[at].0 == k);
                }
            }
            assert forall|x: u32| #[trigger] self@.contains_key(x) implies self@[x] == old(self)@.insert(k, v)[x] by {
                let j = choose|j: int| 0 <= j < self.entries@.len() && self.entries@[j].0 == x;
                self.lemma_at(j);
                if x != k {
                    old(self).lemma_at(j);
                }
            }
            assert(self@ =~= old(self)@.insert(k, v));
        }
    }
}

/// `m` after recording, in order, the first `j` entities of `pes` under
/// the stored ids of the matching ports of `ps`.
pub open spec fn insert_all(m: Map<u32, EntityId>, ps: Seq<SerializedPort>, pes: Seq<EntityId>, j: int) -> Map<u32, EntityId>
    decreases j,
{
    if j <= 0 {
        m
    } else {
        insert_all(m, ps, pes, j - 1).insert(ps[j - 1].id, pes[j - 1])
    }
}

/// Recording ports leaves the entries of other stored ids alone.
proof fn lemma_insert_all_other(m: Map<u32, EntityId>, ps: Seq<SerializedPort>, pes: Seq<EntityId>, j: int, k: u32)
    requires
        0 <= j <= ps.len(),
        forall|i: int| 0 <= i < j ==> (#[trigger] ps[i]).id != k,
    ensures
        insert_all(m, ps, pes, j).contains_key(k) == m.contains_key(k),
        m.contains_key(k) ==> insert_all(m, ps, pes, j)[k] == m[k],
    decreases j,
{
    if j > 0 {
        assert(ps[j - 1].id != k);
        lemma_insert_all_other(m, ps, pes, j - 1, k);
    }
}

/// The last port recorded under a stored id is what the id maps to.
proof fn lemma_insert_all_last(m: Map<u32, EntityId>, ps: Seq<SerializedPort>, pes: Seq<EntityId>, j: int, i: int)
    requires
        0 <= i < j <= ps.len(),
        forall|i2: int| i < i2 < j ==> (#[trigger] ps[i2]).id != ps[i].id,
    ensures
        insert_all(m, ps, pes, j).contains_key(ps[i].id),
        insert_all(m, ps, pes, j)[ps[i].id] == pes[i],
    decreases j,
{
    if i < j - 1 {
        assert(ps[j - 1].id != ps[i].id);
        lemma_insert_all_last(m, ps, pes, j - 1, i);
    }
}

impl IdMap {
    /// Record node `n` under stored id `nid`, then each port of `pes` under
    /// the stored id of the matching entry of `ps`.
    fn record(&mut self, nid: u32, n: EntityId, ps: &Vec<SerializedPort>, pes: &Vec<EntityId>)
        requires
            old(self).wf(),
            pes@.len() == ps@.len(),
        ensures
            final(self).wf(),
            final(self)@ == insert_all(old(self)@.insert(nid, n), ps@, pes@, ps@.len() as int),
    {
        let ghost m1 = self@.insert(nid, n);
        self.insert(nid, n);
        let mut j: usize = 0;
        while j < ps.len()
            invariant
                self.wf(),
                j <= ps@.len(),
                pes@.len() == ps@.len(),
                self@ == insert_all(m1, ps@, pes@, j as int),
            decreases ps.len() - j,
        {
            self.insert(ps[j].id, pes[j]);
            j = j + 1;
        }
    }
}

/// The stored ids that recording ports adds.
proof fn lemma_insert_all_dom(m: Map<u32, EntityId>, ps: Seq<SerializedPort>, pes: Seq<EntityId>, j: int)
    requires
        0 <= j <= ps.len(),
    ensures
        insert_all(m, ps, pes, j).dom() == m.dom().union(port_ids(ps.subrange(0, j))),
    decreases j,
{
    if j > 0 {
        lemma_insert_all_dom(m, ps, pes, j - 1);
        let a = ps.subrange(0, j).map_values(|p: SerializedPort| p.id);
        let b = ps.subrange(0, j - 1).map_values(|p: SerializedPort| p.id);
        assert(a =~= b.push(ps[j - 1].id));
        assert forall|x: u32| a.to_set().contains(x) <==> b.to_set().insert(ps[j - 1].id).contains(x) by {
            if a.contains(x) && x != ps[j - 1].id {
                let t = choose|t: int| 0 <= t < a.len() && a[t] == x;
                assert(b[t] == x);
            }
            if b.contains(x) {
                let t = choose|t: int| 0 <= t < b.len() && b[t] == x;
                assert(a[t] == x);
            }
            if x == ps[j - 1].id {
                assert(a[b.len() as int] == x);
            }
        }
        assert(a.to_set() =~= b.to_set().insert(ps[j - 1].id));
        assert(insert_all(m, ps, pes, j).dom() =~= m.dom().union(port_ids(ps.subrange(0, j))));
    }
}

/// What keeps the nodes keeps a rebuilt node.
proof fn lemma_rebuilt_kept<F: Copy>(g0: NodeGraph<F>, g1: NodeGraph<F>, n: EntityId, sn: SerializedNode<F>)
    requires
        g0.wf(),
        keeps_nodes(g0, g1),
        node_rebuilt(g0, n, sn),
    ensures
        node_rebuilt(g1, n, sn),
{
    assert(g1.wd().alive(n));
    assert(g1.ports_of(n) == g0.ports_of(n));
    assert forall|j: int| 0 <= j < sn.ports@.len() implies port_rebuilt(g1, #[trigger] g1.ports_of(n)[j], sn.ports@[j]) by {
        let p = g0.ports_of(n)[j];
        assert(g0.ports_of(n).contains(p));
        assert(g0.endpoints(p) is None);
        assert(g0.owner_of(p) == Some(n));
        assert(g0.wd().alive(p));
        assert(port_rebuilt(g0, p, sn.ports@[j]));
    }
}

/// What keeps the nodes keeps a mapped stored node mapped.
proof fn lemma_mapped_kept<F: Copy>(g0: NodeGraph<F>, g1: NodeGraph<F>, m: Map<u32, EntityId>, sn: SerializedNode<F>)
    requires
        g0.wf(),
        keeps_nodes(g0, g1),
        node_mapped(g0, m, sn),
    ensures
        node_mapped(g1, m, sn),
{
    reveal(node_mapped);
    lemma_rebuilt_kept(g0, g1, m[sn.id], sn);
    assert(g1.wd().alive(m[sn.id]));
    assert(g1.ports_of(m[sn.id]) == g0.ports_of(m[sn.id]));
}

/// What rebuilding one stored node `sn` into `g1` and `m1` gives.
pub open spec fn step_done<F: Copy>(
    sn: SerializedNode<F>,
    g1: NodeGraph<F>,
    m0: Map<u32, EntityId>,
    m1: Map<u32, EntityId>,
    n: EntityId,
) -> bool {
    &&& m1.dom() == m0.dom().insert(sn.id).union(port_ids(sn.ports@))
    &&& node_rebuilt(g1, n, sn)
    &&& (forall|j: int| 0 <= j < sn.ports@.len() ==> (#[trigger] sn.ports@[j]).id != sn.id) ==> m1[sn.id] == n
    &&& forall|j: int|
        0 <= j < sn.ports@.len() && (forall|j2: int| j < j2 < sn.ports@.len() ==> (#[trigger] sn.ports@[j2]).id != sn.ports@[j].id)
            ==> m1[(#[trigger] sn.ports@[j]).id] == g1.ports_of(n)[j]
    &&& forall|k: u32| k != sn.id && !port_ids(sn.ports@).contains(k) && m0.contains_key(k) ==> #[trigger] m1[k] == m0[k]
}

/// With unique stored ids, the stored node just rebuilt is mapped.
#[verifier::rlimit(50)]
proof fn lemma_new_node_mapped<F: Copy>(
    data: SerializedGraph<F>,
    i: int,
    g1: NodeGraph<F>,
    m0: Map<u32, EntityId>,
    m1: Map<u32, EntityId>,
    n: EntityId,
)
    requires
        ids_unique(data),
        0 <= i < data.nodes@.len(),
        step_done(data.nodes@[i], g1, m0, m1, n),
    ensures
        node_mapped(g1, m1, data.nodes@[i]),
        m1[data.nodes@[i].id] == n,
{
    reveal(node_mapped);
    let ns = data.nodes@;
    let sn = ns[i];
    let mm = sn.ports@.map_values(|p: SerializedPort| p.id);
    assert forall|j: int| 0 <= j < sn.ports@.len() implies (#[trigger] sn.ports@[j]).id != sn.id by {
        reveal(ids_unique);
        assert(ns[i].id != ns[i].ports@[j].id);
    }
    assert forall|j: int| 0 <= j < sn.ports@.len() implies m1.contains_key((#[trigger] sn.ports@[j]).id) && m1[sn.ports@[j].id]
        == g1.ports_of(n)[j] by {
        assert(mm[j] == sn.ports@[j].id);
        assert(mm.contains(sn.ports@[j].id));
        assert forall|j2: int| j < j2 < sn.ports@.len() implies (#[trigger] sn.ports@[j2]).id != sn.ports@[j].id by {
            reveal(ids_unique);
            assert(ns[i].ports@[j2].id != ns[i].ports@[j].id);
        }
    }
}

/// With unique stored ids, a stored node rebuilt earlier stays mapped when
/// stored node `i` is rebuilt.
#[verifier::rlimit(50)]
proof fn lemma_old_node_mapped<F: Copy>(
    data: SerializedGraph<F>,
    i: int,
    a: int,
    g0: NodeGraph<F>,
    g1: NodeGraph<F>,
    m0: Map<u32, EntityId>,
    m1: Map<u32, EntityId>,
    n: EntityId,
)
    requires
        ids_unique(data),
        0 <= a < i < data.nodes@.len(),
        g0.wf(),
        keeps_nodes(g0, g1),
        node_mapped(g0, m0, data.nodes@[a]),
        step_done(data.nodes@[i], g1, m0, m1, n),
    ensures
        node_mapped(g1, m1, data.nodes@[a]),
        m1[data.nodes@[a].id] == m0[data.nodes@[a].id],
{
    reveal(node_mapped);
    let ns = data.nodes@;
    let sn = ns[i];
    let sa = ns[a];
    let mm = sn.ports@.map_values(|p: SerializedPort| p.id);
    assert(ns[a].id != ns[i].id) by {
        reveal(ids_unique);
    }
    assert(!port_ids(sn.ports@).contains(sa.id)) by {
        if mm.contains(sa.id) {
            let t = choose|t: int| 0 <= t < mm.len() && mm[t] == sa.id;
            reveal(ids_unique);
            assert(ns[a].id != ns[i].ports@[t].id);
        }
    }
    assert(m1[sa.id] == m0[sa.id]);
    lemma_rebuilt_kept(g0, g1, m0[sa.id], sa);
    assert(g1.wd().alive(m0[sa.id]));
    assert(g1.ports_of(m0[sa.id]) == g0.ports_of(m0[sa.id]));
    assert forall|j: int| 0 <= j < sa.ports@.len() implies m1.contains_key((#[trigger] sa.ports@[j]).id) && m1[sa.ports@[j].id]
        == g1.ports_of(m1[sa.id])[j] by {
        let k = sa.ports@[j].id;
        assert(ns[i].id != ns[a].ports@[j].id) by {
            reveal(ids_unique);
        }
        assert(!port_ids(sn.ports@).contains(k)) by {
            if mm.contains(k) {
                let t = choose|t: int| 0 <= t < mm.len() && mm[t] == k;
                reveal(ids_unique);
                assert(ns[a].ports@[j].id != ns[i].ports@[t].id);
            }
        }
    }
}

/// With unique stored ids, rebuilding stored node `i` keeps the stored
/// nodes before it mapped and maps it.
proof fn lemma_nodes_step<F: Copy>(
    data: SerializedGraph<F>,
    i: int,
    g0: NodeGraph<F>,
    g1: NodeGraph<F>,
    m0: Map<u32, EntityId>,
    m1: Map<u32, EntityId>,
    n: EntityId,
)
    requires
        ids_unique(data),
        0 <= i < data.nodes@.len(),
        g0.wf(),
        keeps_nodes(g0, g1),
        step_done(data.nodes@[i], g1, m0, m1, n),
        forall|a: int| 0 <= a < i ==> node_mapped(g0, m0, #[trigger] data.nodes@[a]),
        nodes_apart(m0, data.nodes@, i),
        !g0.wd().alive(n),
    ensures
        forall|a: int| 0 <= a < i + 1 ==> node_mapped(g1, m1, #[trigger] data.nodes@[a]),
        nodes_apart(m1, data.nodes@, i + 1),
{
    let ns = data.nodes@;
    lemma_new_node_mapped(data, i, g1, m0, m1, n);
    assert forall|a: int| 0 <= a < i + 1 implies node_mapped(g1, m1, #[trigger] ns[a]) && m1[ns[a].id] == (if a < i {
        m0[ns[a].id]
    } else {
        n
    }) by {
        if a < i {
            lemma_old_node_mapped(data, i, a, g0, g1, m0, m1, n);
        }
    }
    assert forall|a: int, b: int| 0 <= a < i + 1 && 0 <= b < i + 1 && a != b implies m1[(#[trigger] ns[a]).id] != m1[(
    #[trigger] ns[b]).id] by {
        if a < i && b < i {
            assert(m1[ns[a].id] == m0[ns[a].id]);
            assert(m1[ns[b].id] == m0[ns[b].id]);
        } else if a < i {
            assert(node_mapped(g0, m0, ns[a]));
            reveal(node_mapped);
            assert(m1[ns[a].id] == m0[ns[a].id]);
            assert(g0.wd().alive(m0[ns[a].id]));
        } else {
            assert(node_mapped(g0, m0, ns[b]));
            reveal(node_mapped);
            assert(m1[ns[b].id] == m0[ns[b].id]);
            assert(g0.wd().alive(m0[ns[b].id]));
        }
    }
}

/// Both ports of stored connection `sc` are mapped, and the entities they
/// map to in `g` can be connected.
pub open spec fn conn_ok<F: Copy>(g: NodeGraph<F>, m: Map<u32, EntityId>, sc: SerializedConnection) -> bool {
    &&& m.contains_key(sc.source_port)
    &&& m.contains_key(sc.target_port)
    &&& g.validation(m[sc.source_port], m[sc.target_port]) is Ok
}

/// The input end in `g` of stored connection `sc`.
pub open spec fn in_end<F: Copy>(g: NodeGraph<F>, m: Map<u32, EntityId>, sc: SerializedConnection) -> EntityId {
    match g.validation(m[sc.source_port], m[sc.target_port]) {
        Ok((o, i)) => i,
        Err(_) => m[sc.target_port],
    }
}

/// `g` holds a connection between the entities stored connection `sc`
/// maps to, from its output end to its input end.
pub open spec fn conn_rebuilt<F: Copy>(g: NodeGraph<F>, m: Map<u32, EntityId>, sc: SerializedConnection) -> bool {
    match g.validation(m[sc.source_port], m[sc.target_port]) {
        Ok((o, i)) => exists|c: EntityId| g.endpoints(c) == Some(ConnectionEndpoints { source_port: o, target_port: i }),
        Err(_) => false,
    }
}

/// No stored connection after the `k`-th, and before the `n`-th, has the
/// same input end.
pub open spec fn last_into<F: Copy>(g: NodeGraph<F>, m: Map<u32, EntityId>, cs: Seq<SerializedConnection>, k: int, n: int) -> bool {
    forall|k2: int| k < k2 < n ==> in_end(g, m, #[trigger] cs[k2]) != in_end(g, m, cs[k])
}

/// The first `n` stored connections can be made in `g`, and each that is
/// the last of them into its input end is there.
pub open spec fn conns_done<F: Copy>(g: NodeGraph<F>, m: Map<u32, EntityId>, cs: Seq<SerializedConnection>, n: int) -> bool {
    forall|k: int|
        0 <= k < n ==> conn_ok(g, m, #[trigger] cs[k]) && (last_into(g, m, cs, k, n) ==> conn_rebuilt(g, m, cs[k]))
}

/// Making the `k`-th stored connection keeps the earlier ones.
proof fn lemma_conns_step<F: Copy>(
    g0: NodeGraph<F>,
    g1: NodeGraph<F>,
    m: Map<u32, EntityId>,
    cs: Seq<SerializedConnection>,
    k: int,
    c: EntityId,
)
    requires
        g0.wf(),
        keeps_nodes(g0, g1),
        0 <= k < cs.len(),
        m.contains_key(cs[k].source_port),
        m.contains_key(cs[k].target_port),
        g0.validation(m[cs[k].source_port], m[cs[k].target_port]) matches Ok((o, i)) && {
            &&& !g0.wd().alive(c)
            &&& g1.endpoints(c) == Some(ConnectionEndpoints { source_port: o, target_port: i })
            &&& forall|e: EntityId| e != c && !g0.conns_of(i).contains(e) ==> #[trigger] g1.endpoints(e) == g0.endpoints(e)
        },
        conns_done(g0, m, cs, k),
    ensures
        conns_done(g1, m, cs, k + 1),
{
    let (o, i) = g0.validation(m[cs[k].source_port], m[cs[k].target_port])->Ok_0;
    assert forall|k1: int| 0 <= k1 < k + 1 implies g1.validation(m[(#[trigger] cs[k1]).source_port], m[cs[k1].target_port])
        == g0.validation(m[cs[k1].source_port], m[cs[k1].target_port]) by {
        let a = m[cs[k1].source_port];
        let b = m[cs[k1].target_port];
        if k1 < k {
            assert(conn_ok(g0, m, cs[k1]));
        }
        let (o1, i1) = g0.validation(a, b)->Ok_0;
        assert(g0.owner_of(o1) is Some && g0.owner_of(i1) is Some);
        assert(g0.endpoints(o1) is None && g0.endpoints(i1) is None);
        assert(g1.wd().alive(o1) && g1.wd().alive(i1));
        lemma_validation_same(g0, g1, a, b);
    }
    assert forall|k1: int| 0 <= k1 < k + 1 implies conn_ok(g1, m, #[trigger] cs[k1]) && (last_into(g1, m, cs, k1, k + 1)
        ==> conn_rebuilt(g1, m, cs[k1])) by {
        if k1 < k {
            assert(conn_ok(g0, m, cs[k1]));
            if last_into(g1, m, cs, k1, k + 1) {
                assert forall|k2: int| k1 < k2 < k implies in_end(g0, m, #[trigger] cs[k2]) != in_end(g0, m, cs[k1]) by {
                    assert(in_end(g1, m, cs[k2]) != in_end(g1, m, cs[k1]));
                }
                assert(last_into(g0, m, cs, k1, k));
                assert(conn_rebuilt(g0, m, cs[k1]));
                let (o1, i1) = g0.validation(m[cs[k1].source_port], m[cs[k1].target_port])->Ok_0;
                let c1 = choose|c1: EntityId| g0.endpoints(c1) == Some(ConnectionEndpoints { source_port: o1, target_port: i1 });
                assert(in_end(g1, m, cs[k]) != in_end(g1, m, cs[k1]));
                assert(i1 != i);
                assert(g0.dir_of(o1) == Some(PortDirection::Output));
                assert(g0.dir_of(i) == Some(PortDirection::Input));
                assert(!g0.conns_of(i).contains(c1));
                assert(c1 != c);
                assert(g1.endpoints(c1) == g0.endpoints(c1));
            }
        }
    }
}

/// What keeps the nodes and every connection keeps the stored connections
/// made.
proof fn lemma_conns_kept<F: Copy>(
    g0: NodeGraph<F>,
    g1: NodeGraph<F>,
    m: Map<u32, EntityId>,
    cs: Seq<SerializedConnection>,
    n: int,
)
    requires
        g0.wf(),
        keeps_nodes(g0, g1),
        forall|c: EntityId| g0.endpoints(c) is Some ==> #[trigger] g1.endpoints(c) == g0.endpoints(c),
        conns_done(g0, m, cs, n),
    ensures
        conns_done(g1, m, cs, n),
{
    assert forall|k1: int| 0 <= k1 < n implies g1.validation(m[(#[trigger] cs[k1]).source_port], m[cs[k1].target_port])
        == g0.validation(m[cs[k1].source_port], m[cs[k1].target_port]) by {
        let a = m[cs[k1].source_port];
        let b = m[cs[k1].target_port];
        assert(conn_ok(g0, m, cs[k1]));
        let (o1, i1) = g0.validation(a, b)->Ok_0;
        assert(g0.endpoints(o1) is None && g0.endpoints(i1) is None);
        assert(g1.wd().alive(o1) && g1.wd().alive(i1));
        lemma_validation_same(g0, g1, a, b);
    }
    assert forall|k1: int| 0 <= k1 < n implies conn_ok(g1, m, #[trigger] cs[k1]) && (last_into(g1, m, cs, k1, n) ==> conn_rebuilt(
        g1,
        m,
        cs[k1],
    )) by {
        assert(conn_ok(g0, m, cs[k1]));
        if last_into(g1, m, cs, k1, n) {
            assert forall|k2: int| k1 < k2 < n implies in_end(g0, m, #[trigger] cs[k2]) != in_end(g0, m, cs[k1]) by {
                assert(in_end(g1, m, cs[k2]) != in_end(g1, m, cs[k1]));
            }
            let (o1, i1) = g0.validation(m[cs[k1].source_port], m[cs[k1].target_port])->Ok_0;
            let c1 = choose|c1: EntityId| g0.endpoints(c1) == Some(ConnectionEndpoints { source_port: o1, target_port: i1 });
            assert(g1.endpoints(c1) == g0.endpoints(c1));
        }
    }
}

/// The first `n` stored nodes map to distinct entities.
pub open spec fn nodes_apart<F>(m: Map<u32, EntityId>, ns: Seq<SerializedNode<F>>, n: int) -> bool {
    forall|a: int, b: int| 0 <= a < n && 0 <= b < n && a != b ==> m[(#[trigger] ns[a]).id] != m[(#[trigger] ns[b]).id]
}

/// Port `j` of stored node `a` has stored id `pid`.
pub open spec fn port_rec<F>(ns: Seq<SerializedNode<F>>, pid: u32, a: int, j: int) -> bool {
    0 <= a < ns.len() && 0 <= j < ns[a].ports@.len() && ns[a].ports@[j].id == pid
}

/// Stored connection `sc` joins ports of two different stored nodes, of
/// opposite directions and compatible socket types.
pub open spec fn stored_ok<F>(data: SerializedGraph<F>, sc: SerializedConnection) -> bool {
    let ns = data.nodes@;
    exists|a1: int, j1: int, a2: int, j2: int|
        #![trigger ns[a1].ports@[j1], ns[a2].ports@[j2]]
        port_rec(ns, sc.source_port, a1, j1) && port_rec(ns, sc.target_port, a2, j2) && a1 != a2 && ns[a1].ports@[j1].direction
            != ns[a2].ports@[j2].direction && compatible(ns[a1].ports@[j1].socket_type, ns[a2].ports@[j2].socket_type)
}

/// Every stored connection of `sg` names stored ports and passes the
/// connection check.
pub open spec fn connections_ok<F>(sg: SerializedGraph<F>) -> bool {
    forall|k: int|
        0 <= k < sg.connections@.len() ==> linked(sg, #[trigger] sg.connections@[k]) && stored_ok(sg, sg.connections@[k])
}

/// A stored id is the id of a stored node or of one of its ports.
/// The id of each stored node is among the stored ids.
pub proof fn lemma_node_id_recorded<F>(ns: Seq<SerializedNode<F>>, a: int)
    requires
        0 <= a < ns.len(),
    ensures
        record_ids(ns).contains(ns[a].id),
    decreases ns.len(),
{
    if a < ns.len() - 1 {
        lemma_node_id_recorded(ns.drop_last(), a);
        assert(ns.drop_last()[a] == ns[a]);
    }
}

/// Stored node `ni` of stored graph `gi` of `data` names the subgraph with
/// id `k`, and `data` stores a graph with that id.
pub open spec fn names_subgraph<F>(data: SerializedGraphEditor<F>, gi: int, ni: int, k: EntityId) -> bool {
    &&& 0 <= gi < data.graphs@.len()
    &&& 0 <= ni < data.graphs@[gi].1.nodes@.len()
    &&& data.graphs@[gi].1.nodes@[ni].subgraph_id == Some(k.index)
    &&& k.generation == crate::store::Generation(0)
    &&& exists|j: int| 0 <= j < data.graphs@.len() && #[trigger] data.graphs@[j].0 == k.index
}

proof fn lemma_record_member<F>(ns: Seq<SerializedNode<F>>, x: u32)
    requires
        record_ids(ns).contains(x),
    ensures
        (exists|a: int| 0 <= a < ns.len() && (#[trigger] ns[a]).id == x) || (exists|a: int, j: int| #[trigger] port_rec(ns, x, a, j)),
    decreases ns.len(),
{
    let last = ns.last();
    let init = ns.drop_last();
    if record_ids(init).contains(x) {
        lemma_record_member(init, x);
        if exists|a: int| 0 <= a < init.len() && (#[trigger] init[a]).id == x {
            let a = choose|a: int| 0 <= a < init.len() && (#[trigger] init[a]).id == x;
            assert(ns[a] == init[a]);
        } else {
            let (a, j) = choose|a: int, j: int| #[trigger] port_rec(init, x, a, j);
            assert(ns[a] == init[a]);
            assert(port_rec(ns, x, a, j));
        }
    } else if x == last.id {
        assert(ns[ns.len() - 1].id == x);
    } else {
        assert(port_ids(last.ports@).contains(x));
        let mm = last.ports@.map_values(|p: SerializedPort| p.id);
        let j = choose|j: int| 0 <= j < mm.len() && mm[j] == x;
        assert(port_rec(ns, x, ns.len() - 1, j));
    }
}

/// What rebuilding a stored port id gives: a node, with no direction, or
/// the matching port of the node rebuilt for its stored node.
proof fn lemma_mapped_entity<F: Copy>(g: NodeGraph<F>, m: Map<u32, EntityId>, data: SerializedGraph<F>, x: u32)
    requires
        g.wf(),
        ids_unique(data),
        forall|a: int| 0 <= a < data.nodes@.len() ==> node_mapped(g, m, #[trigger] data.nodes@[a]),
        record_ids(data.nodes@).contains(x),
    ensures
        (forall|a: int, j: int| !#[trigger] port_rec(data.nodes@, x, a, j)) ==> g.dir_of(m[x]) is None,
        forall|a: int, j: int|
            #[trigger] port_rec(data.nodes@, x, a, j) ==> {
                let sp = data.nodes@[a].ports@[j];
                &&& g.dir_of(m[x]) == Some(sp.direction)
                &&& g.socket_of(m[x]) == Some(sp.socket_type)
                &&& g.owner_of(m[x]) == Some(m[data.nodes@[a].id])
            },
{
    let ns = data.nodes@;
    lemma_record_member(ns, x);
    reveal(node_mapped);
    assert forall|a: int, j: int| #[trigger] port_rec(ns, x, a, j) implies {
        let sp = ns[a].ports@[j];
        &&& g.dir_of(m[x]) == Some(sp.direction)
        &&& g.socket_of(m[x]) == Some(sp.socket_type)
        &&& g.owner_of(m[x]) == Some(m[ns[a].id])
    } by {
        assert(node_mapped(g, m, ns[a]));
        let n = m[ns[a].id];
        assert(ns[a].ports@[j].id == x);
        assert(m[x] == g.ports_of(n)[j]);
        assert(port_rebuilt(g, g.ports_of(n)[j], ns[a].ports@[j]));
        assert(g.ports_of(n).contains(g.ports_of(n)[j]));
    }
    if forall|a: int, j: int| !#[trigger] port_rec(ns, x, a, j) {
        let a = choose|a: int| 0 <= a < ns.len() && (#[trigger] ns[a]).id == x;
        assert(node_mapped(g, m, ns[a]));
    }
}

/// With unique stored ids, the ports a linked stored connection maps to
/// can be connected exactly when the stored connection passes the check.
proof fn lemma_check_matches<F: Copy>(g: NodeGraph<F>, m: Map<u32, EntityId>, data: SerializedGraph<F>, sc: SerializedConnection)
    requires
        g.wf(),
        ids_unique(data),
        forall|a: int| 0 <= a < data.nodes@.len() ==> node_mapped(g, m, #[trigger] data.nodes@[a]),
        nodes_apart(m, data.nodes@, data.nodes@.len() as int),
        linked(data, sc),
    ensures
        g.validation(m[sc.source_port], m[sc.target_port]) is Ok <==> stored_ok(data, sc),
{
    let ns = data.nodes@;
    lemma_mapped_entity(g, m, data, sc.source_port);
    lemma_mapped_entity(g, m, data, sc.target_port);
    let x = m[sc.source_port];
    let y = m[sc.target_port];
    if stored_ok(data, sc) {
        let (a1, j1, a2, j2) = choose|a1: int, j1: int, a2: int, j2: int|
            #![trigger ns[a1].ports@[j1], ns[a2].ports@[j2]]
            port_rec(ns, sc.source_port, a1, j1) && port_rec(ns, sc.target_port, a2, j2) && a1 != a2 && ns[a1].ports@[j1].direction
                != ns[a2].ports@[j2].direction && compatible(ns[a1].ports@[j1].socket_type, ns[a2].ports@[j2].socket_type);
        assert(m[ns[a1].id] != m[ns[a2].id]);
        assert(g.validation(x, y) is Ok);
    }
    if g.validation(x, y) is Ok {
        assert(g.dir_of(x) is Some);
        assert(g.dir_of(y) is Some);
        let (a1, j1) = choose|a: int, j: int| #[trigger] port_rec(ns, sc.source_port, a, j);
        let (a2, j2) = choose|a: int, j: int| #[trigger] port_rec(ns, sc.target_port, a, j);
        assert(g.owner_of(x) == Some(m[ns[a1].id]));
        assert(g.owner_of(y) == Some(m[ns[a2].id]));
        assert(a1 != a2);
        assert(ns[a1].ports@[j1].direction != ns[a2].ports@[j2].direction);
        assert(compatible(ns[a1].ports@[j1].socket_type, ns[a2].ports@[j2].socket_type));
        assert(stored_ok(data, sc));
    }
}

/// Graph `g`, with id map `m`, is rebuilt from stored graph `sg`: every
/// stored id is mapped; with unique stored ids each stored node is mapped
/// to a node rebuilt from it; and the stored connections are made.
pub open spec fn graph_content<F: Copy>(g: NodeGraph<F>, m: Map<u32, EntityId>, sg: SerializedGraph<F>) -> bool {
    &&& m.dom() == record_ids(sg.nodes@)
    &&& ids_unique(sg) ==> forall|a: int| 0 <= a < sg.nodes@.len() ==> node_mapped(g, m, #[trigger] sg.nodes@[a])
    &&& ids_unique(sg) ==> nodes_apart(m, sg.nodes@, sg.nodes@.len() as int)
    &&& conns_done(g, m, sg.connections@, sg.connections@.len() as int)
}

/// Graph `g` is rebuilt from stored graph `sg` under some id map.
pub open spec fn rebuilt_from<F: Copy>(g: NodeGraph<F>, sg: SerializedGraph<F>) -> bool {
    exists|m: Map<u32, EntityId>| graph_content(g, m, sg)
}

/// What keeps the nodes and every connection keeps a rebuilt graph's
/// content.
pub proof fn lemma_content_kept<F: Copy>(g0: NodeGraph<F>, g1: NodeGraph<F>, m: Map<u32, EntityId>, sg: SerializedGraph<F>)
    requires
        g0.wf(),
        keeps_nodes(g0, g1),
        forall|c: EntityId| g0.endpoints(c) is Some ==> #[trigger] g1.endpoints(c) == g0.endpoints(c),
        graph_content(g0, m, sg),
    ensures
        graph_content(g1, m, sg),
{
    if ids_unique(sg) {
        assert forall|a: int| 0 <= a < sg.nodes@.len() implies node_mapped(g1, m, #[trigger] sg.nodes@[a]) by {
            lemma_mapped_kept(g0, g1, m, sg.nodes@[a]);
        }
    }
    lemma_conns_kept(g0, g1, m, sg.connections@, sg.connections@.len() as int);
}

/// Adding a frame keeps the nodes.
proof fn lemma_frame_keeps<F: Copy>(g0: NodeGraph<F>, g1: NodeGraph<F>)
    requires
        g0.wf(),
        exists|fid: EntityId| {
            &&& !g0.wd().alive(fid)
            &&& forall|e: EntityId| e != fid ==> #[trigger] g1.wd().alive(e) == g0.wd().alive(e)
        },
        g1.wd().comps().same_except_kinds(
            g0.wd().comps(),
            set![ComponentKind::FrameLabel, ComponentKind::FrameColor, ComponentKind::FrameRect, ComponentKind::FrameMembers],
        ),
        g1.pbn() == g0.pbn(),
    ensures
        keeps_nodes(g0, g1),
        forall|c: EntityId| g0.endpoints(c) is Some ==> #[trigger] g1.endpoints(c) == g0.endpoints(c),
{
    let fid = choose|fid: EntityId| {
        &&& !g0.wd().alive(fid)
        &&& forall|e: EntityId| e != fid ==> #[trigger] g1.wd().alive(e) == g0.wd().alive(e)
    };
    let ks = set![ComponentKind::FrameLabel, ComponentKind::FrameColor, ComponentKind::FrameRect, ComponentKind::FrameMembers];
    assert forall|e: EntityId| g0.wd().alive(e) && g0.endpoints(e) is None implies #[trigger] g1.wd().alive(e) && g1.endpoints(e)
        is None by {
        assert(e != fid);
        g1.wd().lemma_comp_kept::<ConnectionEndpoints>(&g0.wd(), ks, e);
    }
    lemma_keeps_by_kinds(g0, g1, ks);
    assert forall|c: EntityId| g0.endpoints(c) is Some implies #[trigger] g1.endpoints(c) == g0.endpoints(c) by {
        assert(g0.wd().alive(c));
        assert(c != fid);
        g1.wd().lemma_comp_kept::<ConnectionEndpoints>(&g0.wd(), ks, c);
    }
}

/// Nothing changes from a graph to itself.
proof fn lemma_keeps_self<F: Copy>(g: NodeGraph<F>)
    ensures
        keeps_nodes(g, g),
{
}

/// What keeps everything but an entity that was not alive keeps everything.
proof fn lemma_keeps_but_fresh<F: Copy>(g0: NodeGraph<F>, g1: NodeGraph<F>, x: EntityId)
    requires
        keeps_nodes_but(g0, g1, x),
        !g0.wd().alive(x),
    ensures
        keeps_nodes(g0, g1),
{
}

/// `sp` records port `p` of graph `g`, with the defaults used for what the
/// port lacks.
pub open spec fn port_record<F: Copy>(g: NodeGraph<F>, p: EntityId, sp: SerializedPort) -> bool {
    &&& sp.id == p.index
    &&& sp.direction == match g.dir_of(p) {
        Some(d) => d,
        None => PortDirection::Input,
    }
    &&& sp.socket_type == match g.socket_of(p) {
        Some(t) => t,
        None => SocketType::Float,
    }
    &&& sp.label@ == match g.wd().comp::<PortLabel>(p) {
        Some(l) => l.0@,
        None => Seq::<char>::empty(),
    }
}

/// `sn` records node `n` of graph `g`, with its ports in order.
pub open spec fn node_record<F: Copy>(g: NodeGraph<F>, n: EntityId, sn: SerializedNode<F>) -> bool {
    &&& sn.id == n.index
    &&& g.wd().comp::<NodeHeader>(n) == Some(sn.header)
    &&& (g.wd().comp::<NodePosition<F>>(n) matches Some(p) ==> sn.position == (p.x, p.y))
    &&& sn.ports@.len() == g.ports_of(n).len()
    &&& forall|j: int| 0 <= j < sn.ports@.len() ==> port_record(g, g.ports_of(n)[j], #[trigger] sn.ports@[j])
    &&& sn.is_reroute == (g.wd().comp::<IsReroute>(n) is Some)
    &&& sn.subgraph_id == match g.wd().comp::<SubgraphRoot>(n) {
        Some(s) => Some(s.0.index),
        None => None,
    }
    &&& sn.group_io_kind == g.wd().comp::<GroupIOKind>(n)
}

/// `sc` records connection `c` of graph `g`.
pub open spec fn connection_record<F: Copy>(g: NodeGraph<F>, c: EntityId, sc: SerializedConnection) -> bool {
    g.endpoints(c) matches Some(ep) && sc == (SerializedConnection {
        id: c.index,
        source_port: ep.source_port.index,
        target_port: ep.target_port.index,
    })
}

/// `sf` records frame `f` of graph `g`, with the defaults used for what the
/// frame lacks.
pub open spec fn frame_record<F: Copy>(g: NodeGraph<F>, f: EntityId, sf: SerializedFrame) -> bool {
    &&& sf.label@ == match g.wd().comp::<FrameLabel>(f) {
        Some(l) => l.0@,
        None => Seq::<char>::empty(),
    }
    &&& sf.color == match g.wd().comp::<FrameColor>(f) {
        Some(c) => c.0,
        None => [80u8, 80u8, 120u8],
    }
    &&& sf.member_node_ids@ == match g.members_of(f) {
        Some(m) => m.map_values(|e: EntityId| e.index),
        None => Seq::<u32>::empty(),
    }
}

/// `recs` lists the entities `ids` in order, each recorded by `rec`.
pub open spec fn records_in_order<T>(ids: Seq<EntityId>, recs: Seq<T>, rec: spec_fn(EntityId, T) -> bool) -> bool {
    &&& recs.len() == ids.len()
    &&& forall|k: int| 0 <= k < ids.len() ==> #[trigger] rec(ids[k], recs[k])
}

/// `ids` lists the entities of `set` in increasing index order.
pub open spec fn in_index_order(ids: Seq<EntityId>, set: Set<EntityId>) -> bool {
    &&& forall|x: EntityId| #[trigger] ids.contains(x) <==> set.contains(x)
    &&& forall|a: int, b: int| 0 <= a < b < ids.len() ==> (#[trigger] ids[a]).index < (#[trigger] ids[b]).index
}

/// `sg` records graph `g`: its nodes, connections and frames, each in
/// increasing index order.
pub open spec fn serialized_as<F: Copy>(g: NodeGraph<F>, sg: SerializedGraph<F>) -> bool {
    &&& exists|ids: Seq<EntityId>|
        in_index_order(ids, g.node_set()) && records_in_order(
            ids,
            sg.nodes@,
            |n: EntityId, sn: SerializedNode<F>| node_record(g, n, sn),
        )
    &&& exists|ids: Seq<EntityId>|
        in_index_order(ids, g.connection_set()) && records_in_order(
            ids,
            sg.connections@,
            |c: EntityId, sc: SerializedConnection| connection_record(g, c, sc),
        )
    &&& exists|ids: Seq<EntityId>|
        in_index_order(ids, g.frame_set()) && records_in_order(
            ids,
            sg.frames@,
            |f: EntityId, sf: SerializedFrame| frame_record(g, f, sf),
        )
}

/// Node `n2` of `h` is node `n` of `g` under another id: a live node with
/// the same header, Group IO kind and ports, each port with the same
/// direction, socket type and label.
pub open spec fn renumbered_node<F: Copy>(g: NodeGraph<F>, n: EntityId, h: NodeGraph<F>, n2: EntityId) -> bool {
    &&& h.wd().alive(n2)
    &&& h.owner_of(n2) is None
    &&& h.endpoints(n2) is None
    &&& g.wd().comp::<NodeHeader>(n) matches Some(hg) && h.wd().comp::<NodeHeader>(n2) matches Some(hh) && hh.title@
        == hg.title@ && hh.color == hg.color && hh.collapsed == hg.collapsed
    &&& h.wd().comp::<GroupIOKind>(n2) == g.wd().comp::<GroupIOKind>(n)
    &&& h.ports_of(n2).len() == g.ports_of(n).len()
    &&& forall|j: int|
        0 <= j < g.ports_of(n).len() ==> {
            let p = g.ports_of(n)[j];
            let q = #[trigger] h.ports_of(n2)[j];
            &&& h.dir_of(q) == Some(match g.dir_of(p) {
                Some(d) => d,
                None => PortDirection::Input,
            })
            &&& h.socket_of(q) == Some(match g.socket_of(p) {
                Some(t) => t,
                None => SocketType::Float,
            })
            &&& h.wd().comp::<PortLabel>(q) matches Some(l) && l.0@ == match g.wd().comp::<PortLabel>(p) {
                Some(l0) => l0.0@,
                None => Seq::<char>::empty(),
            }
        }
}

/// Under id map `m`, each node of `g` is a node of `h` renumbered.
pub open spec fn renumbers<F: Copy>(g: NodeGraph<F>, h: NodeGraph<F>, m: Map<u32, EntityId>) -> bool {
    forall|n: EntityId|
        #[trigger] g.node_set().contains(n) ==> m.contains_key(n.index) && renumbered_node(g, n, h, m[n.index])
}

/// Storing a graph and rebuilding it gives each of its nodes back, under a
/// renumbering of ids, with its header, Group IO kind and ports; here for
/// graphs whose stored ids do not collide, that is where no port or
/// connection also carries a node header.
pub proof fn lemma_round_trip_nodes<F: Copy>(g: NodeGraph<F>, data: SerializedGraph<F>, h: NodeGraph<F>)
    requires
        g.wf(),
        serialized_as(g, data),
        rebuilt_from(h, data),
        ids_unique(data),
    ensures
        exists|m: Map<u32, EntityId>| renumbers(g, h, m),
{
    let m = choose|m: Map<u32, EntityId>| graph_content(h, m, data);
    let ids = choose|ids: Seq<EntityId>|
        in_index_order(ids, g.node_set()) && records_in_order(
            ids,
            data.nodes@,
            |n: EntityId, sn: SerializedNode<F>| node_record(g, n, sn),
        );
    assert forall|n: EntityId| #[trigger] g.node_set().contains(n) implies m.contains_key(n.index) && renumbered_node(
        g,
        n,
        h,
        m[n.index],
    ) by {
        assert(ids.contains(n));
        let k = choose|k: int| 0 <= k < ids.len() && ids[k] == n;
        let sn = data.nodes@[k];
        let rec = |n: EntityId, sn: SerializedNode<F>| node_record(g, n, sn);
        assert(records_in_order(ids, data.nodes@, rec));
        assert(rec(ids[k], data.nodes@[k]));
        assert(node_record(g, ids[k], sn));
        assert(node_mapped(h, m, sn));
        reveal(node_mapped);
        let n2 = m[sn.id];
        assert(node_rebuilt(h, n2, sn));
        assert forall|j: int| 0 <= j < g.ports_of(n).len() implies {
            let p = g.ports_of(n)[j];
            let q = #[trigger] h.ports_of(n2)[j];
            &&& h.dir_of(q) == Some(match g.dir_of(p) {
                Some(d) => d,
                None => PortDirection::Input,
            })
            &&& h.socket_of(q) == Some(match g.socket_of(p) {
                Some(t) => t,
                None => SocketType::Float,
            })
            &&& h.wd().comp::<PortLabel>(q) matches Some(l) && l.0@ == match g.wd().comp::<PortLabel>(p) {
                Some(l0) => l0.0@,
                None => Seq::<char>::empty(),
            }
        } by {
            assert(port_record(g, g.ports_of(n)[j], sn.ports@[j]));
            assert(port_rebuilt(h, h.ports_of(n2)[j], sn.ports@[j]));
        }
    }
    assert(renumbers(g, h, m));
}

impl<F: Copy + Default> NodeGraph<F> {
    pub(crate) fn serialize_port(&self, p: EntityId) -> (r: SerializedPort)
        requires
            self.wd().wf(),
        ensures
            port_record(*self, p, r),
    {
        let w = self.world_ref();
        let direction = match w.get::<PortDirection>(p) {
            Some(d) => *d,
            None => PortDirection::Input,
        };
        let socket_type = match w.get::<PortSocketType>(p) {
            Some(t) => t.0,
            None => SocketType::Float,
        };
        let label = match w.get::<PortLabel>(p) {
            Some(l) => l.0.clone(),
            None => String::new(),
        };
        SerializedPort { id: p.index, direction, socket_type, label }
    }

    fn serialize_node(&self, n: EntityId, header: &NodeHeader) -> (r: SerializedNode<F>)
        requires
            self.wf(),
            self.wd().comp::<NodeHeader>(n) == Some(*header),
        ensures
            node_record(*self, n, r),
    {
        let w = self.world_ref();
        let zero = F::default();
        let position = match w.get::<NodePosition<F>>(n) {
            Some(p) => (p.x, p.y),
            None => (zero, zero),
        };
        let port_ids = self.node_ports(n);
        let mut ports: Vec<SerializedPort> = Vec::new();
        let mut j: usize = 0;
        while j < port_ids.len()
            invariant
                self.wf(),
                port_ids@ == self.ports_of(n),
                j <= port_ids@.len(),
                ports@.len() == j,
                forall|i: int| 0 <= i < j ==> port_record(*self, port_ids@[i], #[trigger] ports@[i]),
            decreases port_ids.len() - j,
        {
            ports.push(self.serialize_port(port_ids[j]));
            j = j + 1;
        }
        let is_reroute = w.get::<IsReroute>(n).is_some();
        let subgraph_id = match w.get::<SubgraphRoot>(n) {
            Some(s) => Some(s.0.index),
            None => None,
        };
        let group_io_kind = match w.get::<GroupIOKind>(n) {
            Some(k) => Some(*k),
            None => None,
        };
        SerializedNode { id: n.index, header: header.clone(), position, ports, is_reroute, subgraph_id, group_io_kind }
    }

    fn serialize_frame(&self, f: EntityId) -> (r: SerializedFrame)
        requires
            self.wf(),
        ensures
            frame_record(*self, f, r),
    {
        let w = self.world_ref();
        let label = match w.get::<FrameLabel>(f) {
            Some(l) => l.0.clone(),
            None => String::new(),
        };
        let color = match w.get::<FrameColor>(f) {
            Some(c) => c.0,
            None => [80, 80, 120],
        };
        let mut member_node_ids: Vec<u32> = Vec::new();
        match w.get::<FrameMembers>(f) {
            Some(m) => {
                let mut i: usize = 0;
                while i < m.0.len()
                    invariant
                        i <= m.0@.len(),
                        member_node_ids@ == m.0@.subrange(0, i as int).map_values(|e: EntityId| e.index),
                    decreases m.0.len() - i,
                {
                    member_node_ids.push(m.0[i].index);
                    i = i + 1;
                    proof {
                        assert(member_node_ids@ =~= m.0@.subrange(0, i as int).map_values(|e: EntityId| e.index));
                    }
                }
                proof {
                    assert(m.0@.subrange(0, i as int) =~= m.0@);
                }
            },
            None => {},
        }
        SerializedFrame { label, color, member_node_ids }
    }

    /// The graph as stored data: its nodes, connections and frames, each in
    /// increasing index order.
    pub fn serialize(&self) -> (r: SerializedGraph<F>)
        requires
            self.wf(),
        ensures
            serialized_as(*self, r),
    {
        let w = self.world_ref();
        let q = w.query::<NodeHeader>();
        let mut nodes: Vec<SerializedNode<F>> = Vec::new();
        let mut k: usize = 0;
        while k < q.len()
            invariant
                self.wf(),
                *w == self.wd(),
                k <= q@.len(),
                forall|a: int| 0 <= a < q@.len() ==> self.wd().comp::<NodeHeader>(#[trigger] q@[a].0) == Some(*q@[a].1),
                nodes@.len() == k,
                forall|i: int| 0 <= i < k ==> node_record(*self, q@[i].0, #[trigger] nodes@[i]),
            decreases q.len() - k,
        {
            nodes.push(self.serialize_node(q[k].0, q[k].1));
            k = k + 1;
        }
        let cq = w.query::<ConnectionEndpoints>();
        let mut connections: Vec<SerializedConnection> = Vec::new();
        let mut k: usize = 0;
        while k < cq.len()
            invariant
                self.wf(),
                k <= cq@.len(),
                forall|a: int| 0 <= a < cq@.len() ==> self.wd().comp::<ConnectionEndpoints>(#[trigger] cq@[a].0) == Some(*cq@[a].1),
                connections@.len() == k,
                forall|i: int| 0 <= i < k ==> connection_record(*self, cq@[i].0, #[trigger] connections@[i]),
            decreases cq.len() - k,
        {
            let (c, ep) = cq[k];
            connections.push(SerializedConnection { id: c.index, source_port: ep.source_port.index, target_port: ep.target_port.index });
            k = k + 1;
        }
        let fq = w.query::<FrameRect<F>>();
        let mut frames: Vec<SerializedFrame> = Vec::new();
        let mut k: usize = 0;
        while k < fq.len()
            invariant
                self.wf(),
                k <= fq@.len(),
                frames@.len() == k,
                forall|i: int| 0 <= i < k ==> frame_record(*self, fq@[i].0, #[trigger] frames@[i]),
            decreases fq.len() - k,
        {
            frames.push(self.serialize_frame(fq[k].0));
            k = k + 1;
        }
        proof {
            let nids = Seq::new(q@.len(), |i: int| q@[i].0);
            assert(records_in_order(nids, nodes@, |n: EntityId, sn: SerializedNode<F>| node_record(*self, n, sn)));
            assert(in_index_order(nids, self.node_set())) by {
                assert forall|x: EntityId| #[trigger] nids.contains(x) <==> self.node_set().contains(x) by {
                    if self.node_set().contains(x) {
                        let i = choose|i: int| 0 <= i < q@.len() && #[trigger] q@[i].0 == x;
                        assert(nids[i] == x);
                    }
                }
            }
            let cids = Seq::new(cq@.len(), |i: int| cq@[i].0);
            assert(records_in_order(cids, connections@, |c: EntityId, sc: SerializedConnection| connection_record(*self, c, sc)));
            assert(in_index_order(cids, self.connection_set())) by {
                assert forall|x: EntityId| #[trigger] cids.contains(x) <==> self.connection_set().contains(x) by {
                    if self.connection_set().contains(x) {
                        let i = choose|i: int| 0 <= i < cq@.len() && #[trigger] cq@[i].0 == x;
                        assert(cids[i] == x);
                    }
                }
            }
            let fids = Seq::new(fq@.len(), |i: int| fq@[i].0);
            assert(records_in_order(fids, frames@, |f: EntityId, sf: SerializedFrame| frame_record(*self, f, sf)));
            assert(in_index_order(fids, self.frame_set())) by {
                assert forall|x: EntityId| #[trigger] fids.contains(x) <==> self.frame_set().contains(x) by {
                    if self.frame_set().contains(x) {
                        let i = choose|i: int| 0 <= i < fq@.len() && #[trigger] fq@[i].0 == x;
                        assert(fids[i] == x);
                    }
                }
            }
        }
        SerializedGraph { nodes, connections, frames }
    }
}

/// The stored ids of the ports in `ps`.
pub open spec fn port_ids(ps: Seq<SerializedPort>) -> Set<u32> {
    ps.map_values(|p: SerializedPort| p.id).to_set()
}

/// The stored ids of the nodes in `ns` and of their ports.
pub open spec fn record_ids<F>(ns: Seq<SerializedNode<F>>) -> Set<u32>
    decreases ns.len(),
{
    if ns.len() == 0 {
        Set::empty()
    } else {
        record_ids(ns.drop_last()).insert(ns.last().id).union(port_ids(ns.last().ports@))
    }
}

/// Number of ports of the nodes in `ns`.
pub open spec fn port_count<F>(ns: Seq<SerializedNode<F>>) -> nat
    decreases ns.len(),
{
    if ns.len() == 0 {
        0
    } else {
        port_count(ns.drop_last()) + ns.last().ports@.len()
    }
}

/// Number of entities rebuilding `data` creates.
pub open spec fn stored_size<F>(data: SerializedGraph<F>) -> nat {
    data.nodes@.len() + port_count(data.nodes@) + data.connections@.len() + data.frames@.len()
}

/// Whether both ports of stored connection `c` name a stored node or port.
pub open spec fn linked<F>(data: SerializedGraph<F>, c: SerializedConnection) -> bool {
    record_ids(data.nodes@).contains(c.source_port) && record_ids(data.nodes@).contains(c.target_port)
}

/// The label of a Group IO node with title `t`: the title after an
/// "In: " or "Out: " prefix, else empty.
pub open spec fn io_label(t: Seq<char>) -> Seq<char> {
    if t.len() >= 4 && t.subrange(0, 4) == "In: "@ {
        t.subrange(4, t.len() as int)
    } else if t.len() >= 5 && t.subrange(0, 5) == "Out: "@ {
        t.subrange(5, t.len() as int)
    } else {
        Seq::empty()
    }
}

/// Whether `s` starts with `p`.
fn has_prefix(s: &str, p: &str) -> (r: bool)
    ensures
        r == (p@.len() <= s@.len() && s@.subrange(0, p@.len() as int) == p@),
{
    let n = s.unicode_len();
    let m = p.unicode_len();
    if m > n {
        return false;
    }
    let mut i: usize = 0;
    while i < m
        invariant
            n == s@.len(),
            m == p@.len(),
            m <= n,
            i <= m,
            forall|k: int| 0 <= k < i ==> s@[k] == p@[k],
        decreases m - i,
    {
        if s.get_char(i) != p.get_char(i) {
            proof {
                assert(s@.subrange(0, m as int)[i as int] != p@[i as int]);
            }
            return false;
        }
        i = i + 1;
    }
    assert(s@.subrange(0, m as int) =~= p@);
    true
}

fn io_label_of(title: &str) -> (r: String)
    ensures
        r@ == io_label(title@),
{
    proof {
        reveal_strlit("In: ");
        reveal_strlit("Out: ");
    }
    let n = title.unicode_len();
    if has_prefix(title, "In: ") {
        title.substring_char(4, n).to_owned()
    } else if has_prefix(title, "Out: ") {
        title.substring_char(5, n).to_owned()
    } else {
        String::new()
    }
}

proof fn lemma_port_count_step<F>(ns: Seq<SerializedNode<F>>, i: int)
    requires
        0 <= i < ns.len(),
    ensures
        port_count(ns.subrange(0, i + 1)) == port_count(ns.subrange(0, i)) + ns[i].ports@.len(),
        record_ids(ns.subrange(0, i + 1)) == record_ids(ns.subrange(0, i)).insert(ns[i].id).union(port_ids(ns[i].ports@)),
{
    assert(ns.subrange(0, i + 1).drop_last() =~= ns.subrange(0, i));
}

proof fn lemma_port_count_prefix<F>(ns: Seq<SerializedNode<F>>, i: int)
    requires
        0 <= i <= ns.len(),
    ensures
        port_count(ns.subrange(0, i)) <= port_count(ns),
    decreases ns.len() - i,
{
    if i < ns.len() {
        lemma_port_count_step(ns, i);
        lemma_port_count_prefix(ns, i + 1);
    } else {
        assert(ns.subrange(0, i) =~= ns);
    }
}

/// Port `p` of `g` has the direction, socket type and label stored in `sp`.
pub open spec fn port_rebuilt<F: Copy>(g: NodeGraph<F>, p: EntityId, sp: SerializedPort) -> bool {
    &&& g.dir_of(p) == Some(sp.direction)
    &&& g.socket_of(p) == Some(sp.socket_type)
    &&& g.wd().comp::<PortLabel>(p) matches Some(l) && l.0@ == sp.label@
}

/// `n` is a live node of `g` with the header, Group IO kind and ports
/// stored in `sn`.
pub open spec fn node_rebuilt<F: Copy>(g: NodeGraph<F>, n: EntityId, sn: SerializedNode<F>) -> bool {
    &&& g.wd().alive(n)
    &&& g.owner_of(n) is None
    &&& g.dir_of(n) is None
    &&& g.endpoints(n) is None
    &&& g.wd().comp::<NodeHeader>(n) matches Some(h) && h.title@ == sn.header.title@ && h.color == sn.header.color
        && h.collapsed == sn.header.collapsed
    &&& g.wd().comp::<GroupIOKind>(n) == sn.group_io_kind
    &&& g.ports_of(n).len() == sn.ports@.len()
    &&& forall|j: int| 0 <= j < sn.ports@.len() ==> port_rebuilt(g, #[trigger] g.ports_of(n)[j], sn.ports@[j])
}

/// The id map `m` sends stored node `sn` to a node of `g` rebuilt from it,
/// and each of its stored ports to the matching port of that node.
#[verifier::opaque]
pub open spec fn node_mapped<F: Copy>(g: NodeGraph<F>, m: Map<u32, EntityId>, sn: SerializedNode<F>) -> bool {
    &&& m.contains_key(sn.id)
    &&& node_rebuilt(g, m[sn.id], sn)
    &&& forall|j: int|
        0 <= j < sn.ports@.len() ==> m.contains_key((#[trigger] sn.ports@[j]).id) && m[sn.ports@[j].id] == g.ports_of(
            m[sn.id],
        )[j]
}

/// No two stored nodes or ports share an id.
#[verifier::opaque]
pub open spec fn ids_unique<F>(data: SerializedGraph<F>) -> bool {
    let ns = data.nodes@;
    &&& forall|a: int, b: int| 0 <= a < ns.len() && 0 <= b < ns.len() && a != b ==> (#[trigger] ns[a]).id != (#[trigger] ns[b]).id
    &&& forall|a: int, i: int, b: int, j: int|
        #![trigger ns[a].ports@[i], ns[b].ports@[j]]
        0 <= a < ns.len() && 0 <= b < ns.len() && 0 <= i < ns[a].ports@.len() && 0 <= j < ns[b].ports@.len() && (a != b || i
            != j) ==> ns[a].ports@[i].id != ns[b].ports@[j].id
    &&& forall|a: int, b: int, j: int|
        #![trigger ns[a], ns[b].ports@[j]]
        0 <= a < ns.len() && 0 <= b < ns.len() && 0 <= j < ns[b].ports@.len() ==> ns[a].id != ns[b].ports@[j].id
}

impl<F: Copy + Default> NodeGraph<F> {
    /// Add a node with the header and Group IO kind stored in `sn`, and no
    /// ports yet.
    fn rebuild_head(&mut self, sn: &SerializedNode<F>) -> (n: EntityId)
        requires
            old(self).wf(),
            old(self).wd().room() >= 1,
        ensures
            final(self).wf(),
            final(self).wd().room() >= old(self).wd().room() - 1,
            !old(self).wd().alive(n),
            keeps_nodes_but(*old(self), *final(self), n),
            forall|c: EntityId| #[trigger] final(self).endpoints(c) == old(self).endpoints(c),
            final(self).can_own_ports(n),
            final(self).dir_of(n) is None,
            final(self).ports_of(n) == Seq::<EntityId>::empty(),
            final(self).wd().comp::<NodeHeader>(n) matches Some(h) && h.title@ == sn.header.title@ && h.color
                == sn.header.color && h.collapsed == sn.header.collapsed,
            final(self).wd().comp::<GroupIOKind>(n) == sn.group_io_kind,
    {
        let ghost s0 = *self;
        let node_id = self.add_node(sn.header.title.as_str(), sn.position);
        let ghost s1 = *self;
        let hd = NodeHeader { title: sn.header.title.clone(), color: sn.header.color, collapsed: sn.header.collapsed };
        self.set_component(node_id, hd);
        proof {
            lemma_add_node_keeps(s0, s1, node_id);
            lemma_keeps_weaken(s0, s1, node_id);
            lemma_set_header_keeps_but(s1, *self, node_id);
            lemma_keeps_but_trans(s0, s1, *self, node_id);
            crate::store::components::lemma_same_except_single(self.wd().comps(), s1.wd().comps(), ComponentKind::NodeHeader);
            self.wd().lemma_comp_kept::<GroupIOKind>(&s1.wd(), set![ComponentKind::NodeHeader], node_id);
        }
        if sn.is_reroute {
            let ghost t0 = *self;
            self.set_component(node_id, IsReroute);
            proof {
                lemma_set_other_keeps::<F, IsReroute>(t0, *self);
                lemma_keeps_weaken(t0, *self, node_id);
                lemma_keeps_but_trans(s0, t0, *self, node_id);
                crate::store::components::lemma_same_except_single(self.wd().comps(), t0.wd().comps(), ComponentKind::IsReroute);
                self.wd().lemma_comp_kept::<GroupIOKind>(&t0.wd(), set![ComponentKind::IsReroute], node_id);
                self.wd().lemma_comp_kept::<NodeHeader>(&t0.wd(), set![ComponentKind::IsReroute], node_id);
            }
        }
        match sn.group_io_kind {
            Some(kind) => {
                let ghost t0 = *self;
                self.set_component(node_id, kind);
                let ghost t1 = *self;
                proof {
                    lemma_set_io_kind_keeps_but(t0, t1, node_id);
                    lemma_keeps_but_trans(s0, t0, t1, node_id);
                    crate::store::components::lemma_same_except_single(t1.wd().comps(), t0.wd().comps(), ComponentKind::GroupIOKind);
                    t1.wd().lemma_comp_kept::<NodeHeader>(&t0.wd(), set![ComponentKind::GroupIOKind], node_id);
                }
                self.set_component(node_id, GroupIOLabel(io_label_of(sn.header.title.as_str())));
                proof {
                    lemma_set_other_keeps::<F, GroupIOLabel>(t1, *self);
                    lemma_keeps_weaken(t1, *self, node_id);
                    lemma_keeps_but_trans(s0, t1, *self, node_id);
                    crate::store::components::lemma_same_except_single(self.wd().comps(), t1.wd().comps(), ComponentKind::GroupIOLabel);
                    self.wd().lemma_comp_kept::<GroupIOKind>(&t1.wd(), set![ComponentKind::GroupIOLabel], node_id);
                    self.wd().lemma_comp_kept::<NodeHeader>(&t1.wd(), set![ComponentKind::GroupIOLabel], node_id);
                }
            },
            None => {},
        }
        node_id
    }

    /// Add the stored ports `ps` to node `n`, in order. Returns the new
    /// ports.
    fn rebuild_ports(&mut self, n: EntityId, ps: &Vec<SerializedPort>) -> (r: Vec<EntityId>)
        requires
            old(self).wf(),
            old(self).can_own_ports(n),
            old(self).ports_of(n) == Seq::<EntityId>::empty(),
            old(self).wd().room() >= ps@.len(),
        ensures
            final(self).wf(),
            final(self).wd().room() >= old(self).wd().room() - ps@.len(),
            keeps_nodes_but(*old(self), *final(self), n),
            forall|c: EntityId| #[trigger] final(self).endpoints(c) == old(self).endpoints(c),
            final(self).can_own_ports(n),
            final(self).ports_of(n) == r@,
            r@.len() == ps@.len(),
            forall|i: int| 0 <= i < ps@.len() ==> port_rebuilt(*final(self), #[trigger] r@[i], ps@[i]),
            final(self).wd().comp::<NodeHeader>(n) == old(self).wd().comp::<NodeHeader>(n),
            final(self).wd().comp::<GroupIOKind>(n) == old(self).wd().comp::<GroupIOKind>(n),
            final(self).dir_of(n) == old(self).dir_of(n),
    {
        let mut r: Vec<EntityId> = Vec::new();
        let mut j: usize = 0;
        proof {
            lemma_keeps_self(*self);
            lemma_keeps_weaken(*self, *self, n);
        }
        while j < ps.len()
            invariant
                self.wf(),
                j <= ps@.len(),
                self.can_own_ports(n),
                self.wd().room() >= old(self).wd().room() - j,
                old(self).wd().room() >= ps@.len(),
                keeps_nodes_but(*old(self), *self, n),
                forall|c: EntityId| #[trigger] self.endpoints(c) == old(self).endpoints(c),
                self.ports_of(n) == r@,
                r@.len() == j,
                forall|i: int| 0 <= i < j ==> port_rebuilt(*self, #[trigger] r@[i], ps@[i]),
                self.wd().comp::<NodeHeader>(n) == old(self).wd().comp::<NodeHeader>(n),
                self.wd().comp::<GroupIOKind>(n) == old(self).wd().comp::<GroupIOKind>(n),
                self.dir_of(n) == old(self).dir_of(n),
            decreases ps.len() - j,
        {
            let sp = &ps[j];
            let ghost t0 = *self;
            let port_id = self.add_port(n, sp.direction, sp.socket_type, sp.label.as_str());
            proof {
                lemma_add_port_keeps_but(t0, *self, n, port_id);
                lemma_keeps_but_trans(*old(self), t0, *self, n);
                let kp = set![ComponentKind::PortOwner, ComponentKind::PortDirection, ComponentKind::PortSocketType, ComponentKind::PortLabel, ComponentKind::PortIndex];
                self.wd().lemma_comp_kept::<NodeHeader>(&t0.wd(), kp, n);
                self.wd().lemma_comp_kept::<GroupIOKind>(&t0.wd(), kp, n);
                assert forall|i: int| 0 <= i < j implies port_rebuilt(*self, #[trigger] r@[i], ps@[i]) by {
                    let q = r@[i];
                    assert(t0.ports_of(n).contains(q));
                    assert(t0.wd().alive(q));
                    assert(q != port_id);
                    assert(port_rebuilt(t0, q, ps@[i]));
                }
            }
            r.push(port_id);
            j = j + 1;
        }
        r
    }

    /// Rebuild a stored node and its ports, recording the new entities in
    /// `ids` under their stored ids. Returns the new node.
    #[verifier::spinoff_prover]
    #[verifier::rlimit(50)]
    fn rebuild_node(&mut self, sn: &SerializedNode<F>, ids: &mut IdMap) -> (n: EntityId)
        requires
            old(self).wf(),
            old(ids).wf(),
            old(self).wd().room() >= 1 + sn.ports@.len(),
        ensures
            final(self).wf(),
            final(ids).wf(),
            final(self).wd().room() >= old(self).wd().room() - (1 + sn.ports@.len()),
            final(ids)@.dom() == old(ids)@.dom().insert(sn.id).union(port_ids(sn.ports@)),
            !old(self).wd().alive(n),
            keeps_nodes(*old(self), *final(self)),
            forall|c: EntityId| #[trigger] final(self).endpoints(c) == old(self).endpoints(c),
            step_done(*sn, *final(self), old(ids)@, final(ids)@, n),
    {
        let ghost s0 = *self;
        let node_id = self.rebuild_head(sn);
        let ghost s1 = *self;
        let pes = self.rebuild_ports(node_id, &sn.ports);
        proof {
            lemma_keeps_but_trans(s0, s1, *self, node_id);
            lemma_keeps_but_fresh(s0, *self, node_id);
        }
        let ghost m0 = ids@;
        ids.record(sn.id, node_id, &sn.ports, &pes);
        proof {
            let ps = sn.ports@;
            let len = ps.len() as int;
            let m1 = m0.insert(sn.id, node_id);
            lemma_insert_all_dom(m1, ps, pes@, len);
            assert(ps.subrange(0, len) =~= ps);
            assert(ids@.dom() =~= m0.dom().insert(sn.id).union(port_ids(ps)));
            if forall|j: int| 0 <= j < ps.len() ==> (#[trigger] ps[j]).id != sn.id {
                lemma_insert_all_other(m1, ps, pes@, len, sn.id);
            }
            assert forall|j: int|
                0 <= j < ps.len() && (forall|j2: int| j < j2 < ps.len() ==> (#[trigger] ps[j2]).id != ps[j].id) implies ids@[(
                #[trigger] ps[j]).id] == self.ports_of(node_id)[j] by {
                lemma_insert_all_last(m1, ps, pes@, len, j);
            }
            assert forall|k: u32|
                k != sn.id && !port_ids(ps).contains(k) && m0.contains_key(k) implies #[trigger] ids@[k] == m0[k] by {
                assert forall|i: int| 0 <= i < len implies (#[trigger] ps[i]).id != k by {
                    let mm = ps.map_values(|p: SerializedPort| p.id);
                    assert(mm[i] == ps[i].id);
                    if ps[i].id == k {
                        assert(mm.contains(k));
                    }
                }
                lemma_insert_all_other(m1, ps, pes@, len, k);
            }
        }
        node_id
    }

    /// Rebuild a stored graph. Returns the graph and, for each stored node
    /// and port id, the entity rebuilt for it (a later stored entity with
    /// the same id replaces an earlier one). With unique stored ids, each
    /// stored node becomes a node with its header, Group IO kind and ports;
    /// each stored connection joins the ports its ids map to, unless a later
    /// one takes the same input port. Fails on the first stored connection
    /// that names an unknown port id or whose ports cannot be connected; with
    /// unique stored ids it succeeds exactly when every stored connection
    /// joins stored ports of two different nodes, of opposite directions and
    /// compatible socket types.
    pub fn deserialize_with_id_map(data: &SerializedGraph<F>) -> (r: Result<(Self, IdMap), DeserializeError>)
        requires
            stored_size(*data) <= u32::MAX as int + 1,
        ensures
            ids_unique(*data) ==> (r is Ok <==> forall|k: int|
                0 <= k < data.connections@.len() ==> linked(*data, #[trigger] data.connections@[k]) && stored_ok(
                    *data,
                    data.connections@[k],
                )),
            match r {
                Ok((g, m)) => {
                    &&& g.wf()
                    &&& m.wf()
                    &&& forall|k: int| 0 <= k < data.connections@.len() ==> #[trigger] linked(*data, data.connections@[k])
                    &&& graph_content(g, m@, *data)
                },
                Err(DeserializeError::OrphanedConnection { source_port, target_port }) => exists|k: int|
                    0 <= k < data.connections@.len() && data.connections@[k].source_port == source_port
                        && data.connections@[k].target_port == target_port && !linked(*data, data.connections@[k])
                        && forall|j: int| 0 <= j < k ==> #[trigger] linked(*data, data.connections@[j]),
                Err(DeserializeError::ConnectionFailed { source_port, target_port, reason }) => exists|k: int|
                    0 <= k < data.connections@.len() && data.connections@[k].source_port == source_port
                        && data.connections@[k].target_port == target_port && linked(*data, data.connections@[k])
                        && forall|j: int| 0 <= j < k ==> #[trigger] linked(*data, data.connections@[j]),
                Err(_) => false,
            },
    {
        let mut graph: NodeGraph<F> = NodeGraph::new();
        let mut ids = IdMap::new();
        let ghost ns = data.nodes@;
        let mut i: usize = 0;
        while i < data.nodes.len()
            invariant
                graph.wf(),
                ids.wf(),
                i <= ns.len(),
                ns == data.nodes@,
                stored_size(*data) <= u32::MAX as int + 1,
                graph.wd().room() >= u32::MAX as int + 1 - (i + port_count(ns.subrange(0, i as int))),
                ids@.dom() == record_ids(ns.subrange(0, i as int)),
                ids_unique(*data) ==> forall|a: int| 0 <= a < i ==> node_mapped(graph, ids@, #[trigger] ns[a]),
                ids_unique(*data) ==> nodes_apart(ids@, ns, i as int),
            decreases data.nodes.len() - i,
        {
            proof {
                lemma_port_count_step(ns, i as int);
                lemma_port_count_prefix(ns, i as int + 1);
            }
            let ghost g0 = graph;
            let ghost m0 = ids@;
            let n = graph.rebuild_node(&data.nodes[i], &mut ids);
            proof {
                if ids_unique(*data) {
                    lemma_nodes_step(*data, i as int, g0, graph, m0, ids@, n);
                }
            }
            i = i + 1;
        }
        proof {
            assert(ns.subrange(0, i as int) =~= ns);
        }
        let mut k: usize = 0;
        while k < data.connections.len()
            invariant
                graph.wf(),
                ids.wf(),
                k <= data.connections@.len(),
                ns == data.nodes@,
                ids@.dom() == record_ids(ns),
                stored_size(*data) <= u32::MAX as int + 1,
                graph.wd().room() >= u32::MAX as int + 1 - (ns.len() + port_count(ns) + k),
                forall|j: int| 0 <= j < k ==> #[trigger] linked(*data, data.connections@[j]),
                ids_unique(*data) ==> forall|a: int| 0 <= a < ns.len() ==> node_mapped(graph, ids@, #[trigger] ns[a]),
                ids_unique(*data) ==> nodes_apart(ids@, ns, ns.len() as int),
                conns_done(graph, ids@, data.connections@, k as int),
            decreases data.connections.len() - k,
        {
            let sc = data.connections[k];
            match (ids.get(sc.source_port), ids.get(sc.target_port)) {
                (Some(src), Some(tgt)) => {
                    let ghost g0 = graph;
                    let rc = graph.connect(src, tgt);
                    proof {
                        lemma_connect_keeps_nodes(g0, graph, src, tgt, rc);
                        if ids_unique(*data) {
                            assert forall|a: int| 0 <= a < ns.len() implies node_mapped(graph, ids@, #[trigger] ns[a]) by {
                                lemma_mapped_kept(g0, graph, ids@, ns[a]);
                            }
                        }
                    }
                    match rc {
                        Ok(c) => {
                            proof {
                                lemma_conns_step(g0, graph, ids@, data.connections@, k as int, c);
                            }
                        },
                        Err(e) => {
                            proof {
                                if ids_unique(*data) {
                                    assert(linked(*data, data.connections@[k as int]));
                                    lemma_check_matches(g0, ids@, *data, data.connections@[k as int]);
                                }
                            }
                            return Err(
                                DeserializeError::ConnectionFailed {
                                    source_port: sc.source_port,
                                    target_port: sc.target_port,
                                    reason: e,
                                },
                            );
                        },
                    }
                },
                _ => {
                    proof {
                        assert(!linked(*data, data.connections@[k as int]));
                    }
                    return Err(DeserializeError::OrphanedConnection { source_port: sc.source_port, target_port: sc.target_port });
                },
            }
            k = k + 1;
        }
        let mut f: usize = 0;
        while f < data.frames.len()
            invariant
                graph.wf(),
                ids.wf(),
                f <= data.frames@.len(),
                ns == data.nodes@,
                ids@.dom() == record_ids(ns),
                stored_size(*data) <= u32::MAX as int + 1,
                graph.wd().room() >= u32::MAX as int + 1 - (ns.len() + port_count(ns) + data.connections@.len() + f),
                ids_unique(*data) ==> forall|a: int| 0 <= a < ns.len() ==> node_mapped(graph, ids@, #[trigger] ns[a]),
                ids_unique(*data) ==> nodes_apart(ids@, ns, ns.len() as int),
                conns_done(graph, ids@, data.connections@, data.connections@.len() as int),
            decreases data.frames.len() - f,
        {
            let sf = &data.frames[f];
            let mut members: Vec<EntityId> = Vec::new();
            let mut t: usize = 0;
            while t < sf.member_node_ids.len()
                invariant
                    ids.wf(),
                    t <= sf.member_node_ids@.len(),
                decreases sf.member_node_ids.len() - t,
            {
                match ids.get(sf.member_node_ids[t]) {
                    Some(e) => {
                        members.push(e);
                    },
                    None => {},
                }
                t = t + 1;
            }
            let d = F::default();
            let ghost g0 = graph;
            graph.add_frame(sf.label.as_str(), sf.color, members.as_slice(), FrameRect { x: d, y: d, w: d, h: d });
            proof {
                lemma_frame_keeps(g0, graph);
                lemma_conns_kept(g0, graph, ids@, data.connections@, data.connections@.len() as int);
                if ids_unique(*data) {
                    assert forall|a: int| 0 <= a < ns.len() implies node_mapped(graph, ids@, #[trigger] ns[a]) by {
                        lemma_mapped_kept(g0, graph, ids@, ns[a]);
                    }
                }
            }
            f = f + 1;
        }
        proof {
            if ids_unique(*data) {
                assert forall|k: int| 0 <= k < data.connections@.len() implies linked(*data, #[trigger] data.connections@[k])
                    && stored_ok(*data, data.connections@[k]) by {
                    assert(conn_ok(graph, ids@, data.connections@[k]));
                    lemma_check_matches(graph, ids@, *data, data.connections@[k]);
                }
            }
        }
        Ok((graph, ids))
    }

    /// Rebuild a stored graph; fails as `deserialize_with_id_map` does.
    pub fn deserialize(data: &SerializedGraph<F>) -> (r: Result<Self, DeserializeError>)
        requires
            stored_size(*data) <= u32::MAX as int + 1,
        ensures
            ids_unique(*data) ==> (r is Ok <==> forall|k: int|
                0 <= k < data.connections@.len() ==> linked(*data, #[trigger] data.connections@[k]) && stored_ok(
                    *data,
                    data.connections@[k],
                )),
            match r {
                Ok(g) => {
                    &&& g.wf()
                    &&& forall|k: int| 0 <= k < data.connections@.len() ==> #[trigger] linked(*data, data.connections@[k])
                    &&& rebuilt_from(g, *data)
                },
                Err(DeserializeError::OrphanedConnection { source_port, target_port }) => exists|k: int|
                    0 <= k < data.connections@.len() && data.connections@[k].source_port == source_port
                        && data.connections@[k].target_port == target_port && !linked(*data, data.connections@[k]),
                Err(DeserializeError::ConnectionFailed { source_port, target_port, reason }) => exists|k: int|
                    0 <= k < data.connections@.len() && data.connections@[k].source_port == source_port
                        && data.connections@[k].target_port == target_port && linked(*data, data.connections@[k]),
                Err(_) => false,
            },
    {
        match Self::deserialize_with_id_map(data) {
            Ok((g, m)) => {
                proof {
                    assert(graph_content(g, m@, *data));
                }
                Ok(g)
            },
            Err(e) => Err(e),
        }
    }
}

} // verus!

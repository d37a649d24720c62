use vstd::prelude::*;
use crate::store::{EntityId, Generation};
use super::NodeGraph;
use super::group::{SubgraphRoot, GroupIOKind, GroupIOLabel};
use super::node::NodeHeader;
use super::port::{PortDirection, PortSocketType, PortOwner, PortLabel};
use super::connection::ConnectionEndpoints;
use crate::store::ComponentKind;
use crate::types::socket_type::SocketType;
use vstd::string::StringExecFns;
use super::links::{ParentLinks, IoPortLinks};
use super::grouping::{
    link_total, port_total, conn_total, last_match, grouped_ports, cut_nodes, lemma_grouped_ports, look_type, look_label,
    has_io_port, has_copy, io_port, io_port_linked, feeds_copy, fed_from_copy, regular_node, fresh_copy, lemma_restore_gives_copies, copies_node,
    lemma_copies_trans, inside, mapped, hits_external, binding_pairs, lemma_group_frame, last_internal, copies_joined, new_for_group,
    lemma_fresh_copies_kept, lemma_fresh_copies_survive_remove, inner_link, kept_pair, joined_via, map_ok, copied_port,
    lemma_map_ok_kept, io_side, lemma_port_mapped, wired_from, wired_to, lemma_wired_to_kept, lemma_wired_to_survives_remove, lemma_wired_kept, lemma_wired_survives_remove, described_in, lemma_rewire_step, lemma_map_survives_remove, lemma_joined_survives_remove, lemma_inner_links_joined,
};
use super::keeps::{lemma_connect_keeps_nodes, lemma_set_other_keeps};
use crate::serialization::{
    SerializedGraph, SerializedGraphEditor, DeserializeError, IdMap, serialized_as, stored_size, linked, graph_ids_unique, has_root_graph,
    graph_content, lemma_content_kept, rebuilt_from, ids_unique, connections_ok, names_subgraph,
};

verus! {

/// Port `p` of `g` belongs to a Group Input or Group Output node.
pub open spec fn is_io_port<F: Copy>(g: NodeGraph<F>, p: EntityId) -> bool {
    g.owner_of(p) matches Some(o) && g.wd().comp::<GroupIOKind>(o) is Some
}


/// Multi-graph editor managing a hierarchy of node graphs: the root graph
/// and one subgraph per group node.
///
/// Nodes are grouped with `group_nodes`, groups are entered and left with
/// `enter_group` / `exit_group`, and the path from the root to the graph
/// being edited is kept as a breadcrumb.
pub struct GraphEditor<F> {
    graph_ids: Vec<EntityId>,
    graphs: Vec<NodeGraph<F>>,
    root_graph_id: EntityId,
    current_graph_id: EntityId,
    breadcrumb: Vec<EntityId>,
    next_graph_id: u32,
    /// Start of the entity index range of the next subgraph.
    next_entity_start: u32,
    /// For each subgraph: the parent graph and the group node standing for it.
    pub subgraph_parents: ParentLinks,
    /// For each (subgraph, port of a group IO node in it): the matching port
    /// of the group node in the parent graph.
    pub io_port_mapping: IoPortLinks,
}

/// Whether `id` occurs in `ids`.
fn contains_graph_id(ids: &Vec<EntityId>, id: EntityId) -> (r: bool)
    ensures
        r == ids@.contains(id),
{
    match position_in(ids, id) {
        Some(_) => true,
        None => false,
    }
}

/// Position of `id` in `ids`, if it occurs there.
fn position_in(ids: &Vec<EntityId>, id: EntityId) -> (r: Option<usize>)
    ensures
        match r {
            Some(i) => i < ids@.len() && ids@[i as int] == id,
            None => !ids@.contains(id),
        },
{
    let mut i: usize = 0;
    while i < ids.len()
        invariant
            i <= ids@.len(),
            forall|j: int| 0 <= j < i ==> ids@[j] != id,
        decreases ids.len() - i,
    {
        if ids[i] == id {
            return Some(i);
        }
        i = i + 1;
    }
    None
}

/// The ports of `ps` with direction `d`, in order.
pub open spec fn with_dir<F: Copy>(g: NodeGraph<F>, ps: Seq<EntityId>, d: PortDirection) -> Seq<EntityId>
    decreases ps.len(),
{
    if ps.len() == 0 {
        ps
    } else {
        let before = with_dir(g, ps.drop_last(), d);
        if g.dir_of(ps.last()) == Some(d) {
            before.push(ps.last())
        } else {
            before
        }
    }
}

/// The ports, node after node, of the nodes of `ns` of IO kind `kind`.
pub open spec fn io_ports_in<F: Copy>(g: NodeGraph<F>, ns: Seq<EntityId>, kind: GroupIOKind) -> Seq<EntityId>
    decreases ns.len(),
{
    if ns.len() == 0 {
        Seq::empty()
    } else {
        let before = io_ports_in(g, ns.drop_last(), kind);
        if g.wd().comp::<GroupIOKind>(ns.last()) == Some(kind) {
            before + g.ports_of(ns.last())
        } else {
            before
        }
    }
}

/// `ns` holds the Group Input and Group Output nodes of `g`, each once, by
/// increasing index.
pub open spec fn io_nodes_in_order<F: Copy>(g: NodeGraph<F>, ns: Seq<EntityId>) -> bool {
    &&& forall|a: int, b: int| 0 <= a < b < ns.len() ==> (#[trigger] ns[a]).index < (#[trigger] ns[b]).index
    &&& forall|n: EntityId| g.wd().comp::<GroupIOKind>(n) is Some <==> #[trigger] ns.contains(n)
}

/// `m` with the first `n` ports of `a` of subgraph `sid` linked, in order,
/// to the ports of `b`.
pub open spec fn paired_links(
    m: Map<(EntityId, EntityId), EntityId>,
    sid: EntityId,
    a: Seq<EntityId>,
    b: Seq<EntityId>,
    n: nat,
) -> Map<(EntityId, EntityId), EntityId>
    decreases n,
{
    if n == 0 {
        m
    } else {
        paired_links(m, sid, a, b, (n - 1) as nat).insert((sid, a[n - 1]), b[n - 1])
    }
}

pub open spec fn min_len(a: int, b: int) -> nat {
    if a < b { a as nat } else { b as nat }
}

proof fn lemma_paired_links_member(
    m: Map<(EntityId, EntityId), EntityId>,
    sid: EntityId,
    a: Seq<EntityId>,
    b: Seq<EntityId>,
    n: nat,
    k: (EntityId, EntityId),
)
    requires
        n <= a.len(),
        n <= b.len(),
        paired_links(m, sid, a, b, n).contains_key(k),
    ensures
        (m.contains_key(k) && paired_links(m, sid, a, b, n)[k] == m[k]) || exists|j: int|
            0 <= j < n && k == (sid, a[j]) && paired_links(m, sid, a, b, n)[k] == #[trigger] b[j],
    decreases n,
{
    if n > 0 {
        if k != (sid, a[n - 1]) {
            lemma_paired_links_member(m, sid, a, b, (n - 1) as nat, k);
        }
    }
}

proof fn lemma_with_dir_member<F: Copy>(g: NodeGraph<F>, ps: Seq<EntityId>, d: PortDirection, x: EntityId)
    requires
        with_dir(g, ps, d).contains(x),
    ensures
        ps.contains(x),
    decreases ps.len(),
{
    if ps.len() > 0 {
        if with_dir(g, ps.drop_last(), d).contains(x) {
            lemma_with_dir_member(g, ps.drop_last(), d, x);
            let i = choose|i: int| 0 <= i < ps.drop_last().len() && ps.drop_last()[i] == x;
            assert(ps[i] == x);
        } else {
            assert(ps[ps.len() - 1] == x);
        }
    }
}

proof fn lemma_io_ports_member<F: Copy>(g: NodeGraph<F>, ns: Seq<EntityId>, kind: GroupIOKind, x: EntityId)
    requires
        g.wf(),
        io_ports_in(g, ns, kind).contains(x),
    ensures
        io_side(g, x),
    decreases ns.len(),
{
    if ns.len() > 0 {
        let before = io_ports_in(g, ns.drop_last(), kind);
        if before.contains(x) {
            lemma_io_ports_member(g, ns.drop_last(), kind, x);
        } else {
            let n = ns.last();
            let i = choose|i: int| 0 <= i < io_ports_in(g, ns, kind).len() && io_ports_in(g, ns, kind)[i] == x;
            assert(io_ports_in(g, ns, kind) == before + g.ports_of(n));
            assert(g.ports_of(n)[i - before.len()] == x);
            assert(g.ports_of(n).contains(x));
        }
    }
}

/// Link `k` to `v` joins a port of a Group Input or Group Output node of
/// subgraph `k.0` to a port of the node that stands for that subgraph in
/// its parent graph, as `par` records it.
pub open spec fn io_link_ok<F: Copy>(
    ids: Seq<EntityId>,
    gl: Seq<NodeGraph<F>>,
    par: Map<EntityId, (EntityId, EntityId)>,
    k: (EntityId, EntityId),
    v: EntityId,
) -> bool {
    &&& par.contains_key(k.0)
    &&& exists|pi: int, si: int|
        0 <= pi < gl.len() && 0 <= si < gl.len() && #[trigger] ids[pi] == par[k.0].0 && #[trigger] ids[si] == k.0
            && gl[pi].ports_of(par[k.0].1).contains(v) && io_side(gl[si], k.1)
}

/// Pair the ports of the Group Input nodes of subgraph `sub` (id `sub_id`),
/// in order, with the input ports of group node `node` of `parent`, and
/// likewise the Group Output ports with its output ports.
fn pair_io_ports<F: Copy>(parent: &NodeGraph<F>, node: EntityId, sub: &NodeGraph<F>, sub_id: EntityId, io: &mut IoPortLinks)
    requires
        parent.wf(),
        sub.wf(),
        old(io).wf(),
    ensures
        final(io).wf(),
        exists|ns: Seq<EntityId>|
            #[trigger] io_nodes_in_order(*sub, ns) && {
                let ins = io_ports_in(*sub, ns, GroupIOKind::Input);
                let outs = io_ports_in(*sub, ns, GroupIOKind::Output);
                let gi = with_dir(*parent, parent.ports_of(node), PortDirection::Input);
                let go = with_dir(*parent, parent.ports_of(node), PortDirection::Output);
                final(io)@ == paired_links(
                    paired_links(old(io)@, sub_id, ins, gi, min_len(ins.len() as int, gi.len() as int)),
                    sub_id,
                    outs,
                    go,
                    min_len(outs.len() as int, go.len() as int),
                )
            },
{
    let group_ports = parent.node_ports(node);
    let mut group_inputs: Vec<EntityId> = Vec::new();
    let mut group_outputs: Vec<EntityId> = Vec::new();
    let mut i: usize = 0;
    while i < group_ports.len()
        invariant
            parent.wf(),
            i <= group_ports@.len(),
            group_inputs@ == with_dir(*parent, group_ports@.subrange(0, i as int), PortDirection::Input),
            group_outputs@ == with_dir(*parent, group_ports@.subrange(0, i as int), PortDirection::Output),
        decreases group_ports.len() - i,
    {
        proof {
            assert(group_ports@.subrange(0, i as int + 1).drop_last() =~= group_ports@.subrange(0, i as int));
        }
        match parent.world.get::<PortDirection>(group_ports[i]) {
            Some(PortDirection::Input) => {
                group_inputs.push(group_ports[i]);
            },
            Some(PortDirection::Output) => {
                group_outputs.push(group_ports[i]);
            },
            None => {},
        }
        i = i + 1;
    }
    proof {
        assert(group_ports@.subrange(0, i as int) =~= group_ports@);
    }
    let q = sub.world.query::<GroupIOKind>();
    let ghost ns = Seq::new(q@.len(), |a: int| q@[a].0);
    let mut input_io: Vec<EntityId> = Vec::new();
    let mut output_io: Vec<EntityId> = Vec::new();
    let mut k: usize = 0;
    while k < q.len()
        invariant
            sub.wf(),
            k <= q@.len(),
            ns == Seq::new(q@.len(), |a: int| q@[a].0),
            forall|a: int| 0 <= a < q@.len() ==> sub.wd().comp::<GroupIOKind>(#[trigger] q@[a].0) == Some(*q@[a].1),
            input_io@ == io_ports_in(*sub, ns.subrange(0, k as int), GroupIOKind::Input),
            output_io@ == io_ports_in(*sub, ns.subrange(0, k as int), GroupIOKind::Output),
        decreases q.len() - k,
    {
        let (nid, kind) = q[k];
        let ports = sub.node_ports(nid);
        let ghost in0 = input_io@;
        let ghost out0 = output_io@;
        let mut j: usize = 0;
        while j < ports.len()
            invariant
                j <= ports@.len(),
                *kind == *q@[k as int].1,
                *kind == GroupIOKind::Input ==> input_io@ == in0 + ports@.subrange(0, j as int) && output_io@ == out0,
                *kind == GroupIOKind::Output ==> output_io@ == out0 + ports@.subrange(0, j as int) && input_io@ == in0,
            decreases ports.len() - j,
        {
            match kind {
                GroupIOKind::Input => {
                    input_io.push(ports[j]);
                    proof {
                        assert(in0 + ports@.subrange(0, j as int + 1) =~= (in0 + ports@.subrange(0, j as int)).push(ports@[j as int]));
                    }
                },
                GroupIOKind::Output => {
                    output_io.push(ports[j]);
                    proof {
                        assert(out0 + ports@.subrange(0, j as int + 1) =~= (out0 + ports@.subrange(0, j as int)).push(ports@[j as int]));
                    }
                },
            }
            j = j + 1;
        }
        proof {
            assert(ports@.subrange(0, j as int) =~= ports@);
            assert(ns.subrange(0, k as int + 1).drop_last() =~= ns.subrange(0, k as int));
            assert(ns[k as int] == nid);
        }
        k = k + 1;
    }
    proof {
        assert(ns.subrange(0, k as int) =~= ns);
        assert forall|n: EntityId| sub.wd().comp::<GroupIOKind>(n) is Some <==> #[trigger] ns.contains(n) by {
            if sub.wd().comp::<GroupIOKind>(n) is Some {
                let a = choose|a: int| 0 <= a < q@.len() && #[trigger] q@[a].0 == n;
                assert(ns[a] == n);
            }
            if ns.contains(n) {
                let a = choose|a: int| 0 <= a < ns.len() && ns[a] == n;
                assert(q@[a].0 == n);
            }
        }
        assert forall|a: int, b: int| 0 <= a < b < ns.len() implies (#[trigger] ns[a]).index < (#[trigger] ns[b]).index by {
            assert(ns[a] == q@[a].0 && ns[b] == q@[b].0);
        }
        assert(io_nodes_in_order(*sub, ns));
    }
    let ghost io0 = io@;
    let mut t: usize = 0;
    while t < input_io.len()
        invariant
            io.wf(),
            t <= input_io@.len(),
            io@ == paired_links(io0, sub_id, input_io@, group_inputs@, min_len(t as int, group_inputs@.len() as int)),
        decreases input_io.len() - t,
    {
        if t < group_inputs.len() {
            io.insert((sub_id, input_io[t]), group_inputs[t]);
        }
        t = t + 1;
    }
    let ghost io1 = io@;
    let mut t: usize = 0;
    while t < output_io.len()
        invariant
            io.wf(),
            t <= output_io@.len(),
            io@ == paired_links(io1, sub_id, output_io@, group_outputs@, min_len(t as int, group_outputs@.len() as int)),
        decreases output_io.len() - t,
    {
        if t < group_outputs.len() {
            io.insert((sub_id, output_io[t]), group_outputs[t]);
        }
        t = t + 1;
    }
}

impl<F: Copy> GraphEditor<F> {
    /// The ids of the graphs, in the order they are stored.
    pub closed spec fn ids(&self) -> Seq<EntityId> {
        self.graph_ids@
    }

    /// The graphs, position by position with `ids`.
    pub closed spec fn graph_list(&self) -> Seq<NodeGraph<F>> {
        self.graphs@
    }

    pub closed spec fn root(&self) -> EntityId {
        self.root_graph_id
    }

    pub closed spec fn current(&self) -> EntityId {
        self.current_graph_id
    }

    pub closed spec fn crumbs(&self) -> Seq<EntityId> {
        self.breadcrumb@
    }

    pub closed spec fn next_id(&self) -> u32 {
        self.next_graph_id
    }

    /// Every graph id lies below the next id to hand out.
    pub open spec fn ids_below_next(&self) -> bool {
        forall|k: int| 0 <= k < self.ids().len() ==> (#[trigger] self.ids()[k]).index < self.next_id()
    }

    pub closed spec fn next_start(&self) -> u32 {
        self.next_entity_start
    }

    pub closed spec fn parents(&self) -> ParentLinks {
        self.subgraph_parents
    }

    pub closed spec fn io_links(&self) -> IoPortLinks {
        self.io_port_mapping
    }

    pub open spec fn has_graph(&self, id: EntityId) -> bool {
        self.ids().contains(id)
    }

    /// Position of graph `id` in the graph list.
    pub open spec fn slot_of(&self, id: EntityId) -> int {
        choose|i: int| 0 <= i < self.ids().len() && self.ids()[i] == id
    }

    /// The graph with id `id`; meaningful when `has_graph(id)`.
    pub open spec fn graph_at(&self, id: EntityId) -> NodeGraph<F> {
        self.graph_list()[self.slot_of(id)]
    }

    /// Well-formedness: one graph per id, every graph well-formed, and a
    /// breadcrumb that runs from the root graph to the current graph
    /// through existing graphs.
    pub open spec fn wf(&self) -> bool {
        &&& self.ids().len() == self.graph_list().len()
        &&& self.ids().no_duplicates()
        &&& forall|i: int| 0 <= i < self.graph_list().len() ==> (#[trigger] self.graph_list()[i]).wf()
        &&& self.has_graph(self.root())
        &&& self.has_graph(self.current())
        &&& self.crumbs().len() >= 1
        &&& self.crumbs()[0] == self.root()
        &&& self.crumbs().last() == self.current()
        &&& forall|k: int| 0 <= k < self.crumbs().len() ==> self.has_graph(#[trigger] self.crumbs()[k])
        &&& self.parents().wf()
        &&& self.io_links().wf()
    }

    /// The graph at position `i` is the graph of the id at position `i`.
    pub proof fn lemma_slot(&self, i: int)
        requires
            self.wf(),
            0 <= i < self.ids().len(),
        ensures
            self.slot_of(self.ids()[i]) == i,
            self.graph_at(self.ids()[i]) == self.graph_list()[i],
            self.graph_at(self.ids()[i]).wf(),
    {
        let id = self.ids()[i];
        assert(exists|j: int| 0 <= j < self.ids().len() && self.ids()[j] == id);
        let j = self.slot_of(id);
        assert(self.ids()[j] == id);
        assert(self.graph_list()[i].wf());
    }

    /// Each existing graph is well-formed.
    pub proof fn lemma_graph_wf(&self, id: EntityId)
        requires
            self.wf(),
            self.has_graph(id),
        ensures
            0 <= self.slot_of(id) < self.ids().len(),
            self.ids()[self.slot_of(id)] == id,
            self.graph_at(id).wf(),
    {
        let i = choose|i: int| 0 <= i < self.ids().len() && self.ids()[i] == id;
        self.lemma_slot(i);
    }

    pub fn new() -> (r: Self)
        ensures
            r.wf(),
            r.ids() == seq![r.root()],
            r.root() == (EntityId { index: 0, generation: Generation(0) }),
            r.current() == r.root(),
            r.crumbs() == seq![r.root()],
            r.graph_at(r.root()).wf(),
            forall|e: EntityId| !r.graph_at(r.root()).wd().alive(e),
            r.graph_at(r.root()).wd().room() == u32::MAX as int + 1,
            r.parents()@ == Map::<EntityId, (EntityId, EntityId)>::empty(),
            r.io_links()@ == Map::<(EntityId, EntityId), EntityId>::empty(),
            r.next_id() == 1,
            r.next_start() == 10000,
    {
        let root_id = EntityId { index: 0, generation: Generation::new() };
        let mut graph_ids: Vec<EntityId> = Vec::new();
        graph_ids.push(root_id);
        let mut graphs: Vec<NodeGraph<F>> = Vec::new();
        graphs.push(NodeGraph::new());
        let mut breadcrumb: Vec<EntityId> = Vec::new();
        breadcrumb.push(root_id);
        let r = GraphEditor {
            graph_ids,
            graphs,
            root_graph_id: root_id,
            current_graph_id: root_id,
            breadcrumb,
            next_graph_id: 1,
            next_entity_start: 10000,
            subgraph_parents: ParentLinks::new(),
            io_port_mapping: IoPortLinks::new(),
        };
        proof {
            assert(r.ids()[0] == root_id);
            assert(r.has_graph(root_id));
            r.lemma_slot(0);
        }
        r
    }

    pub fn root_graph_id(&self) -> (r: EntityId)
        ensures
            r == self.root(),
    {
        self.root_graph_id
    }

    /// The id the next subgraph will get.
    pub fn next_graph_id(&self) -> (r: u32)
        ensures
            r == self.next_id(),
    {
        self.next_graph_id
    }

    /// The first entity index the next subgraph's entities will use.
    pub fn next_entity_start(&self) -> (r: u32)
        ensures
            r == self.next_start(),
    {
        self.next_entity_start
    }

    pub fn current_graph_id(&self) -> (r: EntityId)
        ensures
            r == self.current(),
    {
        self.current_graph_id
    }

    /// The graphs from the root down to the current graph.
    pub fn breadcrumb(&self) -> (r: &[EntityId])
        ensures
            r@ == self.crumbs(),
    {
        self.breadcrumb.as_slice()
    }

    /// Position of graph `id` in the graph list, if it exists.
    fn position(&self, id: EntityId) -> (r: Option<usize>)
        requires
            self.wf(),
        ensures
            match r {
                Some(i) => i == self.slot_of(id) && self.has_graph(id),
                None => !self.has_graph(id),
            },
    {
        let mut i: usize = 0;
        while i < self.graph_ids.len()
            invariant
                self.wf(),
                i <= self.ids().len(),
                forall|j: int| 0 <= j < i ==> self.ids()[j] != id,
            decreases self.graph_ids.len() - i,
        {
            if self.graph_ids[i] == id {
                proof {
                    self.lemma_slot(i as int);
                }
                return Some(i);
            }
            i = i + 1;
        }
        None
    }

    /// The graph being edited.
    pub fn current_graph(&self) -> (r: &NodeGraph<F>)
        requires
            self.wf(),
        ensures
            *r == self.graph_at(self.current()),
            r.wf(),
    {
        proof {
            self.lemma_graph_wf(self.current());
        }
        let i = self.position(self.current_graph_id).unwrap();
        &self.graphs[i]
    }

    /// The graph with id `id`, if there is one.
    pub fn graph(&self, id: EntityId) -> (r: Option<&NodeGraph<F>>)
        requires
            self.wf(),
        ensures
            match r {
                Some(g) => self.has_graph(id) && *g == self.graph_at(id) && g.wf(),
                None => !self.has_graph(id),
            },
    {
        match self.position(id) {
            Some(i) => {
                proof {
                    self.lemma_graph_wf(id);
                }
                Some(&self.graphs[i])
            },
            None => None,
        }
    }

    /// Whether `other` differs from `self` at most in the graph at position
    /// `i`.
    pub open spec fn same_except_slot(&self, other: &Self, i: int) -> bool {
        &&& self.ids() == other.ids()
        &&& self.graph_list().len() == other.graph_list().len()
        &&& forall|j: int| 0 <= j < self.graph_list().len() && j != i ==> #[trigger] self.graph_list()[j] == other.graph_list()[j]
        &&& self.root() == other.root()
        &&& self.current() == other.current()
        &&& self.crumbs() == other.crumbs()
        &&& self.next_id() == other.next_id()
        &&& self.next_start() == other.next_start()
        &&& self.parents() == other.parents()
        &&& self.io_links() == other.io_links()
    }

    /// Mutable access to the graph being edited. The editor stays
    /// well-formed when the graph is left well-formed.
    pub fn current_graph_mut(&mut self) -> (r: &mut NodeGraph<F>)
        requires
            old(self).wf(),
        ensures
            *r == old(self).graph_at(old(self).current()),
            r.wf(),
            final(self).same_except_slot(old(self), old(self).slot_of(old(self).current())),
            final(self).graph_at(final(self).current()) == *final(r),
            final(r).wf() ==> final(self).wf(),
    {
        proof {
            old(self).lemma_graph_wf(old(self).current());
        }
        let i = self.position(self.current_graph_id).unwrap();
        &mut self.graphs[i]
    }

    /// Whether `other` holds the same graphs and links as `self`: only the
    /// navigation state may differ.
    pub open spec fn same_graphs(&self, other: &Self) -> bool {
        &&& self.ids() == other.ids()
        &&& self.graph_list() == other.graph_list()
        &&& self.root() == other.root()
        &&& self.next_id() == other.next_id()
        &&& self.next_start() == other.next_start()
        &&& self.parents() == other.parents()
        &&& self.io_links() == other.io_links()
    }

    /// Mutable access to graph `id`, if there is one. The editor stays
    /// well-formed when the graph is left well-formed.
    pub fn graph_mut(&mut self, id: EntityId) -> (r: Option<&mut NodeGraph<F>>)
        requires
            old(self).wf(),
        ensures
            old(self).has_graph(id) ==> {
                &&& r is Some
                &&& *r->0 == old(self).graph_at(id)
                &&& r->0.wf()
                &&& final(self).same_except_slot(old(self), old(self).slot_of(id))
                &&& final(self).graph_at(id) == *final(r->0)
                &&& final(r->0).wf() ==> final(self).wf()
            },
            !old(self).has_graph(id) ==> r is None && *final(self) == *old(self),
    {
        match self.position(id) {
            Some(i) => {
                proof {
                    old(self).lemma_graph_wf(id);
                }
                Some(&mut self.graphs[i])
            },
            None => None,
        }
    }

    /// Navigate into the subgraph of group node `group_node_id` of the
    /// current graph. Returns false, changing nothing, when the node is not
    /// a group node of the current graph or its subgraph does not exist.
    pub fn enter_group(&mut self, group_node_id: EntityId) -> (r: bool)
        requires
            old(self).wf(),
        ensures
            final(self).wf(),
            final(self).same_graphs(old(self)),
            final(self).root() == old(self).root(),
            match old(self).graph_at(old(self).current()).wd().comp::<SubgraphRoot>(group_node_id) {
                Some(sub) => if old(self).has_graph(sub.0) {
                    &&& r
                    &&& final(self).current() == sub.0
                    &&& final(self).crumbs() == old(self).crumbs().push(sub.0)
                } else {
                    !r && *final(self) == *old(self)
                },
                None => !r && *final(self) == *old(self),
            },
    {
        let current = self.current_graph();
        match current.world.get::<SubgraphRoot>(group_node_id) {
            Some(sub) => {
                let subgraph_id = sub.0;
                match self.position(subgraph_id) {
                    Some(_) => {
                        self.current_graph_id = subgraph_id;
                        self.breadcrumb.push(subgraph_id);
                        proof {
                            assert forall|k: int| 0 <= k < self.crumbs().len() implies self.has_graph(#[trigger] self.crumbs()[k]) by {
                                if k < old(self).crumbs().len() {
                                    assert(self.crumbs()[k] == old(self).crumbs()[k]);
                                }
                            }
                        }
                        true
                    },
                    None => false,
                }
            },
            None => false,
        }
    }

    /// Navigate back to graph `graph_id` of the breadcrumb, dropping the
    /// graphs after its first occurrence. Returns false, changing nothing,
    /// when the breadcrumb does not hold it.
    pub fn navigate_to(&mut self, graph_id: EntityId) -> (r: bool)
        requires
            old(self).wf(),
        ensures
            final(self).wf(),
            final(self).same_graphs(old(self)),
            r == old(self).crumbs().contains(graph_id),
            r ==> final(self).current() == graph_id,
            r ==> exists|k: int|
                0 <= k < old(self).crumbs().len() && old(self).crumbs()[k] == graph_id && (forall|j: int|
                    0 <= j < k ==> old(self).crumbs()[j] != graph_id) && #[trigger] final(self).crumbs()
                    == old(self).crumbs().subrange(0, k + 1),
            !r ==> *final(self) == *old(self),
    {
        let mut i: usize = 0;
        while i < self.breadcrumb.len()
            invariant
                *self == *old(self),
                old(self).wf(),
                i <= self.crumbs().len(),
                forall|j: int| 0 <= j < i ==> self.crumbs()[j] != graph_id,
            decreases self.breadcrumb.len() - i,
        {
            if self.breadcrumb[i] == graph_id {
                self.breadcrumb.truncate(i + 1);
                self.current_graph_id = graph_id;
                proof {
                    assert(self.crumbs() =~= old(self).crumbs().subrange(0, i + 1));
                    assert(old(self).crumbs().contains(graph_id));
                    assert forall|k: int| 0 <= k < self.crumbs().len() implies self.has_graph(#[trigger] self.crumbs()[k]) by {
                        assert(self.crumbs()[k] == old(self).crumbs()[k]);
                    }
                }
                return true;
            }
            i = i + 1;
        }
        false
    }

    /// Navigate up one level. Returns false, changing nothing, at the root
    /// of the breadcrumb.
    pub fn exit_group(&mut self) -> (r: bool)
        requires
            old(self).wf(),
        ensures
            final(self).wf(),
            final(self).same_graphs(old(self)),
            r == (old(self).crumbs().len() > 1),
            r ==> final(self).crumbs() == old(self).crumbs().drop_last(),
            r ==> final(self).current() == old(self).crumbs().drop_last().last(),
            !r ==> *final(self) == *old(self),
    {
        if self.breadcrumb.len() > 1 {
            self.breadcrumb.pop();
            let last = self.breadcrumb.len() - 1;
            self.current_graph_id = self.breadcrumb[last];
            proof {
                assert(self.crumbs() =~= old(self).crumbs().drop_last());
                assert forall|k: int| 0 <= k < self.crumbs().len() implies self.has_graph(#[trigger] self.crumbs()[k]) by {
                    assert(self.crumbs()[k] == old(self).crumbs()[k]);
                }
            }
            true
        } else {
            false
        }
    }

    /// The parent graph and the group node of subgraph `subgraph_id`.
    pub fn find_parent_group(&self, subgraph_id: EntityId) -> (r: Option<(EntityId, EntityId)>)
        requires
            self.wf(),
        ensures
            r == (if self.parents()@.contains_key(subgraph_id) {
                Some(self.parents()@[subgraph_id])
            } else {
                None
            }),
    {
        self.subgraph_parents.get(subgraph_id)
    }

    /// The breadcrumb label of graph `graph_id`.
    pub open spec fn label_of(&self, graph_id: EntityId) -> Seq<char> {
        if graph_id == self.root() {
            "Root"@
        } else if self.parents()@.contains_key(graph_id) && self.has_graph(self.parents()@[graph_id].0) {
            match self.graph_at(self.parents()@[graph_id].0).wd().comp::<NodeHeader>(self.parents()@[graph_id].1) {
                Some(h) => h.title@,
                None => "Group"@,
            }
        } else {
            "Group"@
        }
    }

    /// A label for a graph, for breadcrumb display: "Root" for the root
    /// graph, else the title of its group node.
    pub fn graph_label(&self, graph_id: EntityId) -> (r: String)
        requires
            self.wf(),
        ensures
            r@ == self.label_of(graph_id),
    {
        if graph_id == self.root_graph_id {
            return "Root".to_owned();
        }
        match self.subgraph_parents.get(graph_id) {
            Some((parent_id, group_node_id)) => {
                match self.graph(parent_id) {
                    Some(parent) => {
                        match parent.world.get::<NodeHeader>(group_node_id) {
                            Some(h) => h.title.clone(),
                            None => "Group".to_owned(),
                        }
                    },
                    None => "Group".to_owned(),
                }
            },
            None => "Group".to_owned(),
        }
    }
}

impl<F: Copy + Default> GraphEditor<F> {
    /// Add a Group Input or Group Output node with a single port inside the
    /// current subgraph, and the matching port on its group node in the
    /// parent graph. Returns the new IO node, or None, changing nothing, at
    /// the root, for a subgraph without a parent link, or when the parent
    /// graph or its group node is gone.
    pub fn add_group_io_node(&mut self, kind: GroupIOKind, socket_type: SocketType, label: &str) -> (r: Option<EntityId>)
        requires
            old(self).wf(),
            old(self).graph_at(old(self).current()).wd().room() >= 2,
            old(self).parents()@.contains_key(old(self).current()) && old(self).has_graph(
                old(self).parents()@[old(self).current()].0,
            ) ==> old(self).graph_at(old(self).parents()@[old(self).current()].0).wd().room() >= 1,
        ensures
            final(self).wf(),
            final(self).current() == old(self).current(),
            final(self).crumbs() == old(self).crumbs(),
            final(self).root() == old(self).root(),
            final(self).ids() == old(self).ids(),
            final(self).parents() == old(self).parents(),
            ({
                let cur = old(self).current();
                let link = old(self).parents()@[cur];
                let ok = cur != old(self).root() && old(self).parents()@.contains_key(cur) && link.0 != cur
                    && old(self).has_graph(link.0) && old(self).graph_at(link.0).can_own_ports(link.1);
                &&& r is Some <==> ok
                &&& !ok ==> *final(self) == *old(self)
                &&& ok ==> {
                    let io = r->0;
                    let sub0 = old(self).graph_at(cur);
                    let sub = final(self).graph_at(cur);
                    let par0 = old(self).graph_at(link.0);
                    let par = final(self).graph_at(link.0);
                    let p = sub.ports_of(io)[0];
                    let q = par.ports_of(link.1).last();
                    &&& !sub0.wd().alive(io)
                    &&& sub.wd().comp::<NodeHeader>(io) matches Some(h) && h.title@ == (match kind {
                        GroupIOKind::Input => "In: "@,
                        GroupIOKind::Output => "Out: "@,
                    }) + label@
                    &&& sub.wd().comp::<GroupIOKind>(io) == Some(kind)
                    &&& sub.wd().comp::<GroupIOLabel>(io) matches Some(l) && l.0@ == label@
                    &&& sub.ports_of(io).len() == 1
                    &&& sub.dir_of(p) == Some(match kind {
                        GroupIOKind::Input => PortDirection::Output,
                        GroupIOKind::Output => PortDirection::Input,
                    })
                    &&& sub.socket_of(p) == Some(socket_type)
                    &&& par.ports_of(link.1) == par0.ports_of(link.1).push(q)
                    &&& par.dir_of(q) == Some(match kind {
                        GroupIOKind::Input => PortDirection::Input,
                        GroupIOKind::Output => PortDirection::Output,
                    })
                    &&& par.socket_of(q) == Some(socket_type)
                    &&& final(self).io_links()@ == old(self).io_links()@.insert((cur, p), q)
                    &&& final(self).next_id() == old(self).next_id()
                    &&& final(self).next_start() == old(self).next_start()
                    &&& forall|id: EntityId|
                        old(self).has_graph(id) && id != cur && id != link.0 ==> #[trigger] final(self).graph_at(id)
                            == old(self).graph_at(id)
                    &&& forall|e: EntityId| e != io && e != p ==> #[trigger] sub.wd().alive(e) == sub0.wd().alive(e)
                    &&& forall|e: EntityId| e != io ==> #[trigger] sub.ports_of(e) == sub0.ports_of(e)
                    &&& forall|e: EntityId| e != p ==> #[trigger] sub.owner_of(e) == sub0.owner_of(e)
                    &&& forall|e: EntityId| e != p ==> #[trigger] sub.dir_of(e) == sub0.dir_of(e)
                    &&& forall|e: EntityId| e != p && e != io ==> #[trigger] sub.socket_of(e) == sub0.socket_of(e)
                    &&& forall|e: EntityId| e != io && e != p ==> #[trigger] sub.wd().comp::<NodeHeader>(e) == sub0.wd().comp::<NodeHeader>(e)
                    &&& forall|c: EntityId| #[trigger] sub.endpoints(c) == sub0.endpoints(c)
                    &&& forall|e: EntityId| e != q ==> #[trigger] par.wd().alive(e) == par0.wd().alive(e)
                    &&& forall|e: EntityId| e != link.1 ==> #[trigger] par.ports_of(e) == par0.ports_of(e)
                    &&& forall|e: EntityId| e != q ==> #[trigger] par.owner_of(e) == par0.owner_of(e)
                    &&& forall|e: EntityId| e != q ==> #[trigger] par.dir_of(e) == par0.dir_of(e)
                    &&& forall|e: EntityId| e != q ==> #[trigger] par.socket_of(e) == par0.socket_of(e)
                    &&& forall|e: EntityId| e != q ==> #[trigger] par.wd().comp::<NodeHeader>(e) == par0.wd().comp::<NodeHeader>(e)
                    &&& forall|c: EntityId| #[trigger] par.endpoints(c) == par0.endpoints(c)
                }
            }),
    {
        let current_id = self.current_graph_id;
        if current_id == self.root_graph_id {
            return None;
        }
        let (parent_id, group_node_id) = match self.subgraph_parents.get(current_id) {
            Some(link) => link,
            None => {
                return None;
            },
        };
        if parent_id == current_id {
            return None;
        }
        let pj = match self.position(parent_id) {
            Some(j) => j,
            None => {
                return None;
            },
        };
        proof {
            old(self).lemma_graph_wf(parent_id);
            old(self).lemma_graph_wf(current_id);
        }
        if !self.graphs[pj].accepts_ports(group_node_id) {
            return None;
        }
        let si = self.position(current_id).unwrap();
        let mut title = match kind {
            GroupIOKind::Input => "In: ".to_owned(),
            GroupIOKind::Output => "Out: ".to_owned(),
        };
        title.append(label);
        let (sub_dir, parent_dir) = match kind {
            GroupIOKind::Input => (PortDirection::Output, PortDirection::Input),
            GroupIOKind::Output => (PortDirection::Input, PortDirection::Output),
        };
        let ghost e0 = *self;
        let zero = F::default();
        let sub = &mut self.graphs[si];
        let ghost s0 = *sub;
        let io_node = sub.add_node(title.as_str(), (zero, zero));
        let ghost s1 = *sub;
        sub.set_component(io_node, kind);
        let ghost s2 = *sub;
        sub.set_component(io_node, GroupIOLabel(label.to_owned()));
        let ghost s3 = *sub;
        let sub_port = sub.add_port(io_node, sub_dir, socket_type, label);
        proof {
            crate::store::components::lemma_same_except_single(s2.wd().comps(), s1.wd().comps(), ComponentKind::GroupIOKind);
            crate::store::components::lemma_same_except_single(s3.wd().comps(), s2.wd().comps(), ComponentKind::GroupIOLabel);
            let kp = set![ComponentKind::PortOwner, ComponentKind::PortDirection, ComponentKind::PortSocketType, ComponentKind::PortLabel, ComponentKind::PortIndex];
            assert forall|e: EntityId| e != sub_port && e != io_node implies #[trigger] sub.socket_of(e) == s0.socket_of(e) by {
                s2.wd().lemma_comp_kept::<PortSocketType>(&s1.wd(), set![ComponentKind::GroupIOKind], e);
                s3.wd().lemma_comp_kept::<PortSocketType>(&s2.wd(), set![ComponentKind::GroupIOLabel], e);
                s1.wd().lemma_comp_kept::<PortSocketType>(&s0.wd(), set![ComponentKind::NodeHeader, ComponentKind::NodePosition], e);
            }
            assert forall|e: EntityId| e != io_node && e != sub_port implies #[trigger] sub.wd().comp::<NodeHeader>(e) == s0.wd().comp::<NodeHeader>(e) by {
                s2.wd().lemma_comp_kept::<NodeHeader>(&s1.wd(), set![ComponentKind::GroupIOKind], e);
                s3.wd().lemma_comp_kept::<NodeHeader>(&s2.wd(), set![ComponentKind::GroupIOLabel], e);
                sub.wd().lemma_comp_kept::<NodeHeader>(&s3.wd(), kp, e);
            }
            assert forall|e: EntityId| e != io_node implies #[trigger] sub.ports_of(e) == s0.ports_of(e) by {
            }
            assert(s2.wd().allocator_spec() == s1.wd().allocator_spec());
            assert(s3.wd().allocator_spec() == s2.wd().allocator_spec());
            assert forall|e: EntityId| e != io_node && e != sub_port implies #[trigger] sub.wd().alive(e) == s0.wd().alive(e) by {
                assert(s3.wd().alive(e) == s2.wd().alive(e));
                assert(s2.wd().alive(e) == s1.wd().alive(e));
            }
        }
        let parent = &mut self.graphs[pj];
        let ghost p0 = *parent;
        let parent_port = parent.add_port(group_node_id, parent_dir, socket_type, label);
        proof {
            let kp = set![ComponentKind::PortOwner, ComponentKind::PortDirection, ComponentKind::PortSocketType, ComponentKind::PortLabel, ComponentKind::PortIndex];
            assert forall|e: EntityId| e != parent_port implies #[trigger] parent.wd().comp::<NodeHeader>(e) == p0.wd().comp::<NodeHeader>(e) by {
                parent.wd().lemma_comp_kept::<NodeHeader>(&p0.wd(), kp, e);
            }
        }
        self.io_port_mapping.insert((current_id, sub_port), parent_port);
        proof {
            assert(self.graph_list()[si as int].wf());
            assert(self.graph_list()[pj as int].wf());
            assert forall|i: int| 0 <= i < self.graph_list().len() implies (#[trigger] self.graph_list()[i]).wf() by {
                if i != si && i != pj {
                    assert(self.graph_list()[i] == e0.graph_list()[i]);
                    assert(e0.graph_list()[i].wf());
                }
            }
            assert(self.slot_of(current_id) == si);
            assert(self.slot_of(parent_id) == pj);
            assert forall|id: EntityId| e0.has_graph(id) && id != current_id && id != parent_id implies #[trigger] self.graph_at(id)
                == e0.graph_at(id) by {
                let i = e0.slot_of(id);
                e0.lemma_graph_wf(id);
                assert(self.ids()[i] == id);
                self.lemma_slot(i);
            }
            let sub0 = e0.graph_at(current_id);
            let sub1 = self.graph_at(current_id);
            let par0 = e0.graph_at(parent_id);
            let par1 = self.graph_at(parent_id);
            assert(sub1 == self.graphs@[si as int]);
            assert(par1 == self.graphs@[pj as int]);
        }
        Some(io_node)
    }

    /// After ports `port_a` and `port_b` of the current graph are
    /// connected: a port of a Group Input or Group Output node at either
    /// end takes the socket type of the other end, both types read before
    /// either changes.
    pub fn adapt_io_ports_after_connect(&mut self, port_a: EntityId, port_b: EntityId)
        requires
            old(self).wf(),
        ensures
            final(self).wf(),
            final(self).current() == old(self).current(),
            final(self).crumbs() == old(self).crumbs(),
            final(self).root() == old(self).root(),
            final(self).ids() == old(self).ids(),
            old(self).current() == old(self).root() ==> *final(self) == *old(self),
            ({
                let cur = old(self).current();
                let g = old(self).graph_at(cur);
                let g1 = final(self).graph_at(cur);
                let link_b = old(self).io_links()@.contains_key((cur, port_b)) && old(self).io_links()@[(cur, port_b)]
                    == port_a;
                cur != old(self).root() ==> {
                    &&& (is_io_port(g, port_a) && port_a != port_b && !link_b) ==> (g.socket_of(port_b) matches Some(
                        bt,
                    ) ==> g1.socket_of(port_a) == Some(bt))
                    &&& is_io_port(g, port_b) ==> (g.socket_of(port_a) matches Some(at) ==> g1.socket_of(port_b)
                        == Some(at))
                }
            }),
    {
        let g = self.current_graph();
        let a_type = match g.world_ref().get::<PortSocketType>(port_a) {
            Some(t) => Some(t.0),
            None => None,
        };
        let b_type = match g.world_ref().get::<PortSocketType>(port_b) {
            Some(t) => Some(t.0),
            None => None,
        };
        let a_is_io = match g.world_ref().get::<PortOwner>(port_a) {
            Some(o) => g.world_ref().get::<GroupIOKind>(o.0).is_some(),
            None => false,
        };
        let b_is_io = match g.world_ref().get::<PortOwner>(port_b) {
            Some(o) => g.world_ref().get::<GroupIOKind>(o.0).is_some(),
            None => false,
        };
        let ghost e0 = *self;
        if a_is_io {
            match b_type {
                Some(bt) => {
                    self.adapt_group_io_port(port_a, bt);
                },
                None => {},
            }
        }
        let ghost e1 = *self;
        if b_is_io {
            match a_type {
                Some(at) => {
                    proof {
                        let cur = e0.current();
                        if cur != e0.root() {
                            assert(e0.graph_at(cur).wd().alive(port_b));
                            assert(e1.graph_at(cur).wd().alive(port_b));
                        }
                    }
                    self.adapt_group_io_port(port_b, at);
                },
                None => {},
            }
        }
    }

    /// After a connection is made to a Group IO port of the current
    /// subgraph, give it the socket type `new_type`, and the same to the
    /// matching port of the group node in the parent graph.
    pub fn adapt_group_io_port(&mut self, io_port_id: EntityId, new_type: SocketType)
        requires
            old(self).wf(),
        ensures
            final(self).wf(),
            final(self).current() == old(self).current(),
            final(self).crumbs() == old(self).crumbs(),
            final(self).root() == old(self).root(),
            final(self).ids() == old(self).ids(),
            final(self).parents() == old(self).parents(),
            final(self).io_links() == old(self).io_links(),
            old(self).current() == old(self).root() ==> *final(self) == *old(self),
            final(self).graph_at(old(self).current()).wd().allocator_spec() == old(self).graph_at(
                old(self).current(),
            ).wd().allocator_spec(),
            final(self).next_id() == old(self).next_id(),
            final(self).next_start() == old(self).next_start(),
            forall|id: EntityId|
                old(self).has_graph(id) && id != old(self).current() && !(old(self).parents()@.contains_key(
                    old(self).current(),
                ) && id == old(self).parents()@[old(self).current()].0) ==> #[trigger] final(self).graph_at(id)
                    == old(self).graph_at(id),
            ({
                let cur = old(self).current();
                let sub0 = old(self).graph_at(cur);
                let sub = final(self).graph_at(cur);
                cur != old(self).root() ==> {
                    &&& same_but_sockets(sub0, sub)
                    &&& (sub0.wd().alive(io_port_id) ==> sub.socket_of(io_port_id) == Some(new_type))
                    &&& forall|e: EntityId| e != io_port_id ==> #[trigger] sub.socket_of(e) == sub0.socket_of(e)
                        || (old(self).io_links()@.contains_key((cur, io_port_id)) && e == old(self).io_links()@[(cur, io_port_id)])
                }
            }),
            ({
                let cur = old(self).current();
                let key = (cur, io_port_id);
                let link = old(self).parents()@[cur];
                let q = old(self).io_links()@[key];
                (cur != old(self).root() && old(self).io_links()@.contains_key(key) && old(self).parents()@.contains_key(cur)
                    && link.0 != cur && old(self).has_graph(link.0)) ==> {
                    &&& same_but_sockets(old(self).graph_at(link.0), final(self).graph_at(link.0))
                    &&& (old(self).graph_at(link.0).wd().alive(q) ==> final(self).graph_at(link.0).socket_of(q) == Some(new_type))
                    &&& forall|e: EntityId| e != q ==> #[trigger] final(self).graph_at(link.0).socket_of(e) == old(self).graph_at(link.0).socket_of(e)
                }
            }),
    {
        let current_id = self.current_graph_id;
        if current_id == self.root_graph_id {
            return;
        }
        proof {
            old(self).lemma_graph_wf(current_id);
        }
        let si = self.position(current_id).unwrap();
        let ghost e0 = *self;
        self.graphs[si].set_component(io_port_id, PortSocketType(new_type));
        proof {
            lemma_set_socket_keeps(e0.graphs@[si as int], self.graphs@[si as int]);
            assert forall|id: EntityId| e0.has_graph(id) && id != current_id implies #[trigger] self.graph_at(id)
                == e0.graph_at(id) by {
                let i = e0.slot_of(id);
                e0.lemma_graph_wf(id);
                assert(self.ids()[i] == id);
                self.lemma_slot(i);
            }
            assert forall|i: int| 0 <= i < self.graph_list().len() implies (#[trigger] self.graph_list()[i]).wf() by {
                if i != si {
                    assert(self.graph_list()[i] == e0.graph_list()[i]);
                    assert(e0.graph_list()[i].wf());
                }
            }
            assert(self.slot_of(current_id) == si);
        }
        let parent_port = match self.io_port_mapping.get((current_id, io_port_id)) {
            Some(p) => p,
            None => {
                return;
            },
        };
        let parent_id = match self.subgraph_parents.get(current_id) {
            Some(link) => link.0,
            None => {
                return;
            },
        };
        if parent_id == current_id {
            return;
        }
        match self.position(parent_id) {
            Some(pj) => {
                let ghost e1 = *self;
                proof {
                    e1.lemma_graph_wf(parent_id);
                }
                self.graphs[pj].set_component(parent_port, PortSocketType(new_type));
                proof {
                    lemma_set_socket_keeps(e1.graphs@[pj as int], self.graphs@[pj as int]);
                    assert forall|id: EntityId| e1.has_graph(id) && id != parent_id implies #[trigger] self.graph_at(id)
                        == e1.graph_at(id) by {
                        let i = e1.slot_of(id);
                        e1.lemma_graph_wf(id);
                        assert(self.ids()[i] == id);
                        self.lemma_slot(i);
                    }
                    assert forall|i: int| 0 <= i < self.graph_list().len() implies (#[trigger] self.graph_list()[i]).wf() by {
                        if i != pj {
                            assert(self.graph_list()[i] == e1.graph_list()[i]);
                            assert(e1.graph_list()[i].wf());
                        }
                    }
                    assert(self.slot_of(parent_id) == pj);
                    assert(self.slot_of(current_id) == si);
                }
            },
            None => {},
        }
    }

    /// Whether two editors hold the same graphs, links and navigation state.
    pub open spec fn same_content(&self, other: &Self) -> bool {
        &&& self.ids() == other.ids()
        &&& self.graph_list().len() == other.graph_list().len()
        &&& forall|i: int|
            0 <= i < self.graph_list().len() ==> (#[trigger] self.graph_list()[i]).same_content(&other.graph_list()[i])
        &&& self.root() == other.root()
        &&& self.current() == other.current()
        &&& self.crumbs() == other.crumbs()
        &&& self.next_id() == other.next_id()
        &&& self.next_start() == other.next_start()
        &&& self.parents()@ == other.parents()@
        &&& self.parents().wf() == other.parents().wf()
        &&& self.io_links()@ == other.io_links()@
        &&& self.io_links().wf() == other.io_links().wf()
    }

    /// A copy of the editor with the same content.
    pub fn duplicate(&self) -> (r: Self)
        requires
            self.wf(),
        ensures
            r.wf(),
            r.same_content(self),
    {
        let mut graph_ids: Vec<EntityId> = Vec::new();
        let mut graphs: Vec<NodeGraph<F>> = Vec::new();
        let mut i: usize = 0;
        while i < self.graphs.len()
            invariant
                self.wf(),
                i <= self.graph_list().len(),
                graph_ids@ == self.ids().subrange(0, i as int),
                graphs@.len() == i,
                forall|j: int| 0 <= j < i ==> (#[trigger] graphs@[j]).wf() && graphs@[j].same_content(&self.graph_list()[j]),
            decreases self.graphs.len() - i,
        {
            assert(self.graph_list()[i as int].wf());
            graphs.push(self.graphs[i].duplicate());
            graph_ids.push(self.graph_ids[i]);
            i = i + 1;
        }
        let mut breadcrumb: Vec<EntityId> = Vec::new();
        let mut k: usize = 0;
        while k < self.breadcrumb.len()
            invariant
                k <= self.crumbs().len(),
                breadcrumb@ == self.crumbs().subrange(0, k as int),
            decreases self.breadcrumb.len() - k,
        {
            breadcrumb.push(self.breadcrumb[k]);
            k = k + 1;
        }
        assert(graph_ids@ =~= self.ids());
        assert(breadcrumb@ =~= self.crumbs());
        let r = GraphEditor {
            graph_ids,
            graphs,
            root_graph_id: self.root_graph_id,
            current_graph_id: self.current_graph_id,
            breadcrumb,
            next_graph_id: self.next_graph_id,
            next_entity_start: self.next_entity_start,
            subgraph_parents: self.subgraph_parents.duplicate(),
            io_port_mapping: self.io_port_mapping.duplicate(),
        };
        proof {
            assert forall|id: EntityId| #[trigger] r.has_graph(id) == self.has_graph(id) by {}
        }
        r
    }

    /// Group the nodes `node_ids` of the current graph into a new subgraph.
    /// The nodes, their ports and the connections among them move into the
    /// subgraph; a group node in the current graph stands for it, with an
    /// input port per connection entering the selection and an output port
    /// per connection leaving it, wired to the outside ports; inside, a Group
    /// Input or Group Output node per such connection is wired to the moved
    /// nodes. Returns the group node and the subgraph's id; None, changing
    /// nothing, for an empty selection.
    pub fn group_nodes(&mut self, node_ids: &[EntityId]) -> (r: Option<(EntityId, EntityId)>)
        requires
            old(self).wf(),
            old(self).next_id() < u32::MAX,
            old(self).next_start() <= u32::MAX - 10000,
            old(self).graph_at(old(self).current()).wd().room() >= 1 + 2 * link_total(
                old(self).graph_at(old(self).current()),
                node_ids@,
            ),
            3 * link_total(old(self).graph_at(old(self).current()), node_ids@) + port_total(
                old(self).graph_at(old(self).current()),
                node_ids@,
            ) <= u32::MAX as int + 1 - old(self).next_start(),
        ensures
            final(self).wf(),
            r is None <==> node_ids@.len() == 0,
            r is None ==> *final(self) == *old(self),
            r is Some ==> ({
                let (g, sid) = r->0;
                let cur = old(self).current();
                let par0 = old(self).graph_at(cur);
                let par = final(self).graph_at(cur);
                &&& sid == EntityId { index: old(self).next_id(), generation: Generation(0) }
                &&& old(self).ids_below_next() ==> !old(self).has_graph(sid) && final(self).ids_below_next()
                &&& final(self).next_id() == old(self).next_id() + 1
                &&& final(self).next_start() == old(self).next_start() + 10000
                &&& final(self).root() == old(self).root()
                &&& final(self).current() == cur
                &&& final(self).crumbs() == old(self).crumbs()
                &&& final(self).ids() == (if old(self).has_graph(sid) { old(self).ids() } else { old(self).ids().push(sid) })
                &&& final(self).graph_at(sid).wd().allocator_spec().offset() == old(self).next_start()
                &&& forall|j: int|
                    0 <= j < cut_nodes(par0, node_ids@, node_ids@.len()).0.len() ==> has_io_port(
                        final(self).graph_at(sid),
                        look_type(par0, (#[trigger] cut_nodes(par0, node_ids@, node_ids@.len()).0[j]).1),
                        look_label(par0, cut_nodes(par0, node_ids@, node_ids@.len()).0[j].1),
                        true,
                    )
                &&& forall|j: int|
                    0 <= j < cut_nodes(par0, node_ids@, node_ids@.len()).1.len() ==> has_io_port(
                        final(self).graph_at(sid),
                        look_type(par0, (#[trigger] cut_nodes(par0, node_ids@, node_ids@.len()).1[j]).1),
                        look_label(par0, cut_nodes(par0, node_ids@, node_ids@.len()).1[j].1),
                        false,
                    )
                &&& forall|k: int| 0 <= k < node_ids@.len() ==> has_copy(par0, #[trigger] node_ids@[k], final(self).graph_at(sid))
                &&& forall|k: int|
                    #[trigger] last_internal(
                        cut_nodes(par0, node_ids@, node_ids@.len()).2,
                        cut_nodes(par0, node_ids@, node_ids@.len()).0,
                        k,
                    ) ==> copies_joined(
                        par0,
                        cut_nodes(par0, node_ids@, node_ids@.len()).2[k].0,
                        cut_nodes(par0, node_ids@, node_ids@.len()).2[k].1,
                        final(self).graph_at(sid),
                    )
                &&& final(self).parents()@ == old(self).parents()@.insert(sid, (cur, g))
                &&& forall|k: (EntityId, EntityId)|
                    k.0 != sid ==> (#[trigger] final(self).io_links()@.contains_key(k) == old(self).io_links()@.contains_key(k))
                &&& forall|k: (EntityId, EntityId)|
                    k.0 != sid && old(self).io_links()@.contains_key(k) ==> #[trigger] final(self).io_links()@[k] == old(
                        self,
                    ).io_links()@[k]
                &&& forall|id: EntityId|
                    old(self).has_graph(id) && id != cur && id != sid ==> #[trigger] final(self).graph_at(id) == old(
                        self,
                    ).graph_at(id)
                &&& sid != cur ==> {
                    &&& !par0.wd().alive(g)
                    &&& !node_ids@.contains(g) ==> {
                        &&& par.wd().alive(g)
                        &&& par.wd().comp::<NodeHeader>(g) matches Some(h) && h.title@ == "Group"@
                        &&& par.wd().comp::<SubgraphRoot>(g) == Some(SubgraphRoot(sid))
                        &&& grouped_ports(par0, par, g, cut_nodes(par0, node_ids@, node_ids@.len()))
                        &&& forall|j: int|
                            0 <= j < cut_nodes(par0, node_ids@, node_ids@.len()).0.len() ==> io_port_linked(
                                par0,
                                cut_nodes(par0, node_ids@, node_ids@.len()).0[j].1,
                                final(self).graph_at(sid),
                                final(self).io_links()@,
                                sid,
                                par.ports_of(g)[j],
                                look_type(par0, (#[trigger] cut_nodes(par0, node_ids@, node_ids@.len()).0[j]).1),
                                look_label(par0, cut_nodes(par0, node_ids@, node_ids@.len()).0[j].1),
                                true,
                                forall|j2: int|
                                    j < j2 < cut_nodes(par0, node_ids@, node_ids@.len()).0.len() ==> (#[trigger] cut_nodes(
                                        par0,
                                        node_ids@,
                                        node_ids@.len(),
                                    ).0[j2]).1 != cut_nodes(par0, node_ids@, node_ids@.len()).0[j].1,
                            )
                        &&& forall|j: int|
                            0 <= j < cut_nodes(par0, node_ids@, node_ids@.len()).1.len() ==> io_port_linked(
                                par0,
                                cut_nodes(par0, node_ids@, node_ids@.len()).1[j].1,
                                final(self).graph_at(sid),
                                final(self).io_links()@,
                                sid,
                                par.ports_of(g)[cut_nodes(par0, node_ids@, node_ids@.len()).0.len() + j],
                                look_type(par0, (#[trigger] cut_nodes(par0, node_ids@, node_ids@.len()).1[j]).1),
                                look_label(par0, cut_nodes(par0, node_ids@, node_ids@.len()).1[j].1),
                                false,
                                true,
                            )
                    }
                    &&& forall|k: int|
                        0 <= k < node_ids@.len() && par0.wd().alive(node_ids@[k]) && par0.owner_of(node_ids@[k]) is None
                            && par0.endpoints(node_ids@[k]) is None ==> !par.wd().alive(#[trigger] node_ids@[k])
                    &&& forall|e: EntityId|
                        #[trigger] par.wd().alive(e) ==> (par0.wd().alive(e) && !(node_ids@.contains(e) && par0.owner_of(e)
                            is None && par0.endpoints(e) is None)) || new_for_group(par, g, e)
                    &&& forall|e: EntityId|
                        par0.wd().alive(e) && !node_ids@.contains(e) && par0.owner_of(e) is None && par0.endpoints(e)
                            is None ==> {
                            &&& #[trigger] par.wd().alive(e)
                            &&& par.wd().comp::<NodeHeader>(e) == par0.wd().comp::<NodeHeader>(e)
                        }
                    &&& forall|c: EntityId|
                        par0.endpoints(c) matches Some(ep) && !inside(par0, ep.source_port, node_ids@) && !inside(
                            par0,
                            ep.target_port,
                            node_ids@,
                        ) && !mapped(cut_nodes(par0, node_ids@, node_ids@.len()).1, ep.target_port)
                            ==> #[trigger] par.endpoints(c) == par0.endpoints(c)
                }
            }),
    {
        if node_ids.len() == 0 {
            return None;
        }
        let ghost e0 = *self;
        let current_id = self.current_graph_id;
        proof {
            e0.lemma_graph_wf(current_id);
        }
        let ci = self.position(current_id).unwrap();
        let subgraph_id = EntityId { index: self.next_graph_id, generation: Generation::new() };
        let start = self.next_entity_start;
        let ghost par0 = self.graphs@[ci as int];
        let (inputs, outputs, internal) = self.graphs[ci].cut_connections(node_ids);
        let (sub, sub_in, sub_out) = self.graphs[ci].build_subgraph(start, node_ids, &inputs, &outputs, &internal);
        let (g, group_in, group_out) = self.graphs[ci].add_group_node(subgraph_id, &inputs, &outputs);
        let ghost ga = self.graphs@[ci as int];
        self.graphs[ci].remove_selected(node_ids);
        proof {
            lemma_group_frame(par0, ga, self.graphs@[ci as int], node_ids@, outputs@);
            if !node_ids@.contains(g) {
                let pr = self.graphs@[ci as int];
                assert(pr.ports_of(g) == ga.ports_of(g));
                assert forall|e: EntityId| #[trigger] pr.wd().alive(e) implies (par0.wd().alive(e) && !(node_ids@.contains(e)
                    && par0.owner_of(e) is None && par0.endpoints(e) is None)) || new_for_group(pr, g, e) by {
                    assert(ga.wd().alive(e));
                    if par0.wd().alive(e) && node_ids@.contains(e) && par0.owner_of(e) is None && par0.endpoints(e) is None {
                        let k = choose|k: int| 0 <= k < node_ids@.len() && node_ids@[k] == e;
                        assert(ga.wd().alive(node_ids@[k]));
                    }
                    if !par0.wd().alive(e) {
                        assert(new_for_group(ga, g, e));
                    }
                }
            }
        }
        let ghost pr = self.graphs@[ci as int];
        proof {
            if !node_ids@.contains(g) {
                lemma_grouped_ports(
                    par0,
                    ga,
                    self.graphs@[ci as int],
                    g,
                    group_in@,
                    group_out@,
                    inputs@,
                    outputs@,
                    node_ids@,
                    cut_nodes(par0, node_ids@, node_ids@.len()),
                );
            }
        }
        proof {
            assert forall|i: int| 0 <= i < self.graph_list().len() implies (#[trigger] self.graph_list()[i]).wf() by {
                if i != ci {
                    assert(self.graph_list()[i] == e0.graph_list()[i]);
                    assert(e0.graph_list()[i].wf());
                }
            }
            assert(self.slot_of(current_id) == ci);
        }
        let ghost e1 = *self;
        match self.position(subgraph_id) {
            Some(j) => {
                self.graphs.set(j, sub);
                proof {
                    assert(self.slot_of(subgraph_id) == j);
                }
            },
            None => {
                self.graph_ids.push(subgraph_id);
                self.graphs.push(sub);
                proof {
                    assert(self.ids()[self.ids().len() - 1] == subgraph_id);
                    assert(self.has_graph(subgraph_id));
                }
            },
        }
        self.next_graph_id = self.next_graph_id + 1;
        self.next_entity_start = self.next_entity_start + 10000;
        proof {
            assert(self.ids().no_duplicates()) by {
                if !e1.has_graph(subgraph_id) {
                    assert forall|a: int, b: int| 0 <= a < self.ids().len() && 0 <= b < self.ids().len() && a != b implies self.ids()[a] != self.ids()[b] by {
                        if a == e1.ids().len() as int {
                            assert(e1.ids().contains(self.ids()[b]) || b == a);
                        } else if b == e1.ids().len() as int {
                            assert(e1.ids().contains(self.ids()[a]));
                        }
                    }
                }
            }
            assert forall|id: EntityId| e1.has_graph(id) implies #[trigger] self.has_graph(id) by {
                let i = choose|i: int| 0 <= i < e1.ids().len() && e1.ids()[i] == id;
                assert(self.ids()[i] == id);
            }
            assert forall|i: int| 0 <= i < self.graph_list().len() implies (#[trigger] self.graph_list()[i]).wf() by {
                if i < e1.graph_list().len() && self.graph_list()[i] != sub {
                    assert(self.graph_list()[i] == e1.graph_list()[i]);
                    assert(e1.graph_list()[i].wf());
                }
            }
            assert forall|id: EntityId| e0.has_graph(id) && id != current_id && id != subgraph_id implies #[trigger] self.graph_at(id) == e0.graph_at(id) by {
                e0.lemma_graph_wf(id);
                let i = e0.slot_of(id);
                assert(self.ids()[i] == id);
                self.lemma_slot(i);
            }
            self.lemma_graph_wf(subgraph_id);
            self.lemma_graph_wf(current_id);
            assert(self.has_graph(self.root()));
            assert(self.has_graph(self.current()));
            assert(self.wf());
        }
        self.subgraph_parents.insert(subgraph_id, (current_id, g));
        assert(inputs@.len() + outputs@.len() <= link_total(e0.graph_at(current_id), node_ids@));
        let total = sub_in.len() + sub_out.len();
        let ghost e2 = *self;
        assert(self.wf());
        let mut k: usize = 0;
        while k < total
            invariant
                self.wf(),
                sub_in@.len() == inputs@.len(),
                sub_out@.len() == outputs@.len(),
                group_in@.len() == inputs@.len(),
                group_out@.len() == outputs@.len(),
                k <= sub_in@.len() + sub_out@.len(),
                total == sub_in@.len() + sub_out@.len(),
                self.ids() == e2.ids(),
                self.graph_list() == e2.graph_list(),
                self.root() == e2.root(),
                self.current() == e2.current(),
                self.crumbs() == e2.crumbs(),
                self.next_id() == e2.next_id(),
                self.next_start() == e2.next_start(),
                self.parents() == e2.parents(),
                forall|q: (EntityId, EntityId)|
                    q.0 != subgraph_id ==> (#[trigger] self.io_links()@.contains_key(q) == e0.io_links()@.contains_key(q)),
                forall|q: (EntityId, EntityId)|
                    q.0 != subgraph_id && e0.io_links()@.contains_key(q) ==> #[trigger] self.io_links()@[q] == e0.io_links()@[q],
                (sub_in@ + sub_out@).no_duplicates(),
                forall|a: int|
                    0 <= a < k ==> self.io_links()@.contains_key((subgraph_id, #[trigger] (sub_in@ + sub_out@)[a]))
                        && self.io_links()@[(subgraph_id, (sub_in@ + sub_out@)[a])] == (group_in@ + group_out@)[a],
            decreases total - k,
        {
            let ghost l0 = self.io_links()@;
            if k < sub_in.len() {
                self.io_port_mapping.insert((subgraph_id, sub_in[k]), group_in[k]);
            } else {
                self.io_port_mapping.insert((subgraph_id, sub_out[k - sub_in.len()]), group_out[k - sub_in.len()]);
            }
            proof {
                let all = sub_in@ + sub_out@;
                let gall = group_in@ + group_out@;
                assert(self.io_links()@ == l0.insert((subgraph_id, all[k as int]), gall[k as int]));
                assert forall|a: int| 0 <= a < k + 1 implies self.io_links()@.contains_key((subgraph_id, #[trigger] all[a]))
                    && self.io_links()@[(subgraph_id, all[a])] == gall[a] by {
                    if a < k {
                        assert(all[a] != all[k as int]);
                    }
                }
            }
            k = k + 1;
        }
        proof {
            let par0 = e0.graph_at(current_id);
            let par = self.graph_at(current_id);
            assert(self.ids() == (if e0.has_graph(subgraph_id) { e0.ids() } else { e0.ids().push(subgraph_id) }));
            assert(self.graph_at(subgraph_id).wd().allocator_spec().offset() == e0.next_start());
            assert(self.graph_at(subgraph_id) == sub);
            let cut = cut_nodes(par0, node_ids@, node_ids@.len());
            assert forall|j: int| 0 <= j < cut.0.len() implies has_io_port(
                sub,
                look_type(par0, (#[trigger] cut.0[j]).1),
                look_label(par0, cut.0[j].1),
                true,
            ) by {
                assert(inputs@.map_values(|b: super::group::GroupIOBinding| (b.external_port, b.internal_port))[j] == cut.0[j]);
                assert(io_port(sub, sub_in@[j], inputs@[j].socket_type, inputs@[j].label@, true));
            }
            if subgraph_id != current_id && !node_ids@.contains(g) {
                let all = sub_in@ + sub_out@;
                let gall = group_in@ + group_out@;
                assert(par.ports_of(g) == gall);
                let links = self.io_links()@;
                assert forall|j: int| 0 <= j < cut.0.len() implies io_port_linked(
                    par0,
                    cut.0[j].1,
                    sub,
                    links,
                    subgraph_id,
                    par.ports_of(g)[j],
                    look_type(par0, (#[trigger] cut.0[j]).1),
                    look_label(par0, cut.0[j].1),
                    true,
                    forall|j2: int| j < j2 < cut.0.len() ==> (#[trigger] cut.0[j2]).1 != cut.0[j].1,
                ) by {
                    let pairs = inputs@.map_values(|b: super::group::GroupIOBinding| (b.external_port, b.internal_port));
                    assert(pairs[j] == cut.0[j]);
                    assert(io_port(sub, sub_in@[j], inputs@[j].socket_type, inputs@[j].label@, true));
                    assert(all[j] == sub_in@[j]);
                    assert(gall[j] == group_in@[j]);
                    if forall|j2: int| j < j2 < cut.0.len() ==> (#[trigger] cut.0[j2]).1 != cut.0[j].1 {
                        assert forall|a2: int| j < a2 < inputs@.len() implies (#[trigger] inputs@[a2]).internal_port
                            != inputs@[j].internal_port by {
                            assert(pairs[a2] == cut.0[a2]);
                        }
                        assert(feeds_copy(par0, inputs@[j].internal_port, sub, sub_in@[j]));
                    }
                }
                assert forall|j: int| 0 <= j < cut.1.len() implies io_port_linked(
                    par0,
                    cut.1[j].1,
                    sub,
                    links,
                    subgraph_id,
                    par.ports_of(g)[cut.0.len() + j],
                    look_type(par0, (#[trigger] cut.1[j]).1),
                    look_label(par0, cut.1[j].1),
                    false,
                    true,
                ) by {
                    assert(outputs@.map_values(|b: super::group::GroupIOBinding| (b.external_port, b.internal_port))[j] == cut.1[j]);
                    assert(io_port(sub, sub_out@[j], outputs@[j].socket_type, outputs@[j].label@, false));
                    let a = sub_in@.len() + j;
                    assert(all[a] == sub_out@[j]);
                    assert(gall[a] == group_out@[j]);
                    assert(fed_from_copy(par0, outputs@[j].internal_port, sub, sub_out@[j]));
                }
            }
            assert forall|j: int| 0 <= j < cut.1.len() implies has_io_port(
                sub,
                look_type(par0, (#[trigger] cut.1[j]).1),
                look_label(par0, cut.1[j].1),
                false,
            ) by {
                assert(outputs@.map_values(|b: super::group::GroupIOBinding| (b.external_port, b.internal_port))[j] == cut.1[j]);
                assert(io_port(sub, sub_out@[j], outputs@[j].socket_type, outputs@[j].label@, false));
            }
            assert(self.parents()@ == e0.parents()@.insert(subgraph_id, (current_id, g)));
            if subgraph_id != current_id {
                assert(par == pr);
                assert forall|c: EntityId|
                    par0.endpoints(c) matches Some(ep) && !inside(par0, ep.source_port, node_ids@) && !inside(
                        par0,
                        ep.target_port,
                        node_ids@,
                    ) && !mapped(cut.1, ep.target_port) implies #[trigger] par.endpoints(c) == par0.endpoints(c) by {
                    let ep = par0.endpoints(c)->0;
                    if hits_external(outputs@, ep.target_port) {
                        let a = choose|a: int| 0 <= a < outputs@.len() && (#[trigger] outputs@[a]).external_port == ep.target_port;
                        assert(binding_pairs(outputs@)[a] == cut.1[a]);
                        assert(cut.1[a].0 == ep.target_port);
                    }
                }
                assert(self.graph_at(current_id) == e1.graph_at(current_id));
                assert(!par0.wd().alive(g));
                if !node_ids@.contains(g) {
                    assert(par.wd().alive(g));
                    assert(par.wd().comp::<SubgraphRoot>(g) == Some(SubgraphRoot(subgraph_id)));
                    assert(par.wd().comp::<NodeHeader>(g) matches Some(h) && h.title@ == "Group"@);
                }
                assert(forall|k: int|
                        0 <= k < node_ids@.len() && par0.wd().alive(node_ids@[k]) && par0.owner_of(node_ids@[k]) is None
                            && par0.endpoints(node_ids@[k]) is None ==> !par.wd().alive(#[trigger] node_ids@[k]));
            }
            assert(subgraph_id == EntityId { index: e0.next_id(), generation: Generation(0) });
            assert(self.next_id() == e0.next_id() + 1);
            assert(self.next_start() == e0.next_start() + 10000);
            assert(self.crumbs() == e0.crumbs());
            assert forall|id: EntityId| e0.has_graph(id) && id != current_id && id != subgraph_id implies #[trigger] self.graph_at(id) == e0.graph_at(id) by {
                e0.lemma_graph_wf(id);
                let i = e0.slot_of(id);
                assert(self.ids()[i] == id);
                self.lemma_slot(i);
                assert(self.graph_list()[i] == e1.graph_list()[i]);
            }
        }
        Some((g, subgraph_id))
    }

    /// Whether the breadcrumb holds graph `id`.
    fn in_breadcrumb(&self, id: EntityId) -> (r: bool)
        ensures
            r == self.crumbs().contains(id),
    {
        let mut i: usize = 0;
        while i < self.breadcrumb.len()
            invariant
                i <= self.crumbs().len(),
                forall|j: int| 0 <= j < i ==> self.crumbs()[j] != id,
            decreases self.breadcrumb.len() - i,
        {
            if self.breadcrumb[i] == id {
                return true;
            }
            i = i + 1;
        }
        false
    }

    /// The subgraph that node `g` of the current graph stands for; meaningful
    /// when it is a group node.
    pub open spec fn subgraph_of(&self, g: EntityId) -> EntityId {
        match self.graph_at(self.current()).wd().comp::<SubgraphRoot>(g) {
            Some(s) => s.0,
            None => g,
        }
    }

    /// Whether `ungroup(g)` dissolves group node `g` of the current graph:
    /// it names an existing subgraph that is not on the breadcrumb, and it is
    /// neither a port nor a connection.
    pub open spec fn can_ungroup(&self, g: EntityId) -> bool {
        let par = self.graph_at(self.current());
        match par.wd().comp::<SubgraphRoot>(g) {
            Some(s) => self.has_graph(s.0) && !self.crumbs().contains(s.0) && par.owner_of(g) is None
                && par.endpoints(g) is None,
            None => false,
        }
    }

    /// Dissolve group node `g` of the current graph: its subgraph's nodes,
    /// other than the Group Input and Group Output nodes, move back into the
    /// current graph with their ports and the connections among them, the
    /// group node's outside connections are rewired to the matching moved
    /// ports, and the subgraph is dropped. Returns false, changing nothing,
    /// when `g` is not a group node that can be dissolved.
    #[verifier::rlimit(100)]
    #[verifier::spinoff_prover]
    pub fn ungroup(&mut self, g: EntityId) -> (r: bool)
        requires
            old(self).wf(),
            ({
                let par = old(self).graph_at(old(self).current());
                match par.wd().comp::<SubgraphRoot>(g) {
                    Some(s) => old(self).has_graph(s.0) ==> par.wd().room() >= 3 * old(self).graph_at(
                        s.0,
                    ).wd().allocator_spec().gens().len() + conn_total(par, par.ports_of(g)),
                    None => true,
                }
            }),
        ensures
            final(self).wf(),
            r == old(self).can_ungroup(g),
            !r ==> *final(self) == *old(self),
            r ==> ({
                let cur = old(self).current();
                let sid = old(self).subgraph_of(g);
                &&& final(self).root() == old(self).root()
                &&& final(self).current() == cur
                &&& final(self).crumbs() == old(self).crumbs()
                &&& final(self).next_id() == old(self).next_id()
                &&& final(self).next_start() == old(self).next_start()
                &&& final(self).ids() == old(self).ids().remove(old(self).slot_of(sid))
                &&& !final(self).has_graph(sid)
                &&& forall|id: EntityId|
                    old(self).has_graph(id) && id != cur && id != sid ==> #[trigger] final(self).graph_at(id) == old(
                        self,
                    ).graph_at(id)
                &&& !final(self).graph_at(cur).wd().alive(g)
                &&& forall|c: EntityId|
                    old(self).graph_at(cur).endpoints(c) matches Some(ep) && !old(self).graph_at(cur).touches_node(g, c)
                        && !fed_by_node(old(self).graph_at(cur), g, ep.target_port) ==> #[trigger] final(self).graph_at(
                        cur,
                    ).endpoints(c) == old(self).graph_at(cur).endpoints(c)
                &&& forall|e: EntityId|
                    old(self).graph_at(cur).wd().alive(e) && old(self).graph_at(cur).endpoints(e) is None && e != g
                        && old(self).graph_at(cur).owner_of(e) != Some(g) ==> {
                        &&& #[trigger] final(self).graph_at(cur).wd().alive(e)
                        &&& final(self).graph_at(cur).owner_of(e) == old(self).graph_at(cur).owner_of(e)
                        &&& final(self).graph_at(cur).endpoints(e) is None
                    }
                &&& forall|n: EntityId|
                    #[trigger] regular_node(old(self).graph_at(sid), n) ==> fresh_copy(
                        old(self).graph_at(sid),
                        n,
                        final(self).graph_at(cur),
                        old(self).graph_at(cur),
                    )
                &&& forall|s: EntityId, gp: EntityId, p: EntityId, q: EntityId|
                    #[trigger] rewired_input(*old(self), g, s, gp, p, q) ==> feeds_copy_of(
                        old(self).graph_at(sid),
                        q,
                        final(self).graph_at(cur),
                        s,
                    )
                &&& forall|gp: EntityId, t: EntityId, p: EntityId, q: EntityId|
                    #[trigger] rewired_output(*old(self), g, gp, t, p, q) ==> copy_feeds(
                        old(self).graph_at(sid),
                        q,
                        final(self).graph_at(cur),
                        t,
                    )
                &&& forall|c: EntityId|
                    #[trigger] inner_link(old(self).graph_at(sid), c) ==> copies_joined(
                        old(self).graph_at(sid),
                        old(self).graph_at(sid).endpoints(c)->0.source_port,
                        old(self).graph_at(sid).endpoints(c)->0.target_port,
                        final(self).graph_at(cur),
                    )
                &&& final(self).parents()@ == old(self).parents()@.remove(sid)
                &&& forall|k: (EntityId, EntityId)|
                    #[trigger] final(self).io_links()@.contains_key(k) <==> old(self).io_links()@.contains_key(k) && k.0 != sid
                &&& forall|k: (EntityId, EntityId)|
                    #[trigger] final(self).io_links()@.contains_key(k) ==> final(self).io_links()@[k] == old(self).io_links()@[k]
            }),
    {
        let ghost e0 = *self;
        let current_id = self.current_graph_id;
        proof {
            e0.lemma_graph_wf(current_id);
        }
        let ci = self.position(current_id).unwrap();
        let sid = match self.graphs[ci].world.get::<SubgraphRoot>(g) {
            Some(s) => s.0,
            None => {
                return false;
            },
        };
        let sj = match self.position(sid) {
            Some(j) => j,
            None => {
                return false;
            },
        };
        if self.in_breadcrumb(sid) {
            return false;
        }
        if !self.graphs[ci].accepts_ports(g) {
            return false;
        }
        proof {
            e0.lemma_graph_wf(sid);
            assert(sj != ci);
        }
        let (ext_in, ext_out) = self.graphs[ci].group_port_links(g);
        let copies = self.graphs[sj].node_copies();
        let (pairs, io_links) = self.graphs[sj].connection_pairs();
        let ghost p0 = self.graphs@[ci as int];
        let ghost sg = self.graphs@[sj as int];
        proof {
            assert(e0.slot_of(sid) == sj) by {
                assert(e0.ids()[sj as int] == sid);
            }
            assert(e0.slot_of(current_id) == ci) by {
                assert(e0.ids()[ci as int] == current_id);
            }
            assert(e0.subgraph_of(g) == sid);
            assert(e0.graph_at(sid) == sg);
            assert(e0.graph_at(e0.current()) == p0);
            assert forall|k: int| 0 <= k < pairs@.len() implies sg.dir_of((#[trigger] pairs@[k]).0) == Some(PortDirection::Output)
                && sg.dir_of(pairs@[k].1) == Some(PortDirection::Input) by {
                let c = choose|c: EntityId| sg.endpoints(c) == Some(
                    ConnectionEndpoints { source_port: pairs@[k].0, target_port: pairs@[k].1 },
                );
                assert(sg.endpoints(c) is Some);
            }
        }
        let map = self.graphs[ci].restore_copies(&copies, &pairs, Ghost(sg));
        proof {
            lemma_restore_gives_copies(sg, copies@, p0, self.graphs@[ci as int]);
        }
        let total = ext_in.len() + ext_out.len();
        let mut k: usize = 0;
        while k < total
            invariant
                self.graphs@[ci as int].wf(),
                ci < self.graphs@.len(),
                self.graphs@.len() == e0.graphs@.len(),
                self.graph_ids@ == e0.graph_ids@,
                forall|i: int| 0 <= i < self.graphs@.len() && i != ci ==> #[trigger] self.graphs@[i] == e0.graphs@[i],
                self.root_graph_id == e0.root_graph_id,
                self.current_graph_id == e0.current_graph_id,
                self.breadcrumb@ == e0.breadcrumb@,
                self.next_graph_id == e0.next_graph_id,
                self.next_entity_start == e0.next_entity_start,
                self.subgraph_parents == e0.subgraph_parents,
                self.io_port_mapping == e0.io_port_mapping,
                self.io_port_mapping.wf(),
                total == ext_in@.len() + ext_out@.len(),
                k <= total,
                self.graphs@[ci as int].wd().room() >= total - k,
                self.graphs@[ci as int].wd().alive(g),
                self.graphs@[ci as int].owner_of(g) is None,
                self.graphs@[ci as int].endpoints(g) is None,
                p0.wd().alive(g),
                forall|n: EntityId| #[trigger] regular_node(sg, n) ==> fresh_copy(sg, n, self.graphs@[ci as int], p0),
                forall|e: EntityId|
                    p0.wd().alive(e) && p0.endpoints(e) is None ==> {
                        &&& #[trigger] self.graphs@[ci as int].wd().alive(e)
                        &&& self.graphs@[ci as int].owner_of(e) == p0.owner_of(e)
                        &&& self.graphs@[ci as int].dir_of(e) == p0.dir_of(e)
                        &&& self.graphs@[ci as int].endpoints(e) is None
                    },
                p0.wf(),
                forall|a: int| 0 <= a < map@.len() ==> !p0.wd().alive((#[trigger] map@[a]).1),
                forall|c: EntityId|
                    p0.endpoints(c) matches Some(ep) && !p0.touches_node(g, c) && !fed_by_node(p0, g, ep.target_port)
                        ==> #[trigger] self.graphs@[ci as int].endpoints(c) == p0.endpoints(c),
                forall|i: int|
                    0 <= i < ext_in@.len() ==> p0.ports_of(g).contains((#[trigger] ext_in@[i]).1) && exists|c: EntityId|
                        #[trigger] p0.endpoints(c) == Some(ConnectionEndpoints { source_port: ext_in@[i].0, target_port: ext_in@[i].1 }),
                forall|i: int|
                    0 <= i < ext_out@.len() ==> p0.ports_of(g).contains((#[trigger] ext_out@[i]).0) && exists|c: EntityId|
                        #[trigger] p0.endpoints(c) == Some(ConnectionEndpoints { source_port: ext_out@[i].0, target_port: ext_out@[i].1 }),
                map_ok(sg, Seq::empty(), self.graphs@[ci as int], map@),
                forall|a: int|
                    0 <= a < map@.len() ==> (self.graphs@[ci as int].owner_of((#[trigger] map@[a]).1) matches Some(o) && !p0.wd().alive(o)),
                forall|k1: int|
                    0 <= k1 < pairs@.len() ==> sg.dir_of((#[trigger] pairs@[k1]).0) == Some(PortDirection::Output) && sg.dir_of(
                        pairs@[k1].1,
                    ) == Some(PortDirection::Input),
                forall|k1: int|
                    #[trigger] kept_pair(map@, pairs@, io_links@, k1) ==> joined_via(self.graphs@[ci as int], map@, pairs@[k1].0, pairs@[k1].1),
                forall|s: EntityId, gp: EntityId, p: EntityId, q: EntityId|
                    #[trigger] rewired_input(e0, g, s, gp, p, q) && (exists|i: int| 0 <= i < ext_in@.len() && i < k && ext_in@[i] == (s, gp))
                        ==> wired_from(self.graphs@[ci as int], map@, s, q),
                forall|gp: EntityId, t: EntityId, p: EntityId, q: EntityId|
                    #[trigger] rewired_output(e0, g, gp, t, p, q) && (exists|i: int|
                        0 <= i < ext_out@.len() && ext_in@.len() + i < k && ext_out@[i] == (gp, t)) ==> wired_to(self.graphs@[ci as int], map@, q, t),
                e0.subgraph_of(g) == sid,
                e0.graph_at(sid) == sg,
                e0.graph_at(e0.current()) == p0,
                e0.io_links()@ == self.io_port_mapping@,
                sg.wf(),
                forall|i: int|
                    0 <= i < io_links@.len() ==> io_side(sg, (#[trigger] io_links@[i]).0) && !io_side(sg, io_links@[i].1) && exists|c: EntityId|
                        #[trigger] sg.endpoints(c) == Some(ConnectionEndpoints { source_port: io_links@[i].0, target_port: io_links@[i].1 })
                            || sg.endpoints(c) == Some(ConnectionEndpoints { source_port: io_links@[i].1, target_port: io_links@[i].0 }),
                forall|c: EntityId|
                    #[trigger] sg.endpoints(c) matches Some(ep) ==> {
                        &&& io_side(sg, ep.source_port) && !io_side(sg, ep.target_port) ==> io_links@.contains((ep.source_port, ep.target_port))
                        &&& io_side(sg, ep.target_port) && !io_side(sg, ep.source_port) ==> io_links@.contains((ep.target_port, ep.source_port))
                    },
                forall|n: EntityId|
                    sg.wd().comp::<NodeHeader>(n) is Some && sg.wd().comp::<GroupIOKind>(n) is None ==> #[trigger] described_in(sg, n, copies@),
                forall|i: int, j: int|
                    0 <= i < copies@.len() && 0 <= j < copies@[i].ports@.len() ==> mapped(map@, #[trigger] copies@[i].ports@[j].source),
                forall|i: int|
                    0 <= i < ext_out@.len() ==> p0.dir_of((#[trigger] ext_out@[i]).0) == Some(PortDirection::Output),
            decreases total - k,
        {
            let ghost before = self.graphs@[ci as int];
            if k < ext_in.len() {
                let (ext_src, gport) = ext_in[k];
                match self.io_port_mapping.key_for_value(gport) {
                    Some(key) => {
                        match last_match(&io_links, key.1) {
                            Some(internal_old) => {
                                match last_match(&map, internal_old) {
                                    Some(new_tgt) => {
                                        let r = self.graphs[ci].connect(ext_src, new_tgt);
                                        proof {
                                            lemma_connect_keeps_nodes(before, self.graphs@[ci as int], ext_src, new_tgt, r);
                                            let w1 = self.graphs@[ci as int];
                                            lemma_map_ok_kept(sg, Seq::empty(), before, w1, map@);
                                            assert forall|a: int| 0 <= a < map@.len() implies (w1.owner_of((#[trigger] map@[a]).1) matches Some(o) && !p0.wd().alive(o)) by {
                                                assert(copied_port(sg, map@[a].0, before, map@[a].1));
                                                assert(w1.wd().alive(map@[a].1));
                                            }
                                            let c0 = choose|c: EntityId| #[trigger] p0.endpoints(c) == Some(ConnectionEndpoints { source_port: ext_src, target_port: gport });
                                            assert(p0.owner_of(ext_src) is Some);
                                            let ja = choose|i: int| 0 <= i < map@.len() && map@[i] == (internal_old, new_tgt);
                                            let la = choose|i: int| 0 <= i < io_links@.len() && io_links@[i] == (key.1, internal_old);
                                            assert(map@[ja].1 == new_tgt && map@[ja].0 == io_links@[la].1);
                                            lemma_rewire_step(sg, before, w1, map@, pairs@, io_links@, p0, ext_src, new_tgt, new_tgt, r);
                                            let w1 = self.graphs@[ci as int];
                                            let c0 = choose|c: EntityId| #[trigger] p0.endpoints(c) == Some(ConnectionEndpoints { source_port: ext_src, target_port: gport });
                                            assert(p0.dir_of(ext_src) == Some(PortDirection::Output));
                                            assert(p0.owner_of(ext_src) is Some);
                                            assert(before.dir_of(ext_src) == Some(PortDirection::Output));
                                            assert(!p0.wd().alive(new_tgt));
                                            assert forall|c: EntityId|
                                                p0.endpoints(c) matches Some(ep) && !p0.touches_node(g, c) && !fed_by_node(p0, g, ep.target_port)
                                                    implies #[trigger] w1.endpoints(c) == p0.endpoints(c) by {
                                                let ep = p0.endpoints(c)->0;
                                                assert(before.endpoints(c) == p0.endpoints(c));
                                                assert(p0.owner_of(ep.source_port) is Some && p0.owner_of(ep.target_port) is Some);
                                                match before.validation(ext_src, new_tgt) {
                                                    Ok((o, i)) => {
                                                        assert(i == new_tgt);
                                                        assert(!before.conns_of(i).contains(c));
                                                    },
                                                    Err(_) => {},
                                                }
                                            }
                                            lemma_fresh_copies_kept(sg, p0, before, self.graphs@[ci as int]);
                                            let w1 = self.graphs@[ci as int];
                                            let ks = set![ComponentKind::ConnectionEndpoints];
                                            assert forall|q: EntityId, c: EntityId| #[trigger] before.conns_of(q).contains(c) implies c != g by {
                                                assert(before.endpoints(c) is Some);
                                            }
                                            w1.wd().lemma_comp_kept::<PortOwner>(&before.wd(), ks, g);
                                        }
                                        proof {
                                            let w1 = self.graphs@[ci as int];
                                            assert(before.dir_of(ext_src) == Some(PortDirection::Output));
                                            assert forall|s: EntityId, gp: EntityId, p: EntityId, q: EntityId|
                                                #[trigger] rewired_input(e0, g, s, gp, p, q) && (exists|i: int| 0 <= i < ext_in@.len() && i < k + 1 && ext_in@[i] == (s, gp))
                                                implies wired_from(w1, map@, s, q) by {
                                                let c1 = choose|c1: EntityId| #[trigger] sg.endpoints(c1) == Some(ConnectionEndpoints { source_port: p, target_port: q });
                                                assert(sg.endpoints(c1) is Some);
                                                assert(sg.dir_of(q) == Some(PortDirection::Input));
                                                let ja = choose|i: int| 0 <= i < map@.len() && map@[i] == (internal_old, new_tgt);
                                                let la = choose|i: int| 0 <= i < io_links@.len() && io_links@[i] == (key.1, internal_old);
                                                assert(self.io_port_mapping@.contains_key(key) && self.io_port_mapping@[key] == gport);
                                                if ext_src == s && gport == gp {
                                                    assert(key == (sid, p));
                                                    lemma_io_link_from(e0, g, s, gp, p, q, sg, io_links@, la);
                                                    assert(map@[ja].0 == q);
                                                    match before.validation(ext_src, new_tgt) {
                                                        Ok((o, i)) => {
                                                            let c = r->Ok_0;
                                                            assert(w1.endpoints(c) == Some(ConnectionEndpoints { source_port: o, target_port: i }));
                                                            assert(copied_port(sg, map@[ja].0, before, new_tgt));
                                                            assert(w1.wd().alive(ext_src) && w1.wd().alive(new_tgt));
                                                            crate::graph::edits::lemma_validation_same(before, w1, ext_src, new_tgt);
                                                        },
                                                        Err(_) => {},
                                                    }
                                                    assert(wired_from(w1, map@, s, q));
                                                } else {
                                                    let i = choose|i: int| 0 <= i < ext_in@.len() && i < k + 1 && ext_in@[i] == (s, gp);
                                                    assert(i != k);
                                                    assert(wired_from(before, map@, s, q));
                                                    let c0 = choose|c0: EntityId| #[trigger] p0.endpoints(c0) == Some(ConnectionEndpoints { source_port: s, target_port: gp });
                                                    assert(p0.owner_of(s) is Some);
                                                    match before.validation(ext_src, new_tgt) {
                                                        Ok((o, inp)) => {
                                                            let c = r->Ok_0;
                                                            assert(inp == new_tgt);
                                                            assert forall|i2: int| 0 <= i2 < map@.len() && (#[trigger] map@[i2]).0 == q implies map@[i2].1 != inp by {
                                                                if map@[i2].1 == new_tgt {
                                                                    if i2 < ja {
                                                                        assert(map@[i2].1 != map@[ja].1);
                                                                    } else if ja < i2 {
                                                                        assert(map@[ja].1 != map@[i2].1);
                                                                    }
                                                                    assert(internal_old == q);
                                                                    lemma_io_link_into(e0, g, s, gp, p, q, sg, io_links@, la);
                                                                    assert(key == (sid, p));
                                                                    assert(gport == gp);
                                                                    let cx = choose|cx: EntityId| #[trigger] p0.endpoints(cx) == Some(ConnectionEndpoints { source_port: ext_src, target_port: gport });
                                                                    assert(p0.endpoints(cx) is Some);
                                                                }
                                                            }
                                                            lemma_wired_kept(sg, before, w1, map@, s, q, inp, c);
                                                        },
                                                        Err(_) => {},
                                                    }
                                                }
                                            }
                                        }
                                    },
                                    None => {
                                        proof {
                                            assert forall|s: EntityId, gp: EntityId, p: EntityId, q: EntityId|
                                                #[trigger] rewired_input(e0, g, s, gp, p, q) && (exists|i: int| 0 <= i < ext_in@.len() && i < k + 1 && ext_in@[i] == (s, gp))
                                                implies wired_from(self.graphs@[ci as int], map@, s, q) by {
                                                let i = choose|i: int| 0 <= i < ext_in@.len() && i < k + 1 && ext_in@[i] == (s, gp);
                                                if i == k {
                                            assert(self.io_port_mapping@.contains_key(key) && self.io_port_mapping@[key] == gp);
                                            assert(key == (sid, p));
                                            let la = choose|a: int| 0 <= a < io_links@.len() && io_links@[a] == (key.1, internal_old);
                                            lemma_io_link_from(e0, g, s, gp, p, q, sg, io_links@, la);
                                            let n = sg.owner_of(q)->0;
                                            lemma_port_mapped(sg, copies@, map@, q);
                                                }
                                            }
                                        }
                                    },
                                }
                            },
                            None => {
                                proof {
                                    assert forall|s: EntityId, gp: EntityId, p: EntityId, q: EntityId|
                                        #[trigger] rewired_input(e0, g, s, gp, p, q) && (exists|i: int| 0 <= i < ext_in@.len() && i < k + 1 && ext_in@[i] == (s, gp))
                                        implies wired_from(self.graphs@[ci as int], map@, s, q) by {
                                        let i = choose|i: int| 0 <= i < ext_in@.len() && i < k + 1 && ext_in@[i] == (s, gp);
                                        if i == k {
                                    assert(self.io_port_mapping@.contains_key(key) && self.io_port_mapping@[key] == gp);
                                    assert(key == (sid, p));
                                    let c1 = choose|c1: EntityId| #[trigger] sg.endpoints(c1) == Some(ConnectionEndpoints { source_port: p, target_port: q });
                                    assert(sg.endpoints(c1) is Some);
                                    let n = sg.owner_of(q)->0;
                                    assert(!io_side(sg, q));
                                    assert(io_links@.contains((p, q)));
                                        }
                                    }
                                }
                            },
                        }
                    },
                    None => {
                        proof {
                            assert forall|s: EntityId, gp: EntityId, p: EntityId, q: EntityId|
                                #[trigger] rewired_input(e0, g, s, gp, p, q) && (exists|i: int| 0 <= i < ext_in@.len() && i < k + 1 && ext_in@[i] == (s, gp))
                                implies wired_from(self.graphs@[ci as int], map@, s, q) by {
                                let i = choose|i: int| 0 <= i < ext_in@.len() && i < k + 1 && ext_in@[i] == (s, gp);
                                if i == k {
                            assert(self.io_port_mapping@.contains_key((sid, p)));
                                }
                            }
                        }
                    },
                }
            } else {
                let (gport, ext_tgt) = ext_out[k - ext_in.len()];
                match self.io_port_mapping.key_for_value(gport) {
                    Some(key) => {
                        match last_match(&io_links, key.1) {
                            Some(internal_old) => {
                                match last_match(&map, internal_old) {
                                    Some(new_src) => {
                                        let r = self.graphs[ci].connect(new_src, ext_tgt);
                                        proof {
                                            lemma_connect_keeps_nodes(before, self.graphs@[ci as int], new_src, ext_tgt, r);
                                            let w1 = self.graphs@[ci as int];
                                            lemma_map_ok_kept(sg, Seq::empty(), before, w1, map@);
                                            assert forall|a: int| 0 <= a < map@.len() implies (w1.owner_of((#[trigger] map@[a]).1) matches Some(o) && !p0.wd().alive(o)) by {
                                                assert(copied_port(sg, map@[a].0, before, map@[a].1));
                                                assert(w1.wd().alive(map@[a].1));
                                            }
                                            let c0 = choose|c: EntityId| #[trigger] p0.endpoints(c) == Some(ConnectionEndpoints { source_port: gport, target_port: ext_tgt });
                                            assert(p0.owner_of(ext_tgt) is Some);
                                            let ja = choose|i: int| 0 <= i < map@.len() && map@[i] == (internal_old, new_src);
                                            let la = choose|i: int| 0 <= i < io_links@.len() && io_links@[i] == (key.1, internal_old);
                                            assert(map@[ja].1 == new_src && map@[ja].0 == io_links@[la].1);
                                            lemma_rewire_step(sg, before, w1, map@, pairs@, io_links@, p0, new_src, ext_tgt, new_src, r);
                                            let w1 = self.graphs@[ci as int];
                                            let c0 = choose|c: EntityId| #[trigger] p0.endpoints(c) == Some(ConnectionEndpoints { source_port: gport, target_port: ext_tgt });
                                            assert(p0.owner_of(gport) == Some(g));
                                            assert(fed_by_node(p0, g, ext_tgt));
                                            assert(!p0.wd().alive(new_src));
                                            assert forall|c: EntityId|
                                                p0.endpoints(c) matches Some(ep) && !p0.touches_node(g, c) && !fed_by_node(p0, g, ep.target_port)
                                                    implies #[trigger] w1.endpoints(c) == p0.endpoints(c) by {
                                                let ep = p0.endpoints(c)->0;
                                                assert(before.endpoints(c) == p0.endpoints(c));
                                                assert(p0.owner_of(ep.source_port) is Some && p0.owner_of(ep.target_port) is Some);
                                                assert(ep.target_port != ext_tgt);
                                                assert(before.dir_of(ep.source_port) == Some(PortDirection::Output));
                                                match before.validation(new_src, ext_tgt) {
                                                    Ok((o, i)) => {
                                                        assert(i == new_src || i == ext_tgt);
                                                        assert(!before.conns_of(i).contains(c));
                                                    },
                                                    Err(_) => {},
                                                }
                                            }
                                            lemma_fresh_copies_kept(sg, p0, before, self.graphs@[ci as int]);
                                            let w1 = self.graphs@[ci as int];
                                            let ks = set![ComponentKind::ConnectionEndpoints];
                                            assert forall|q: EntityId, c: EntityId| #[trigger] before.conns_of(q).contains(c) implies c != g by {
                                                assert(before.endpoints(c) is Some);
                                            }
                                            w1.wd().lemma_comp_kept::<PortOwner>(&before.wd(), ks, g);
                                        }
                                        proof {
                                            let w1 = self.graphs@[ci as int];
                                            assert forall|s: EntityId, gp: EntityId, p: EntityId, q: EntityId|
                                                #[trigger] rewired_input(e0, g, s, gp, p, q) && (exists|i: int| 0 <= i < ext_in@.len() && i < k + 1 && ext_in@[i] == (s, gp))
                                                implies wired_from(w1, map@, s, q) by {
                                                let c1 = choose|c1: EntityId| #[trigger] sg.endpoints(c1) == Some(ConnectionEndpoints { source_port: p, target_port: q });
                                                assert(sg.endpoints(c1) is Some);
                                                assert(sg.dir_of(q) == Some(PortDirection::Input));
                                                let i = choose|i: int| 0 <= i < ext_in@.len() && i < k + 1 && ext_in@[i] == (s, gp);
                                                assert(i < k);
                                                assert(wired_from(before, map@, s, q));
                                                let c0 = choose|c0: EntityId| #[trigger] p0.endpoints(c0) == Some(ConnectionEndpoints { source_port: s, target_port: gp });
                                                assert(p0.owner_of(s) is Some);
                                                let ja = choose|i: int| 0 <= i < map@.len() && map@[i] == (internal_old, new_src);
                                                let la = choose|i: int| 0 <= i < io_links@.len() && io_links@[i] == (key.1, internal_old);
                                                assert(self.io_port_mapping@.contains_key(key) && self.io_port_mapping@[key] == gport);
                                                match before.validation(new_src, ext_tgt) {
                                                    Ok((o, inp)) => {
                                                        let c = r->Ok_0;
                                                        assert forall|i2: int| 0 <= i2 < map@.len() && (#[trigger] map@[i2]).0 == q implies map@[i2].1 != inp by {
                                                            if inp == ext_tgt {
                                                                assert(!p0.wd().alive(map@[i2].1));
                                                            } else if map@[i2].1 == new_src {
                                                                if i2 < ja {
                                                                    assert(map@[i2].1 != map@[ja].1);
                                                                } else if ja < i2 {
                                                                    assert(map@[ja].1 != map@[i2].1);
                                                                }
                                                                assert(internal_old == q);
                                                                lemma_io_link_into(e0, g, s, gp, p, q, sg, io_links@, la);
                                                                assert(key == (sid, p));
                                                                assert(gport == gp);
                                                                assert(p0.dir_of(gp) == Some(PortDirection::Input));
                                                            }
                                                        }
                                                        lemma_wired_kept(sg, before, w1, map@, s, q, inp, c);
                                                    },
                                                    Err(_) => {},
                                                }
                                            }
                                        }
                                        proof {
                                            let w1 = self.graphs@[ci as int];
                                            let ko = (k - ext_in.len()) as int;
                                            assert(ext_out@[ko] == (gport, ext_tgt));
                                            assert forall|gp: EntityId, t: EntityId, p: EntityId, q: EntityId|
                                                #[trigger] rewired_output(e0, g, gp, t, p, q) && (exists|i: int|
                                                    0 <= i < ext_out@.len() && ext_in@.len() + i < k + 1 && ext_out@[i] == (gp, t)) implies wired_to(w1, map@, q, t) by {
                                                let c1 = choose|c1: EntityId| #[trigger] sg.endpoints(c1) == Some(ConnectionEndpoints { source_port: q, target_port: p });
                                                assert(sg.endpoints(c1) is Some);
                                                assert(sg.dir_of(q) == Some(PortDirection::Output));
                                                let c0 = choose|c0: EntityId| #[trigger] p0.endpoints(c0) == Some(ConnectionEndpoints { source_port: gp, target_port: t });
                                                assert(p0.endpoints(c0) is Some);
                                                assert(p0.owner_of(t) is Some);
                                                let ja = choose|i: int| 0 <= i < map@.len() && map@[i] == (internal_old, new_src);
                                                let la = choose|i: int| 0 <= i < io_links@.len() && io_links@[i] == (key.1, internal_old);
                                                assert(self.io_port_mapping@.contains_key(key) && self.io_port_mapping@[key] == gport);
                                                let cx = choose|cx: EntityId| #[trigger] p0.endpoints(cx) == Some(ConnectionEndpoints { source_port: gport, target_port: ext_tgt });
                                                assert(p0.endpoints(cx) is Some);
                                                if ext_tgt == t {
                                                    assert(gport == gp);
                                                    assert(key == (sid, p));
                                                    lemma_out_link_from(e0, g, gp, t, p, q, sg, io_links@, la);
                                                    assert(map@[ja].0 == q);
                                                    match before.validation(new_src, ext_tgt) {
                                                        Ok((o, i)) => {
                                                            let c = r->Ok_0;
                                                            assert(w1.endpoints(c) == Some(ConnectionEndpoints { source_port: o, target_port: i }));
                                                            assert(copied_port(sg, map@[ja].0, before, new_src));
                                                            assert(w1.wd().alive(ext_tgt) && w1.wd().alive(new_src));
                                                            crate::graph::edits::lemma_validation_same(before, w1, new_src, ext_tgt);
                                                        },
                                                        Err(_) => {},
                                                    }
                                                    assert(wired_to(w1, map@, q, t));
                                                } else {
                                                    let i = choose|i: int| 0 <= i < ext_out@.len() && ext_in@.len() + i < k + 1 && ext_out@[i] == (gp, t);
                                                    assert(i != ko);
                                                    assert(wired_to(before, map@, q, t));
                                                    match before.validation(new_src, ext_tgt) {
                                                        Ok((o, inp)) => {
                                                            let c = r->Ok_0;
                                                            if inp == new_src {
                                                                assert(!p0.wd().alive(new_src));
                                                            }
                                                            lemma_wired_to_kept(sg, before, w1, map@, q, t, inp, c);
                                                        },
                                                        Err(_) => {},
                                                    }
                                                }
                                            }
                                        }
                                    },
                                    None => {
                                        proof {
                                            assert forall|s: EntityId, gp: EntityId, p: EntityId, q: EntityId|
                                                #[trigger] rewired_input(e0, g, s, gp, p, q) && (exists|i: int| 0 <= i < ext_in@.len() && i < k + 1 && ext_in@[i] == (s, gp))
                                                implies wired_from(self.graphs@[ci as int], map@, s, q) by {
                                                let i = choose|i: int| 0 <= i < ext_in@.len() && i < k + 1 && ext_in@[i] == (s, gp);
                                                assert(i < k);
                                            }
                                        }
                                        proof {
                                            let ko = (k - ext_in.len()) as int;
                                            assert forall|gp: EntityId, t: EntityId, p: EntityId, q: EntityId|
                                                #[trigger] rewired_output(e0, g, gp, t, p, q) && (exists|i: int|
                                                    0 <= i < ext_out@.len() && ext_in@.len() + i < k + 1 && ext_out@[i] == (gp, t)) implies wired_to(self.graphs@[ci as int], map@, q, t) by {
                                                let i = choose|i: int| 0 <= i < ext_out@.len() && ext_in@.len() + i < k + 1 && ext_out@[i] == (gp, t);
                                                if i == ko {
                                                    assert(ext_out@[ko] == (gport, ext_tgt));
                                                assert(self.io_port_mapping@.contains_key(key) && self.io_port_mapping@[key] == gp);
                                                assert(key == (sid, p));
                                                let la = choose|a: int| 0 <= a < io_links@.len() && io_links@[a] == (key.1, internal_old);
                                                lemma_out_link_from(e0, g, gp, t, p, q, sg, io_links@, la);
                                                lemma_port_mapped(sg, copies@, map@, q);
                                                }
                                            }
                                        }
                                    },
                                }
                            },
                            None => {
                                proof {
                                    assert forall|s: EntityId, gp: EntityId, p: EntityId, q: EntityId|
                                        #[trigger] rewired_input(e0, g, s, gp, p, q) && (exists|i: int| 0 <= i < ext_in@.len() && i < k + 1 && ext_in@[i] == (s, gp))
                                        implies wired_from(self.graphs@[ci as int], map@, s, q) by {
                                        let i = choose|i: int| 0 <= i < ext_in@.len() && i < k + 1 && ext_in@[i] == (s, gp);
                                        assert(i < k);
                                    }
                                }
                                proof {
                                    let ko = (k - ext_in.len()) as int;
                                    assert forall|gp: EntityId, t: EntityId, p: EntityId, q: EntityId|
                                        #[trigger] rewired_output(e0, g, gp, t, p, q) && (exists|i: int|
                                            0 <= i < ext_out@.len() && ext_in@.len() + i < k + 1 && ext_out@[i] == (gp, t)) implies wired_to(self.graphs@[ci as int], map@, q, t) by {
                                        let i = choose|i: int| 0 <= i < ext_out@.len() && ext_in@.len() + i < k + 1 && ext_out@[i] == (gp, t);
                                        if i == ko {
                                            assert(ext_out@[ko] == (gport, ext_tgt));
                                        assert(self.io_port_mapping@.contains_key(key) && self.io_port_mapping@[key] == gp);
                                        assert(key == (sid, p));
                                        let c1 = choose|c1: EntityId| #[trigger] sg.endpoints(c1) == Some(ConnectionEndpoints { source_port: q, target_port: p });
                                        assert(sg.endpoints(c1) is Some);
                                        assert(!io_side(sg, q));
                                        assert(io_links@.contains((p, q)));
                                        }
                                    }
                                }
                            },
                        }
                    },
                    None => {
                        proof {
                            assert forall|s: EntityId, gp: EntityId, p: EntityId, q: EntityId|
                                #[trigger] rewired_input(e0, g, s, gp, p, q) && (exists|i: int| 0 <= i < ext_in@.len() && i < k + 1 && ext_in@[i] == (s, gp))
                                implies wired_from(self.graphs@[ci as int], map@, s, q) by {
                                let i = choose|i: int| 0 <= i < ext_in@.len() && i < k + 1 && ext_in@[i] == (s, gp);
                                assert(i < k);
                            }
                        }
                        proof {
                            let ko = (k - ext_in.len()) as int;
                            assert forall|gp: EntityId, t: EntityId, p: EntityId, q: EntityId|
                                #[trigger] rewired_output(e0, g, gp, t, p, q) && (exists|i: int|
                                    0 <= i < ext_out@.len() && ext_in@.len() + i < k + 1 && ext_out@[i] == (gp, t)) implies wired_to(self.graphs@[ci as int], map@, q, t) by {
                                let i = choose|i: int| 0 <= i < ext_out@.len() && ext_in@.len() + i < k + 1 && ext_out@[i] == (gp, t);
                                if i == ko {
                                    assert(ext_out@[ko] == (gport, ext_tgt));
                                assert(self.io_port_mapping@.contains_key((sid, p)));
                                }
                            }
                        }
                    },
                }
            }
            proof {
                if k < ext_in.len() {
                    assert forall|gp: EntityId, t: EntityId, p: EntityId, q: EntityId|
                        #[trigger] rewired_output(e0, g, gp, t, p, q) && (exists|i: int|
                            0 <= i < ext_out@.len() && ext_in@.len() + i < k + 1 && ext_out@[i] == (gp, t)) implies wired_to(
                        self.graphs@[ci as int],
                        map@,
                        q,
                        t,
                    ) by {
                        let i = choose|i: int| 0 <= i < ext_out@.len() && ext_in@.len() + i < k + 1 && ext_out@[i] == (gp, t);
                        assert(false);
                    }
                }
            }
            k = k + 1;
        }
        let ghost before_remove = self.graphs@[ci as int];
        self.graphs[ci].remove_node(g);
        proof {
            lemma_fresh_copies_survive_remove(sg, p0, before_remove, self.graphs@[ci as int], g);
            let pr = self.graphs@[ci as int];
            assert forall|a: int| 0 <= a < map@.len() implies before_remove.owner_of((#[trigger] map@[a]).1) != Some(g) by {
                assert(before_remove.owner_of(map@[a].1) matches Some(o) && !p0.wd().alive(o));
            }
            lemma_map_survives_remove(sg, before_remove, pr, g, map@);
            assert forall|k1: int| #[trigger] kept_pair(map@, pairs@, io_links@, k1) implies joined_via(pr, map@, pairs@[k1].0, pairs@[k1].1) by {
                lemma_joined_survives_remove(sg, before_remove, pr, g, map@, pairs@[k1].0, pairs@[k1].1);
            }
            lemma_inner_links_joined(sg, copies@, pairs@, io_links@, map@, pr);
            assert forall|s: EntityId, gp: EntityId, p: EntityId, q: EntityId|
                #[trigger] rewired_input(e0, g, s, gp, p, q) implies feeds_copy_of(sg, q, pr, s) by {
                let c0 = choose|c0: EntityId| #[trigger] p0.endpoints(c0) == Some(ConnectionEndpoints { source_port: s, target_port: gp });
                assert(p0.endpoints(c0) is Some);
                assert(ext_in@.contains((s, gp)));
                let i = choose|i: int| 0 <= i < ext_in@.len() && ext_in@[i] == (s, gp);
                assert(wired_from(before_remove, map@, s, q));
                assert(p0.owner_of(s) is Some);
                assert(before_remove.owner_of(s) == p0.owner_of(s));
                lemma_wired_survives_remove(sg, before_remove, pr, g, map@, s, q);
                let j = choose|j: int|
                    0 <= j < map@.len() && (#[trigger] map@[j]).0 == q && (pr.validation(s, map@[j].1) matches Ok((o, i)) ==> exists|c: EntityId|
                        pr.endpoints(c) == Some(ConnectionEndpoints { source_port: o, target_port: i }));
                assert(copied_port(sg, map@[j].0, pr, map@[j].1));
            }
            assert forall|gp: EntityId, t: EntityId, p: EntityId, q: EntityId|
                #[trigger] rewired_output(e0, g, gp, t, p, q) implies copy_feeds(sg, q, pr, t) by {
                let c0 = choose|c0: EntityId| #[trigger] p0.endpoints(c0) == Some(ConnectionEndpoints { source_port: gp, target_port: t });
                assert(p0.endpoints(c0) is Some);
                assert(ext_out@.contains((gp, t)));
                let i = choose|i: int| 0 <= i < ext_out@.len() && ext_out@[i] == (gp, t);
                assert(ext_in@.len() + i < total);
                assert(wired_to(before_remove, map@, q, t));
                assert(p0.owner_of(t) is Some);
                assert(before_remove.owner_of(t) == p0.owner_of(t));
                lemma_wired_to_survives_remove(sg, before_remove, pr, g, map@, q, t);
                let j = choose|j: int|
                    0 <= j < map@.len() && (#[trigger] map@[j]).0 == q && (pr.validation(map@[j].1, t) matches Ok((o, i)) ==> exists|c: EntityId|
                        pr.endpoints(c) == Some(ConnectionEndpoints { source_port: o, target_port: i }));
                assert(copied_port(sg, map@[j].0, pr, map@[j].1));
            }
            assert forall|c: EntityId|
                p0.endpoints(c) matches Some(ep) && !p0.touches_node(g, c) && !fed_by_node(p0, g, ep.target_port) implies #[trigger] pr.endpoints(c)
                    == p0.endpoints(c) by {
                let ep = p0.endpoints(c)->0;
                assert(before_remove.endpoints(c) == p0.endpoints(c));
                assert(p0.owner_of(ep.source_port) is Some && p0.owner_of(ep.target_port) is Some);
                assert(before_remove.owner_of(ep.source_port) == p0.owner_of(ep.source_port));
                assert(before_remove.owner_of(ep.target_port) == p0.owner_of(ep.target_port));
                assert(!before_remove.touches_node(g, c));
                assert(c != g);
                if before_remove.ports_of(g).contains(c) {
                    assert(before_remove.owner_of(c) == Some(g));
                }
                assert(pr.wd().alive(c));
                pr.wd().lemma_comp_kept::<ConnectionEndpoints>(&before_remove.wd(), set![ComponentKind::FrameMembers], c);
            }
            assert forall|e: EntityId|
                p0.wd().alive(e) && p0.endpoints(e) is None && e != g && p0.owner_of(e) != Some(g) implies {
                    &&& #[trigger] pr.wd().alive(e)
                    &&& pr.owner_of(e) == p0.owner_of(e)
                    &&& pr.endpoints(e) is None
                } by {
                assert(before_remove.wd().alive(e));
                assert(!before_remove.touches_node(g, e));
                if before_remove.ports_of(g).contains(e) {
                    assert(before_remove.owner_of(e) == Some(g));
                }
                let ks = set![ComponentKind::FrameMembers];
                pr.wd().lemma_comp_kept::<PortOwner>(&before_remove.wd(), ks, e);
                pr.wd().lemma_comp_kept::<ConnectionEndpoints>(&before_remove.wd(), ks, e);
            }
        }
        self.subgraph_parents.remove(sid);
        self.io_port_mapping.remove_subgraph(sid);
        let ghost e1 = *self;
        self.graph_ids.remove(sj);
        self.graphs.remove(sj);
        proof {
            assert(self.ids() =~= e0.ids().remove(sj as int));
            assert(e0.slot_of(sid) == sj);
            assert forall|i: int| 0 <= i < self.ids().len() implies #[trigger] self.ids()[i] == (if i < sj { e0.ids()[i] } else { e0.ids()[i + 1] }) by {}
            assert forall|i: int| 0 <= i < self.graph_list().len() implies #[trigger] self.graph_list()[i] == (if i < sj { e1.graph_list()[i] } else { e1.graph_list()[i + 1] }) by {}
            assert(self.ids().no_duplicates()) by {
                assert forall|a: int, b: int| 0 <= a < self.ids().len() && 0 <= b < self.ids().len() && a != b implies self.ids()[a] != self.ids()[b] by {
                    let a0 = if a < sj { a } else { a + 1 };
                    let b0 = if b < sj { b } else { b + 1 };
                    assert(e0.ids()[a0] != e0.ids()[b0]);
                }
            }
            assert forall|id: EntityId| e0.has_graph(id) && id != sid implies #[trigger] self.has_graph(id) && self.graph_at(id) == e1.graph_list()[e0.slot_of(id)] by {
                e0.lemma_graph_wf(id);
                let i0 = e0.slot_of(id);
                let i = if i0 < sj { i0 } else { i0 - 1 };
                assert(i0 != sj);
                assert(self.ids()[i] == id);
                assert(self.ids().len() == self.graph_list().len());
                assert(exists|j: int| 0 <= j < self.ids().len() && self.ids()[j] == id);
                let j = self.slot_of(id);
                assert(self.ids()[j] == id);
                assert(j == i);
            }
            assert forall|i: int| 0 <= i < self.graph_list().len() implies (#[trigger] self.graph_list()[i]).wf() by {
                let i0 = if i < sj { i } else { i + 1 };
                if i0 != ci {
                    assert(e1.graph_list()[i0] == e0.graph_list()[i0]);
                    assert(e0.graph_list()[i0].wf());
                }
            }
            assert(!self.has_graph(sid)) by {
                if self.has_graph(sid) {
                    let i = choose|i: int| 0 <= i < self.ids().len() && self.ids()[i] == sid;
                    let i0 = if i < sj { i } else { i + 1 };
                    assert(e0.ids()[i0] == sid);
                    assert(e0.ids()[sj as int] == sid);
                }
            }
            assert(e0.crumbs().contains(e0.root()));
            assert(e0.crumbs().contains(e0.current())) by {
                assert(e0.crumbs()[e0.crumbs().len() - 1] == e0.current());
            }
            assert forall|k: int| 0 <= k < self.crumbs().len() implies self.has_graph(#[trigger] self.crumbs()[k]) by {
                assert(e0.crumbs().contains(self.crumbs()[k]));
            }
            assert(self.wf());
            assert(self.graph_at(current_id) == e1.graph_list()[ci as int]);
            assert(sid == e0.subgraph_of(g));
            assert(self.ids() == e0.ids().remove(e0.slot_of(sid)));
            assert(!self.graph_at(current_id).wd().alive(g));
            assert(self.parents()@ == e0.parents()@.remove(sid));
            assert forall|id: EntityId| e0.has_graph(id) && id != current_id && id != sid implies #[trigger] self.graph_at(id) == e0.graph_at(id) by {
                e0.lemma_graph_wf(id);
                assert(self.has_graph(id));
                assert(self.graph_at(id) == e1.graph_list()[e0.slot_of(id)]);
                assert(e1.graph_list()[e0.slot_of(id)] == e0.graph_list()[e0.slot_of(id)]);
            }
        }
        true
    }

    /// The whole editor as stored data: each graph under its id's index, in
    /// the order the graphs are kept.
    pub fn serialize_editor(&self) -> (r: SerializedGraphEditor<F>)
        requires
            self.wf(),
        ensures
            r.root_graph_id == self.root().index,
            r.next_graph_id == self.next_id(),
            r.graphs@.len() == self.ids().len(),
            forall|i: int|
                0 <= i < self.ids().len() ==> (#[trigger] r.graphs@[i]).0 == self.ids()[i].index && serialized_as(
                    self.graph_list()[i],
                    r.graphs@[i].1,
                ),
    {
        let mut graphs: Vec<(u32, SerializedGraph<F>)> = Vec::new();
        let mut i: usize = 0;
        while i < self.graphs.len()
            invariant
                self.wf(),
                i <= self.graph_list().len(),
                graphs@.len() == i,
                forall|j: int|
                    0 <= j < i ==> (#[trigger] graphs@[j]).0 == self.ids()[j].index && serialized_as(
                        self.graph_list()[j],
                        graphs@[j].1,
                    ),
            decreases self.graphs.len() - i,
        {
            assert(self.graph_list()[i as int].wf());
            graphs.push((self.graph_ids[i].index, self.graphs[i].serialize()));
            i = i + 1;
        }
        SerializedGraphEditor { root_graph_id: self.root_graph_id.index, graphs, next_graph_id: self.next_graph_id }
    }

    /// Rebuild an editor from stored data, with the root graph current.
    /// Group nodes get their subgraph links back from the stored subgraph
    /// ids, and the ports of Group Input and Group Output nodes are paired,
    /// in order, with the input and output ports of their group node. Fails
    /// on the first stored graph that cannot be rebuilt.
    pub fn deserialize_editor(data: &SerializedGraphEditor<F>) -> (r: Result<Self, DeserializeError>)
        requires
            forall|i: int| 0 <= i < data.graphs@.len() ==> stored_size(#[trigger] data.graphs@[i].1) <= u32::MAX as int + 1,
            data.next_graph_id <= (u32::MAX - 10000) / 10000,
        ensures
            r matches Err(DeserializeError::DuplicateGraphId { .. }) <==> !graph_ids_unique(*data),
            r matches Err(DeserializeError::MissingRootGraph { .. }) <==> graph_ids_unique(*data) && !has_root_graph(*data),
            r matches Err(DeserializeError::DuplicateGraphId { id }) ==> exists|i: int, j: int|
                0 <= i < j < data.graphs@.len() && data.graphs@[i].0 == id && data.graphs@[j].0 == id,
            r matches Err(DeserializeError::MissingRootGraph { root_graph_id }) ==> root_graph_id == data.root_graph_id,
            graph_ids_unique(*data) && has_root_graph(*data) && (forall|i: int|
                0 <= i < data.graphs@.len() ==> ids_unique(#[trigger] data.graphs@[i].1)) ==> (r is Ok <==> forall|i: int|
                0 <= i < data.graphs@.len() ==> connections_ok(#[trigger] data.graphs@[i].1)),
            match r {
                Ok(e) => {
                    &&& e.wf()
                    &&& e.ids() == data.graphs@.map_values(
                        |p: (u32, SerializedGraph<F>)| EntityId { index: p.0, generation: Generation(0) },
                    )
                    &&& e.root() == (EntityId { index: data.root_graph_id, generation: Generation(0) })
                    &&& e.current() == e.root()
                    &&& e.crumbs() == seq![e.root()]
                    &&& e.next_id() == data.next_graph_id
                    &&& e.next_start() == data.next_graph_id * 10000 + 10000
                    &&& forall|i: int|
                        0 <= i < data.graphs@.len() ==> rebuilt_from(#[trigger] e.graph_list()[i], data.graphs@[i].1)
                    &&& forall|k: EntityId|
                        #[trigger] e.parents()@.contains_key(k) <==> exists|gi: int, ni: int| #[trigger] names_subgraph(*data, gi, ni, k)
                    &&& forall|k: EntityId|
                        #[trigger] e.parents()@.contains_key(k) ==> exists|gi: int, ni: int|
                            #[trigger] names_subgraph(*data, gi, ni, k) && e.parents()@[k].0 == e.ids()[gi]
                    &&& forall|k: (EntityId, EntityId)|
                        #[trigger] e.io_links()@.contains_key(k) ==> io_link_ok(e.ids(), e.graph_list(), e.parents()@, k, e.io_links()@[k])
                },
                Err(DeserializeError::OrphanedConnection { source_port, target_port }) => exists|i: int, k: int|
                    0 <= i < data.graphs@.len() && 0 <= k < data.graphs@[i].1.connections@.len()
                        && #[trigger] data.graphs@[i].1.connections@[k].source_port == source_port
                        && data.graphs@[i].1.connections@[k].target_port == target_port && !linked(
                        data.graphs@[i].1,
                        data.graphs@[i].1.connections@[k],
                    ),
                Err(DeserializeError::ConnectionFailed { source_port, target_port, reason }) => exists|i: int, k: int|
                    0 <= i < data.graphs@.len() && 0 <= k < data.graphs@[i].1.connections@.len()
                        && #[trigger] data.graphs@[i].1.connections@[k].source_port == source_port
                        && data.graphs@[i].1.connections@[k].target_port == target_port && linked(
                        data.graphs@[i].1,
                        data.graphs@[i].1.connections@[k],
                    ),
                Err(_) => true,
            },
    {
        let n = data.graphs.len();
        let mut a: usize = 0;
        while a < n
            invariant
                n == data.graphs@.len(),
                a <= n,
                forall|i: int, j: int| 0 <= i < a && i < j < n ==> data.graphs@[i].0 != data.graphs@[j].0,
            decreases n - a,
        {
            let mut b: usize = a + 1;
            while b < n
                invariant
                    n == data.graphs@.len(),
                    a < n,
                    a + 1 <= b <= n,
                    forall|i: int, j: int| 0 <= i < a && i < j < n ==> data.graphs@[i].0 != data.graphs@[j].0,
                    forall|j: int| a < j < b ==> data.graphs@[a as int].0 != data.graphs@[j].0,
                decreases n - b,
            {
                if data.graphs[a].0 == data.graphs[b].0 {
                    return Err(DeserializeError::DuplicateGraphId { id: data.graphs[a].0 });
                }
                b = b + 1;
            }
            a = a + 1;
        }
        proof {
            assert forall|i: int, j: int|
                0 <= i < data.graphs@.len() && 0 <= j < data.graphs@.len() && data.graphs@[i].0 == data.graphs@[j].0 implies i == j by {
                if i < j {
                    assert(data.graphs@[i].0 != data.graphs@[j].0);
                } else if j < i {
                    assert(data.graphs@[j].0 != data.graphs@[i].0);
                }
            }
        }
        let mut found = false;
        let mut c: usize = 0;
        while c < n
            invariant
                n == data.graphs@.len(),
                c <= n,
                found <==> exists|i: int| 0 <= i < c && data.graphs@[i].0 == data.root_graph_id,
            decreases n - c,
        {
            if data.graphs[c].0 == data.root_graph_id {
                found = true;
            }
            c = c + 1;
        }
        if !found {
            return Err(DeserializeError::MissingRootGraph { root_graph_id: data.root_graph_id });
        }
        Self::rebuild_editor(data)
    }

    /// Rebuild an editor from stored graphs whose ids are unique and include
    /// the root graph's id.
    fn rebuild_editor(data: &SerializedGraphEditor<F>) -> (r: Result<Self, DeserializeError>)
        requires
            forall|i: int| 0 <= i < data.graphs@.len() ==> stored_size(#[trigger] data.graphs@[i].1) <= u32::MAX as int + 1,
            graph_ids_unique(*data),
            has_root_graph(*data),
            data.next_graph_id <= (u32::MAX - 10000) / 10000,
        ensures
            (forall|i: int| 0 <= i < data.graphs@.len() ==> ids_unique(#[trigger] data.graphs@[i].1)) ==> (r is Ok <==> forall|i: int|
                0 <= i < data.graphs@.len() ==> connections_ok(#[trigger] data.graphs@[i].1)),
            match r {
                Ok(e) => {
                    &&& e.wf()
                    &&& e.ids() == data.graphs@.map_values(
                        |p: (u32, SerializedGraph<F>)| EntityId { index: p.0, generation: Generation(0) },
                    )
                    &&& e.root() == (EntityId { index: data.root_graph_id, generation: Generation(0) })
                    &&& e.current() == e.root()
                    &&& e.crumbs() == seq![e.root()]
                    &&& e.next_id() == data.next_graph_id
                    &&& e.next_start() == data.next_graph_id * 10000 + 10000
                    &&& forall|i: int|
                        0 <= i < data.graphs@.len() ==> rebuilt_from(#[trigger] e.graph_list()[i], data.graphs@[i].1)
                    &&& forall|k: EntityId|
                        #[trigger] e.parents()@.contains_key(k) <==> exists|gi: int, ni: int| #[trigger] names_subgraph(*data, gi, ni, k)
                    &&& forall|k: EntityId|
                        #[trigger] e.parents()@.contains_key(k) ==> exists|gi: int, ni: int|
                            #[trigger] names_subgraph(*data, gi, ni, k) && e.parents()@[k].0 == e.ids()[gi]
                    &&& forall|k: (EntityId, EntityId)|
                        #[trigger] e.io_links()@.contains_key(k) ==> io_link_ok(e.ids(), e.graph_list(), e.parents()@, k, e.io_links()@[k])
                },
                Err(DeserializeError::OrphanedConnection { source_port, target_port }) => exists|i: int, k: int|
                    0 <= i < data.graphs@.len() && 0 <= k < data.graphs@[i].1.connections@.len()
                        && #[trigger] data.graphs@[i].1.connections@[k].source_port == source_port
                        && data.graphs@[i].1.connections@[k].target_port == target_port && !linked(
                        data.graphs@[i].1,
                        data.graphs@[i].1.connections@[k],
                    ),
                Err(DeserializeError::ConnectionFailed { source_port, target_port, reason }) => exists|i: int, k: int|
                    0 <= i < data.graphs@.len() && 0 <= k < data.graphs@[i].1.connections@.len()
                        && #[trigger] data.graphs@[i].1.connections@[k].source_port == source_port
                        && data.graphs@[i].1.connections@[k].target_port == target_port && linked(
                        data.graphs@[i].1,
                        data.graphs@[i].1.connections@[k],
                    ),
                Err(_) => false,
            },
    {
        let mut graph_ids: Vec<EntityId> = Vec::new();
        let mut graphs: Vec<NodeGraph<F>> = Vec::new();
        let mut maps: Vec<IdMap> = Vec::new();
        let mut i: usize = 0;
        while i < data.graphs.len()
            invariant
                i <= data.graphs@.len(),
                forall|a: int| 0 <= a < data.graphs@.len() ==> stored_size(#[trigger] data.graphs@[a].1) <= u32::MAX as int + 1,
                graph_ids@ == data.graphs@.subrange(0, i as int).map_values(
                    |p: (u32, SerializedGraph<F>)| EntityId { index: p.0, generation: Generation(0) },
                ),
                graphs@.len() == i,
                maps@.len() == i,
                forall|a: int| 0 <= a < i ==> (#[trigger] graphs@[a]).wf(),
                forall|a: int| 0 <= a < i ==> (#[trigger] maps@[a]).wf(),
                forall|a: int| 0 <= a < i ==> graph_content(#[trigger] graphs@[a], maps@[a]@, data.graphs@[a].1),
                forall|a: int| 0 <= a < i && ids_unique(data.graphs@[a].1) ==> connections_ok(#[trigger] data.graphs@[a].1),
            decreases data.graphs.len() - i,
        {
            let entry = &data.graphs[i];
            match NodeGraph::deserialize_with_id_map(&entry.1) {
                Ok((g, m)) => {
                    graph_ids.push(EntityId { index: entry.0, generation: Generation::new() });
                    graphs.push(g);
                    maps.push(m);
                    proof {
                        assert forall|a: int| 0 <= a < i + 1 implies graph_content(#[trigger] graphs@[a], maps@[a]@, data.graphs@[a].1) by {
                        }
                        assert(graph_ids@ =~= data.graphs@.subrange(0, i as int + 1).map_values(
                            |p: (u32, SerializedGraph<F>)| EntityId { index: p.0, generation: Generation(0) },
                        ));
                    }
                },
                Err(e) => {
                    proof {
                        if ids_unique(entry.1) {
                            assert(!connections_ok(data.graphs@[i as int].1));
                        }
                    }
                    return Err(e);
                },
            }
            i = i + 1;
        }
        proof {
            assert(data.graphs@.subrange(0, i as int) =~= data.graphs@);
        }
        let root = EntityId { index: data.root_graph_id, generation: Generation::new() };
        let mut parents = ParentLinks::new();
        let mut gi: usize = 0;
        while gi < data.graphs.len()
            invariant
                gi <= data.graphs@.len(),
                graph_ids@.len() == data.graphs@.len(),
                maps@.len() == data.graphs@.len(),
                forall|a: int| 0 <= a < maps@.len() ==> (#[trigger] maps@[a]).wf(),
                parents.wf(),
                graphs@.len() == data.graphs@.len(),
                forall|a: int| 0 <= a < graphs@.len() ==> graph_content(#[trigger] graphs@[a], maps@[a]@, data.graphs@[a].1),
                forall|k: EntityId|
                    #[trigger] parents@.contains_key(k) <==> exists|gi2: int, ni2: int| gi2 < gi && #[trigger] names_subgraph(*data, gi2, ni2, k),
                forall|k: EntityId|
                    #[trigger] parents@.contains_key(k) ==> exists|gi2: int, ni2: int|
                        gi2 < gi && #[trigger] names_subgraph(*data, gi2, ni2, k) && parents@[k].0 == graph_ids@[gi2],
                forall|a: int| 0 <= a < graph_ids@.len() ==> #[trigger] graph_ids@[a] == (EntityId { index: data.graphs@[a].0, generation: Generation(0) }),
            decreases data.graphs.len() - gi,
        {
            let sg = &data.graphs[gi].1;
            let mut ni: usize = 0;
            while ni < sg.nodes.len()
                invariant
                    gi < data.graphs@.len(),
                    ni <= sg.nodes@.len(),
                    graph_ids@.len() == data.graphs@.len(),
                    maps@.len() == data.graphs@.len(),
                    forall|a: int| 0 <= a < maps@.len() ==> (#[trigger] maps@[a]).wf(),
                    parents.wf(),
                    graphs@.len() == data.graphs@.len(),
                    forall|a: int| 0 <= a < graphs@.len() ==> graph_content(#[trigger] graphs@[a], maps@[a]@, data.graphs@[a].1),
                    forall|k: EntityId|
                        #[trigger] parents@.contains_key(k) <==> exists|gi2: int, ni2: int|
                            (gi2 < gi || (gi2 == gi && ni2 < ni)) && #[trigger] names_subgraph(*data, gi2, ni2, k),
                    forall|k: EntityId|
                        #[trigger] parents@.contains_key(k) ==> exists|gi2: int, ni2: int|
                            (gi2 < gi || (gi2 == gi && ni2 < ni)) && #[trigger] names_subgraph(*data, gi2, ni2, k) && parents@[k].0 == graph_ids@[gi2],
                    forall|a: int| 0 <= a < graph_ids@.len() ==> #[trigger] graph_ids@[a] == (EntityId { index: data.graphs@[a].0, generation: Generation(0) }),
                    *sg == data.graphs@[gi as int].1,
                decreases sg.nodes.len() - ni,
            {
                let ghost p0 = parents@;
                match sg.nodes[ni].subgraph_id {
                    Some(sub) => {
                        let sub_id = EntityId { index: sub, generation: Generation::new() };
                        if contains_graph_id(&graph_ids, sub_id) {
                            assert(maps@[gi as int].wf());
                            proof {
                                crate::serialization::lemma_node_id_recorded(sg.nodes@, ni as int);
                                assert(graph_content(graphs@[gi as int], maps@[gi as int]@, data.graphs@[gi as int].1));
                            }
                            match maps[gi].get(sg.nodes[ni].id) {
                                Some(node) => {
                                    parents.insert(sub_id, (graph_ids[gi], node));
                                    proof {
                                        let j = choose|j: int| 0 <= j < graph_ids@.len() && graph_ids@[j] == sub_id;
                                        assert(data.graphs@[j].0 == sub_id.index);
                                        assert(names_subgraph(*data, gi as int, ni as int, sub_id));
                                        assert forall|k: EntityId|
                                            #[trigger] parents@.contains_key(k) <==> exists|gi2: int, ni2: int|
                                                (gi2 < gi || (gi2 == gi && ni2 < ni + 1)) && #[trigger] names_subgraph(*data, gi2, ni2, k) by {
                                            if exists|gi2: int, ni2: int| (gi2 < gi || (gi2 == gi && ni2 < ni + 1)) && #[trigger] names_subgraph(*data, gi2, ni2, k) {
                                                if k != sub_id {
                                                    let (gi2, ni2) = choose|gi2: int, ni2: int| (gi2 < gi || (gi2 == gi && ni2 < ni + 1)) && #[trigger] names_subgraph(*data, gi2, ni2, k);
                                                    if gi2 == gi && ni2 == ni {
                                                        assert(k.index == sub);
                                                        assert(k == sub_id);
                                                    }
                                                    assert(p0.contains_key(k));
                                                }
                                            }
                                        }
                                        assert forall|k: EntityId|
                                            #[trigger] parents@.contains_key(k) implies exists|gi2: int, ni2: int|
                                                (gi2 < gi || (gi2 == gi && ni2 < ni + 1)) && #[trigger] names_subgraph(*data, gi2, ni2, k) && parents@[k].0 == graph_ids@[gi2] by {
                                            if k != sub_id {
                                                assert(p0.contains_key(k));
                                            } else {
                                                assert(parents@[k].0 == graph_ids@[gi as int]);
                                            }
                                        }
                                    }
                                },
                                None => {
                                    proof {
                                        assert(false);
                                    }
                                },
                            }
                        } else {
                            proof {
                                assert forall|k: EntityId| !names_subgraph(*data, gi as int, ni as int, k) by {
                                    if names_subgraph(*data, gi as int, ni as int, k) {
                                        let j = choose|j: int| 0 <= j < data.graphs@.len() && #[trigger] data.graphs@[j].0 == k.index;
                                        assert(k == sub_id);
                                        assert(graph_ids@[j] == sub_id);
                                    }
                                }
                            }
                        }
                    },
                    None => {},
                }
                ni = ni + 1;
            }
            gi = gi + 1;
        }
        let links = parents.pairs();
        let ghost gl0 = graphs@;
        let mut li: usize = 0;
        while li < links.len()
            invariant
                li <= links@.len(),
                graph_ids@.len() == graphs@.len(),
                forall|a: int| 0 <= a < graphs@.len() ==> (#[trigger] graphs@[a]).wf(),
                graphs@.len() == data.graphs@.len(),
                maps@.len() == data.graphs@.len(),
                forall|a: int| 0 <= a < graphs@.len() ==> graph_content(#[trigger] graphs@[a], maps@[a]@, data.graphs@[a].1),
            decreases links.len() - li,
        {
            let (sub_id, (parent_id, node)) = links[li];
            match position_in(&graph_ids, parent_id) {
                Some(pi) => {
                    let ghost before = graphs@;
                    assert(graphs@[pi as int].wf());
                    graphs[pi].set_component(node, SubgraphRoot(sub_id));
                    proof {
                        assert forall|a: int| 0 <= a < graphs@.len() implies (#[trigger] graphs@[a]).wf() by {
                            if a != pi {
                                assert(graphs@[a] == before[a]);
                            }
                        }
                        lemma_set_other_keeps::<F, SubgraphRoot>(before[pi as int], graphs@[pi as int]);
                        lemma_content_kept(before[pi as int], graphs@[pi as int], maps@[pi as int]@, data.graphs@[pi as int].1);
                        assert forall|a: int| 0 <= a < graphs@.len() implies graph_content(#[trigger] graphs@[a], maps@[a]@, data.graphs@[a].1) by {
                            if a != pi {
                                assert(graphs@[a] == before[a]);
                            }
                        }
                    }
                },
                None => {},
            }
            li = li + 1;
        }
        let mut io = IoPortLinks::new();
        let mut li: usize = 0;
        while li < links.len()
            invariant
                li <= links@.len(),
                graph_ids@.len() == graphs@.len(),
                forall|a: int| 0 <= a < graphs@.len() ==> (#[trigger] graphs@[a]).wf(),
                io.wf(),
                graphs@.len() == data.graphs@.len(),
                maps@.len() == data.graphs@.len(),
                forall|a: int| 0 <= a < graphs@.len() ==> graph_content(#[trigger] graphs@[a], maps@[a]@, data.graphs@[a].1),
                forall|i: int| 0 <= i < links@.len() ==> parents@.contains_key(#[trigger] links@[i].0) && parents@[links@[i].0] == links@[i].1,
                forall|k: (EntityId, EntityId)| #[trigger] io@.contains_key(k) ==> io_link_ok(graph_ids@, graphs@, parents@, k, io@[k]),
            decreases links.len() - li,
        {
            let (sub_id, (parent_id, node)) = links[li];
            match (position_in(&graph_ids, parent_id), position_in(&graph_ids, sub_id)) {
                (Some(pi), Some(si)) => {
                    assert(graphs@[pi as int].wf());
                    assert(graphs@[si as int].wf());
                    let ghost io0 = io@;
                    pair_io_ports(&graphs[pi], node, &graphs[si], sub_id, &mut io);
                    proof {
                        let sub = graphs@[si as int];
                        let par = graphs@[pi as int];
                        let ns = choose|ns: Seq<EntityId>|
                            #[trigger] io_nodes_in_order(sub, ns) && {
                                let ins = io_ports_in(sub, ns, GroupIOKind::Input);
                                let outs = io_ports_in(sub, ns, GroupIOKind::Output);
                                let gi = with_dir(par, par.ports_of(node), PortDirection::Input);
                                let go = with_dir(par, par.ports_of(node), PortDirection::Output);
                                io@ == paired_links(
                                    paired_links(io0, sub_id, ins, gi, min_len(ins.len() as int, gi.len() as int)),
                                    sub_id,
                                    outs,
                                    go,
                                    min_len(outs.len() as int, go.len() as int),
                                )
                            };
                        let ins = io_ports_in(sub, ns, GroupIOKind::Input);
                        let outs = io_ports_in(sub, ns, GroupIOKind::Output);
                        let gi = with_dir(par, par.ports_of(node), PortDirection::Input);
                        let go = with_dir(par, par.ports_of(node), PortDirection::Output);
                        let n1 = min_len(ins.len() as int, gi.len() as int);
                        let n2 = min_len(outs.len() as int, go.len() as int);
                        let mid = paired_links(io0, sub_id, ins, gi, n1);
                        assert(parents@[sub_id] == (parent_id, node));
                        assert forall|k: (EntityId, EntityId)| #[trigger] io@.contains_key(k) implies io_link_ok(graph_ids@, graphs@, parents@, k, io@[k]) by {
                            lemma_paired_links_member(mid, sub_id, outs, go, n2, k);
                            if mid.contains_key(k) && io@[k] == mid[k] {
                                lemma_paired_links_member(io0, sub_id, ins, gi, n1, k);
                                if io0.contains_key(k) && mid[k] == io0[k] {
                                    assert(io_link_ok(graph_ids@, graphs@, parents@, k, io0[k]));
                                } else {
                                    let j = choose|j: int| 0 <= j < n1 && k == (sub_id, ins[j]) && mid[k] == #[trigger] gi[j];
                                    assert(ins.contains(ins[j]));
                                    lemma_io_ports_member(sub, ns, GroupIOKind::Input, ins[j]);
                                    assert(gi.contains(gi[j]));
                                    lemma_with_dir_member(par, par.ports_of(node), PortDirection::Input, gi[j]);
                                    assert(graph_ids@[pi as int] == parents@[k.0].0 && graph_ids@[si as int] == k.0);
                                }
                            } else {
                                let j = choose|j: int| 0 <= j < n2 && k == (sub_id, outs[j]) && io@[k] == #[trigger] go[j];
                                assert(outs.contains(outs[j]));
                                lemma_io_ports_member(sub, ns, GroupIOKind::Output, outs[j]);
                                assert(go.contains(go[j]));
                                lemma_with_dir_member(par, par.ports_of(node), PortDirection::Output, go[j]);
                                assert(graph_ids@[pi as int] == parents@[k.0].0 && graph_ids@[si as int] == k.0);
                            }
                        }
                    }
                },
                _ => {},
            }
            li = li + 1;
        }
        let mut breadcrumb: Vec<EntityId> = Vec::new();
        breadcrumb.push(root);
        let e = GraphEditor {
            graph_ids,
            graphs,
            root_graph_id: root,
            current_graph_id: root,
            breadcrumb,
            next_graph_id: data.next_graph_id,
            next_entity_start: data.next_graph_id * 10000 + 10000,
            subgraph_parents: parents,
            io_port_mapping: io,
        };
        proof {
            assert(e.ids().no_duplicates()) by {
                assert forall|a: int, b: int| 0 <= a < e.ids().len() && 0 <= b < e.ids().len() && a != b implies e.ids()[a] != e.ids()[b] by {
                    assert(e.ids()[a].index == data.graphs@[a].0);
                    assert(e.ids()[b].index == data.graphs@[b].0);
                }
            }
            let ri = choose|i: int| 0 <= i < data.graphs@.len() && data.graphs@[i].0 == data.root_graph_id;
            assert(e.ids()[ri] == root);
            assert(e.has_graph(root));
            assert(e.crumbs() =~= seq![root]);
            assert forall|i: int| 0 <= i < data.graphs@.len() implies rebuilt_from(#[trigger] e.graph_list()[i], data.graphs@[i].1) by {
                assert(graph_content(e.graph_list()[i], maps@[i]@, data.graphs@[i].1));
            }
        }
        Ok(e)
    }
}

/// In the current graph of `e`, port `s`, of no port of group node `g`,
/// is the only port that feeds input port `gp` of `g`; `gp` is linked to
/// port `p` of a Group Input node of the subgraph alone, and no other link
/// names `p`; inside, `p` is joined to input port `q` of a node that is no
/// Group Input or Group Output node alone, and `q` is fed by `p` alone.
pub open spec fn rewired_input<F: Copy + Default>(e: GraphEditor<F>, g: EntityId, s: EntityId, gp: EntityId, p: EntityId, q: EntityId) -> bool {
    let par = e.graph_at(e.current());
    let sid = e.subgraph_of(g);
    let sub = e.graph_at(sid);
    let links = e.io_links()@;
    &&& exists|c0: EntityId| #[trigger] par.endpoints(c0) == Some(ConnectionEndpoints { source_port: s, target_port: gp })
    &&& par.ports_of(g).contains(gp)
    &&& par.owner_of(s) != Some(g)
    &&& forall|c2: EntityId| #[trigger] par.endpoints(c2) matches Some(ep2) ==> (ep2.target_port == gp ==> ep2.source_port == s)
    &&& links.contains_key((sid, p)) && links[(sid, p)] == gp
    &&& forall|k: (EntityId, EntityId)| #[trigger] links.contains_key(k) && (k.1 == p || links[k] == gp) ==> k == (sid, p)
    &&& exists|c1: EntityId| {
        &&& #[trigger] sub.endpoints(c1) == Some(ConnectionEndpoints { source_port: p, target_port: q })
        &&& forall|c2: EntityId|
            #[trigger] sub.endpoints(c2) matches Some(ep2) && (ep2.source_port == p || ep2.target_port == p || ep2.target_port == q)
                ==> c2 == c1
    }
    &&& io_side(sub, p)
    &&& sub.owner_of(q) matches Some(n) && regular_node(sub, n)
}

/// In the current graph of `e`, output port `gp` of group node `g` is the
/// only port that feeds port `t`, of no port of `g`; `gp` is linked to port
/// `p` of a Group Output node of the subgraph alone, and no other link names
/// `p`; inside, `p` is fed by output port `q` of a node that is no Group
/// Input or Group Output node, and no other connection touches `p`.
pub open spec fn rewired_output<F: Copy + Default>(e: GraphEditor<F>, g: EntityId, gp: EntityId, t: EntityId, p: EntityId, q: EntityId) -> bool {
    let par = e.graph_at(e.current());
    let sid = e.subgraph_of(g);
    let sub = e.graph_at(sid);
    let links = e.io_links()@;
    &&& exists|c0: EntityId| #[trigger] par.endpoints(c0) == Some(ConnectionEndpoints { source_port: gp, target_port: t })
    &&& par.ports_of(g).contains(gp)
    &&& par.owner_of(t) != Some(g)
    &&& forall|c2: EntityId| #[trigger] par.endpoints(c2) matches Some(ep2) ==> (ep2.target_port == t ==> ep2.source_port == gp)
    &&& links.contains_key((sid, p)) && links[(sid, p)] == gp
    &&& forall|k: (EntityId, EntityId)| #[trigger] links.contains_key(k) && (k.1 == p || links[k] == gp) ==> k == (sid, p)
    &&& exists|c1: EntityId| {
        &&& #[trigger] sub.endpoints(c1) == Some(ConnectionEndpoints { source_port: q, target_port: p })
        &&& forall|c2: EntityId|
            #[trigger] sub.endpoints(c2) matches Some(ep2) && (ep2.source_port == p || ep2.target_port == p) ==> c2 == c1
    }
    &&& io_side(sub, p)
    &&& sub.owner_of(q) matches Some(n) && regular_node(sub, n)
}

/// Graph `g` holds a copy of port `q` of `sub` that feeds port `t` wherever
/// the two can be connected.
pub open spec fn copy_feeds<F: Copy>(sub: NodeGraph<F>, q: EntityId, g: NodeGraph<F>, t: EntityId) -> bool {
    exists|nq: EntityId|
        #[trigger] copied_port(sub, q, g, nq) && (g.validation(nq, t) matches Ok((o, i)) ==> exists|c: EntityId|
            g.endpoints(c) == Some(ConnectionEndpoints { source_port: o, target_port: i }))
}

/// A pair of `io_links` whose outer end is the Group Output port `p` has
/// `q` as its inner end.
proof fn lemma_out_link_from<F: Copy + Default>(
    e: GraphEditor<F>,
    g: EntityId,
    gp: EntityId,
    t: EntityId,
    p: EntityId,
    q: EntityId,
    sub: NodeGraph<F>,
    io_links: Seq<(EntityId, EntityId)>,
    a: int,
)
    requires
        rewired_output(e, g, gp, t, p, q),
        sub == e.graph_at(e.subgraph_of(g)),
        sub.wf(),
        0 <= a < io_links.len(),
        io_links[a].0 == p,
        exists|c: EntityId|
            #[trigger] sub.endpoints(c) == Some(ConnectionEndpoints { source_port: io_links[a].0, target_port: io_links[a].1 })
                || sub.endpoints(c) == Some(ConnectionEndpoints { source_port: io_links[a].1, target_port: io_links[a].0 }),
    ensures
        io_links[a].1 == q,
{
    let c1 = choose|c1: EntityId| {
        &&& #[trigger] sub.endpoints(c1) == Some(ConnectionEndpoints { source_port: q, target_port: p })
        &&& forall|c2: EntityId|
            #[trigger] sub.endpoints(c2) matches Some(ep2) && (ep2.source_port == p || ep2.target_port == p) ==> c2 == c1
    };
    let c = choose|c: EntityId|
        #[trigger] sub.endpoints(c) == Some(ConnectionEndpoints { source_port: io_links[a].0, target_port: io_links[a].1 })
            || sub.endpoints(c) == Some(ConnectionEndpoints { source_port: io_links[a].1, target_port: io_links[a].0 });
    assert(c == c1);
    if p == q {
        assert(io_side(sub, q));
    }
}

/// Graph `g` holds a copy of port `q` of `sub` that port `s` feeds wherever
/// the two can be connected.
pub open spec fn feeds_copy_of<F: Copy>(sub: NodeGraph<F>, q: EntityId, g: NodeGraph<F>, s: EntityId) -> bool {
    exists|nq: EntityId|
        #[trigger] copied_port(sub, q, g, nq) && (g.validation(s, nq) matches Ok((o, i)) ==> exists|c: EntityId|
            g.endpoints(c) == Some(ConnectionEndpoints { source_port: o, target_port: i }))
}

/// A pair of `io_links` whose inner end is `q` has `p` as its outer end.
proof fn lemma_io_link_into<F: Copy + Default>(
    e: GraphEditor<F>,
    g: EntityId,
    s: EntityId,
    gp: EntityId,
    p: EntityId,
    q: EntityId,
    sub: NodeGraph<F>,
    io_links: Seq<(EntityId, EntityId)>,
    a: int,
)
    requires
        rewired_input(e, g, s, gp, p, q),
        sub == e.graph_at(e.subgraph_of(g)),
        sub.wf(),
        0 <= a < io_links.len(),
        io_links[a].1 == q,
        exists|c: EntityId|
            #[trigger] sub.endpoints(c) == Some(ConnectionEndpoints { source_port: io_links[a].0, target_port: io_links[a].1 })
                || sub.endpoints(c) == Some(ConnectionEndpoints { source_port: io_links[a].1, target_port: io_links[a].0 }),
    ensures
        io_links[a].0 == p,
{
    let c1 = choose|c1: EntityId| {
        &&& #[trigger] sub.endpoints(c1) == Some(ConnectionEndpoints { source_port: p, target_port: q })
        &&& forall|c2: EntityId|
            #[trigger] sub.endpoints(c2) matches Some(ep2) && (ep2.source_port == p || ep2.target_port == p || ep2.target_port == q)
                ==> c2 == c1
    };
    let c = choose|c: EntityId|
        #[trigger] sub.endpoints(c) == Some(ConnectionEndpoints { source_port: io_links[a].0, target_port: io_links[a].1 })
            || sub.endpoints(c) == Some(ConnectionEndpoints { source_port: io_links[a].1, target_port: io_links[a].0 });
    assert(sub.dir_of(q) == Some(PortDirection::Input));
    if sub.endpoints(c) == Some(ConnectionEndpoints { source_port: io_links[a].0, target_port: io_links[a].1 }) {
        assert(c == c1);
    } else {
        assert(sub.dir_of(q) == Some(PortDirection::Output));
    }
}

/// A pair of `io_links` whose outer end is `p` has `q` as its inner end.
proof fn lemma_io_link_from<F: Copy + Default>(
    e: GraphEditor<F>,
    g: EntityId,
    s: EntityId,
    gp: EntityId,
    p: EntityId,
    q: EntityId,
    sub: NodeGraph<F>,
    io_links: Seq<(EntityId, EntityId)>,
    a: int,
)
    requires
        rewired_input(e, g, s, gp, p, q),
        sub == e.graph_at(e.subgraph_of(g)),
        sub.wf(),
        0 <= a < io_links.len(),
        io_links[a].0 == p,
        exists|c: EntityId|
            #[trigger] sub.endpoints(c) == Some(ConnectionEndpoints { source_port: io_links[a].0, target_port: io_links[a].1 })
                || sub.endpoints(c) == Some(ConnectionEndpoints { source_port: io_links[a].1, target_port: io_links[a].0 }),
    ensures
        io_links[a].1 == q,
{
    let c1 = choose|c1: EntityId| {
        &&& #[trigger] sub.endpoints(c1) == Some(ConnectionEndpoints { source_port: p, target_port: q })
        &&& forall|c2: EntityId|
            #[trigger] sub.endpoints(c2) matches Some(ep2) && (ep2.source_port == p || ep2.target_port == p || ep2.target_port == q)
                ==> c2 == c1
    };
    let c = choose|c: EntityId|
        #[trigger] sub.endpoints(c) == Some(ConnectionEndpoints { source_port: io_links[a].0, target_port: io_links[a].1 })
            || sub.endpoints(c) == Some(ConnectionEndpoints { source_port: io_links[a].1, target_port: io_links[a].0 });
    assert(c == c1);
    let n = sub.owner_of(q)->0;
    if p == q {
        assert(io_side(sub, q));
    }
}

/// Some connection runs from a port of node `n` into port `p`.
pub open spec fn fed_by_node<F: Copy>(g: NodeGraph<F>, n: EntityId, p: EntityId) -> bool {
    exists|c: EntityId| #[trigger] g.endpoints(c) matches Some(ep) && g.owner_of(ep.source_port) == Some(n) && ep.target_port == p
}

/// `g1` differs from `g0` at most in socket types: the same entities are
/// alive, with the same nodes, ports, port owners, directions and labels,
/// node headers and connections.
pub open spec fn same_but_sockets<F: Copy>(g0: NodeGraph<F>, g1: NodeGraph<F>) -> bool {
    &&& forall|e: EntityId| #[trigger] g1.wd().alive(e) == g0.wd().alive(e)
    &&& forall|e: EntityId| #[trigger] g1.ports_of(e) == g0.ports_of(e)
    &&& forall|e: EntityId| #[trigger] g1.owner_of(e) == g0.owner_of(e)
    &&& forall|e: EntityId| #[trigger] g1.dir_of(e) == g0.dir_of(e)
    &&& forall|e: EntityId| #[trigger] g1.endpoints(e) == g0.endpoints(e)
    &&& forall|e: EntityId| #[trigger] g1.wd().comp::<NodeHeader>(e) == g0.wd().comp::<NodeHeader>(e)
    &&& forall|e: EntityId| #[trigger] g1.wd().comp::<PortLabel>(e) == g0.wd().comp::<PortLabel>(e)
}

/// Setting a socket type keeps everything else.
proof fn lemma_set_socket_keeps<F: Copy>(g0: NodeGraph<F>, g1: NodeGraph<F>)
    requires
        g1.wd().allocator_spec() == g0.wd().allocator_spec(),
        g1.wd().comps().same_except(g0.wd().comps(), ComponentKind::PortSocketType),
        g1.pbn() == g0.pbn(),
        forall|e: EntityId| #[trigger] g1.owner_of(e) == g0.owner_of(e),
        forall|e: EntityId| #[trigger] g1.dir_of(e) == g0.dir_of(e),
        forall|e: EntityId| #[trigger] g1.endpoints(e) == g0.endpoints(e),
    ensures
        same_but_sockets(g0, g1),
{
    crate::store::components::lemma_same_except_single(g1.wd().comps(), g0.wd().comps(), ComponentKind::PortSocketType);
    let ks = set![ComponentKind::PortSocketType];
    assert forall|e: EntityId| #[trigger] g1.wd().comp::<NodeHeader>(e) == g0.wd().comp::<NodeHeader>(e) by {
        g1.wd().lemma_comp_kept::<NodeHeader>(&g0.wd(), ks, e);
    }
    assert forall|e: EntityId| #[trigger] g1.wd().comp::<PortLabel>(e) == g0.wd().comp::<PortLabel>(e) by {
        g1.wd().lemma_comp_kept::<PortLabel>(&g0.wd(), ks, e);
    }
}

/// Grouping a selection and then ungrouping its group node brings each
/// grouped node that has a header and is no Group Input or Group Output node
/// back into the graph, as a new node with its header, position and ports.
pub proof fn lemma_ungroup_brings_back<F: Copy + Default>(
    e0: GraphEditor<F>,
    e1: GraphEditor<F>,
    e2: GraphEditor<F>,
    ids: Seq<EntityId>,
    g: EntityId,
    sid: EntityId,
    n: EntityId,
)
    requires
        ids.contains(n),
        regular_node(e0.graph_at(e0.current()), n),
        forall|k: int| 0 <= k < ids.len() ==> has_copy(e0.graph_at(e0.current()), #[trigger] ids[k], e1.graph_at(sid)),
        e1.current() == e0.current(),
        e1.subgraph_of(g) == sid,
        e2.current() == e1.current(),
        forall|m: EntityId|
            #[trigger] regular_node(e1.graph_at(e1.subgraph_of(g)), m) ==> fresh_copy(
                e1.graph_at(e1.subgraph_of(g)),
                m,
                e2.graph_at(e1.current()),
                e1.graph_at(e1.current()),
            ),
    ensures
        fresh_copy(e0.graph_at(e0.current()), n, e2.graph_at(e2.current()), e1.graph_at(e1.current())),
{
    let par0 = e0.graph_at(e0.current());
    let sub = e1.graph_at(sid);
    let k = choose|k: int| 0 <= k < ids.len() && ids[k] == n;
    assert(has_copy(par0, ids[k], sub));
    let m = choose|m: EntityId| copies_node(par0, n, sub, m);
    assert(regular_node(sub, m));
    let m2 = choose|m2: EntityId| copies_node(sub, m, e2.graph_at(e1.current()), m2) && !e1.graph_at(e1.current()).wd().alive(m2);
    lemma_copies_trans(par0, n, sub, m, e2.graph_at(e1.current()), m2);
}

impl<F: Copy> Default for GraphEditor<F> {
    fn default() -> (r: Self)
        ensures
            r.wf(),
    {
        GraphEditor::new()
    }
}

} // verus!

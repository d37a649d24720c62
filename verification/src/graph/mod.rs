pub mod node;
pub mod port;
pub mod connection;
pub mod group;
pub mod frame;
pub mod reroute;
pub mod id_lists;
pub mod order;
pub mod links;
pub mod editor;
pub mod grouping;
pub mod edits;
pub mod keeps;

use vstd::prelude::*;
use crate::store::{EntityId, World};
use crate::store::components::{Component, lemma_same_except_trans};
use crate::store::ComponentKind;
use crate::types::socket_type::{SocketType, compatible};
use node::{NodeHeader, NodePosition};
use port::{PortDirection, PortOwner, PortSocketType, PortLabel, PortIndex};
use connection::ConnectionEndpoints;
use frame::{FrameLabel, FrameColor, FrameRect, FrameMembers};
use id_lists::{
    IdLists, without, minus, lemma_without_contains, lemma_without_no_duplicates, lemma_without_first,
    lemma_without_absent, lemma_minus_contains, lemma_minus_no_duplicates, lemma_minus_empty,
    lemma_nothing_contained, filter_out,
};

pub use group::GroupIOKind;
pub use editor::GraphEditor;

verus! {

#[derive(Debug, Clone, Copy, PartialEq, Eq, Structural)]
pub enum ConnectionError {
    /// Source port entity does not exist or is not a port
    InvalidSourcePort,
    /// Target port entity does not exist or is not a port
    InvalidTargetPort,
    /// Both ports have the same direction (both inputs or both outputs)
    SameDirection,
    /// Socket types are not compatible
    IncompatibleTypes(SocketType, SocketType),
    /// Cannot connect a port to another port on the same node
    SameNode,
}

/// A single node graph containing nodes, ports, connections, and frames.
///
/// Nodes are created with `add_node`, typed ports with `add_port`, and
/// ports are wired together with `connect`. `F` is the coordinate type of
/// node positions, chosen by the application.
pub struct NodeGraph<F> {
    pub world: World<F>,
    ports_by_node: IdLists,
    connections_by_port: IdLists,
}

/// Number of ports in `ports` whose direction is `d`.
pub open spec fn count_direction<F: Copy>(w: World<F>, ports: Seq<EntityId>, d: PortDirection) -> nat
    decreases ports.len(),
{
    if ports.len() == 0 {
        0
    } else {
        count_direction(w, ports.drop_last(), d) + (if w.comp::<PortDirection>(ports.last())
            == Some(d) {
            1nat
        } else {
            0nat
        })
    }
}

impl<F: Copy> NodeGraph<F> {
    /// The entity store of the graph.
    pub closed spec fn wd(&self) -> World<F> {
        self.world
    }

    /// Ports of each node.
    pub closed spec fn pbn(&self) -> Map<EntityId, Seq<EntityId>> {
        self.ports_by_node.view()
    }

    /// Connections attached to each port.
    pub closed spec fn cbp(&self) -> Map<EntityId, Seq<EntityId>> {
        self.connections_by_port.view()
    }

    pub closed spec fn indexes_wf(&self) -> bool {
        self.ports_by_node.wf() && self.connections_by_port.wf()
    }

    pub open spec fn ports_of(&self, n: EntityId) -> Seq<EntityId> {
        if self.pbn().contains_key(n) {
            self.pbn()[n]
        } else {
            Seq::empty()
        }
    }

    pub open spec fn conns_of(&self, p: EntityId) -> Seq<EntityId> {
        if self.cbp().contains_key(p) {
            self.cbp()[p]
        } else {
            Seq::empty()
        }
    }

    pub open spec fn owner_of(&self, p: EntityId) -> Option<EntityId> {
        match self.wd().comp::<PortOwner>(p) {
            Some(o) => Some(o.0),
            None => None,
        }
    }

    pub open spec fn dir_of(&self, p: EntityId) -> Option<PortDirection> {
        self.wd().comp::<PortDirection>(p)
    }

    pub open spec fn socket_of(&self, p: EntityId) -> Option<SocketType> {
        match self.wd().comp::<PortSocketType>(p) {
            Some(s) => Some(s.0),
            None => None,
        }
    }

    pub open spec fn endpoints(&self, c: EntityId) -> Option<ConnectionEndpoints> {
        self.wd().comp::<ConnectionEndpoints>(c)
    }

    /// The member list of frame `f`, if it has one.
    pub open spec fn members_of(&self, f: EntityId) -> Option<Seq<EntityId>> {
        match self.wd().comp::<FrameMembers>(f) {
            Some(m) => Some(m.0@),
            None => None,
        }
    }

    /// Whether `n` may own ports: a live entity that is neither a port nor a
    /// connection.
    pub open spec fn can_own_ports(&self, n: EntityId) -> bool {
        &&& self.wd().alive(n)
        &&& self.owner_of(n) is None
        &&& self.endpoints(n) is None
    }

    /// Whether `e` takes part in the graph's port or connection indexes.
    pub open spec fn referenced(&self, e: EntityId) -> bool {
        ||| self.pbn().contains_key(e)
        ||| self.cbp().contains_key(e)
        ||| self.owner_of(e) is Some
        ||| self.endpoints(e) is Some
    }

    /// Well-formedness: the port and connection indexes agree with the
    /// components, every port belongs to a live owner, and every
    /// connection joins a live output port to a live input port.
    pub open spec fn wf(&self) -> bool {
        &&& self.wd().wf()
        &&& self.indexes_wf()
        &&& forall|n: EntityId, p: EntityId|
            #[trigger] self.ports_of(n).contains(p) ==> self.owner_of(p) == Some(n)
        &&& forall|p: EntityId|
            #[trigger] self.owner_of(p) is Some ==> {
                &&& self.ports_of(self.owner_of(p)->0).contains(p)
                &&& self.can_own_ports(self.owner_of(p)->0)
                &&& self.cbp().contains_key(p)
                &&& self.endpoints(p) is None
            }
        &&& forall|n: EntityId| #[trigger] self.ports_of(n).no_duplicates()
        &&& forall|p: EntityId, c: EntityId|
            #[trigger] self.conns_of(p).contains(c) ==> match self.endpoints(c) {
                Some(ep) => ep.source_port == p || ep.target_port == p,
                None => false,
            }
        &&& forall|c: EntityId|
            #[trigger] self.endpoints(c) is Some ==> {
                let ep = self.endpoints(c)->0;
                &&& self.conns_of(ep.source_port).contains(c)
                &&& self.conns_of(ep.target_port).contains(c)
                &&& self.dir_of(ep.source_port) == Some(PortDirection::Output)
                &&& self.dir_of(ep.target_port) == Some(PortDirection::Input)
                &&& self.owner_of(ep.source_port) is Some
                &&& self.owner_of(ep.target_port) is Some
            }
        &&& forall|p: EntityId| #[trigger] self.conns_of(p).no_duplicates()
    }

    /// The outcome of validating a connection request between two ports:
    /// the (output, input) pair, or why the ports cannot be connected.
    pub open spec fn validation(&self, source_port: EntityId, target_port: EntityId) -> Result<
        (EntityId, EntityId),
        ConnectionError,
    > {
        match (self.dir_of(source_port), self.dir_of(target_port)) {
            (None, _) => Err(ConnectionError::InvalidSourcePort),
            (Some(_), None) => Err(ConnectionError::InvalidTargetPort),
            (Some(sd), Some(td)) => {
                if sd == td {
                    Err(ConnectionError::SameDirection)
                } else {
                    let out = if sd == PortDirection::Output { source_port } else { target_port };
                    let inp = if sd == PortDirection::Output { target_port } else { source_port };
                    match (self.owner_of(out), self.owner_of(inp)) {
                        (None, _) => Err(ConnectionError::InvalidSourcePort),
                        (Some(_), None) => Err(ConnectionError::InvalidTargetPort),
                        (Some(so), Some(to)) => {
                            if so == to {
                                Err(ConnectionError::SameNode)
                            } else {
                                match (self.socket_of(out), self.socket_of(inp)) {
                                    (None, _) => Err(ConnectionError::InvalidSourcePort),
                                    (Some(_), None) => Err(ConnectionError::InvalidTargetPort),
                                    (Some(st), Some(tt)) => {
                                        if !compatible(st, tt) {
                                            Err(ConnectionError::IncompatibleTypes(st, tt))
                                        } else {
                                            Ok((out, inp))
                                        }
                                    },
                                }
                            }
                        },
                    }
                }
            },
        }
    }

    pub fn new() -> (g: Self)
        ensures
            g.wf(),
            g.wd().allocator_spec().offset() == 0,
            g.wd().room() == u32::MAX as int + 1,
            forall|e: EntityId| !g.wd().alive(e),
            g.pbn() == Map::<EntityId, Seq<EntityId>>::empty(),
            g.cbp() == Map::<EntityId, Seq<EntityId>>::empty(),
    {
        NodeGraph { world: World::new(), ports_by_node: IdLists::new(), connections_by_port: IdLists::new() }
    }

    /// A graph whose entity ids start from `start_index`.
    pub fn new_with_start(start_index: u32) -> (g: Self)
        ensures
            g.wf(),
            g.wd().allocator_spec().offset() == start_index,
            g.wd().room() == u32::MAX as int + 1 - start_index,
            forall|e: EntityId| !g.wd().alive(e),
            g.pbn() == Map::<EntityId, Seq<EntityId>>::empty(),
            g.cbp() == Map::<EntityId, Seq<EntityId>>::empty(),
    {
        NodeGraph {
            world: World::new_with_start(start_index),
            ports_by_node: IdLists::new(),
            connections_by_port: IdLists::new(),
        }
    }

    /// The graph invariant only reads port owners, port directions,
    /// connection endpoints, owner liveness and the two indexes: a graph that
    /// agrees with a well-formed one on these is well-formed.
    pub proof fn lemma_wf_same_views(&self, g0: &Self)
        requires
            g0.wf(),
            self.wd().wf(),
            self.indexes_wf(),
            forall|e: EntityId| #[trigger] self.owner_of(e) == g0.owner_of(e),
            forall|e: EntityId| #[trigger] self.dir_of(e) == g0.dir_of(e),
            forall|e: EntityId| #[trigger] self.endpoints(e) == g0.endpoints(e),
            forall|e: EntityId| g0.wd().alive(e) ==> #[trigger] self.wd().alive(e),
            forall|n: EntityId| #[trigger] self.ports_of(n) == g0.ports_of(n),
            self.cbp() == g0.cbp(),
        ensures
            self.wf(),
    {
        assert forall|p: EntityId| #[trigger] self.owner_of(p) is Some implies {
            &&& self.ports_of(self.owner_of(p)->0).contains(p)
            &&& self.can_own_ports(self.owner_of(p)->0)
            &&& self.cbp().contains_key(p)
            &&& self.endpoints(p) is None
        } by {
            assert(g0.owner_of(p) is Some);
            let n = g0.owner_of(p)->0;
            assert(self.owner_of(n) == g0.owner_of(n));
            assert(self.endpoints(n) == g0.endpoints(n));
        }
        assert forall|c: EntityId| #[trigger] self.endpoints(c) is Some implies {
            let ep = self.endpoints(c)->0;
            &&& self.conns_of(ep.source_port).contains(c)
            &&& self.conns_of(ep.target_port).contains(c)
            &&& self.dir_of(ep.source_port) == Some(PortDirection::Output)
            &&& self.dir_of(ep.target_port) == Some(PortDirection::Input)
            &&& self.owner_of(ep.source_port) is Some
            &&& self.owner_of(ep.target_port) is Some
        } by {
            assert(g0.endpoints(c) is Some);
            let ep = self.endpoints(c)->0;
            assert(self.owner_of(ep.source_port) == g0.owner_of(ep.source_port));
            assert(self.owner_of(ep.target_port) == g0.owner_of(ep.target_port));
            assert(self.dir_of(ep.source_port) == g0.dir_of(ep.source_port));
            assert(self.dir_of(ep.target_port) == g0.dir_of(ep.target_port));
        }
        assert forall|p: EntityId, c: EntityId| #[trigger] self.conns_of(p).contains(c) implies match self.endpoints(c) {
            Some(ep) => ep.source_port == p || ep.target_port == p,
            None => false,
        } by {
            assert(g0.conns_of(p).contains(c));
            assert(self.endpoints(c) == g0.endpoints(c));
        }
        assert forall|n: EntityId, p: EntityId| #[trigger] self.ports_of(n).contains(p) implies self.owner_of(p) == Some(n) by {
            assert(g0.ports_of(n).contains(p));
        }
        assert forall|p: EntityId| #[trigger] self.conns_of(p).no_duplicates() by {
            assert(self.conns_of(p) == g0.conns_of(p));
        }
        assert forall|n: EntityId| #[trigger] self.ports_of(n).no_duplicates() by {
            assert(self.ports_of(n) == g0.ports_of(n));
        }
    }

    proof fn lemma_wf_after_add_port(&self, g0: &Self, port_id: EntityId, node: EntityId)
        requires
            g0.wf(),
            self.wd().wf(),
            self.indexes_wf(),
            g0.can_own_ports(node),
            !g0.wd().alive(port_id),
            forall|e: EntityId| #[trigger] self.wd().alive(e) == (g0.wd().alive(e) || e == port_id),
            self.owner_of(port_id) == Some(node),
            self.dir_of(port_id) is Some,
            forall|e: EntityId| e != port_id ==> #[trigger] self.owner_of(e) == g0.owner_of(e),
            forall|e: EntityId| e != port_id ==> #[trigger] self.dir_of(e) == g0.dir_of(e),
            forall|e: EntityId| #[trigger] self.endpoints(e) == g0.endpoints(e),
            !g0.ports_of(node).contains(port_id),
            self.pbn() == g0.pbn().insert(node, g0.ports_of(node).push(port_id)),
            self.cbp() == g0.cbp().insert(port_id, Seq::empty()),
        ensures
            self.wf(),
    {
        assert(g0.owner_of(port_id) is None);
        assert(g0.conns_of(port_id).len() == 0) by {
            if g0.conns_of(port_id).len() > 0 {
                let c = g0.conns_of(port_id)[0];
                assert(g0.conns_of(port_id).contains(c));
                let ep = g0.endpoints(c)->0;
                assert(g0.owner_of(ep.source_port) is Some);
                assert(g0.owner_of(ep.target_port) is Some);
            }
        }
        assert forall|n: EntityId| #[trigger] self.ports_of(n) == if n == node {
            g0.ports_of(node).push(port_id)
        } else {
            g0.ports_of(n)
        } by {}
        assert forall|p: EntityId| #[trigger] self.conns_of(p) == g0.conns_of(p) by {
            if p == port_id {
                assert(g0.conns_of(port_id) =~= Seq::<EntityId>::empty());
            }
        }
        assert forall|n: EntityId, p: EntityId| #[trigger] self.ports_of(n).contains(p) implies self.owner_of(p) == Some(n) by {
            if n == node && p != port_id {
                let k = choose|k: int| 0 <= k < self.ports_of(n).len() && self.ports_of(n)[k] == p;
                assert(g0.ports_of(n)[k] == p);
                assert(g0.ports_of(n).contains(p));
            } else if n != node {
                assert(g0.ports_of(n).contains(p));
            }
        }
        assert(node != port_id);
        assert forall|p: EntityId| #[trigger] self.owner_of(p) is Some implies {
            &&& self.ports_of(self.owner_of(p)->0).contains(p)
            &&& self.can_own_ports(self.owner_of(p)->0)
            &&& self.cbp().contains_key(p)
            &&& self.endpoints(p) is None
        } by {
            if p == port_id {
                assert(self.ports_of(node)[g0.ports_of(node).len() as int] == port_id);
            } else {
                assert(g0.owner_of(p) is Some);
                let n = g0.owner_of(p)->0;
                assert(g0.ports_of(n).contains(p));
                assert(n != port_id);
                if n == node {
                    let k = choose|k: int| 0 <= k < g0.ports_of(n).len() && g0.ports_of(n)[k] == p;
                    assert(self.ports_of(n)[k] == p);
                }
            }
        }
        assert forall|n: EntityId| #[trigger] self.ports_of(n).no_duplicates() by {
            if n == node {
                assert(g0.ports_of(n).no_duplicates());
                let s = g0.ports_of(n).push(port_id);
                assert forall|a: int, b: int| 0 <= a < s.len() && 0 <= b < s.len() && a != b implies s[a] != s[b] by {
                    if a < g0.ports_of(n).len() && b < g0.ports_of(n).len() {
                    } else if a < g0.ports_of(n).len() {
                        assert(g0.ports_of(n).contains(s[a]));
                    } else {
                        assert(g0.ports_of(n).contains(s[b]));
                    }
                }
            } else {
                assert(g0.ports_of(n).no_duplicates());
            }
        }
        assert forall|c: EntityId| #[trigger] self.endpoints(c) is Some implies {
            let ep = self.endpoints(c)->0;
            &&& self.conns_of(ep.source_port).contains(c)
            &&& self.conns_of(ep.target_port).contains(c)
            &&& self.dir_of(ep.source_port) == Some(PortDirection::Output)
            &&& self.dir_of(ep.target_port) == Some(PortDirection::Input)
            &&& self.owner_of(ep.source_port) is Some
            &&& self.owner_of(ep.target_port) is Some
        } by {
            assert(g0.endpoints(c) is Some);
            let ep = self.endpoints(c)->0;
            assert(ep.source_port != port_id);
            assert(ep.target_port != port_id);
        }
        assert forall|p: EntityId, c: EntityId| #[trigger] self.conns_of(p).contains(c) implies match self.endpoints(c) {
            Some(ep) => ep.source_port == p || ep.target_port == p,
            None => false,
        } by {
            assert(g0.conns_of(p).contains(c));
        }
        assert forall|p: EntityId| #[trigger] self.conns_of(p).no_duplicates() by {
            assert(g0.conns_of(p).no_duplicates());
        }
    }

    /// Validates a connection request and returns the normalized
    /// (output_port, input_port) pair.
    fn validate_and_normalize(
        &self,
        source_port: EntityId,
        target_port: EntityId,
    ) -> (r: Result<(EntityId, EntityId), ConnectionError>)
        requires
            self.wd().wf(),
        ensures
            r == self.validation(source_port, target_port),
    {
        let src_dir = match self.world.get::<PortDirection>(source_port) {
            Some(d) => *d,
            None => return Err(ConnectionError::InvalidSourcePort),
        };
        let tgt_dir = match self.world.get::<PortDirection>(target_port) {
            Some(d) => *d,
            None => return Err(ConnectionError::InvalidTargetPort),
        };
        if src_dir == tgt_dir {
            return Err(ConnectionError::SameDirection);
        }
        let (output_port, input_port) = if src_dir == PortDirection::Output {
            (source_port, target_port)
        } else {
            (target_port, source_port)
        };
        let src_owner = match self.world.get::<PortOwner>(output_port) {
            Some(o) => o.0,
            None => return Err(ConnectionError::InvalidSourcePort),
        };
        let tgt_owner = match self.world.get::<PortOwner>(input_port) {
            Some(o) => o.0,
            None => return Err(ConnectionError::InvalidTargetPort),
        };
        if src_owner == tgt_owner {
            return Err(ConnectionError::SameNode);
        }
        let src_type = match self.world.get::<PortSocketType>(output_port) {
            Some(t) => t.0,
            None => return Err(ConnectionError::InvalidSourcePort),
        };
        let tgt_type = match self.world.get::<PortSocketType>(input_port) {
            Some(t) => t.0,
            None => return Err(ConnectionError::InvalidTargetPort),
        };
        if !src_type.is_compatible_with(&tgt_type) {
            return Err(ConnectionError::IncompatibleTypes(src_type, tgt_type));
        }
        Ok((output_port, input_port))
    }

    /// Check whether two ports could be connected, without connecting them.
    pub fn validate_connection(&self, source_port: EntityId, target_port: EntityId) -> (r: Result<
        (),
        ConnectionError,
    >)
        requires
            self.wd().wf(),
        ensures
            match self.validation(source_port, target_port) {
                Ok(_) => r is Ok,
                Err(e) => r == Err::<(), ConnectionError>(e),
            },
    {
        match self.validate_and_normalize(source_port, target_port) {
            Ok(_) => Ok(()),
            Err(e) => Err(e),
        }
    }

    /// Remove a connection: it leaves the connection lists of both its
    /// ports and is destroyed. Ids that are not connections are ignored.
    pub fn disconnect(&mut self, connection: EntityId)
        requires
            old(self).wf(),
        ensures
            final(self).wf(),
            match old(self).endpoints(connection) {
                Some(ep) => {
                    &&& final(self).cbp() == old(self).cbp().insert(
                        ep.source_port,
                        without(old(self).conns_of(ep.source_port), connection),
                    ).insert(ep.target_port, without(old(self).conns_of(ep.target_port), connection))
                    &&& !final(self).wd().alive(connection)
                    &&& forall|e: EntityId|
                        e != connection ==> #[trigger] final(self).wd().alive(e) == old(self).wd().alive(e)
                    &&& final(self).wd().comps() == old(self).wd().comps()
                    &&& final(self).wd().room() == old(self).wd().room()
                },
                None => *final(self) == *old(self),
            },
            final(self).pbn() == old(self).pbn(),
            final(self).wd().allocator_spec().offset() == old(self).wd().allocator_spec().offset(),
            old(self).wd().allocator_spec().evolves_to(&final(self).wd().allocator_spec()),
            old(self).endpoints(connection) is Some ==> final(self).wd().allocator_spec().is_stale(connection),
    {
        proof {
            crate::store::entity::lemma_evolves_refl(self.wd().allocator_spec());
        }
        let ep = match self.world.get::<ConnectionEndpoints>(connection) {
            Some(ep) => *ep,
            None => return,
        };
        self.connections_by_port.remove_value(ep.source_port, connection);
        self.connections_by_port.remove_value(ep.target_port, connection);
        self.world.despawn(connection);
        proof {
            self.lemma_wf_after_disconnect(old(self), connection, ep);
        }
    }

    proof fn lemma_wf_after_disconnect(&self, g0: &Self, c: EntityId, ep: ConnectionEndpoints)
        requires
            g0.wf(),
            g0.endpoints(c) == Some(ep),
            self.wd().wf(),
            self.indexes_wf(),
            self.cbp() == g0.cbp().insert(ep.source_port, without(g0.conns_of(ep.source_port), c)).insert(
                ep.target_port,
                without(g0.conns_of(ep.target_port), c),
            ),
            self.pbn() == g0.pbn(),
            !self.wd().alive(c),
            forall|e: EntityId| e != c ==> #[trigger] self.wd().alive(e) == g0.wd().alive(e),
            self.wd().comps() == g0.wd().comps(),
        ensures
            self.wf(),
    {
        assert(ep.source_port != ep.target_port);
        assert(g0.owner_of(c) is None);
        assert forall|e: EntityId| #[trigger] self.owner_of(e) == g0.owner_of(e) by {}
        assert forall|e: EntityId| e != c implies #[trigger] self.dir_of(e) == g0.dir_of(e) by {}
        assert forall|e: EntityId| #[trigger] self.endpoints(e) == (if e == c { None } else { g0.endpoints(e) }) by {}
        assert forall|p: EntityId| #[trigger] self.conns_of(p) == (if p == ep.source_port || p == ep.target_port {
            without(g0.conns_of(p), c)
        } else {
            g0.conns_of(p)
        }) by {}
        assert forall|p: EntityId, x: EntityId| #[trigger] self.conns_of(p).contains(x) implies match self.endpoints(x) {
            Some(e2) => e2.source_port == p || e2.target_port == p,
            None => false,
        } by {
            lemma_without_contains(g0.conns_of(p), c);
            assert(g0.conns_of(p).contains(x));
        }
        assert forall|x: EntityId| #[trigger] self.endpoints(x) is Some implies {
            let e2 = self.endpoints(x)->0;
            &&& self.conns_of(e2.source_port).contains(x)
            &&& self.conns_of(e2.target_port).contains(x)
            &&& self.dir_of(e2.source_port) == Some(PortDirection::Output)
            &&& self.dir_of(e2.target_port) == Some(PortDirection::Input)
            &&& self.owner_of(e2.source_port) is Some
            &&& self.owner_of(e2.target_port) is Some
        } by {
            assert(g0.endpoints(x) is Some);
            let e2 = self.endpoints(x)->0;
            lemma_without_contains(g0.conns_of(e2.source_port), c);
            lemma_without_contains(g0.conns_of(e2.target_port), c);
        }
        assert forall|p: EntityId| #[trigger] self.conns_of(p).no_duplicates() by {
            assert(g0.conns_of(p).no_duplicates());
            lemma_without_no_duplicates(g0.conns_of(p), c);
        }
        assert forall|p: EntityId| #[trigger] self.owner_of(p) is Some implies {
            &&& self.ports_of(self.owner_of(p)->0).contains(p)
            &&& self.can_own_ports(self.owner_of(p)->0)
            &&& self.cbp().contains_key(p)
            &&& self.endpoints(p) is None
        } by {
            let n = g0.owner_of(p)->0;
            assert(g0.can_own_ports(n));
            assert(n != c);
        }
        assert forall|n: EntityId, p: EntityId| #[trigger] self.ports_of(n).contains(p) implies self.owner_of(p) == Some(n) by {
            assert(g0.ports_of(n).contains(p));
        }
        assert forall|n: EntityId| #[trigger] self.ports_of(n).no_duplicates() by {
            assert(g0.ports_of(n).no_duplicates());
        }
    }

    proof fn lemma_connect_step_pre(&self, g0: &Self, replaced: Seq<EntityId>, i: int, inp: EntityId)
        requires
            g0.wf(),
            self.wf(),
            replaced == g0.conns_of(inp),
            0 <= i < replaced.len(),
            g0.dir_of(inp) == Some(PortDirection::Input),
            g0.owner_of(inp) is Some,
            self.wd().comps() == g0.wd().comps(),
            forall|p: EntityId| #[trigger] self.conns_of(p) == minus(g0.conns_of(p), replaced.subrange(0, i)),
            forall|e: EntityId| #[trigger] self.wd().alive(e) == (g0.wd().alive(e) && !replaced.subrange(0, i).contains(e)),
        ensures
            self.endpoints(replaced[i]) matches Some(ep) && ep.target_port == inp,
            self.conns_of(inp).contains(replaced[i]),
    {
        let c = replaced[i];
        assert(replaced.no_duplicates());
        assert(!replaced.subrange(0, i).contains(c)) by {
            if replaced.subrange(0, i).contains(c) {
                let k = choose|k: int| 0 <= k < i && #[trigger] replaced.subrange(0, i)[k] == c;
                assert(replaced[k] == c);
            }
        }
        assert(replaced.contains(c));
        lemma_minus_contains(g0.conns_of(inp), replaced.subrange(0, i));
        assert(self.conns_of(inp).contains(c));
        let ep = self.endpoints(c)->0;
        assert(ep.source_port == inp || ep.target_port == inp);
        assert(g0.endpoints(inp) is None);
        assert(!replaced.contains(inp));
        assert(!replaced.subrange(0, i).contains(inp)) by {
            if replaced.subrange(0, i).contains(inp) {
                let k = choose|k: int| 0 <= k < i && #[trigger] replaced.subrange(0, i)[k] == inp;
                assert(replaced[k] == inp);
            }
        }
        assert(self.dir_of(inp) == g0.dir_of(inp));
        assert(self.dir_of(ep.source_port) == Some(PortDirection::Output));
    }

    proof fn lemma_connect_step_post(&self, pre: &Self, g0: &Self, replaced: Seq<EntityId>, i: int, inp: EntityId)
        requires
            g0.wf(),
            pre.wf(),
            replaced == g0.conns_of(inp),
            0 <= i < replaced.len(),
            pre.endpoints(replaced[i]) matches Some(ep) && ep.target_port == inp,
            pre.conns_of(inp).contains(replaced[i]),
            pre.cbp().dom() == g0.cbp().dom(),
            forall|p: EntityId| #[trigger] pre.conns_of(p) == minus(g0.conns_of(p), replaced.subrange(0, i)),
            forall|e: EntityId| #[trigger] pre.wd().alive(e) == (g0.wd().alive(e) && !replaced.subrange(0, i).contains(e)),
            ({
                let ep = pre.endpoints(replaced[i])->0;
                &&& self.cbp() == pre.cbp().insert(
                    ep.source_port,
                    without(pre.conns_of(ep.source_port), replaced[i]),
                ).insert(ep.target_port, without(pre.conns_of(ep.target_port), replaced[i]))
                &&& !self.wd().alive(replaced[i])
                &&& forall|e: EntityId|
                    e != replaced[i] ==> #[trigger] self.wd().alive(e) == pre.wd().alive(e)
            }),
        ensures
            self.cbp().dom() == g0.cbp().dom(),
            forall|p: EntityId| #[trigger] self.conns_of(p) == minus(g0.conns_of(p), replaced.subrange(0, i + 1)),
            forall|e: EntityId| #[trigger] self.wd().alive(e) == (g0.wd().alive(e) && !replaced.subrange(0, i + 1).contains(e)),
    {
        let c = replaced[i];
        let ep = pre.endpoints(c)->0;
        assert(pre.cbp().contains_key(ep.source_port));
        assert(pre.cbp().contains_key(ep.target_port));
        assert(self.cbp().dom() =~= g0.cbp().dom());
        assert(replaced.subrange(0, i + 1).drop_last() =~= replaced.subrange(0, i));
        assert(replaced.subrange(0, i + 1).last() == c);
        assert forall|p: EntityId| #[trigger] self.conns_of(p) == minus(g0.conns_of(p), replaced.subrange(0, i + 1)) by {
            if p != ep.source_port && p != ep.target_port {
                if pre.conns_of(p).contains(c) {
                    assert(false);
                }
                lemma_without_absent(pre.conns_of(p), c);
            }
        }
        assert forall|e: EntityId| #[trigger] self.wd().alive(e) == (g0.wd().alive(e) && !replaced.subrange(0, i + 1).contains(e)) by {
            if replaced.subrange(0, i + 1).contains(e) && e != c {
                let k = choose|k: int| 0 <= k < i + 1 && #[trigger] replaced.subrange(0, i + 1)[k] == e;
                assert(replaced.subrange(0, i)[k] == e);
            }
            if replaced.subrange(0, i).contains(e) {
                let k = choose|k: int| 0 <= k < i && #[trigger] replaced.subrange(0, i)[k] == e;
                assert(replaced.subrange(0, i + 1)[k] == e);
            }
            if e == c {
                assert(replaced.subrange(0, i + 1)[i] == e);
            }
        }
    }

    proof fn lemma_connect_final(&self, g0: &Self, replaced: Seq<EntityId>, c: EntityId, out: EntityId, inp: EntityId)
        requires
            g0.wf(),
            self.wd().wf(),
            self.indexes_wf(),
            g0.dir_of(out) == Some(PortDirection::Output),
            g0.dir_of(inp) == Some(PortDirection::Input),
            g0.owner_of(out) is Some,
            g0.owner_of(inp) is Some,
            replaced == g0.conns_of(inp),
            !g0.wd().alive(c),
            g0.endpoints(c) is None,
            forall|e: EntityId| #[trigger] self.owner_of(e) == g0.owner_of(e),
            forall|e: EntityId| !replaced.contains(e) && e != c ==> #[trigger] self.dir_of(e) == g0.dir_of(e),
            forall|e: EntityId| #[trigger] self.wd().alive(e) == ((g0.wd().alive(e) && !replaced.contains(e)) || e == c),
            forall|e: EntityId| #[trigger] self.endpoints(e) == (if e == c {
                Some(ConnectionEndpoints { source_port: out, target_port: inp })
            } else if replaced.contains(e) {
                None
            } else {
                g0.endpoints(e)
            }),
            forall|p: EntityId| #[trigger] self.conns_of(p) == (if p == out {
                minus(g0.conns_of(out), replaced).push(c)
            } else if p == inp {
                seq![c]
            } else {
                minus(g0.conns_of(p), replaced)
            }),
            self.pbn() == g0.pbn(),
            self.cbp().dom() == g0.cbp().dom(),
        ensures
            self.wf(),
    {
        assert(out != inp);
        assert(g0.endpoints(out) is None);
        assert(g0.endpoints(inp) is None);
        assert(!replaced.contains(out));
        assert(!replaced.contains(inp));
        assert forall|p: EntityId| !(#[trigger] g0.conns_of(p)).contains(c) by {
            if g0.conns_of(p).contains(c) {
                assert(g0.endpoints(c) is Some);
            }
        }
        assert(!replaced.contains(c));
        assert forall|n: EntityId, p: EntityId| #[trigger] self.ports_of(n).contains(p) implies self.owner_of(p) == Some(n) by {
            assert(g0.ports_of(n).contains(p));
        }
        assert forall|p: EntityId| #[trigger] self.owner_of(p) is Some implies {
            &&& self.ports_of(self.owner_of(p)->0).contains(p)
            &&& self.can_own_ports(self.owner_of(p)->0)
            &&& self.cbp().contains_key(p)
            &&& self.endpoints(p) is None
        } by {
            let n = g0.owner_of(p)->0;
            assert(g0.can_own_ports(n));
            assert(g0.endpoints(p) is None);
            if replaced.contains(n) {
                let k = choose|k: int| 0 <= k < replaced.len() && replaced[k] == n;
                assert(g0.conns_of(inp).contains(n));
            }
            if replaced.contains(p) {
                assert(g0.conns_of(inp).contains(p));
            }
            assert(n != c);
            assert(p != c);
        }
        assert forall|n: EntityId| #[trigger] self.ports_of(n).no_duplicates() by {
            assert(g0.ports_of(n).no_duplicates());
        }
        assert forall|p: EntityId| #[trigger] self.conns_of(p).no_duplicates() by {
            assert(g0.conns_of(p).no_duplicates());
            lemma_minus_no_duplicates(g0.conns_of(p), replaced);
            lemma_minus_contains(g0.conns_of(p), replaced);
            if p == out {
                let s = minus(g0.conns_of(out), replaced);
                assert(!s.contains(c));
                assert forall|a: int, b: int| 0 <= a < s.push(c).len() && 0 <= b < s.push(c).len() && a != b implies s.push(c)[a] != s.push(c)[b] by {
                    if a == s.len() {
                        assert(s.contains(s.push(c)[b]));
                    } else if b == s.len() {
                        assert(s.contains(s.push(c)[a]));
                    }
                }
            }
        }
        assert forall|p: EntityId, x: EntityId| #[trigger] self.conns_of(p).contains(x) implies match self.endpoints(x) {
            Some(ep) => ep.source_port == p || ep.target_port == p,
            None => false,
        } by {
            lemma_minus_contains(g0.conns_of(p), replaced);
            if x != c {
                if p == out {
                    let s = minus(g0.conns_of(out), replaced);
                    let k = choose|k: int| 0 <= k < s.push(c).len() && s.push(c)[k] == x;
                    assert(s[k] == x);
                    assert(s.contains(x));
                } else if p == inp {
                    assert(seq![c][0] == c);
                }
                assert(g0.conns_of(p).contains(x));
            }
        }
        assert forall|x: EntityId| #[trigger] self.endpoints(x) is Some implies {
            let ep = self.endpoints(x)->0;
            &&& self.conns_of(ep.source_port).contains(x)
            &&& self.conns_of(ep.target_port).contains(x)
            &&& self.dir_of(ep.source_port) == Some(PortDirection::Output)
            &&& self.dir_of(ep.target_port) == Some(PortDirection::Input)
            &&& self.owner_of(ep.source_port) is Some
            &&& self.owner_of(ep.target_port) is Some
        } by {
            if x == c {
                let s = minus(g0.conns_of(out), replaced);
                assert(s.push(c)[s.len() as int] == c);
                assert(seq![c][0] == c);
                assert(self.dir_of(out) == g0.dir_of(out));
                assert(self.dir_of(inp) == g0.dir_of(inp));
            } else {
                let ep = g0.endpoints(x)->0;
                assert(!replaced.contains(x));
                lemma_minus_contains(g0.conns_of(ep.source_port), replaced);
                lemma_minus_contains(g0.conns_of(ep.target_port), replaced);
                assert(g0.endpoints(ep.source_port) is None);
                assert(g0.endpoints(ep.target_port) is None);
                if replaced.contains(ep.source_port) {
                    assert(g0.conns_of(inp).contains(ep.source_port));
                }
                if replaced.contains(ep.target_port) {
                    assert(g0.conns_of(inp).contains(ep.target_port));
                }
                assert(ep.source_port != c && ep.target_port != c);
                if ep.target_port == inp {
                    assert(g0.conns_of(inp).contains(x));
                    assert(false);
                }
                if ep.source_port == out {
                    let s = minus(g0.conns_of(out), replaced);
                    assert(s.contains(x));
                    let k = choose|k: int| 0 <= k < s.len() && s[k] == x;
                    assert(s.push(c)[k] == x);
                }
                assert(ep.source_port != inp);
                if ep.target_port == out {
                    assert(false);
                }
            }
        }
    }

    /// Connections on a port `port` are removed one at a time.
    proof fn lemma_remove_step_pre(&self, g0: &Self, removed: Seq<EntityId>, i: int, port: EntityId)
        requires
            g0.wf(),
            self.wf(),
            removed == g0.conns_of(port),
            0 <= i < removed.len(),
            self.wd().comps() == g0.wd().comps(),
            forall|p: EntityId| #[trigger] self.conns_of(p) == minus(g0.conns_of(p), removed.subrange(0, i)),
            forall|e: EntityId| #[trigger] self.wd().alive(e) == (g0.wd().alive(e) && !removed.subrange(0, i).contains(e)),
        ensures
            self.endpoints(removed[i]) matches Some(ep) && (ep.target_port == port || ep.source_port == port),
            self.conns_of(port).contains(removed[i]),
    {
        let c = removed[i];
        assert(removed.no_duplicates());
        assert(!removed.subrange(0, i).contains(c)) by {
            if removed.subrange(0, i).contains(c) {
                let k = choose|k: int| 0 <= k < i && #[trigger] removed.subrange(0, i)[k] == c;
                assert(removed[k] == c);
            }
        }
        assert(removed.contains(c));
        lemma_minus_contains(g0.conns_of(port), removed.subrange(0, i));
        assert(self.conns_of(port).contains(c));
    }

    proof fn lemma_remove_step_post(&self, pre: &Self, g0: &Self, removed: Seq<EntityId>, i: int, port: EntityId)
        requires
            g0.wf(),
            pre.wf(),
            removed == g0.conns_of(port),
            0 <= i < removed.len(),
            pre.endpoints(removed[i]) is Some,
            pre.cbp().dom() == g0.cbp().dom(),
            forall|p: EntityId| #[trigger] pre.conns_of(p) == minus(g0.conns_of(p), removed.subrange(0, i)),
            forall|e: EntityId| #[trigger] pre.wd().alive(e) == (g0.wd().alive(e) && !removed.subrange(0, i).contains(e)),
            ({
                let ep = pre.endpoints(removed[i])->0;
                &&& self.cbp() == pre.cbp().insert(
                    ep.source_port,
                    without(pre.conns_of(ep.source_port), removed[i]),
                ).insert(ep.target_port, without(pre.conns_of(ep.target_port), removed[i]))
                &&& !self.wd().alive(removed[i])
                &&& forall|e: EntityId|
                    e != removed[i] ==> #[trigger] self.wd().alive(e) == pre.wd().alive(e)
            }),
        ensures
            self.cbp().dom() == g0.cbp().dom(),
            forall|p: EntityId| #[trigger] self.conns_of(p) == minus(g0.conns_of(p), removed.subrange(0, i + 1)),
            forall|e: EntityId| #[trigger] self.wd().alive(e) == (g0.wd().alive(e) && !removed.subrange(0, i + 1).contains(e)),
    {
        let c = removed[i];
        let ep = pre.endpoints(c)->0;
        assert(pre.cbp().contains_key(ep.source_port));
        assert(pre.cbp().contains_key(ep.target_port));
        assert(self.cbp().dom() =~= g0.cbp().dom());
        assert(removed.subrange(0, i + 1).drop_last() =~= removed.subrange(0, i));
        assert(removed.subrange(0, i + 1).last() == c);
        assert forall|p: EntityId| #[trigger] self.conns_of(p) == minus(g0.conns_of(p), removed.subrange(0, i + 1)) by {
            if p != ep.source_port && p != ep.target_port {
                if pre.conns_of(p).contains(c) {
                    assert(false);
                }
                lemma_without_absent(pre.conns_of(p), c);
            }
        }
        assert forall|e: EntityId| #[trigger] self.wd().alive(e) == (g0.wd().alive(e) && !removed.subrange(0, i + 1).contains(e)) by {
            if removed.subrange(0, i + 1).contains(e) && e != c {
                let k = choose|k: int| 0 <= k < i + 1 && #[trigger] removed.subrange(0, i + 1)[k] == e;
                assert(removed.subrange(0, i)[k] == e);
            }
            if removed.subrange(0, i).contains(e) {
                let k = choose|k: int| 0 <= k < i && #[trigger] removed.subrange(0, i)[k] == e;
                assert(removed.subrange(0, i + 1)[k] == e);
            }
            if e == c {
                assert(removed.subrange(0, i + 1)[i] == e);
            }
        }
    }

    proof fn lemma_remove_port_final(&self, mid: &Self, g0: &Self, removed: Seq<EntityId>, port: EntityId)
        requires
            g0.wf(),
            mid.wf(),
            removed == g0.conns_of(port),
            mid.pbn() == g0.pbn(),
            mid.wd().comps() == g0.wd().comps(),
            forall|q: EntityId| #[trigger] mid.conns_of(q) == minus(g0.conns_of(q), removed),
            forall|e: EntityId| #[trigger] mid.wd().alive(e) == (g0.wd().alive(e) && !removed.contains(e)),
            mid.cbp().dom() == g0.cbp().dom(),
            self.wd().wf(),
            self.indexes_wf(),
            self.wd().comps() == mid.wd().comps(),
            !self.wd().alive(port),
            forall|e: EntityId| e != port ==> #[trigger] self.wd().alive(e) == mid.wd().alive(e),
            self.cbp() == mid.cbp().remove(port),
            mid.owner_of(port) is Some ==> self.pbn() == mid.pbn().insert(
                mid.owner_of(port)->0,
                without(mid.ports_of(mid.owner_of(port)->0), port),
            ),
            mid.owner_of(port) is None ==> self.pbn() == mid.pbn(),
        ensures
            g0.owner_of(port) is Some || !g0.referenced(port) ==> self.wf(),
            g0.owner_of(port) is Some ==> {
                let owner = g0.owner_of(port)->0;
                &&& forall|e: EntityId| #[trigger] removed.contains(e) ==> !self.wd().alive(e)
                &&& forall|e: EntityId|
                    e != port && !removed.contains(e) ==> #[trigger] self.wd().alive(e) == g0.wd().alive(e)
                &&& forall|q: EntityId| q != port ==> #[trigger] self.conns_of(q) == minus(g0.conns_of(q), removed)
                &&& !self.cbp().contains_key(port)
                &&& self.pbn() == g0.pbn().insert(owner, without(g0.ports_of(owner), port))
            },
            g0.owner_of(port) is None && !g0.referenced(port) ==> {
                &&& forall|e: EntityId| e != port ==> #[trigger] self.wd().alive(e) == g0.wd().alive(e)
                &&& self.cbp() == g0.cbp()
                &&& self.pbn() == g0.pbn()
            },
    {
        assert(g0.endpoints(port) is None || g0.owner_of(port) is None);
        assert forall|e: EntityId| !removed.contains(e) implies #[trigger] mid.owner_of(e) == g0.owner_of(e) by {}
        if g0.owner_of(port) is None {
            assert(removed.len() == 0) by {
                if removed.len() > 0 {
                    assert(g0.conns_of(port).contains(removed[0]));
                    let ep = g0.endpoints(removed[0])->0;
                    assert(g0.owner_of(ep.source_port) is Some);
                    assert(g0.owner_of(ep.target_port) is Some);
                }
            }
        }
        assert(!removed.contains(port)) by {
            if removed.contains(port) {
                assert(g0.conns_of(port).contains(port));
                let ep = g0.endpoints(port)->0;
                assert(g0.owner_of(ep.source_port) is Some);
            }
        }
        assert(mid.owner_of(port) == g0.owner_of(port));
        if g0.owner_of(port) is Some {
            let owner = g0.owner_of(port)->0;
            assert forall|q: EntityId| q != port implies #[trigger] self.conns_of(q) == minus(g0.conns_of(q), removed) by {
                assert(mid.conns_of(q) == minus(g0.conns_of(q), removed));
            }
            assert(mid.conns_of(port).len() == 0) by {
                assert(mid.conns_of(port) == minus(g0.conns_of(port), removed));
                lemma_minus_contains(g0.conns_of(port), removed);
                lemma_nothing_contained(mid.conns_of(port));
            }
            self.lemma_wf_after_remove_port(mid, port, owner);
        } else if !g0.referenced(port) {
            assert(removed =~= Seq::<EntityId>::empty());
            lemma_minus_empty(removed);
            assert forall|q: EntityId| #[trigger] mid.conns_of(q) == g0.conns_of(q) by {
                assert(minus(g0.conns_of(q), removed) == g0.conns_of(q));
            }
            assert(mid.cbp() =~= g0.cbp()) by {
                assert forall|q: EntityId| #[trigger] mid.cbp().contains_key(q) implies mid.cbp()[q] == g0.cbp()[q] by {
                    assert(mid.conns_of(q) == g0.conns_of(q));
                }
            }
            assert(self.cbp() =~= g0.cbp());
            assert forall|e: EntityId| #[trigger] mid.wd().alive(e) == g0.wd().alive(e) by {}
            assert forall|e: EntityId| #[trigger] self.owner_of(e) == g0.owner_of(e) by {}
            assert forall|e: EntityId| e != port implies #[trigger] self.dir_of(e) == g0.dir_of(e) by {}
            assert forall|e: EntityId| #[trigger] self.endpoints(e) == g0.endpoints(e) by {}
            assert forall|n: EntityId| #[trigger] self.ports_of(n) == g0.ports_of(n) by {}
            self.lemma_wf_views_dead(g0, port);
        }
    }

    /// Destroying an entity that takes no part in the graph's indexes, and is
    /// not the owner of any port, keeps the graph well-formed.
    proof fn lemma_wf_views_dead(&self, g0: &Self, x: EntityId)
        requires
            g0.wf(),
            self.wd().wf(),
            self.indexes_wf(),
            !g0.referenced(x),
            forall|e: EntityId| #[trigger] self.owner_of(e) == g0.owner_of(e),
            forall|e: EntityId| e != x ==> #[trigger] self.dir_of(e) == g0.dir_of(e),
            forall|e: EntityId| #[trigger] self.endpoints(e) == g0.endpoints(e),
            forall|e: EntityId| e != x ==> #[trigger] self.wd().alive(e) == g0.wd().alive(e),
            forall|n: EntityId| #[trigger] self.ports_of(n) == g0.ports_of(n),
            self.cbp() == g0.cbp(),
        ensures
            self.wf(),
    {
        assert forall|p: EntityId| #[trigger] self.owner_of(p) is Some implies {
            &&& self.ports_of(self.owner_of(p)->0).contains(p)
            &&& self.can_own_ports(self.owner_of(p)->0)
            &&& self.cbp().contains_key(p)
            &&& self.endpoints(p) is None
        } by {
            let n = g0.owner_of(p)->0;
            assert(g0.ports_of(n).contains(p));
            assert(g0.can_own_ports(n));
            assert(g0.pbn().contains_key(n)) by {
                if !g0.pbn().contains_key(n) {
                    assert(g0.ports_of(n) =~= Seq::<EntityId>::empty());
                }
            }
            assert(n != x);
        }
        assert forall|c: EntityId| #[trigger] self.endpoints(c) is Some implies {
            let ep = self.endpoints(c)->0;
            &&& self.conns_of(ep.source_port).contains(c)
            &&& self.conns_of(ep.target_port).contains(c)
            &&& self.dir_of(ep.source_port) == Some(PortDirection::Output)
            &&& self.dir_of(ep.target_port) == Some(PortDirection::Input)
            &&& self.owner_of(ep.source_port) is Some
            &&& self.owner_of(ep.target_port) is Some
        } by {
            let ep = g0.endpoints(c)->0;
            assert(ep.source_port != x);
            assert(ep.target_port != x);
        }
        assert forall|p: EntityId, c: EntityId| #[trigger] self.conns_of(p).contains(c) implies match self.endpoints(c) {
            Some(ep) => ep.source_port == p || ep.target_port == p,
            None => false,
        } by {
            assert(g0.conns_of(p).contains(c));
        }
        assert forall|n: EntityId, p: EntityId| #[trigger] self.ports_of(n).contains(p) implies self.owner_of(p) == Some(n) by {
            assert(g0.ports_of(n).contains(p));
        }
        assert forall|p: EntityId| #[trigger] self.conns_of(p).no_duplicates() by {
            assert(g0.conns_of(p).no_duplicates());
        }
        assert forall|n: EntityId| #[trigger] self.ports_of(n).no_duplicates() by {
            assert(g0.ports_of(n).no_duplicates());
        }
    }

    proof fn lemma_wf_after_remove_port(&self, mid: &Self, port: EntityId, owner: EntityId)
        requires
            mid.wf(),
            mid.owner_of(port) == Some(owner),
            mid.conns_of(port).len() == 0,
            self.wd().wf(),
            self.indexes_wf(),
            self.wd().comps() == mid.wd().comps(),
            !self.wd().alive(port),
            forall|e: EntityId| e != port ==> #[trigger] self.wd().alive(e) == mid.wd().alive(e),
            self.cbp() == mid.cbp().remove(port),
            self.pbn() == mid.pbn().insert(owner, without(mid.ports_of(owner), port)),
        ensures
            self.wf(),
    {
        assert(mid.endpoints(port) is None);
        assert(mid.can_own_ports(owner));
        assert(owner != port);
        assert(mid.ports_of(owner).contains(port));
        assert forall|e: EntityId| e != port implies #[trigger] self.owner_of(e) == mid.owner_of(e) by {}
        assert(self.owner_of(port) is None);
        assert forall|e: EntityId| e != port implies #[trigger] self.dir_of(e) == mid.dir_of(e) by {}
        assert forall|e: EntityId| #[trigger] self.endpoints(e) == mid.endpoints(e) by {}
        assert forall|q: EntityId| #[trigger] self.conns_of(q) == (if q == port { Seq::<EntityId>::empty() } else { mid.conns_of(q) }) by {}
        assert forall|n: EntityId| #[trigger] self.ports_of(n) == (if n == owner { without(mid.ports_of(owner), port) } else { mid.ports_of(n) }) by {}
        lemma_without_contains(mid.ports_of(owner), port);
        assert forall|n: EntityId, p: EntityId| #[trigger] self.ports_of(n).contains(p) implies self.owner_of(p) == Some(n) by {
            assert(mid.ports_of(n).contains(p));
            assert(p != port);
        }
        assert forall|p: EntityId| #[trigger] self.owner_of(p) is Some implies {
            &&& self.ports_of(self.owner_of(p)->0).contains(p)
            &&& self.can_own_ports(self.owner_of(p)->0)
            &&& self.cbp().contains_key(p)
            &&& self.endpoints(p) is None
        } by {
            assert(p != port);
            let n = mid.owner_of(p)->0;
            assert(mid.can_own_ports(n));
            assert(n != port);
        }
        assert forall|n: EntityId| #[trigger] self.ports_of(n).no_duplicates() by {
            assert(mid.ports_of(n).no_duplicates());
            lemma_without_no_duplicates(mid.ports_of(n), port);
        }
        assert forall|p: EntityId, c: EntityId| #[trigger] self.conns_of(p).contains(c) implies match self.endpoints(c) {
            Some(ep) => ep.source_port == p || ep.target_port == p,
            None => false,
        } by {
            assert(mid.conns_of(p).contains(c));
        }
        assert forall|c: EntityId| #[trigger] self.endpoints(c) is Some implies {
            let ep = self.endpoints(c)->0;
            &&& self.conns_of(ep.source_port).contains(c)
            &&& self.conns_of(ep.target_port).contains(c)
            &&& self.dir_of(ep.source_port) == Some(PortDirection::Output)
            &&& self.dir_of(ep.target_port) == Some(PortDirection::Input)
            &&& self.owner_of(ep.source_port) is Some
            &&& self.owner_of(ep.target_port) is Some
        } by {
            let ep = mid.endpoints(c)->0;
            if ep.source_port == port {
                assert(mid.conns_of(port).contains(c));
            }
            if ep.target_port == port {
                assert(mid.conns_of(port).contains(c));
            }
        }
        assert forall|p: EntityId| #[trigger] self.conns_of(p).no_duplicates() by {
            assert(mid.conns_of(p).no_duplicates());
        }
    }

    /// Remove a port: its connections are removed, it leaves its node's
    /// port list, and it is destroyed.
    pub fn remove_port(&mut self, port: EntityId)
        requires
            old(self).wf(),
        ensures
            old(self).owner_of(port) is Some || !old(self).referenced(port) ==> final(self).wf(),
            final(self).wd().wf(),
            final(self).indexes_wf(),
            !final(self).wd().alive(port),
            final(self).wd().comps() == old(self).wd().comps(),
            final(self).wd().room() == old(self).wd().room(),
            final(self).wd().allocator_spec().offset() == old(self).wd().allocator_spec().offset(),
            old(self).owner_of(port) is Some ==> {
                let removed = old(self).conns_of(port);
                let owner = old(self).owner_of(port)->0;
                &&& forall|e: EntityId| #[trigger] removed.contains(e) ==> !final(self).wd().alive(e)
                &&& forall|e: EntityId|
                    e != port && !removed.contains(e) ==> #[trigger] final(self).wd().alive(e) == old(self).wd().alive(e)
                &&& forall|q: EntityId|
                    q != port ==> #[trigger] final(self).conns_of(q) == minus(old(self).conns_of(q), removed)
                &&& !final(self).cbp().contains_key(port)
                &&& final(self).pbn() == old(self).pbn().insert(owner, without(old(self).ports_of(owner), port))
            },
            old(self).owner_of(port) is None && !old(self).referenced(port) ==> {
                &&& forall|e: EntityId| e != port ==> #[trigger] final(self).wd().alive(e) == old(self).wd().alive(e)
                &&& final(self).cbp() == old(self).cbp()
                &&& final(self).pbn() == old(self).pbn()
            },
    {
        let conns = crate::store::component::copy_ids(self.connections_by_port.get(port));
        let ghost removed = conns@;
        let mut i: usize = 0;
        proof {
            if old(self).owner_of(port) is None && conns@.len() > 0 {
                assert(old(self).conns_of(port).contains(conns@[0]));
            }
            assert(removed.subrange(0, 0) =~= Seq::<EntityId>::empty());
            assert forall|q: EntityId| #[trigger] self.conns_of(q) == minus(old(self).conns_of(q), removed.subrange(0, 0)) by {}
        }
        while i < conns.len()
            invariant
                old(self).wf(),
                conns@ == removed,
                removed == old(self).conns_of(port),
                i <= removed.len(),
                self.wf(),
                self.pbn() == old(self).pbn(),
                self.wd().comps() == old(self).wd().comps(),
                self.wd().room() == old(self).wd().room(),
                self.wd().allocator_spec().offset() == old(self).wd().allocator_spec().offset(),
                self.cbp().dom() == old(self).cbp().dom(),
                forall|q: EntityId| #[trigger] self.conns_of(q) == minus(old(self).conns_of(q), removed.subrange(0, i as int)),
                forall|e: EntityId| #[trigger] self.wd().alive(e) == (old(self).wd().alive(e) && !removed.subrange(0, i as int).contains(e)),
            decreases conns.len() - i,
        {
            let c = conns[i];
            let ghost pre = *self;
            proof {
                pre.lemma_remove_step_pre(old(self), removed, i as int, port);
            }
            self.disconnect(c);
            proof {
                self.lemma_remove_step_post(&pre, old(self), removed, i as int, port);
            }
            i = i + 1;
        }
        let ghost mid = *self;
        proof {
            assert(removed.subrange(0, removed.len() as int) =~= removed);
            assert forall|q: EntityId| #[trigger] mid.conns_of(q) == minus(old(self).conns_of(q), removed) by {
                assert(mid.conns_of(q) == minus(old(self).conns_of(q), removed.subrange(0, removed.len() as int)));
            }
            assert forall|e: EntityId| #[trigger] mid.wd().alive(e) == (old(self).wd().alive(e) && !removed.contains(e)) by {
                assert(mid.wd().alive(e) == (old(self).wd().alive(e) && !removed.subrange(0, removed.len() as int).contains(e)));
            }
        }
        self.connections_by_port.remove(port);
        match self.world.get::<PortOwner>(port) {
            Some(o) => {
                let owner = o.0;
                self.ports_by_node.remove_value(owner, port);
            },
            None => {},
        }
        self.world.despawn(port);
        proof {
            self.lemma_remove_port_final(&mid, old(self), removed, port);
        }
    }

    /// Whether `c` is on the connection list of one of `ports` in this graph.
    pub open spec fn attached(&self, ports: Seq<EntityId>, c: EntityId) -> bool {
        exists|k: int| 0 <= k < ports.len() && #[trigger] self.conns_of(ports[k]).contains(c)
    }

    /// Ids of the live entities that have a frame member list.
    fn frame_ids_with_members(&self) -> (r: Vec<EntityId>)
        requires
            self.wd().wf(),
        ensures
            r@.no_duplicates(),
            forall|f: EntityId| #[trigger] r@.contains(f) <==> self.wd().comp::<FrameMembers>(f) is Some,
    {
        let q = self.world.query::<FrameMembers>();
        let mut r: Vec<EntityId> = Vec::new();
        let mut i: usize = 0;
        while i < q.len()
            invariant
                i <= q@.len(),
                r@.len() == i,
                forall|j: int| 0 <= j < i ==> r@[j] == (#[trigger] q@[j]).0,
            decreases q.len() - i,
        {
            r.push(q[i].0);
            i = i + 1;
        }
        assert forall|a: int, b: int| 0 <= a < r@.len() && 0 <= b < r@.len() && a != b implies r@[a] != r@[b] by {
            assert(r@[a] == q@[a].0 && r@[b] == q@[b].0);
            if a < b {
                assert(q@[a].0.index < q@[b].0.index);
            } else {
                assert(q@[b].0.index < q@[a].0.index);
            }
        }
        assert forall|f: EntityId| #[trigger] r@.contains(f) <==> self.wd().comp::<FrameMembers>(f) is Some by {
            if r@.contains(f) {
                let j = choose|j: int| 0 <= j < r@.len() && r@[j] == f;
                assert(q@[j].0 == f);
            }
            if self.wd().comp::<FrameMembers>(f) is Some {
                let j = choose|j: int| 0 <= j < q@.len() && #[trigger] q@[j].0 == f;
                assert(r@[j] == f);
            }
        }
        r
    }

    proof fn lemma_remove_node_step_pre(&self, g0: &Self, ports: Seq<EntityId>, i: int, node: EntityId)
        requires
            g0.wf(),
            self.wf(),
            ports == g0.ports_of(node),
            0 <= i < ports.len(),
            self.wd().comps() == g0.wd().comps(),
            forall|e: EntityId| #[trigger] self.wd().alive(e) == (g0.wd().alive(e) && !ports.subrange(0, i).contains(e)
                && !g0.attached(ports.subrange(0, i), e)),
        ensures
            self.owner_of(ports[i]) == Some(node),
    {
        let p = ports[i];
        assert(g0.ports_of(node).contains(p));
        assert(g0.owner_of(p) == Some(node));
        assert(ports.no_duplicates());
        assert(!ports.subrange(0, i).contains(p)) by {
            if ports.subrange(0, i).contains(p) {
                let k = choose|k: int| 0 <= k < i && #[trigger] ports.subrange(0, i)[k] == p;
                assert(ports[k] == p);
            }
        }
        assert(!g0.attached(ports.subrange(0, i), p)) by {
            if g0.attached(ports.subrange(0, i), p) {
                let k = choose|k: int| 0 <= k < i && #[trigger] g0.conns_of(ports.subrange(0, i)[k]).contains(p);
                assert(g0.endpoints(p) is Some);
            }
        }
    }

    proof fn lemma_remove_node_step_post(&self, pre: &Self, g0: &Self, ports: Seq<EntityId>, i: int, node: EntityId)
        requires
            g0.wf(),
            pre.wf(),
            ports == g0.ports_of(node),
            0 <= i < ports.len(),
            pre.owner_of(ports[i]) == Some(node),
            pre.ports_of(node) == ports.skip(i),
            forall|n: EntityId| n != node ==> #[trigger] pre.ports_of(n) == g0.ports_of(n),
            pre.pbn().contains_key(node) == g0.pbn().contains_key(node),
            forall|e: EntityId| #[trigger] pre.wd().alive(e) == (g0.wd().alive(e) && !ports.subrange(0, i).contains(e)
                && !g0.attached(ports.subrange(0, i), e)),
            forall|q: EntityId, c: EntityId|
                !ports.subrange(0, i).contains(q) ==> (#[trigger] pre.conns_of(q).contains(c)
                    == (g0.conns_of(q).contains(c) && !g0.attached(ports.subrange(0, i), c))),
            ({
                let removed = pre.conns_of(ports[i]);
                let port = ports[i];
                &&& !self.wd().alive(port)
                &&& forall|e: EntityId| #[trigger] removed.contains(e) ==> !self.wd().alive(e)
                &&& forall|e: EntityId|
                    e != port && !removed.contains(e) ==> #[trigger] self.wd().alive(e) == pre.wd().alive(e)
                &&& forall|q: EntityId| q != port ==> #[trigger] self.conns_of(q) == minus(pre.conns_of(q), removed)
                &&& self.pbn() == pre.pbn().insert(node, without(pre.ports_of(node), port))
            }),
        ensures
            self.ports_of(node) == ports.skip(i + 1),
            forall|n: EntityId| n != node ==> #[trigger] self.ports_of(n) == g0.ports_of(n),
            self.pbn().contains_key(node) == g0.pbn().contains_key(node),
            forall|e: EntityId| #[trigger] self.wd().alive(e) == (g0.wd().alive(e) && !ports.subrange(0, i + 1).contains(e)
                && !g0.attached(ports.subrange(0, i + 1), e)),
            forall|q: EntityId, c: EntityId|
                !ports.subrange(0, i + 1).contains(q) ==> (#[trigger] self.conns_of(q).contains(c)
                    == (g0.conns_of(q).contains(c) && !g0.attached(ports.subrange(0, i + 1), c))),
    {
        let port = ports[i];
        let removed = pre.conns_of(port);
        assert(ports.no_duplicates());
        let rest = ports.skip(i);
        assert(rest.no_duplicates()) by {
            assert forall|a: int, b: int| 0 <= a < rest.len() && 0 <= b < rest.len() && a != b implies rest[a] != rest[b] by {
                assert(rest[a] == ports[a + i] && rest[b] == ports[b + i]);
            }
        }
        lemma_without_first(rest);
        assert(rest[0] == port);
        assert(rest.skip(1) =~= ports.skip(i + 1));
        assert(g0.pbn().contains_key(node)) by {
            if !g0.pbn().contains_key(node) {
                assert(g0.ports_of(node).len() == 0);
            }
        }
        let pre_fix = ports.subrange(0, i);
        let post_fix = ports.subrange(0, i + 1);
        assert(!pre_fix.contains(port)) by {
            if pre_fix.contains(port) {
                let k = choose|k: int| 0 <= k < i && #[trigger] pre_fix[k] == port;
                assert(ports[k] == port);
            }
        }
        assert forall|x: EntityId| #[trigger] post_fix.contains(x) == (pre_fix.contains(x) || x == port) by {
            if post_fix.contains(x) {
                let k = choose|k: int| 0 <= k < i + 1 && #[trigger] post_fix[k] == x;
                if k < i {
                    assert(pre_fix[k] == x);
                }
            }
            if pre_fix.contains(x) {
                let k = choose|k: int| 0 <= k < i && #[trigger] pre_fix[k] == x;
                assert(post_fix[k] == x);
            }
            if x == port {
                assert(post_fix[i] == x);
            }
        }
        assert forall|c: EntityId| #[trigger] g0.attached(post_fix, c) == (g0.attached(pre_fix, c) || g0.conns_of(port).contains(c)) by {
            if g0.attached(post_fix, c) {
                let k = choose|k: int| 0 <= k < post_fix.len() && #[trigger] g0.conns_of(post_fix[k]).contains(c);
                if k < i {
                    assert(pre_fix[k] == post_fix[k]);
                }
            }
            if g0.attached(pre_fix, c) {
                let k = choose|k: int| 0 <= k < pre_fix.len() && #[trigger] g0.conns_of(pre_fix[k]).contains(c);
                assert(post_fix[k] == pre_fix[k]);
            }
            if g0.conns_of(port).contains(c) {
                assert(post_fix[i] == port);
            }
        }
        assert forall|c: EntityId| #[trigger] removed.contains(c) == (g0.conns_of(port).contains(c) && !g0.attached(pre_fix, c)) by {
        }
        assert forall|q: EntityId, c: EntityId|
            !post_fix.contains(q) implies (#[trigger] self.conns_of(q).contains(c)
                == (g0.conns_of(q).contains(c) && !g0.attached(post_fix, c))) by {
            lemma_minus_contains(pre.conns_of(q), removed);
            assert(pre.conns_of(q).contains(c) == (g0.conns_of(q).contains(c) && !g0.attached(pre_fix, c)));
        }
        assert forall|e: EntityId| #[trigger] self.wd().alive(e) == (g0.wd().alive(e) && !post_fix.contains(e)
            && !g0.attached(post_fix, e)) by {
            assert(removed.contains(e) == (g0.conns_of(port).contains(e) && !g0.attached(pre_fix, e)));
        }
        assert forall|n: EntityId| n != node implies #[trigger] self.ports_of(n) == g0.ports_of(n) by {
            assert(pre.ports_of(n) == g0.ports_of(n));
        }
    }

    /// Destroying an entity that is neither a port nor a connection and owns
    /// no port keeps the graph well-formed.
    proof fn lemma_wf_after_despawn(&self, g: &Self, x: EntityId)
        requires
            g.wf(),
            self.wd().wf(),
            self.indexes_wf(),
            self.pbn() == g.pbn(),
            self.cbp() == g.cbp(),
            self.wd().comps() == g.wd().comps(),
            forall|e: EntityId| e != x ==> #[trigger] self.wd().alive(e) == g.wd().alive(e),
            !self.wd().alive(x),
            g.owner_of(x) is None,
            g.endpoints(x) is None,
            forall|p: EntityId| #[trigger] g.owner_of(p) != Some(x),
        ensures
            self.wf(),
    {
        assert forall|e: EntityId| #[trigger] self.owner_of(e) == g.owner_of(e) by {}
        assert forall|e: EntityId| #[trigger] self.endpoints(e) == g.endpoints(e) by {}
        assert forall|e: EntityId| e != x implies #[trigger] self.dir_of(e) == g.dir_of(e) by {}
        assert forall|p: EntityId| #[trigger] self.owner_of(p) is Some implies {
            &&& self.ports_of(self.owner_of(p)->0).contains(p)
            &&& self.can_own_ports(self.owner_of(p)->0)
            &&& self.cbp().contains_key(p)
            &&& self.endpoints(p) is None
        } by {
            let n = g.owner_of(p)->0;
            assert(g.can_own_ports(n));
            assert(n != x);
        }
        assert forall|c: EntityId| #[trigger] self.endpoints(c) is Some implies {
            let ep = self.endpoints(c)->0;
            &&& self.conns_of(ep.source_port).contains(c)
            &&& self.conns_of(ep.target_port).contains(c)
            &&& self.dir_of(ep.source_port) == Some(PortDirection::Output)
            &&& self.dir_of(ep.target_port) == Some(PortDirection::Input)
            &&& self.owner_of(ep.source_port) is Some
            &&& self.owner_of(ep.target_port) is Some
        } by {
            let ep = g.endpoints(c)->0;
            assert(ep.source_port != x);
            assert(ep.target_port != x);
        }
        assert forall|p: EntityId, c: EntityId| #[trigger] self.conns_of(p).contains(c) implies match self.endpoints(c) {
            Some(ep) => ep.source_port == p || ep.target_port == p,
            None => false,
        } by {
            assert(g.conns_of(p).contains(c));
        }
        assert forall|n: EntityId, p: EntityId| #[trigger] self.ports_of(n).contains(p) implies self.owner_of(p) == Some(n) by {
            assert(g.ports_of(n).contains(p));
        }
        assert forall|p: EntityId| #[trigger] self.conns_of(p).no_duplicates() by {
            assert(g.conns_of(p).no_duplicates());
        }
        assert forall|n: EntityId| #[trigger] self.ports_of(n).no_duplicates() by {
            assert(g.ports_of(n).no_duplicates());
        }
    }

    /// Under well-formedness, a connection is on the list of one of a
    /// node's ports exactly when it touches the node.
    proof fn lemma_attached_touches(&self, node: EntityId)
        requires
            self.wf(),
        ensures
            forall|c: EntityId| #[trigger] self.attached(self.ports_of(node), c) == self.touches_node(node, c),
    {
        let ports = self.ports_of(node);
        assert forall|c: EntityId| #[trigger] self.attached(ports, c) == self.touches_node(node, c) by {
            if self.attached(ports, c) {
                let k = choose|k: int| 0 <= k < ports.len() && #[trigger] self.conns_of(ports[k]).contains(c);
                assert(ports.contains(ports[k]));
            }
            if self.touches_node(node, c) {
                let ep = self.endpoints(c)->0;
                if self.owner_of(ep.source_port) == Some(node) {
                    assert(ports.contains(ep.source_port));
                    let k = choose|k: int| 0 <= k < ports.len() && ports[k] == ep.source_port;
                    assert(self.conns_of(ports[k]).contains(c));
                } else {
                    assert(ports.contains(ep.target_port));
                    let k = choose|k: int| 0 <= k < ports.len() && ports[k] == ep.target_port;
                    assert(self.conns_of(ports[k]).contains(c));
                }
            }
        }
    }

    proof fn lemma_remove_node_final(
        &self,
        mid: &Self,
        mid2: &Self,
        mid3: &Self,
        g0: &Self,
        ports: Seq<EntityId>,
        node: EntityId,
        frames: Seq<EntityId>,
    )
        requires
            g0.wf(),
            ports == g0.ports_of(node),
            mid.wf(),
            mid.wd().comps() == g0.wd().comps(),
            mid.wd().room() == g0.wd().room(),
            mid.wd().allocator_spec().offset() == g0.wd().allocator_spec().offset(),
            mid.ports_of(node) == ports.skip(ports.len() as int),
            forall|n: EntityId| n != node ==> #[trigger] mid.ports_of(n) == g0.ports_of(n),
            forall|e: EntityId| #[trigger] mid.wd().alive(e) == (g0.wd().alive(e) && !ports.subrange(0, ports.len() as int).contains(e)
                && !g0.attached(ports.subrange(0, ports.len() as int), e)),
            forall|q: EntityId, c: EntityId|
                !ports.subrange(0, ports.len() as int).contains(q) ==> (#[trigger] mid.conns_of(q).contains(c)
                    == (g0.conns_of(q).contains(c) && !g0.attached(ports.subrange(0, ports.len() as int), c))),
            mid2.wd() == mid.wd(),
            mid2.cbp() == mid.cbp(),
            mid2.pbn() == mid.pbn().remove(node),
            mid2.indexes_wf(),
            mid3.wd().wf(),
            mid3.indexes_wf(),
            mid3.pbn() == mid2.pbn(),
            mid3.cbp() == mid2.cbp(),
            mid3.wd().allocator_spec() == mid2.wd().allocator_spec(),
            mid3.wd().comps().same_except_kinds(mid2.wd().comps(), set![ComponentKind::FrameMembers]),
            forall|f: EntityId| #[trigger] frames.contains(f) <==> mid2.wd().comp::<FrameMembers>(f) is Some,
            forall|f: EntityId| !frames.contains(f) ==> #[trigger] mid3.members_of(f) == mid2.members_of(f),
            forall|j: int| 0 <= j < frames.len() ==> #[trigger] mid3.members_of(frames[j])
                == Some(without(mid2.members_of(frames[j])->0, node)),
            self.wd().wf(),
            self.indexes_wf(),
            self.pbn() == mid3.pbn(),
            self.cbp() == mid3.cbp(),
            self.wd().comps() == mid3.wd().comps(),
            !self.wd().alive(node),
            forall|e: EntityId| e != node ==> #[trigger] self.wd().alive(e) == mid3.wd().alive(e),
            self.wd().room() == mid3.wd().room(),
            self.wd().allocator_spec().offset() == mid3.wd().allocator_spec().offset(),
        ensures
            g0.owner_of(node) is None && g0.endpoints(node) is None ==> self.wf(),
            forall|p: EntityId| #[trigger] g0.ports_of(node).contains(p) ==> !self.wd().alive(p),
            forall|c: EntityId| #[trigger] g0.touches_node(node, c) ==> !self.wd().alive(c),
            forall|e: EntityId|
                e != node && !g0.ports_of(node).contains(e) && !g0.touches_node(node, e)
                    ==> #[trigger] self.wd().alive(e) == g0.wd().alive(e),
            !self.pbn().contains_key(node),
            forall|q: EntityId, c: EntityId|
                !g0.ports_of(node).contains(q) ==> (#[trigger] self.conns_of(q).contains(c)
                    == (g0.conns_of(q).contains(c) && !g0.touches_node(node, c))),
            forall|f: EntityId|
                f != node && !g0.ports_of(node).contains(f) && !g0.touches_node(node, f) ==> (
                #[trigger] self.members_of(f) == match g0.members_of(f) {
                    Some(m) => Some(without(m, node)),
                    None => None,
                }),
            self.wd().comps().same_except_kinds(g0.wd().comps(), set![ComponentKind::FrameMembers]),
            self.wd().room() == g0.wd().room(),
            self.wd().allocator_spec().offset() == g0.wd().allocator_spec().offset(),
    {
        assert(ports.subrange(0, ports.len() as int) =~= ports);
        g0.lemma_attached_touches(node);
        assert forall|q: EntityId, c: EntityId|
            !g0.ports_of(node).contains(q) implies (#[trigger] self.conns_of(q).contains(c)
                == (g0.conns_of(q).contains(c) && !g0.touches_node(node, c))) by {
            assert(self.conns_of(q) == mid.conns_of(q));
            assert(!ports.subrange(0, ports.len() as int).contains(q));
            assert(mid.conns_of(q).contains(c) == (g0.conns_of(q).contains(c) && !g0.attached(ports.subrange(0, ports.len() as int), c)));
            assert(g0.attached(ports, c) == g0.touches_node(node, c));
        }
        assert(mid.ports_of(node) =~= Seq::<EntityId>::empty());
        assert forall|n: EntityId| #[trigger] mid2.ports_of(n) == mid.ports_of(n) by {}
        assert forall|e: EntityId| #[trigger] mid3.wd().alive(e) == mid2.wd().alive(e) by {}
        assert forall|f: EntityId|
            f != node && !g0.ports_of(node).contains(f) && !g0.touches_node(node, f) implies (
            #[trigger] self.members_of(f) == match g0.members_of(f) {
                Some(m) => Some(without(m, node)),
                None => None,
            }) by {
            assert(self.wd().alive(f) == mid3.wd().alive(f));
            assert(self.members_of(f) == mid3.members_of(f));
            assert(mid2.members_of(f) == g0.members_of(f));
            if frames.contains(f) {
                let j = choose|j: int| 0 <= j < frames.len() && frames[j] == f;
                assert(mid3.members_of(frames[j]) == Some(without(mid2.members_of(frames[j])->0, node)));
            } else {
                assert(mid2.members_of(f) is None);
            }
        }
        if g0.owner_of(node) is None && g0.endpoints(node) is None {
            mid2.lemma_wf_same_views(mid);
            assert forall|e: EntityId| #[trigger] mid3.owner_of(e) == mid2.owner_of(e) by {
                mid3.wd().lemma_comp_kept::<PortOwner>(&mid2.wd(), set![ComponentKind::FrameMembers], e);
            }
            assert forall|e: EntityId| #[trigger] mid3.dir_of(e) == mid2.dir_of(e) by {
                mid3.wd().lemma_comp_kept::<PortDirection>(&mid2.wd(), set![ComponentKind::FrameMembers], e);
            }
            assert forall|e: EntityId| #[trigger] mid3.endpoints(e) == mid2.endpoints(e) by {
                mid3.wd().lemma_comp_kept::<ConnectionEndpoints>(&mid2.wd(), set![ComponentKind::FrameMembers], e);
            }
            assert forall|n: EntityId| #[trigger] mid3.ports_of(n) == mid2.ports_of(n) by {}
            mid3.lemma_wf_same_views(mid2);
            assert(mid3.owner_of(node) is None) by {
                assert(mid3.owner_of(node) == g0.owner_of(node) || !mid3.wd().alive(node)) by {
                    if mid3.wd().alive(node) {
                        mid3.wd().lemma_comp_kept::<PortOwner>(&g0.wd(), set![ComponentKind::FrameMembers], node);
                    }
                }
            }
            assert(mid3.endpoints(node) is None) by {
                if mid3.wd().alive(node) {
                    mid3.wd().lemma_comp_kept::<ConnectionEndpoints>(&g0.wd(), set![ComponentKind::FrameMembers], node);
                }
            }
            assert forall|p: EntityId| #[trigger] mid3.owner_of(p) != Some(node) by {
                if mid3.owner_of(p) == Some(node) {
                    assert(mid3.ports_of(node).contains(p));
                }
            }
            self.lemma_wf_after_despawn(mid3, node);
        }
    }

    /// Whether connection `c` of `g0` is attached to a port owned by `node`.
    pub open spec fn touches_node(&self, node: EntityId, c: EntityId) -> bool {
        match self.endpoints(c) {
            Some(ep) => self.owner_of(ep.source_port) == Some(node) || self.owner_of(ep.target_port)
                == Some(node),
            None => false,
        }
    }

    /// Remove a node: its ports and every connection on them are removed,
    /// it leaves every frame's member list, and it is destroyed.
    pub fn remove_node(&mut self, node: EntityId)
        requires
            old(self).wf(),
        ensures
            old(self).owner_of(node) is None && old(self).endpoints(node) is None ==> final(self).wf(),
            final(self).wd().wf(),
            final(self).indexes_wf(),
            !final(self).wd().alive(node),
            forall|p: EntityId| #[trigger] old(self).ports_of(node).contains(p) ==> !final(self).wd().alive(p),
            forall|c: EntityId| #[trigger] old(self).touches_node(node, c) ==> !final(self).wd().alive(c),
            forall|e: EntityId|
                e != node && !old(self).ports_of(node).contains(e) && !old(self).touches_node(node, e)
                    ==> #[trigger] final(self).wd().alive(e) == old(self).wd().alive(e),
            !final(self).pbn().contains_key(node),
            forall|n: EntityId| n != node ==> #[trigger] final(self).ports_of(n) == old(self).ports_of(n),
            forall|q: EntityId, c: EntityId|
                !old(self).ports_of(node).contains(q) ==> (#[trigger] final(self).conns_of(q).contains(c)
                    == (old(self).conns_of(q).contains(c) && !old(self).touches_node(node, c))),
            forall|f: EntityId|
                f != node && !old(self).ports_of(node).contains(f) && !old(self).touches_node(node, f) ==> (
                #[trigger] final(self).members_of(f) == match old(self).members_of(f) {
                    Some(m) => Some(without(m, node)),
                    None => None,
                }),
            final(self).wd().comps().same_except_kinds(old(self).wd().comps(), set![ComponentKind::FrameMembers]),
            final(self).wd().room() == old(self).wd().room(),
            final(self).wd().allocator_spec().offset() == old(self).wd().allocator_spec().offset(),
            old(self).can_own_ports(node) ==> final(self).wd().allocator_spec().is_stale(node),
    {
        let ports = crate::store::component::copy_ids(self.ports_by_node.get(node));
        let ghost g0 = *old(self);
        let mut i: usize = 0;
        proof {
            assert(ports@.subrange(0, 0) =~= Seq::<EntityId>::empty());
            assert(ports@.skip(0) =~= ports@);
        }
        while i < ports.len()
            invariant
                g0 == *old(self),
                g0.wf(),
                ports@ == g0.ports_of(node),
                i <= ports@.len(),
                self.wf(),
                self.wd().comps() == g0.wd().comps(),
                self.wd().room() == g0.wd().room(),
                self.wd().allocator_spec().offset() == g0.wd().allocator_spec().offset(),
                self.ports_of(node) == ports@.skip(i as int),
                forall|n: EntityId| n != node ==> #[trigger] self.ports_of(n) == g0.ports_of(n),
                self.pbn().contains_key(node) == g0.pbn().contains_key(node),
                forall|e: EntityId| #[trigger] self.wd().alive(e) == (g0.wd().alive(e) && !ports@.subrange(0, i as int).contains(e)
                    && !g0.attached(ports@.subrange(0, i as int), e)),
                forall|q: EntityId, c: EntityId|
                    !ports@.subrange(0, i as int).contains(q) ==> (#[trigger] self.conns_of(q).contains(c)
                        == (g0.conns_of(q).contains(c) && !g0.attached(ports@.subrange(0, i as int), c))),
            decreases ports.len() - i,
        {
            let port = ports[i];
            let ghost pre = *self;
            proof {
                pre.lemma_remove_node_step_pre(&g0, ports@, i as int, node);
            }
            self.remove_port(port);
            proof {
                self.lemma_remove_node_step_post(&pre, &g0, ports@, i as int, node);
            }
            i = i + 1;
        }
        let ghost mid = *self;
        self.ports_by_node.remove(node);
        let ghost mid2 = *self;
        proof {
            assert forall|n: EntityId| n != node implies #[trigger] mid2.ports_of(n) == g0.ports_of(n) by {
                assert(mid.ports_of(n) == g0.ports_of(n));
            }
        }
        let frames = self.frame_ids_with_members();
        let mut k: usize = 0;
        while k < frames.len()
            invariant
                mid2.wd().wf(),
                self.wd().wf(),
                self.pbn() == mid2.pbn(),
                self.cbp() == mid2.cbp(),
                self.indexes_wf(),
                self.wd().allocator_spec() == mid2.wd().allocator_spec(),
                self.wd().comps().same_except_kinds(mid2.wd().comps(), set![ComponentKind::FrameMembers]),
                k <= frames@.len(),
                frames@.no_duplicates(),
                forall|f: EntityId| #[trigger] frames@.contains(f) <==> mid2.wd().comp::<FrameMembers>(f) is Some,
                forall|f: EntityId| !frames@.contains(f) ==> #[trigger] self.members_of(f) == mid2.members_of(f),
                forall|j: int| 0 <= j < k ==> #[trigger] self.members_of(frames@[j])
                    == Some(without(mid2.members_of(frames@[j])->0, node)),
                forall|j: int| k <= j < frames@.len() ==> #[trigger] self.members_of(frames@[j])
                    == mid2.members_of(frames@[j]),
            decreases frames.len() - k,
        {
            let fid = frames[k];
            let ghost pre = self.world;
            let ghost pre_g = *self;
            match self.world.get_mut::<FrameMembers>(fid) {
                Some(m) => {
                    let filtered = filter_out(&m.0, node);
                    m.0 = filtered;
                },
                None => {},
            }
            proof {
                assert forall|f: EntityId| f != fid implies #[trigger] self.members_of(f) == pre_g.members_of(f) by {
                    assert(self.wd().comp::<FrameMembers>(f) == pre.comp::<FrameMembers>(f));
                }
                assert(frames@.contains(fid)) by {
                    assert(frames@[k as int] == fid);
                }
                assert(pre_g.members_of(fid) == mid2.members_of(fid));
                assert(self.members_of(fid) == Some(without(mid2.members_of(fid)->0, node)));
                assert forall|j: int| k < j < frames@.len() implies #[trigger] self.members_of(frames@[j])
                    == mid2.members_of(frames@[j]) by {
                    assert(frames@[j] != fid);
                }
                assert forall|j: int| 0 <= j < k implies #[trigger] self.members_of(frames@[j])
                    == Some(without(mid2.members_of(frames@[j])->0, node)) by {
                    assert(frames@[j] != fid);
                }
                assert forall|f: EntityId| !frames@.contains(f) implies #[trigger] self.members_of(f) == mid2.members_of(f) by {
                    assert(frames@[k as int] == fid);
                }
                lemma_same_except_trans(mid2.wd().comps(), pre.comps(), self.wd().comps(), set![ComponentKind::FrameMembers], set![ComponentKind::FrameMembers]);
                assert(set![ComponentKind::FrameMembers].union(set![ComponentKind::FrameMembers]) =~= set![ComponentKind::FrameMembers]);
            }
            k = k + 1;
        }
        let ghost mid3 = *self;
        proof {
            if g0.can_own_ports(node) {
                assert(!ports@.contains(node)) by {
                    if ports@.contains(node) {
                        assert(g0.owner_of(node) == Some(node));
                    }
                }
                assert(ports@.subrange(0, ports@.len() as int) =~= ports@);
                assert(!g0.attached(ports@, node));
                assert(mid.wd().alive(node));
                assert(mid3.wd().alive(node));
            }
        }
        self.world.despawn(node);
        proof {
            self.lemma_remove_node_final(&mid, &mid2, &mid3, &g0, ports@, node, frames@);
            assert forall|n: EntityId| n != node implies #[trigger] self.ports_of(n) == g0.ports_of(n) by {
                assert(self.pbn() == mid2.pbn());
                assert(mid2.ports_of(n) == g0.ports_of(n));
            }
        }
    }

    /// The ports of `node`, in the order they were added.
    pub fn node_ports(&self, node: EntityId) -> (r: &[EntityId])
        requires
            self.indexes_wf(),
        ensures
            r@ == self.ports_of(node),
    {
        self.ports_by_node.get(node)
    }

    /// The connections attached to `port`.
    pub fn port_connections(&self, port: EntityId) -> (r: &[EntityId])
        requires
            self.indexes_wf(),
        ensures
            r@ == self.conns_of(port),
    {
        self.connections_by_port.get(port)
    }

    /// The live nodes: the entities that have a node header.
    pub open spec fn node_set(&self) -> Set<EntityId> {
        self.wd().ids_with::<NodeHeader>()
    }

    /// The live connections.
    pub open spec fn connection_set(&self) -> Set<EntityId> {
        self.wd().ids_with::<ConnectionEndpoints>()
    }

    pub fn connection_count(&self) -> (r: usize)
        requires
            self.wd().wf(),
        ensures
            self.connection_set().finite(),
            r == self.connection_set().len(),
    {
        self.world.count_with::<ConnectionEndpoints>()
    }

    pub fn node_count(&self) -> (r: usize)
        requires
            self.wd().wf(),
        ensures
            self.node_set().finite(),
            r == self.node_set().len(),
    {
        self.world.count_with::<NodeHeader>()
    }

    /// Remove a frame without affecting its member nodes.
    pub fn remove_frame(&mut self, frame_id: EntityId)
        requires
            old(self).wf(),
        ensures
            !old(self).referenced(frame_id) ==> final(self).wf(),
            final(self).wd().wf(),
            final(self).indexes_wf(),
            !final(self).wd().alive(frame_id),
            forall|e: EntityId| e != frame_id ==> #[trigger] final(self).wd().alive(e) == old(self).wd().alive(e),
            final(self).wd().comps() == old(self).wd().comps(),
            final(self).pbn() == old(self).pbn(),
            final(self).cbp() == old(self).cbp(),
            final(self).wd().room() == old(self).wd().room(),
            final(self).wd().allocator_spec().offset() == old(self).wd().allocator_spec().offset(),
    {
        self.world.despawn(frame_id);
        proof {
            if !old(self).referenced(frame_id) {
                assert forall|p: EntityId| #[trigger] old(self).owner_of(p) != Some(frame_id) by {
                    if old(self).owner_of(p) == Some(frame_id) {
                        assert(old(self).ports_of(frame_id).contains(p));
                    }
                }
                self.lemma_wf_after_despawn(old(self), frame_id);
            }
        }
    }

    /// The live frames: the entities that have a frame rectangle.
    pub open spec fn frame_set(&self) -> Set<EntityId> {
        self.wd().ids_with::<FrameRect<F>>()
    }

    /// How many more entities the graph's world can spawn.
    pub fn room_left(&self) -> (r: u64)
        requires
            self.wd().wf(),
        ensures
            self.wd().room() >= 0 ==> r == self.wd().room(),
            self.wd().room() < 0 ==> r == 0,
    {
        self.world.room_left()
    }

    pub fn frame_count(&self) -> (r: usize)
        requires
            self.wd().wf(),
        ensures
            self.frame_set().finite(),
            r == self.frame_set().len(),
    {
        self.world.count_with::<FrameRect<F>>()
    }

    /// Connect two ports. If the input port already has a connection, it is
    /// replaced. Returns the new connection's id.
    pub fn connect(&mut self, source_port: EntityId, target_port: EntityId) -> (r: Result<
        EntityId,
        ConnectionError,
    >)
        requires
            old(self).wf(),
            old(self).wd().room() >= 1,
        ensures
            final(self).wf(),
            final(self).wd().room() >= old(self).wd().room() - 1,
            final(self).wd().allocator_spec().offset() == old(self).wd().allocator_spec().offset(),
            old(self).wd().allocator_spec().evolves_to(&final(self).wd().allocator_spec()),
            final(self).pbn() == old(self).pbn(),
            final(self).wd().comps().same_except_kinds(
                old(self).wd().comps(),
                set![ComponentKind::ConnectionEndpoints],
            ),
            match old(self).validation(source_port, target_port) {
                Err(e) => r == Err::<EntityId, ConnectionError>(e) && *final(self) == *old(self),
                Ok((out, inp)) => r matches Ok(c) && {
                    let replaced = old(self).conns_of(inp);
                    &&& !old(self).wd().alive(c)
                    &&& final(self).wd().alive(c)
                    &&& final(self).endpoints(c) == Some(ConnectionEndpoints { source_port: out, target_port: inp })
                    &&& final(self).conns_of(inp) == seq![c]
                    &&& final(self).conns_of(out) == minus(old(self).conns_of(out), replaced).push(c)
                    &&& forall|p: EntityId|
                        p != out && p != inp ==> #[trigger] final(self).conns_of(p) == minus(
                            old(self).conns_of(p),
                            replaced,
                        )
                    &&& forall|e: EntityId| #[trigger] replaced.contains(e) ==> !final(self).wd().alive(e)
                    &&& forall|e: EntityId|
                        e != c && !replaced.contains(e) ==> #[trigger] final(self).wd().alive(e) == old(self).wd().alive(e)
                    &&& forall|e: EntityId|
                        e != c && !replaced.contains(e) ==> #[trigger] final(self).endpoints(e) == old(self).endpoints(e)
                },
            },
    {
        proof {
            crate::store::entity::lemma_evolves_refl(self.wd().allocator_spec());
        }
        let (output_port, input_port) = match self.validate_and_normalize(source_port, target_port) {
            Ok(pair) => pair,
            Err(e) => return Err(e),
        };
        let existing = crate::store::component::copy_ids(self.connections_by_port.get(input_port));
        let ghost replaced = existing@;
        proof {
            assert(replaced == old(self).conns_of(input_port));
        }
        let mut i: usize = 0;
        while i < existing.len()
            invariant
                old(self).wf(),
                old(self).validation(source_port, target_port) == Ok::<(EntityId, EntityId), ConnectionError>((output_port, input_port)),
                existing@ == replaced,
                replaced == old(self).conns_of(input_port),
                i <= replaced.len(),
                self.wf(),
                self.pbn() == old(self).pbn(),
                self.wd().comps() == old(self).wd().comps(),
                self.wd().room() == old(self).wd().room(),
                self.wd().allocator_spec().offset() == old(self).wd().allocator_spec().offset(),
                self.cbp().dom() == old(self).cbp().dom(),
                forall|p: EntityId| #[trigger] self.conns_of(p) == minus(old(self).conns_of(p), replaced.subrange(0, i as int)),
                forall|e: EntityId| #[trigger] self.wd().alive(e) == (old(self).wd().alive(e) && !replaced.subrange(0, i as int).contains(e)),
                old(self).wd().allocator_spec().evolves_to(&self.wd().allocator_spec()),
            decreases existing.len() - i,
        {
            let c = existing[i];
            let ghost pre = *self;
            proof {
                pre.lemma_connect_step_pre(old(self), replaced, i as int, input_port);
            }
            self.disconnect(c);
            proof {
                self.lemma_connect_step_post(&pre, old(self), replaced, i as int, input_port);
                crate::store::entity::lemma_evolves_trans(
                    old(self).wd().allocator_spec(),
                    pre.wd().allocator_spec(),
                    self.wd().allocator_spec(),
                );
            }
            i = i + 1;
        }
        let ghost mid = *self;
        proof {
            assert(replaced.subrange(0, replaced.len() as int) =~= replaced);
            assert forall|p: EntityId| #[trigger] mid.conns_of(p) == minus(old(self).conns_of(p), replaced) by {
                assert(mid.conns_of(p) == minus(old(self).conns_of(p), replaced.subrange(0, replaced.len() as int)));
            }
        }
        let conn_id = self.world.spawn();
        let ghost w1 = self.world;
        proof {
            crate::store::entity::lemma_evolves_trans(
                old(self).wd().allocator_spec(),
                mid.wd().allocator_spec(),
                w1.allocator_spec(),
            );
        }
        self.world.insert(conn_id, ConnectionEndpoints { source_port: output_port, target_port: input_port });
        self.connections_by_port.push(output_port, conn_id);
        self.connections_by_port.push(input_port, conn_id);
        proof {
            let g0 = old(self);
            assert(replaced.subrange(0, replaced.len() as int) =~= replaced);
            assert(output_port != input_port);
            w1.lemma_no_data_comp::<ConnectionEndpoints>(conn_id);
            w1.lemma_no_data_comp::<PortOwner>(conn_id);
            w1.lemma_no_data_comp::<PortDirection>(conn_id);
            assert(g0.endpoints(conn_id) is None) by {
                assert(mid.wd().comps() == g0.wd().comps());
                if g0.wd().alive(conn_id) {
                    assert(!replaced.contains(conn_id));
                    assert(mid.wd().alive(conn_id));
                }
            }
            assert(!g0.wd().alive(conn_id) || replaced.contains(conn_id));
            assert(!replaced.contains(conn_id)) by {
                if replaced.contains(conn_id) {
                    assert(g0.conns_of(input_port).contains(conn_id));
                    assert(g0.endpoints(conn_id) is Some);
                }
            }
            assert forall|e: EntityId| #[trigger] self.wd().alive(e) == ((g0.wd().alive(e) && !replaced.contains(e)) || e == conn_id) by {
                assert(w1.alive(e) == (mid.wd().alive(e) || e == conn_id));
            }
            assert forall|e: EntityId| #[trigger] self.owner_of(e) == g0.owner_of(e) by {
                self.wd().lemma_comp_kept::<PortOwner>(&w1, set![ComponentKind::ConnectionEndpoints], e);
                if replaced.contains(e) {
                    assert(g0.conns_of(input_port).contains(e));
                    assert(g0.endpoints(e) is Some);
                }
            }
            assert forall|e: EntityId| !replaced.contains(e) && e != conn_id implies #[trigger] self.dir_of(e) == g0.dir_of(e) by {
                self.wd().lemma_comp_kept::<PortDirection>(&w1, set![ComponentKind::ConnectionEndpoints], e);
            }
            assert forall|e: EntityId| #[trigger] self.endpoints(e) == (if e == conn_id {
                Some(ConnectionEndpoints { source_port: output_port, target_port: input_port })
            } else if replaced.contains(e) {
                None
            } else {
                g0.endpoints(e)
            }) by {
            }
            assert forall|p: EntityId| #[trigger] self.conns_of(p) == (if p == output_port {
                minus(g0.conns_of(output_port), replaced).push(conn_id)
            } else if p == input_port {
                seq![conn_id]
            } else {
                minus(g0.conns_of(p), replaced)
            }) by {
                assert(mid.conns_of(p) == minus(g0.conns_of(p), replaced));
                if p == input_port {
                    lemma_minus_contains(g0.conns_of(input_port), replaced);
                    lemma_nothing_contained(minus(g0.conns_of(input_port), replaced));
                    assert(Seq::<EntityId>::empty().push(conn_id) =~= seq![conn_id]);
                }
            }
            assert(self.cbp().dom() =~= g0.cbp().dom()) by {
                assert(g0.cbp().contains_key(output_port));
                assert(g0.cbp().contains_key(input_port));
            }
            self.lemma_connect_final(g0, replaced, conn_id, output_port, input_port);
        }
        Ok(conn_id)
    }

    /// Add a port to `node`. Its index counts the ports of the same
    /// direction the node already has.
    pub fn add_port(
        &mut self,
        node: EntityId,
        direction: PortDirection,
        socket_type: SocketType,
        label: &str,
    ) -> (port_id: EntityId)
        requires
            old(self).wf(),
            old(self).wd().room() >= 1,
        ensures
            old(self).can_own_ports(node) ==> final(self).wf(),
            final(self).wd().wf(),
            final(self).indexes_wf(),
            !old(self).wd().alive(port_id),
            final(self).wd().alive(port_id),
            forall|e: EntityId| e != port_id ==> #[trigger] final(self).wd().alive(e) == old(self).wd().alive(e),
            final(self).wd().room() >= old(self).wd().room() - 1,
            final(self).wd().allocator_spec().offset() == old(self).wd().allocator_spec().offset(),
            final(self).owner_of(port_id) == Some(node),
            final(self).dir_of(port_id) == Some(direction),
            final(self).socket_of(port_id) == Some(socket_type),
            final(self).wd().comp::<PortLabel>(port_id) matches Some(l) && l.0@ == label@,
            final(self).wd().comp::<PortIndex>(port_id) == Some(
                PortIndex(count_direction(old(self).wd(), old(self).ports_of(node), direction) as u32),
            ),
            forall|e: EntityId| e != port_id ==> #[trigger] final(self).owner_of(e) == old(self).owner_of(e),
            forall|e: EntityId| e != port_id ==> #[trigger] final(self).dir_of(e) == old(self).dir_of(e),
            forall|e: EntityId| e != port_id ==> #[trigger] final(self).socket_of(e) == old(self).socket_of(e),
            forall|e: EntityId|
                e != port_id ==> #[trigger] final(self).wd().comp::<PortLabel>(e) == old(self).wd().comp::<PortLabel>(e),
            forall|e: EntityId| #[trigger] final(self).endpoints(e) == old(self).endpoints(e),
            final(self).wd().comps().same_except_kinds(
                old(self).wd().comps(),
                set![ComponentKind::PortOwner, ComponentKind::PortDirection, ComponentKind::PortSocketType, ComponentKind::PortLabel, ComponentKind::PortIndex],
            ),
            final(self).pbn() == old(self).pbn().insert(node, old(self).ports_of(node).push(port_id)),
            final(self).cbp() == old(self).cbp().insert(port_id, Seq::empty()),
    {
        let port_id = self.world.spawn();
        let ghost w1 = self.world;
        self.world.insert(port_id, PortOwner(node));
        let ghost w2 = self.world;
        self.world.insert(port_id, direction);
        let ghost w3 = self.world;
        self.world.insert(port_id, PortSocketType(socket_type));
        let ghost w4 = self.world;
        self.world.insert(port_id, PortLabel(label.to_owned()));
        let ghost w5 = self.world;
        proof {
            assert forall|e: EntityId| e != port_id implies #[trigger] w5.comp::<PortDirection>(e) == old(self).wd().comp::<PortDirection>(e) by {
                w2.lemma_comp_kept::<PortDirection>(&w1, set![ComponentKind::PortOwner], e);
                w4.lemma_comp_kept::<PortDirection>(&w3, set![ComponentKind::PortSocketType], e);
                w5.lemma_comp_kept::<PortDirection>(&w4, set![ComponentKind::PortLabel], e);
                assert(w1.alive(e) == old(self).wd().alive(e));
                assert(w1.comps() == old(self).wd().comps());
            }
        }
        let ports = self.ports_by_node.get(node);
        let mut index: usize = 0;
        let mut i: usize = 0;
        proof {
            assert(!old(self).ports_of(node).contains(port_id)) by {
                if old(self).ports_of(node).contains(port_id) {
                    w1.lemma_no_data_comp::<PortOwner>(port_id);
                }
            }
        }
        while i < ports.len()
            invariant
                ports@ == old(self).ports_of(node),
                self.wd() == w5,
                self.wd().wf(),
                i <= ports@.len(),
                index as nat == count_direction(old(self).wd(), ports@.subrange(0, i as int), direction),
                index <= i,
                forall|k: int| 0 <= k < ports@.len() ==> ports@[k] != port_id,
                forall|e: EntityId| e != port_id ==> #[trigger] w5.comp::<PortDirection>(e) == old(self).wd().comp::<PortDirection>(e),
            decreases ports.len() - i,
        {
            let p = ports[i];
            assert(ports@.subrange(0, i as int + 1).drop_last() =~= ports@.subrange(0, i as int));
            match self.world.get::<PortDirection>(p) {
                Some(d) => {
                    if *d == direction {
                        index = index + 1;
                    }
                },
                None => {},
            }
            i = i + 1;
        }
        assert(ports@.subrange(0, i as int) =~= ports@);
        self.world.insert(port_id, PortIndex(#[verifier::truncate] (index as u32)));
        self.ports_by_node.push(node, port_id);
        self.connections_by_port.set(port_id, Vec::new());
        proof {
            let ks = set![ComponentKind::PortOwner, ComponentKind::PortDirection, ComponentKind::PortSocketType, ComponentKind::PortLabel, ComponentKind::PortIndex];
            assert forall|e: EntityId| #[trigger] self.wd().alive(e) == (old(self).wd().alive(e) || e == port_id) by {
                assert(w1.alive(e) == (old(self).wd().alive(e) || e == port_id));
            }
            assert forall|e: EntityId| #[trigger] self.endpoints(e) == old(self).endpoints(e) by {
                self.wd().lemma_comp_kept::<ConnectionEndpoints>(&w1, ks, e);
                if e == port_id {
                    w1.lemma_no_data_comp::<ConnectionEndpoints>(port_id);
                }
            }
            assert forall|e: EntityId| e != port_id implies #[trigger] self.owner_of(e) == old(self).owner_of(e) by {
                assert(self.wd().comp::<PortOwner>(e) == w1.comp::<PortOwner>(e));
            }
            assert forall|e: EntityId| e != port_id implies #[trigger] self.dir_of(e) == old(self).dir_of(e) by {
                assert(self.wd().comp::<PortDirection>(e) == w1.comp::<PortDirection>(e));
            }
            assert forall|e: EntityId| e != port_id implies #[trigger] self.socket_of(e) == old(self).socket_of(e) by {
                assert(self.wd().comp::<PortSocketType>(e) == w1.comp::<PortSocketType>(e));
            }
            assert forall|e: EntityId| e != port_id implies #[trigger] self.wd().comp::<PortLabel>(e) == old(self).wd().comp::<PortLabel>(e) by {
                assert(w1.alive(e) == old(self).wd().alive(e));
                assert(w1.comps() == old(self).wd().comps());
                w2.lemma_comp_kept::<PortLabel>(&w1, set![ComponentKind::PortOwner], e);
                w3.lemma_comp_kept::<PortLabel>(&w2, set![ComponentKind::PortDirection], e);
                w4.lemma_comp_kept::<PortLabel>(&w3, set![ComponentKind::PortSocketType], e);
                self.wd().lemma_comp_kept::<PortLabel>(&w5, set![ComponentKind::PortIndex], e);
            }
            if old(self).can_own_ports(node) {
                self.lemma_wf_after_add_port(old(self), port_id, node);
            }
        }
        port_id
    }

    /// Add a node with the given title and position and no ports.
    pub fn add_node(&mut self, title: &str, position: (F, F)) -> (id: EntityId)
        requires
            old(self).wf(),
            old(self).wd().room() >= 1,
        ensures
            final(self).wf(),
            !old(self).wd().alive(id),
            final(self).wd().alive(id),
            forall|e: EntityId| e != id ==> #[trigger] final(self).wd().alive(e) == old(self).wd().alive(e),
            final(self).wd().room() >= old(self).wd().room() - 1,
            final(self).wd().allocator_spec().offset() == old(self).wd().allocator_spec().offset(),
            final(self).wd().comp::<NodeHeader>(id) matches Some(h) && h.title@ == title@ && h.color
                == [100u8, 100u8, 100u8] && !h.collapsed,
            final(self).wd().comp::<NodePosition<F>>(id) == Some(NodePosition { x: position.0, y: position.1 }),
            forall|e: EntityId| e != id ==> #[trigger] final(self).wd().comp::<NodeHeader>(e) == old(self).wd().comp::<NodeHeader>(e),
            forall|e: EntityId| e != id ==> #[trigger] final(self).wd().comp::<NodePosition<F>>(e) == old(self).wd().comp::<NodePosition<F>>(e),
            final(self).wd().comps().same_except_kinds(
                old(self).wd().comps(),
                set![ComponentKind::NodeHeader, ComponentKind::NodePosition],
            ),
            final(self).pbn() == old(self).pbn().insert(id, Seq::empty()),
            final(self).cbp() == old(self).cbp(),
            forall|e: EntityId| #[trigger] final(self).owner_of(e) == old(self).owner_of(e),
            forall|e: EntityId| #[trigger] final(self).dir_of(e) == old(self).dir_of(e),
            forall|e: EntityId| #[trigger] final(self).endpoints(e) == old(self).endpoints(e),
            final(self).can_own_ports(id),
            final(self).wd().comp::<GroupIOKind>(id) is None,
    {
        let id = self.world.spawn();
        let ghost w1 = self.world;
        self.world.insert(id, NodeHeader { title: title.to_owned(), color: [100, 100, 100], collapsed: false });
        let ghost w2 = self.world;
        self.world.insert(id, NodePosition { x: position.0, y: position.1 });
        self.ports_by_node.set(id, Vec::new());
        proof {
            w1.lemma_no_data_comp::<PortOwner>(id);
            w1.lemma_no_data_comp::<PortDirection>(id);
            w1.lemma_no_data_comp::<ConnectionEndpoints>(id);
            assert(self.ports_of(id) =~= old(self).ports_of(id)) by {
                if old(self).ports_of(id).len() > 0 {
                    let p = old(self).ports_of(id)[0];
                    assert(old(self).ports_of(id).contains(p));
                }
            }
            assert forall|n: EntityId| #[trigger] self.ports_of(n) == old(self).ports_of(n) by {
            }
            assert forall|e: EntityId| #[trigger] self.wd().alive(e) == (old(self).wd().alive(e) || e == id) by {
                assert(w1.alive(e) == (old(self).wd().alive(e) || e == id));
            }
            assert forall|e: EntityId| #[trigger] self.owner_of(e) == old(self).owner_of(e) by {
                assert(PortOwner::table(self.wd().comps()) == PortOwner::table(w1.comps()));
                if e == id {
                    assert(w1.comp::<PortOwner>(id) is None);
                }
            }
            assert forall|e: EntityId| #[trigger] self.dir_of(e) == old(self).dir_of(e) by {
                assert(PortDirection::table(self.wd().comps()) == PortDirection::table(w1.comps()));
                if e == id {
                    assert(w1.comp::<PortDirection>(id) is None);
                }
            }
            assert forall|e: EntityId| #[trigger] self.endpoints(e) == old(self).endpoints(e) by {
                assert(ConnectionEndpoints::table(self.wd().comps()) == ConnectionEndpoints::table(w1.comps()));
                if e == id {
                    assert(w1.comp::<ConnectionEndpoints>(id) is None);
                }
            }
            w1.lemma_no_data_comp::<GroupIOKind>(id);
            assert(GroupIOKind::table(self.wd().comps()) == GroupIOKind::table(w1.comps()));
            self.lemma_wf_same_views(old(self));
        }
        id
    }
}

impl<F: Copy> NodeGraph<F> {
    /// Whether two graphs hold the same entities, components and indexes.
    pub open spec fn same_content(&self, other: &Self) -> bool {
        &&& self.wd().allocator_spec().gens() == other.wd().allocator_spec().gens()
        &&& self.wd().allocator_spec().live_flags() == other.wd().allocator_spec().live_flags()
        &&& self.wd().allocator_spec().free_slots() == other.wd().allocator_spec().free_slots()
        &&& self.wd().allocator_spec().offset() == other.wd().allocator_spec().offset()
        &&& self.wd().allocator_spec().limit() == other.wd().allocator_spec().limit()
        &&& crate::store::components::Components::same_content(self.wd().comps(), other.wd().comps())
        &&& self.pbn() == other.pbn()
        &&& self.cbp() == other.cbp()
    }

    /// Two graphs with the same content agree on every port, connection and
    /// liveness fact, and one is well-formed when the other is.
    pub proof fn lemma_same_content_views(&self, other: &Self)
        requires
            self.same_content(other),
            self.wd().wf(),
            self.indexes_wf(),
            other.wf(),
        ensures
            self.wf(),
            forall|e: EntityId| #[trigger] self.wd().alive(e) == other.wd().alive(e),
            forall|e: EntityId| #[trigger] self.owner_of(e) == other.owner_of(e),
            forall|e: EntityId| #[trigger] self.dir_of(e) == other.dir_of(e),
            forall|e: EntityId| #[trigger] self.endpoints(e) == other.endpoints(e),
            forall|n: EntityId| #[trigger] self.ports_of(n) == other.ports_of(n),
            forall|p: EntityId| #[trigger] self.conns_of(p) == other.conns_of(p),
    {
        let a = self.wd().comps();
        let b = other.wd().comps();
        assert(PortOwner::table(a) =~= PortOwner::table(b));
        assert(PortDirection::table(a) =~= PortDirection::table(b));
        assert(ConnectionEndpoints::table(a) =~= ConnectionEndpoints::table(b));
        assert forall|e: EntityId| #[trigger] self.wd().alive(e) == other.wd().alive(e) by {}
        assert forall|e: EntityId| #[trigger] self.owner_of(e) == other.owner_of(e) by {}
        assert forall|e: EntityId| #[trigger] self.dir_of(e) == other.dir_of(e) by {}
        assert forall|e: EntityId| #[trigger] self.endpoints(e) == other.endpoints(e) by {}
        self.lemma_wf_same_views(other);
    }

    /// Attach component `value` to entity `id`, for a component type that
    /// the port and connection indexes do not read.
    pub fn set_component<T: Component<F>>(&mut self, id: EntityId, value: T)
        requires
            old(self).wf(),
            T::kind_spec() != ComponentKind::PortOwner,
            T::kind_spec() != ComponentKind::PortDirection,
            T::kind_spec() != ComponentKind::ConnectionEndpoints,
        ensures
            final(self).wf(),
            final(self).wd().allocator_spec() == old(self).wd().allocator_spec(),
            old(self).wd().alive(id) ==> final(self).wd().comp::<T>(id) == Some(value),
            forall|other: EntityId| other != id ==> #[trigger] final(self).wd().comp::<T>(other) == old(self).wd().comp::<T>(other),
            final(self).wd().comps().same_except(old(self).wd().comps(), T::kind_spec()),
            final(self).pbn() == old(self).pbn(),
            final(self).cbp() == old(self).cbp(),
            forall|e: EntityId| #[trigger] final(self).owner_of(e) == old(self).owner_of(e),
            forall|e: EntityId| #[trigger] final(self).dir_of(e) == old(self).dir_of(e),
            forall|e: EntityId| #[trigger] final(self).endpoints(e) == old(self).endpoints(e),
    {
        self.world.insert(id, value);
        proof {
            let ks = set![T::kind_spec()];
            crate::store::components::lemma_same_except_single(self.wd().comps(), old(self).wd().comps(), T::kind_spec());
            assert forall|e: EntityId| #[trigger] self.owner_of(e) == old(self).owner_of(e) by {
                self.wd().lemma_comp_kept::<PortOwner>(&old(self).wd(), ks, e);
            }
            assert forall|e: EntityId| #[trigger] self.dir_of(e) == old(self).dir_of(e) by {
                self.wd().lemma_comp_kept::<PortDirection>(&old(self).wd(), ks, e);
            }
            assert forall|e: EntityId| #[trigger] self.endpoints(e) == old(self).endpoints(e) by {
                self.wd().lemma_comp_kept::<ConnectionEndpoints>(&old(self).wd(), ks, e);
            }
            assert forall|n: EntityId| #[trigger] self.ports_of(n) == old(self).ports_of(n) by {}
            self.lemma_wf_same_views(old(self));
        }
    }

    /// The entity store of the graph, for reading.
    pub fn world_ref(&self) -> (r: &World<F>)
        ensures
            *r == self.wd(),
    {
        &self.world
    }

    /// Whether `n` may own ports: a live entity that is neither a port nor a
    /// connection.
    pub fn accepts_ports(&self, n: EntityId) -> (r: bool)
        requires
            self.wd().wf(),
        ensures
            r == self.can_own_ports(n),
    {
        self.world.is_alive(n) && self.world.get::<PortOwner>(n).is_none()
            && self.world.get::<ConnectionEndpoints>(n).is_none()
    }

    /// A copy of the graph with the same content.
    pub fn duplicate(&self) -> (r: Self)
        requires
            self.wf(),
        ensures
            r.wf(),
            r.same_content(self),
    {
        let r = NodeGraph {
            world: self.world.duplicate(),
            ports_by_node: self.ports_by_node.duplicate(),
            connections_by_port: self.connections_by_port.duplicate(),
        };
        proof {
            r.lemma_same_content_views(self);
        }
        r
    }
}

impl<F: Copy + Default> NodeGraph<F> {
    /// Create a frame around the given nodes, with the rectangle `rect` that
    /// the layout layer computed from the members' boxes.
    pub fn add_frame(&mut self, label: &str, color: [u8; 3], member_ids: &[EntityId], rect: FrameRect<F>) -> (frame_id: EntityId)
        requires
            old(self).wf(),
            old(self).wd().room() >= 1,
        ensures
            final(self).wf(),
            !old(self).wd().alive(frame_id),
            final(self).wd().alive(frame_id),
            forall|e: EntityId| e != frame_id ==> #[trigger] final(self).wd().alive(e) == old(self).wd().alive(e),
            final(self).wd().room() >= old(self).wd().room() - 1,
            final(self).wd().allocator_spec().offset() == old(self).wd().allocator_spec().offset(),
            final(self).wd().comp::<FrameLabel>(frame_id) matches Some(l) && l.0@ == label@,
            final(self).wd().comp::<FrameColor>(frame_id) == Some(FrameColor(color)),
            final(self).wd().comp::<FrameRect<F>>(frame_id) == Some(rect),
            final(self).members_of(frame_id) == Some(member_ids@),
            forall|e: EntityId| e != frame_id ==> #[trigger] final(self).members_of(e) == old(self).members_of(e),
            forall|e: EntityId| e != frame_id ==> #[trigger] final(self).wd().comp::<FrameRect<F>>(e) == old(self).wd().comp::<FrameRect<F>>(e),
            final(self).wd().comps().same_except_kinds(
                old(self).wd().comps(),
                set![ComponentKind::FrameLabel, ComponentKind::FrameColor, ComponentKind::FrameRect, ComponentKind::FrameMembers],
            ),
            final(self).pbn() == old(self).pbn(),
            final(self).cbp() == old(self).cbp(),
    {
        let frame_id = self.world.spawn();
        let ghost w1 = self.world;
        self.world.insert(frame_id, FrameLabel(label.to_owned()));
        let ghost w2 = self.world;
        self.world.insert(frame_id, FrameColor(color));
        let ghost w3 = self.world;
        self.world.insert(frame_id, rect);
        let ghost w4 = self.world;
        self.world.insert(frame_id, FrameMembers(crate::store::component::copy_ids(member_ids)));
        proof {
            let ks = set![ComponentKind::FrameLabel, ComponentKind::FrameColor, ComponentKind::FrameRect, ComponentKind::FrameMembers];
            assert forall|e: EntityId| #[trigger] self.wd().alive(e) == (old(self).wd().alive(e) || e == frame_id) by {
                assert(w1.alive(e) == (old(self).wd().alive(e) || e == frame_id));
            }
            assert forall|e: EntityId| #[trigger] self.owner_of(e) == old(self).owner_of(e) by {
                self.wd().lemma_comp_kept::<PortOwner>(&w1, ks, e);
                if e == frame_id {
                    w1.lemma_no_data_comp::<PortOwner>(frame_id);
                }
            }
            assert forall|e: EntityId| #[trigger] self.dir_of(e) == old(self).dir_of(e) by {
                self.wd().lemma_comp_kept::<PortDirection>(&w1, ks, e);
                if e == frame_id {
                    w1.lemma_no_data_comp::<PortDirection>(frame_id);
                }
            }
            assert forall|e: EntityId| #[trigger] self.endpoints(e) == old(self).endpoints(e) by {
                self.wd().lemma_comp_kept::<ConnectionEndpoints>(&w1, ks, e);
                if e == frame_id {
                    w1.lemma_no_data_comp::<ConnectionEndpoints>(frame_id);
                }
            }
            assert forall|n: EntityId| #[trigger] self.ports_of(n) == old(self).ports_of(n) by {}
            self.lemma_wf_same_views(old(self));
            assert forall|e: EntityId| e != frame_id implies #[trigger] self.members_of(e) == old(self).members_of(e) by {
                assert(self.wd().comp::<FrameMembers>(e) == w4.comp::<FrameMembers>(e));
                w4.lemma_comp_kept::<FrameMembers>(&w1, set![ComponentKind::FrameLabel, ComponentKind::FrameColor, ComponentKind::FrameRect], e);
            }
            assert forall|e: EntityId| e != frame_id implies #[trigger] self.wd().comp::<FrameRect<F>>(e) == old(self).wd().comp::<FrameRect<F>>(e) by {
                self.wd().lemma_comp_kept::<FrameRect<F>>(&w4, set![ComponentKind::FrameMembers], e);
                assert(w4.comp::<FrameRect<F>>(e) == w3.comp::<FrameRect<F>>(e));
                w3.lemma_comp_kept::<FrameRect<F>>(&w1, set![ComponentKind::FrameLabel, ComponentKind::FrameColor], e);
            }
            self.wd().lemma_comp_kept::<FrameRect<F>>(&w4, set![ComponentKind::FrameMembers], frame_id);
            self.wd().lemma_comp_kept::<FrameLabel>(&w2, set![ComponentKind::FrameColor, ComponentKind::FrameRect, ComponentKind::FrameMembers], frame_id);
            self.wd().lemma_comp_kept::<FrameColor>(&w3, set![ComponentKind::FrameRect, ComponentKind::FrameMembers], frame_id);
        }
        frame_id
    }
}

impl<F: Copy> Default for NodeGraph<F> {
    fn default() -> (g: Self)
        ensures
            g.wf(),
    {
        NodeGraph::new()
    }
}

} // verus!

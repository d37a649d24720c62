pub mod clipboard;
pub mod history;
pub mod remove;

use vstd::prelude::*;
use crate::store::EntityId;
use crate::graph::NodeGraph;
use crate::graph::node::{NodeHeader, NodePosition, MuteState};
use crate::graph::port::{PortDirection, PortLabel};
use crate::graph::connection::ConnectionEndpoints;
use crate::store::change::ComponentKind;
use crate::types::socket_type::SocketType;

pub use clipboard::{copy_nodes, paste_nodes};
pub use history::{CommandHistory, UndoHistory};
pub use remove::{ConnectionSnapshot, NodeSnapshot, PortSnapshot, RemoveNodeCommand};

verus! {

/// An undoable edit of a node graph.
pub trait Command<F: Copy> {
    /// What `execute` does to a graph, from `g0` to `g1`, for the command as
    /// it stands before the call. A command that does not say promises
    /// nothing more than a well-formed graph.
    open spec fn executes(&self, g0: NodeGraph<F>, g1: NodeGraph<F>) -> bool {
        true
    }

    /// What `undo` does to a graph, from `g0` to `g1`, for the command as it
    /// stands before the call. A command that does not say promises nothing
    /// more than a well-formed graph.
    open spec fn undoes(&self, g0: NodeGraph<F>, g1: NodeGraph<F>) -> bool {
        true
    }

    /// Apply the edit.
    fn execute(&mut self, graph: &mut NodeGraph<F>)
        requires
            old(graph).wf(),
            old(graph).wd().room() >= 1,
        ensures
            final(graph).wf(),
            old(self).executes(*old(graph), *final(graph)),
    ;

    /// Revert the edit.
    fn undo(&mut self, graph: &mut NodeGraph<F>)
        requires
            old(graph).wf(),
            old(graph).wd().room() >= 1,
        ensures
            final(graph).wf(),
            old(self).undoes(*old(graph), *final(graph)),
    ;

    /// Whether the command says the text of its description.
    open spec fn tells_description(&self) -> bool {
        false
    }

    /// The text of `description`, where the command tells it.
    open spec fn description_text(&self) -> Seq<char> {
        Seq::empty()
    }

    /// A short description of the edit.
    fn description(&self) -> (r: &str)
        ensures
            self.tells_description() ==> r@ == self.description_text(),
    ;
}

impl<F: Copy> Command<F> for Box<dyn Command<F>> {
    open spec fn executes(&self, g0: NodeGraph<F>, g1: NodeGraph<F>) -> bool {
        (**self).executes(g0, g1)
    }

    open spec fn undoes(&self, g0: NodeGraph<F>, g1: NodeGraph<F>) -> bool {
        (**self).undoes(g0, g1)
    }

    fn execute(&mut self, graph: &mut NodeGraph<F>) {
        (**self).execute(graph)
    }

    fn undo(&mut self, graph: &mut NodeGraph<F>) {
        (**self).undo(graph)
    }

    open spec fn tells_description(&self) -> bool {
        (**self).tells_description()
    }

    open spec fn description_text(&self) -> Seq<char> {
        (**self).description_text()
    }

    fn description(&self) -> &str {
        (**self).description()
    }
}

/// Connect two ports; undo removes the connection and restores the one it
/// replaced on the input port.
#[derive(Debug)]
pub struct ConnectCommand {
    pub source_port: EntityId,
    pub target_port: EntityId,
    pub connection_id: Option<EntityId>,
    /// Endpoints of the connection the new one replaced, for undo.
    replaced_connection: Option<(EntityId, EntityId)>,
}

impl ConnectCommand {
    pub fn new(source_port: EntityId, target_port: EntityId) -> (r: Self)
        ensures
            r.source() == source_port,
            r.target() == target_port,
            r.conn() is None,
            r.replaced() is None,
    {
        ConnectCommand { source_port, target_port, connection_id: None, replaced_connection: None }
    }

    pub closed spec fn source(&self) -> EntityId {
        self.source_port
    }

    pub closed spec fn target(&self) -> EntityId {
        self.target_port
    }

    /// The connection that `execute` made, if it made one.
    pub closed spec fn conn(&self) -> Option<EntityId> {
        self.connection_id
    }

    /// Endpoints of the connection that `execute` replaced, if any.
    pub closed spec fn replaced(&self) -> Option<(EntityId, EntityId)> {
        self.replaced_connection
    }
}

impl<F: Copy> Command<F> for ConnectCommand {
    /// Where the ports can be connected, a connection joins them;
    /// otherwise nothing changes.
    open spec fn executes(&self, g0: NodeGraph<F>, g1: NodeGraph<F>) -> bool {
        match g0.validation(self.source(), self.target()) {
            Ok((out, inp)) => exists|c: EntityId|
                #[trigger] g1.endpoints(c) == Some(ConnectionEndpoints { source_port: out, target_port: inp }),
            Err(_) => g1 == g0,
        }
    }

    /// The connection made is gone, the one it replaced is joined again
    /// where its ports can be connected, and nothing changes where none was
    /// made or replaced.
    open spec fn undoes(&self, g0: NodeGraph<F>, g1: NodeGraph<F>) -> bool {
        &&& (self.conn() matches Some(c) ==> (g0.endpoints(c) is Some ==> !g1.wd().alive(c)))
        &&& (self.replaced() matches Some((s, t)) ==> (g0.validation(s, t) matches Ok((out, inp)) ==> exists|c2: EntityId|
            #[trigger] g1.endpoints(c2) == Some(ConnectionEndpoints { source_port: out, target_port: inp })))
        &&& (self.conn() is None && self.replaced() is None ==> g1 == g0)
    }

    fn execute(&mut self, graph: &mut NodeGraph<F>)
        ensures
            ({
                let input = if old(graph).dir_of(old(self).target()) == Some(PortDirection::Input) {
                    old(self).target()
                } else {
                    old(self).source()
                };
                &&& final(self).source() == old(self).source()
                &&& final(self).target() == old(self).target()
                &&& (old(graph).conns_of(input).len() > 0 && old(graph).endpoints(old(graph).conns_of(input)[0]) is Some)
                    ==> final(self).replaced() == Some(
                    (
                        old(graph).endpoints(old(graph).conns_of(input)[0])->0.source_port,
                        old(graph).endpoints(old(graph).conns_of(input)[0])->0.target_port,
                    ),
                )
                &&& match old(graph).validation(old(self).source(), old(self).target()) {
                    Ok((out, inp)) => final(self).conn() matches Some(c) && final(graph).endpoints(c) == Some(
                        ConnectionEndpoints { source_port: out, target_port: inp },
                    ),
                    Err(_) => final(self).conn() == old(self).conn() && *final(graph) == *old(
                        graph,
                    ),
                }
            }),
    {
        let target_dir = graph.world_ref().get::<PortDirection>(self.target_port);
        let input_port = match target_dir {
            Some(PortDirection::Input) => self.target_port,
            _ => self.source_port,
        };
        let existing = graph.port_connections(input_port);
        if existing.len() > 0 {
            match graph.world_ref().get::<ConnectionEndpoints>(existing[0]) {
                Some(ep) => {
                    self.replaced_connection = Some((ep.source_port, ep.target_port));
                },
                None => {},
            }
        }
        match graph.connect(self.source_port, self.target_port) {
            Ok(conn_id) => {
                self.connection_id = Some(conn_id);
            },
            Err(_) => {},
        }
    }

    fn undo(&mut self, graph: &mut NodeGraph<F>)
        ensures
            final(self).conn() is None,
            final(self).replaced() is None,
            old(self).conn() matches Some(c) ==> (old(graph).endpoints(c) is Some ==> !final(graph).wd().alive(c)),
            old(self).replaced() matches Some((s, t)) ==> (old(graph).validation(s, t) matches Ok((out, inp)) ==> exists|c2: EntityId|
                #[trigger] final(graph).endpoints(c2) == Some(ConnectionEndpoints { source_port: out, target_port: inp })),
    {
        let ghost g0 = *graph;
        match self.connection_id {
            Some(conn_id) => {
                graph.disconnect(conn_id);
                self.connection_id = None;
            },
            None => {},
        }
        let ghost g1 = *graph;
        proof {
            match old(self).conn() {
                Some(c) => {
                    if g0.endpoints(c) is Some {
                        crate::store::entity::lemma_stale_not_alive(g1.wd().allocator_spec(), c);
                    }
                },
                None => {
                    crate::store::entity::lemma_evolves_refl(g1.wd().allocator_spec());
                },
            }
        }
        match self.replaced_connection {
            Some((src, tgt)) => {
                self.replaced_connection = None;
                proof {
                    if g0.validation(src, tgt) is Ok {
                        let (o, i) = g0.validation(src, tgt)->Ok_0;
                        assert(g0.owner_of(o) is Some && g0.owner_of(i) is Some);
                        assert(g0.endpoints(o) is None && g0.endpoints(i) is None);
                        assert(g1.wd().alive(o) && g1.wd().alive(i));
                        crate::graph::edits::lemma_validation_same(g0, g1, src, tgt);
                    }
                }
                let _ = graph.connect(src, tgt);
                proof {
                    match old(self).conn() {
                        Some(c) => {
                            if g0.endpoints(c) is Some {
                                crate::store::entity::lemma_stale_not_alive(graph.wd().allocator_spec(), c);
                            }
                        },
                        None => {},
                    }
                }
            },
            None => {},
        }
    }

    open spec fn tells_description(&self) -> bool {
        true
    }

    open spec fn description_text(&self) -> Seq<char> {
        "Connect ports"@
    }

    fn description(&self) -> &str
    {
        "Connect ports"
    }
}

/// Remove a connection; undo reconnects its two ports.
#[derive(Debug)]
pub struct DisconnectCommand {
    pub connection_id: EntityId,
    /// Endpoints of the removed connection, for undo.
    endpoints: Option<(EntityId, EntityId)>,
}

impl DisconnectCommand {
    pub fn new(connection_id: EntityId) -> (r: Self)
        ensures
            r.conn() == connection_id,
            r.saved_endpoints() is None,
    {
        DisconnectCommand { connection_id, endpoints: None }
    }

    /// The connection to remove, or the one that undo made.
    pub closed spec fn conn(&self) -> EntityId {
        self.connection_id
    }

    /// Endpoints of the connection that `execute` removed.
    pub closed spec fn saved_endpoints(&self) -> Option<(EntityId, EntityId)> {
        self.endpoints
    }
}

impl<F: Copy> Command<F> for DisconnectCommand {
    /// The connection is gone; nothing changes where it was none.
    open spec fn executes(&self, g0: NodeGraph<F>, g1: NodeGraph<F>) -> bool {
        &&& !g1.wd().alive(self.conn()) || g0.endpoints(self.conn()) is None
        &&& g0.endpoints(self.conn()) is None ==> g1 == g0
    }

    /// The saved ports are joined again where they can be; otherwise
    /// nothing changes.
    open spec fn undoes(&self, g0: NodeGraph<F>, g1: NodeGraph<F>) -> bool {
        match self.saved_endpoints() {
            None => g1 == g0,
            Some((s, t)) => match g0.validation(s, t) {
                Ok((out, inp)) => exists|c: EntityId|
                    #[trigger] g1.endpoints(c) == Some(ConnectionEndpoints { source_port: out, target_port: inp }),
                Err(_) => g1 == g0,
            },
        }
    }

    fn execute(&mut self, graph: &mut NodeGraph<F>)
        ensures
            !final(graph).wd().alive(old(self).conn()) || old(graph).endpoints(old(self).conn()) is None,
            final(self).conn() == old(self).conn(),
            match old(graph).endpoints(old(self).conn()) {
                Some(ep) => final(self).saved_endpoints() == Some((ep.source_port, ep.target_port)),
                None => final(self).saved_endpoints() == old(self).saved_endpoints() && *final(graph) == *old(graph),
            },
    {
        match graph.world_ref().get::<ConnectionEndpoints>(self.connection_id) {
            Some(ep) => {
                self.endpoints = Some((ep.source_port, ep.target_port));
            },
            None => {},
        }
        graph.disconnect(self.connection_id);
    }

    fn undo(&mut self, graph: &mut NodeGraph<F>)
        ensures
            final(self).saved_endpoints() == old(self).saved_endpoints(),
            old(self).saved_endpoints() is None ==> *final(graph) == *old(graph),
            old(self).saved_endpoints() matches Some((s, t)) ==> match old(graph).validation(s, t) {
                Ok((out, inp)) => final(graph).endpoints(final(self).conn()) == Some(
                    ConnectionEndpoints { source_port: out, target_port: inp },
                ),
                Err(_) => *final(graph) == *old(graph),
            },
    {
        match self.endpoints {
            Some((src, tgt)) => {
                match graph.connect(src, tgt) {
                    Ok(conn_id) => {
                        self.connection_id = conn_id;
                    },
                    Err(_) => {},
                }
            },
            None => {},
        }
    }

    open spec fn tells_description(&self) -> bool {
        true
    }

    open spec fn description_text(&self) -> Seq<char> {
        "Disconnect"@
    }

    fn description(&self) -> &str
    {
        "Disconnect"
    }
}

/// Add a node with the given title, position and ports; undo removes it.
#[derive(Debug)]
pub struct AddNodeCommand<F> {
    pub title: String,
    pub position: (F, F),
    pub ports: Vec<(PortDirection, SocketType, String)>,
    /// The node that `execute` added.
    pub node_id: Option<EntityId>,
    /// Its ports, in the order of `ports`.
    pub port_ids: Vec<EntityId>,
}

impl<F: Copy> AddNodeCommand<F> {
    pub fn new(title: &str, position: (F, F), ports: Vec<(PortDirection, SocketType, String)>) -> (r: Self)
        ensures
            r.title@ == title@,
            r.position == position,
            r.ports@ == ports@,
            r.node_id is None,
            r.port_ids@.len() == 0,
    {
        AddNodeCommand { title: title.to_string(), position, ports, node_id: None, port_ids: Vec::new() }
    }
}

/// Port `p` of graph `g` belongs to node `n` and has the direction, socket
/// type and label of `spec`.
pub open spec fn port_made_from<F: Copy>(g: NodeGraph<F>, p: EntityId, n: EntityId, spec: (PortDirection, SocketType, String)) -> bool {
    &&& g.owner_of(p) == Some(n)
    &&& g.dir_of(p) == Some(spec.0)
    &&& g.socket_of(p) == Some(spec.1)
    &&& g.wd().comp::<PortLabel>(p) matches Some(l) && l.0@ == spec.2@
}

impl<F: Copy> Command<F> for AddNodeCommand<F> {
    /// Where there is room, a new node with the title, the position and the
    /// ports; otherwise nothing changes.
    open spec fn executes(&self, g0: NodeGraph<F>, g1: NodeGraph<F>) -> bool {
        &&& g0.wd().room() <= self.ports@.len() ==> g1 == g0
        &&& g0.wd().room() > self.ports@.len() ==> exists|n: EntityId|
            {
                &&& !g0.wd().alive(n)
                &&& #[trigger] g1.wd().alive(n)
                &&& g1.wd().comp::<NodeHeader>(n) matches Some(h) && h.title@ == self.title@
                &&& g1.wd().comp::<NodePosition<F>>(n) == Some(NodePosition { x: self.position.0, y: self.position.1 })
                &&& g1.ports_of(n).len() == self.ports@.len()
                &&& forall|k: int|
                    0 <= k < self.ports@.len() ==> port_made_from(g1, #[trigger] g1.ports_of(n)[k], n, self.ports@[k])
            }
    }

    /// The node added is gone with its ports; nothing changes where none
    /// was added.
    open spec fn undoes(&self, g0: NodeGraph<F>, g1: NodeGraph<F>) -> bool {
        match self.node_id {
            None => g1 == g0,
            Some(n) => if g0.can_own_ports(n) {
                &&& !g1.wd().alive(n)
                &&& forall|p: EntityId| #[trigger] g0.ports_of(n).contains(p) ==> !g1.wd().alive(p)
            } else {
                g1 == g0
            },
        }
    }

    /// Nothing happens when the graph has no room for the node and its
    /// ports.
    fn execute(&mut self, graph: &mut NodeGraph<F>)
        ensures
            old(graph).wd().room() <= old(self).ports@.len() ==> *final(graph) == *old(graph) && *final(self) == *old(self),
            old(graph).wd().room() > old(self).ports@.len() ==> {
                &&& final(self).title == old(self).title
                &&& final(self).position == old(self).position
                &&& final(self).ports == old(self).ports
                &&& final(self).node_id matches Some(n)
                &&& !old(graph).wd().alive(n)
                &&& final(graph).wd().alive(n)
                &&& final(graph).wd().comp::<NodeHeader>(n) matches Some(h) && h.title@ == old(self).title@
                &&& final(graph).wd().comp::<NodePosition<F>>(n) == Some(
                    NodePosition { x: old(self).position.0, y: old(self).position.1 },
                )
                &&& final(graph).ports_of(n) == final(self).port_ids@
                &&& final(self).port_ids@.len() == old(self).ports@.len()
                &&& forall|k: int|
                    0 <= k < old(self).ports@.len() ==> port_made_from(
                        *final(graph),
                        #[trigger] final(self).port_ids@[k],
                        n,
                        old(self).ports@[k],
                    )
            },
    {
        if graph.room_left() <= self.ports.len() as u64 {
            return;
        }
        let node_id = graph.add_node(self.title.as_str(), self.position);
        let ghost g1 = *graph;
        let mut port_ids: Vec<EntityId> = Vec::new();
        let mut i: usize = 0;
        while i < self.ports.len()
            invariant
                graph.wf(),
                graph.can_own_ports(node_id),
                i <= self.ports@.len(),
                graph.wd().room() >= g1.wd().room() - i,
                g1.wd().room() >= self.ports@.len(),
                port_ids@.len() == i,
                graph.ports_of(node_id) == port_ids@,
                graph.wd().comp::<NodeHeader>(node_id) == g1.wd().comp::<NodeHeader>(node_id),
                graph.wd().comp::<NodePosition<F>>(node_id) == g1.wd().comp::<NodePosition<F>>(node_id),
                forall|k: int| 0 <= k < i ==> #[trigger] graph.wd().alive(port_ids@[k]),
                forall|k: int| 0 <= k < i ==> port_made_from(*graph, #[trigger] port_ids@[k], node_id, self.ports@[k]),
            decreases self.ports.len() - i,
        {
            let ghost g0 = *graph;
            let port = &self.ports[i];
            let pid = graph.add_port(node_id, port.0, port.1, port.2.as_str());
            proof {
                graph.wd().lemma_comp_kept::<NodeHeader>(
                    &g0.wd(),
                    set![ComponentKind::PortOwner, ComponentKind::PortDirection, ComponentKind::PortSocketType, ComponentKind::PortLabel, ComponentKind::PortIndex],
                    node_id,
                );
                graph.wd().lemma_comp_kept::<NodePosition<F>>(
                    &g0.wd(),
                    set![ComponentKind::PortOwner, ComponentKind::PortDirection, ComponentKind::PortSocketType, ComponentKind::PortLabel, ComponentKind::PortIndex],
                    node_id,
                );
            }
            port_ids.push(pid);
            i = i + 1;
        }
        self.node_id = Some(node_id);
        self.port_ids = port_ids;
    }

    /// Remove the node that `execute` added, with its ports and
    /// connections.
    fn undo(&mut self, graph: &mut NodeGraph<F>)
        ensures
            final(self).node_id is None,
            old(self).node_id is Some ==> final(self).port_ids@.len() == 0,
            old(self).node_id is None ==> *final(self) == *old(self),
            final(self).title == old(self).title,
            final(self).position == old(self).position,
            final(self).ports == old(self).ports,
            old(self).node_id is None ==> *final(graph) == *old(graph),
            old(self).node_id matches Some(n) ==> (!old(graph).can_own_ports(n) ==> *final(graph) == *old(graph)),
            old(self).node_id matches Some(n) ==> (old(graph).can_own_ports(n) ==> {
                &&& !final(graph).wd().alive(n)
                &&& forall|p: EntityId| #[trigger] old(graph).ports_of(n).contains(p) ==> !final(graph).wd().alive(p)
            }),
    {
        match self.node_id {
            Some(n) => {
                if graph.accepts_ports(n) {
                    graph.remove_node(n);
                }
                self.node_id = None;
                self.port_ids = Vec::new();
            },
            None => {},
        }
    }

    open spec fn tells_description(&self) -> bool {
        true
    }

    open spec fn description_text(&self) -> Seq<char> {
        "Add node"@
    }

    fn description(&self) -> &str
    {
        "Add node"
    }
}

/// Set a node's mute state; undo sets the opposite state.
#[derive(Debug)]
pub struct MuteNodeCommand {
    pub node_id: EntityId,
    pub muted: bool,
}

impl<F: Copy> Command<F> for MuteNodeCommand {
    /// A live node gets the mute state.
    open spec fn executes(&self, g0: NodeGraph<F>, g1: NodeGraph<F>) -> bool {
        g0.wd().alive(self.node_id) ==> g1.wd().comp::<MuteState>(self.node_id) == Some(MuteState(self.muted))
    }

    /// A live node gets the opposite mute state.
    open spec fn undoes(&self, g0: NodeGraph<F>, g1: NodeGraph<F>) -> bool {
        g0.wd().alive(self.node_id) ==> g1.wd().comp::<MuteState>(self.node_id) == Some(MuteState(!self.muted))
    }

    fn execute(&mut self, graph: &mut NodeGraph<F>)
        ensures
            old(graph).wd().alive(old(self).node_id) ==> final(graph).wd().comp::<MuteState>(old(self).node_id)
                == Some(MuteState(old(self).muted)),
    {
        graph.set_component(self.node_id, MuteState(self.muted));
    }

    fn undo(&mut self, graph: &mut NodeGraph<F>)
        ensures
            old(graph).wd().alive(old(self).node_id) ==> final(graph).wd().comp::<MuteState>(old(self).node_id)
                == Some(MuteState(!old(self).muted)),
    {
        graph.set_component(self.node_id, MuteState(!self.muted));
    }

    open spec fn tells_description(&self) -> bool {
        true
    }

    open spec fn description_text(&self) -> Seq<char> {
        "Toggle mute"@
    }

    fn description(&self) -> &str
    {
        "Toggle mute"
    }
}

/// Set a node's collapse flag; undo sets the opposite flag.
#[derive(Debug)]
pub struct CollapseNodeCommand {
    pub node_id: EntityId,
    pub collapsed: bool,
}

/// Set the collapse flag of node `node`'s header, if it has one.
fn set_collapsed<F: Copy>(graph: &mut NodeGraph<F>, node: EntityId, collapsed: bool)
    requires
        old(graph).wf(),
    ensures
        final(graph).wf(),
        final(graph).wd().room() == old(graph).wd().room(),
        match old(graph).wd().comp::<NodeHeader>(node) {
            Some(h) => final(graph).wd().comp::<NodeHeader>(node) matches Some(h2) && h2.title@ == h.title@
                && h2.color == h.color && h2.collapsed == collapsed,
            None => *final(graph) == *old(graph),
        },
{
    let header = match graph.world_ref().get::<NodeHeader>(node) {
        Some(h) => NodeHeader { title: h.title.clone(), color: h.color, collapsed },
        None => {
            return;
        },
    };
    graph.set_component(node, header);
}

impl<F: Copy> Command<F> for CollapseNodeCommand {
    /// A node with a header gets the collapse flag, keeping its title.
    open spec fn executes(&self, g0: NodeGraph<F>, g1: NodeGraph<F>) -> bool {
        g0.wd().comp::<NodeHeader>(self.node_id) matches Some(h) ==> g1.wd().comp::<NodeHeader>(self.node_id) matches Some(
            h2,
        ) && h2.collapsed == self.collapsed && h2.title@ == h.title@
    }

    /// A node with a header gets the opposite collapse flag, keeping its
    /// title.
    open spec fn undoes(&self, g0: NodeGraph<F>, g1: NodeGraph<F>) -> bool {
        g0.wd().comp::<NodeHeader>(self.node_id) matches Some(h) ==> g1.wd().comp::<NodeHeader>(self.node_id) matches Some(
            h2,
        ) && h2.collapsed == !self.collapsed && h2.title@ == h.title@
    }

    fn execute(&mut self, graph: &mut NodeGraph<F>)
        ensures
            old(graph).wd().comp::<NodeHeader>(old(self).node_id) matches Some(h) ==> final(graph).wd().comp::<
                NodeHeader,
            >(old(self).node_id) matches Some(h2) && h2.collapsed == old(self).collapsed && h2.title@ == h.title@,
    {
        set_collapsed(graph, self.node_id, self.collapsed);
    }

    fn undo(&mut self, graph: &mut NodeGraph<F>)
        ensures
            old(graph).wd().comp::<NodeHeader>(old(self).node_id) matches Some(h) ==> final(graph).wd().comp::<
                NodeHeader,
            >(old(self).node_id) matches Some(h2) && h2.collapsed == !old(self).collapsed && h2.title@ == h.title@,
    {
        set_collapsed(graph, self.node_id, !self.collapsed);
    }

    open spec fn tells_description(&self) -> bool {
        true
    }

    open spec fn description_text(&self) -> Seq<char> {
        "Toggle collapse"@
    }

    fn description(&self) -> &str
    {
        "Toggle collapse"
    }
}

} // verus!

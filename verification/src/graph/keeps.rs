use vstd::prelude::*;
use crate::store::EntityId;
use crate::store::change::ComponentKind;
use super::NodeGraph;
use super::node::{NodeHeader, NodePosition};
use super::port::{PortDirection, PortLabel, PortOwner, PortSocketType};
use super::group::GroupIOKind;
use super::connection::ConnectionEndpoints;
use super::ConnectionError;
use crate::store::components::Component;

verus! {

/// Going from `g0` to `g1` kept every live entity that is not a connection
/// alive, with the same ports and the same node and port components.
pub open spec fn keeps_nodes<F: Copy>(g0: NodeGraph<F>, g1: NodeGraph<F>) -> bool {
    forall|e: EntityId|
        g0.wd().alive(e) && g0.endpoints(e) is None ==> {
            &&& #[trigger] g1.wd().alive(e)
            &&& g1.endpoints(e) is None
            &&& g1.ports_of(e) == g0.ports_of(e)
            &&& g1.owner_of(e) == g0.owner_of(e)
            &&& g1.dir_of(e) == g0.dir_of(e)
            &&& g1.socket_of(e) == g0.socket_of(e)
            &&& g1.wd().comp::<PortLabel>(e) == g0.wd().comp::<PortLabel>(e)
            &&& g1.wd().comp::<NodeHeader>(e) == g0.wd().comp::<NodeHeader>(e)
            &&& g1.wd().comp::<NodePosition<F>>(e) == g0.wd().comp::<NodePosition<F>>(e)
            &&& g1.wd().comp::<GroupIOKind>(e) == g0.wd().comp::<GroupIOKind>(e)
        }
}

pub(crate) proof fn lemma_keeps_trans<F: Copy>(g0: NodeGraph<F>, g1: NodeGraph<F>, g2: NodeGraph<F>)
    requires
        keeps_nodes(g0, g1),
        keeps_nodes(g1, g2),
    ensures
        keeps_nodes(g0, g2),
{
    assert forall|e: EntityId| g0.wd().alive(e) && g0.endpoints(e) is None implies {
        &&& #[trigger] g2.wd().alive(e)
        &&& g2.endpoints(e) is None
        &&& g2.ports_of(e) == g0.ports_of(e)
        &&& g2.owner_of(e) == g0.owner_of(e)
        &&& g2.dir_of(e) == g0.dir_of(e)
        &&& g2.socket_of(e) == g0.socket_of(e)
        &&& g2.wd().comp::<PortLabel>(e) == g0.wd().comp::<PortLabel>(e)
        &&& g2.wd().comp::<NodeHeader>(e) == g0.wd().comp::<NodeHeader>(e)
        &&& g2.wd().comp::<NodePosition<F>>(e) == g0.wd().comp::<NodePosition<F>>(e)
        &&& g2.wd().comp::<GroupIOKind>(e) == g0.wd().comp::<GroupIOKind>(e)
    } by {
        assert(g1.wd().alive(e));
    }
}

/// A step that leaves the components of `ks` aside, keeps the pbn and
/// keeps each live entity that is not a connection alive, with its
/// endpoints absent, keeps the nodes.
pub(crate) proof fn lemma_keeps_by_kinds<F: Copy>(g0: NodeGraph<F>, g1: NodeGraph<F>, ks: Set<ComponentKind>)
    requires
        g1.wd().comps().same_except_kinds(g0.wd().comps(), ks),
        !ks.contains(ComponentKind::NodeHeader),
        !ks.contains(ComponentKind::NodePosition),
        !ks.contains(ComponentKind::PortOwner),
        !ks.contains(ComponentKind::PortDirection),
        !ks.contains(ComponentKind::PortSocketType),
        !ks.contains(ComponentKind::PortLabel),
        !ks.contains(ComponentKind::GroupIOKind),
        g1.pbn() == g0.pbn(),
        forall|e: EntityId|
            g0.wd().alive(e) && g0.endpoints(e) is None ==> #[trigger] g1.wd().alive(e) && g1.endpoints(e) is None,
    ensures
        keeps_nodes(g0, g1),
{
    assert forall|e: EntityId| g0.wd().alive(e) && g0.endpoints(e) is None implies {
        &&& #[trigger] g1.wd().alive(e)
        &&& g1.endpoints(e) is None
        &&& g1.ports_of(e) == g0.ports_of(e)
        &&& g1.owner_of(e) == g0.owner_of(e)
        &&& g1.dir_of(e) == g0.dir_of(e)
        &&& g1.socket_of(e) == g0.socket_of(e)
        &&& g1.wd().comp::<PortLabel>(e) == g0.wd().comp::<PortLabel>(e)
        &&& g1.wd().comp::<NodeHeader>(e) == g0.wd().comp::<NodeHeader>(e)
        &&& g1.wd().comp::<NodePosition<F>>(e) == g0.wd().comp::<NodePosition<F>>(e)
        &&& g1.wd().comp::<GroupIOKind>(e) == g0.wd().comp::<GroupIOKind>(e)
    } by {
        assert(g1.wd().alive(e));
        g1.wd().lemma_comp_kept::<PortOwner>(&g0.wd(), ks, e);
        g1.wd().lemma_comp_kept::<PortDirection>(&g0.wd(), ks, e);
        g1.wd().lemma_comp_kept::<PortSocketType>(&g0.wd(), ks, e);
        g1.wd().lemma_comp_kept::<PortLabel>(&g0.wd(), ks, e);
        g1.wd().lemma_comp_kept::<NodeHeader>(&g0.wd(), ks, e);
        g1.wd().lemma_comp_kept::<NodePosition<F>>(&g0.wd(), ks, e);
        g1.wd().lemma_comp_kept::<GroupIOKind>(&g0.wd(), ks, e);
    }
}

/// `keeps_nodes`, except for the entity `x`.
pub open spec fn keeps_nodes_but<F: Copy>(g0: NodeGraph<F>, g1: NodeGraph<F>, x: EntityId) -> bool {
    forall|e: EntityId|
        e != x && g0.wd().alive(e) && g0.endpoints(e) is None ==> {
            &&& #[trigger] g1.wd().alive(e)
            &&& g1.endpoints(e) is None
            &&& g1.ports_of(e) == g0.ports_of(e)
            &&& g1.owner_of(e) == g0.owner_of(e)
            &&& g1.dir_of(e) == g0.dir_of(e)
            &&& g1.socket_of(e) == g0.socket_of(e)
            &&& g1.wd().comp::<PortLabel>(e) == g0.wd().comp::<PortLabel>(e)
            &&& g1.wd().comp::<NodeHeader>(e) == g0.wd().comp::<NodeHeader>(e)
            &&& g1.wd().comp::<NodePosition<F>>(e) == g0.wd().comp::<NodePosition<F>>(e)
            &&& g1.wd().comp::<GroupIOKind>(e) == g0.wd().comp::<GroupIOKind>(e)
        }
}

pub(crate) proof fn lemma_keeps_weaken<F: Copy>(g0: NodeGraph<F>, g1: NodeGraph<F>, x: EntityId)
    requires
        keeps_nodes(g0, g1),
    ensures
        keeps_nodes_but(g0, g1, x),
{
}

pub(crate) proof fn lemma_keeps_but_trans<F: Copy>(g0: NodeGraph<F>, g1: NodeGraph<F>, g2: NodeGraph<F>, x: EntityId)
    requires
        keeps_nodes_but(g0, g1, x),
        keeps_nodes_but(g1, g2, x),
    ensures
        keeps_nodes_but(g0, g2, x),
{
    assert forall|e: EntityId| e != x && g0.wd().alive(e) && g0.endpoints(e) is None implies {
        &&& #[trigger] g2.wd().alive(e)
        &&& g2.endpoints(e) is None
        &&& g2.ports_of(e) == g0.ports_of(e)
        &&& g2.owner_of(e) == g0.owner_of(e)
        &&& g2.dir_of(e) == g0.dir_of(e)
        &&& g2.socket_of(e) == g0.socket_of(e)
        &&& g2.wd().comp::<PortLabel>(e) == g0.wd().comp::<PortLabel>(e)
        &&& g2.wd().comp::<NodeHeader>(e) == g0.wd().comp::<NodeHeader>(e)
        &&& g2.wd().comp::<NodePosition<F>>(e) == g0.wd().comp::<NodePosition<F>>(e)
        &&& g2.wd().comp::<GroupIOKind>(e) == g0.wd().comp::<GroupIOKind>(e)
    } by {
        assert(g1.wd().alive(e));
    }
}

/// A step that keeps everything but `x`, after one that kept everything and
/// before which `x` was not alive, keeps everything.
pub(crate) proof fn lemma_keeps_join<F: Copy>(g0: NodeGraph<F>, g1: NodeGraph<F>, g2: NodeGraph<F>, x: EntityId)
    requires
        keeps_nodes(g0, g1),
        keeps_nodes_but(g1, g2, x),
        !g0.wd().alive(x),
    ensures
        keeps_nodes(g0, g2),
{
    assert forall|e: EntityId| g0.wd().alive(e) && g0.endpoints(e) is None implies {
        &&& #[trigger] g2.wd().alive(e)
        &&& g2.endpoints(e) is None
        &&& g2.ports_of(e) == g0.ports_of(e)
        &&& g2.owner_of(e) == g0.owner_of(e)
        &&& g2.dir_of(e) == g0.dir_of(e)
        &&& g2.socket_of(e) == g0.socket_of(e)
        &&& g2.wd().comp::<PortLabel>(e) == g0.wd().comp::<PortLabel>(e)
        &&& g2.wd().comp::<NodeHeader>(e) == g0.wd().comp::<NodeHeader>(e)
        &&& g2.wd().comp::<NodePosition<F>>(e) == g0.wd().comp::<NodePosition<F>>(e)
        &&& g2.wd().comp::<GroupIOKind>(e) == g0.wd().comp::<GroupIOKind>(e)
    } by {
        assert(g1.wd().alive(e));
    }
}

/// Adding a node keeps the others.
pub(crate) proof fn lemma_add_node_keeps<F: Copy>(g0: NodeGraph<F>, g1: NodeGraph<F>, id: EntityId)
    requires
        !g0.wd().alive(id),
        forall|e: EntityId| e != id ==> #[trigger] g1.wd().alive(e) == g0.wd().alive(e),
        forall|e: EntityId| e != id ==> #[trigger] g1.wd().comp::<NodeHeader>(e) == g0.wd().comp::<NodeHeader>(e),
        forall|e: EntityId| e != id ==> #[trigger] g1.wd().comp::<NodePosition<F>>(e) == g0.wd().comp::<NodePosition<F>>(e),
        g1.wd().comps().same_except_kinds(g0.wd().comps(), set![ComponentKind::NodeHeader, ComponentKind::NodePosition]),
        g1.pbn() == g0.pbn().insert(id, Seq::empty()),
        forall|e: EntityId| #[trigger] g1.owner_of(e) == g0.owner_of(e),
        forall|e: EntityId| #[trigger] g1.dir_of(e) == g0.dir_of(e),
        forall|e: EntityId| #[trigger] g1.endpoints(e) == g0.endpoints(e),
    ensures
        keeps_nodes(g0, g1),
{
    let ks = set![ComponentKind::NodeHeader, ComponentKind::NodePosition];
    assert forall|e: EntityId| g0.wd().alive(e) && g0.endpoints(e) is None implies {
        &&& #[trigger] g1.wd().alive(e)
        &&& g1.endpoints(e) is None
        &&& g1.ports_of(e) == g0.ports_of(e)
        &&& g1.owner_of(e) == g0.owner_of(e)
        &&& g1.dir_of(e) == g0.dir_of(e)
        &&& g1.socket_of(e) == g0.socket_of(e)
        &&& g1.wd().comp::<PortLabel>(e) == g0.wd().comp::<PortLabel>(e)
        &&& g1.wd().comp::<NodeHeader>(e) == g0.wd().comp::<NodeHeader>(e)
        &&& g1.wd().comp::<NodePosition<F>>(e) == g0.wd().comp::<NodePosition<F>>(e)
        &&& g1.wd().comp::<GroupIOKind>(e) == g0.wd().comp::<GroupIOKind>(e)
    } by {
        assert(e != id);
        assert(g1.wd().alive(e));
        g1.wd().lemma_comp_kept::<PortSocketType>(&g0.wd(), ks, e);
        g1.wd().lemma_comp_kept::<PortLabel>(&g0.wd(), ks, e);
        g1.wd().lemma_comp_kept::<GroupIOKind>(&g0.wd(), ks, e);
    }
}

/// Setting a component of a kind that `keeps_nodes` does not look at keeps
/// the nodes.
pub(crate) proof fn lemma_set_other_keeps<F: Copy, T: Component<F>>(g0: NodeGraph<F>, g1: NodeGraph<F>)
    requires
        g1.wd().allocator_spec() == g0.wd().allocator_spec(),
        g1.wd().comps().same_except(g0.wd().comps(), T::kind_spec()),
        T::kind_spec() != ComponentKind::NodeHeader,
        T::kind_spec() != ComponentKind::NodePosition,
        T::kind_spec() != ComponentKind::PortOwner,
        T::kind_spec() != ComponentKind::PortDirection,
        T::kind_spec() != ComponentKind::PortSocketType,
        T::kind_spec() != ComponentKind::PortLabel,
        T::kind_spec() != ComponentKind::GroupIOKind,
        g1.pbn() == g0.pbn(),
        forall|e: EntityId| #[trigger] g1.endpoints(e) == g0.endpoints(e),
    ensures
        keeps_nodes(g0, g1),
{
    crate::store::components::lemma_same_except_single(g1.wd().comps(), g0.wd().comps(), T::kind_spec());
    lemma_keeps_by_kinds(g0, g1, set![T::kind_spec()]);
}

/// Setting the header of `x` alone keeps everything but `x`.
pub(crate) proof fn lemma_set_header_keeps_but<F: Copy>(g0: NodeGraph<F>, g1: NodeGraph<F>, x: EntityId)
    requires
        g1.wd().allocator_spec() == g0.wd().allocator_spec(),
        forall|other: EntityId| other != x ==> #[trigger] g1.wd().comp::<NodeHeader>(other) == g0.wd().comp::<NodeHeader>(other),
        g1.wd().comps().same_except(g0.wd().comps(), ComponentKind::NodeHeader),
        g1.pbn() == g0.pbn(),
        forall|e: EntityId| #[trigger] g1.endpoints(e) == g0.endpoints(e),
    ensures
        keeps_nodes_but(g0, g1, x),
{
    lemma_set_kept_keeps_but(g0, g1, x, ComponentKind::NodeHeader);
}

/// Setting the Group IO kind of `x` alone keeps everything but `x`.
pub(crate) proof fn lemma_set_io_kind_keeps_but<F: Copy>(g0: NodeGraph<F>, g1: NodeGraph<F>, x: EntityId)
    requires
        g1.wd().allocator_spec() == g0.wd().allocator_spec(),
        forall|other: EntityId| other != x ==> #[trigger] g1.wd().comp::<GroupIOKind>(other) == g0.wd().comp::<GroupIOKind>(other),
        g1.wd().comps().same_except(g0.wd().comps(), ComponentKind::GroupIOKind),
        g1.pbn() == g0.pbn(),
        forall|e: EntityId| #[trigger] g1.endpoints(e) == g0.endpoints(e),
    ensures
        keeps_nodes_but(g0, g1, x),
{
    lemma_set_kept_keeps_but(g0, g1, x, ComponentKind::GroupIOKind);
}

proof fn lemma_set_kept_keeps_but<F: Copy>(g0: NodeGraph<F>, g1: NodeGraph<F>, x: EntityId, k: ComponentKind)
    requires
        k == ComponentKind::NodeHeader || k == ComponentKind::GroupIOKind,
        g1.wd().allocator_spec() == g0.wd().allocator_spec(),
        k == ComponentKind::NodeHeader ==> forall|other: EntityId|
            other != x ==> #[trigger] g1.wd().comp::<NodeHeader>(other) == g0.wd().comp::<NodeHeader>(other),
        k == ComponentKind::GroupIOKind ==> forall|other: EntityId|
            other != x ==> #[trigger] g1.wd().comp::<GroupIOKind>(other) == g0.wd().comp::<GroupIOKind>(other),
        g1.wd().comps().same_except(g0.wd().comps(), k),
        g1.pbn() == g0.pbn(),
        forall|e: EntityId| #[trigger] g1.endpoints(e) == g0.endpoints(e),
    ensures
        keeps_nodes_but(g0, g1, x),
{
    let ks = set![k];
    crate::store::components::lemma_same_except_single(g1.wd().comps(), g0.wd().comps(), k);
    assert forall|e: EntityId| e != x && g0.wd().alive(e) && g0.endpoints(e) is None implies {
        &&& #[trigger] g1.wd().alive(e)
        &&& g1.endpoints(e) is None
        &&& g1.ports_of(e) == g0.ports_of(e)
        &&& g1.owner_of(e) == g0.owner_of(e)
        &&& g1.dir_of(e) == g0.dir_of(e)
        &&& g1.socket_of(e) == g0.socket_of(e)
        &&& g1.wd().comp::<PortLabel>(e) == g0.wd().comp::<PortLabel>(e)
        &&& g1.wd().comp::<NodeHeader>(e) == g0.wd().comp::<NodeHeader>(e)
        &&& g1.wd().comp::<NodePosition<F>>(e) == g0.wd().comp::<NodePosition<F>>(e)
        &&& g1.wd().comp::<GroupIOKind>(e) == g0.wd().comp::<GroupIOKind>(e)
    } by {
        assert(g1.wd().alive(e));
        g1.wd().lemma_comp_kept::<PortOwner>(&g0.wd(), ks, e);
        g1.wd().lemma_comp_kept::<PortDirection>(&g0.wd(), ks, e);
        g1.wd().lemma_comp_kept::<PortSocketType>(&g0.wd(), ks, e);
        g1.wd().lemma_comp_kept::<PortLabel>(&g0.wd(), ks, e);
        g1.wd().lemma_comp_kept::<NodePosition<F>>(&g0.wd(), ks, e);
        if k == ComponentKind::NodeHeader {
            g1.wd().lemma_comp_kept::<GroupIOKind>(&g0.wd(), ks, e);
        } else {
            g1.wd().lemma_comp_kept::<NodeHeader>(&g0.wd(), ks, e);
        }
    }
}

/// Adding a port to node `x` keeps everything but `x`.
pub(crate) proof fn lemma_add_port_keeps_but<F: Copy>(g0: NodeGraph<F>, g1: NodeGraph<F>, x: EntityId, p: EntityId)
    requires
        !g0.wd().alive(p),
        forall|e: EntityId| e != p ==> #[trigger] g1.wd().alive(e) == g0.wd().alive(e),
        forall|e: EntityId| e != p ==> #[trigger] g1.owner_of(e) == g0.owner_of(e),
        forall|e: EntityId| e != p ==> #[trigger] g1.dir_of(e) == g0.dir_of(e),
        forall|e: EntityId| e != p ==> #[trigger] g1.socket_of(e) == g0.socket_of(e),
        forall|e: EntityId| e != p ==> #[trigger] g1.wd().comp::<PortLabel>(e) == g0.wd().comp::<PortLabel>(e),
        forall|e: EntityId| #[trigger] g1.endpoints(e) == g0.endpoints(e),
        g1.wd().comps().same_except_kinds(
            g0.wd().comps(),
            set![ComponentKind::PortOwner, ComponentKind::PortDirection, ComponentKind::PortSocketType, ComponentKind::PortLabel, ComponentKind::PortIndex],
        ),
        g1.pbn() == g0.pbn().insert(x, g0.ports_of(x).push(p)),
    ensures
        keeps_nodes_but(g0, g1, x),
{
    let ks = set![ComponentKind::PortOwner, ComponentKind::PortDirection, ComponentKind::PortSocketType, ComponentKind::PortLabel, ComponentKind::PortIndex];
    assert forall|e: EntityId| e != x && g0.wd().alive(e) && g0.endpoints(e) is None implies {
        &&& #[trigger] g1.wd().alive(e)
        &&& g1.endpoints(e) is None
        &&& g1.ports_of(e) == g0.ports_of(e)
        &&& g1.owner_of(e) == g0.owner_of(e)
        &&& g1.dir_of(e) == g0.dir_of(e)
        &&& g1.socket_of(e) == g0.socket_of(e)
        &&& g1.wd().comp::<PortLabel>(e) == g0.wd().comp::<PortLabel>(e)
        &&& g1.wd().comp::<NodeHeader>(e) == g0.wd().comp::<NodeHeader>(e)
        &&& g1.wd().comp::<NodePosition<F>>(e) == g0.wd().comp::<NodePosition<F>>(e)
        &&& g1.wd().comp::<GroupIOKind>(e) == g0.wd().comp::<GroupIOKind>(e)
    } by {
        assert(e != p);
        assert(g1.wd().alive(e));
        g1.wd().lemma_comp_kept::<NodeHeader>(&g0.wd(), ks, e);
        g1.wd().lemma_comp_kept::<NodePosition<F>>(&g0.wd(), ks, e);
        g1.wd().lemma_comp_kept::<GroupIOKind>(&g0.wd(), ks, e);
    }
}

/// Connecting two ports keeps the nodes.
pub(crate) proof fn lemma_connect_keeps_nodes<F: Copy>(
    g0: NodeGraph<F>,
    g1: NodeGraph<F>,
    s: EntityId,
    t: EntityId,
    r: Result<EntityId, ConnectionError>,
)
    requires
        g0.wf(),
        g1.pbn() == g0.pbn(),
        g1.wd().comps().same_except_kinds(g0.wd().comps(), set![ComponentKind::ConnectionEndpoints]),
        match g0.validation(s, t) {
            Err(e) => r == Err::<EntityId, ConnectionError>(e) && g1 == g0,
            Ok((out, inp)) => r matches Ok(c) && {
                let replaced = g0.conns_of(inp);
                &&& !g0.wd().alive(c)
                &&& forall|e: EntityId|
                    e != c && !replaced.contains(e) ==> #[trigger] g1.wd().alive(e) == g0.wd().alive(e)
                &&& forall|e: EntityId|
                    e != c && !replaced.contains(e) ==> #[trigger] g1.endpoints(e) == g0.endpoints(e)
            },
        },
    ensures
        keeps_nodes(g0, g1),
{
    match g0.validation(s, t) {
        Err(_) => {},
        Ok((out, inp)) => {
            let c = r->Ok_0;
            let replaced = g0.conns_of(inp);
            assert forall|e: EntityId| g0.wd().alive(e) && g0.endpoints(e) is None implies #[trigger] g1.wd().alive(e)
                && g1.endpoints(e) is None by {
                if replaced.contains(e) {
                    assert(g0.conns_of(inp).contains(e));
                }
            }
            lemma_keeps_by_kinds(g0, g1, set![ComponentKind::ConnectionEndpoints]);
        },
    }
}

} // verus!

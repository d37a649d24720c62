use vstd::prelude::*;
use super::entity::{EntityAllocator, EntityId, Generation};
use super::component::{ComponentStore, Duplicable, same_slots, slot_lookup};
use super::change::{ComponentKind, ComponentType};
use crate::graph::node::{NodeHeader, NodePosition, NodeTypeId, MuteState, CustomBodyHeight};
use crate::graph::port::{PortOwner, PortDirection, PortSocketType, PortIndex, PortLabel};
use crate::graph::connection::ConnectionEndpoints;
use crate::graph::frame::{FrameLabel, FrameColor, FrameRect, FrameMembers};
use crate::graph::group::{SubgraphRoot, GroupIOLabel, GroupIOKind};
use crate::graph::reroute::{IsReroute, ReroutePosition};

verus! {

/// Every slot of a store that holds a component belongs to an entity that
/// is alive or stale in the allocator, and the store fits the id space.
pub open spec fn slots_consistent<T>(s: Seq<(Generation, Option<T>)>, a: EntityAllocator) -> bool {
    &&& s.len() <= u32::MAX as int + 1
    &&& forall|j: int|
        0 <= j < s.len() && (#[trigger] s[j]).1 is Some ==> {
            let id = EntityId { index: j as u32, generation: s[j].0 };
            a.is_alive_spec(id) || a.is_stale(id)
        }
}


/// Stores stay consistent while the allocator only moves forward and every
/// entity that was alive is still alive or has become stale.
pub proof fn lemma_slots_evolve<T>(s: Seq<(Generation, Option<T>)>, a0: EntityAllocator, a: EntityAllocator)
    requires
        slots_consistent(s, a0),
        a0.evolves_to(&a),
        forall|id: EntityId| a0.is_alive_spec(id) ==> #[trigger] a.is_alive_spec(id) || a.is_stale(id),
    ensures
        slots_consistent(s, a),
{
    assert forall|j: int| 0 <= j < s.len() && (#[trigger] s[j]).1 is Some implies {
        let id = EntityId { index: j as u32, generation: s[j].0 };
        a.is_alive_spec(id) || a.is_stale(id)
    } by {
        let id = EntityId { index: j as u32, generation: s[j].0 };
        if a0.is_stale(id) {
            assert(a.is_stale(id));
        }
    }
}

/// Allocators with the same tables agree on liveness and staleness.
pub open spec fn same_allocator(a0: EntityAllocator, a1: EntityAllocator) -> bool {
    &&& a0.gens() == a1.gens()
    &&& a0.live_flags() == a1.live_flags()
    &&& a0.free_slots() == a1.free_slots()
    &&& a0.offset() == a1.offset()
    &&& a0.limit() == a1.limit()
}

pub proof fn lemma_same_slots_consistent<T: Duplicable>(
    s0: Seq<(Generation, Option<T>)>,
    s1: Seq<(Generation, Option<T>)>,
    a0: EntityAllocator,
    a1: EntityAllocator,
)
    requires
        slots_consistent(s0, a0),
        same_slots(s1, s0),
        same_allocator(a0, a1),
    ensures
        slots_consistent(s1, a1),
{
    assert forall|j: int| 0 <= j < s1.len() && (#[trigger] s1[j]).1 is Some implies {
        let id = EntityId { index: j as u32, generation: s1[j].0 };
        a1.is_alive_spec(id) || a1.is_stale(id)
    } by {
        assert(s0[j].0 == s1[j].0);
        assert(s0[j].1 is Some);
    }
}

pub proof fn lemma_components_evolve<F>(c: Components<F>, a0: EntityAllocator, a: EntityAllocator)
    requires
        c.consistent_with(a0),
        a0.evolves_to(&a),
        forall|id: EntityId| a0.is_alive_spec(id) ==> #[trigger] a.is_alive_spec(id) || a.is_stale(id),
    ensures
        c.consistent_with(a),
{
    lemma_slots_evolve(c.node_header.slots(), a0, a);
    lemma_slots_evolve(c.node_position.slots(), a0, a);
    lemma_slots_evolve(c.node_type_id.slots(), a0, a);
    lemma_slots_evolve(c.mute_state.slots(), a0, a);
    lemma_slots_evolve(c.custom_body_height.slots(), a0, a);
    lemma_slots_evolve(c.port_owner.slots(), a0, a);
    lemma_slots_evolve(c.port_direction.slots(), a0, a);
    lemma_slots_evolve(c.port_socket_type.slots(), a0, a);
    lemma_slots_evolve(c.port_index.slots(), a0, a);
    lemma_slots_evolve(c.port_label.slots(), a0, a);
    lemma_slots_evolve(c.connection_endpoints.slots(), a0, a);
    lemma_slots_evolve(c.frame_label.slots(), a0, a);
    lemma_slots_evolve(c.frame_color.slots(), a0, a);
    lemma_slots_evolve(c.frame_rect.slots(), a0, a);
    lemma_slots_evolve(c.frame_members.slots(), a0, a);
    lemma_slots_evolve(c.subgraph_root.slots(), a0, a);
    lemma_slots_evolve(c.group_io_label.slots(), a0, a);
    lemma_slots_evolve(c.group_io_kind.slots(), a0, a);
    lemma_slots_evolve(c.is_reroute.slots(), a0, a);
    lemma_slots_evolve(c.reroute_position.slots(), a0, a);
}

pub proof fn lemma_components_same_content<F: Copy>(c0: Components<F>, c1: Components<F>, a0: EntityAllocator, a1: EntityAllocator)
    requires
        c0.consistent_with(a0),
        Components::same_content(c1, c0),
        same_allocator(a0, a1),
    ensures
        c1.consistent_with(a1),
{
    lemma_same_slots_consistent(c0.node_header.slots(), c1.node_header.slots(), a0, a1);
    lemma_same_slots_consistent(c0.node_position.slots(), c1.node_position.slots(), a0, a1);
    lemma_same_slots_consistent(c0.node_type_id.slots(), c1.node_type_id.slots(), a0, a1);
    lemma_same_slots_consistent(c0.mute_state.slots(), c1.mute_state.slots(), a0, a1);
    lemma_same_slots_consistent(c0.custom_body_height.slots(), c1.custom_body_height.slots(), a0, a1);
    lemma_same_slots_consistent(c0.port_owner.slots(), c1.port_owner.slots(), a0, a1);
    lemma_same_slots_consistent(c0.port_direction.slots(), c1.port_direction.slots(), a0, a1);
    lemma_same_slots_consistent(c0.port_socket_type.slots(), c1.port_socket_type.slots(), a0, a1);
    lemma_same_slots_consistent(c0.port_index.slots(), c1.port_index.slots(), a0, a1);
    lemma_same_slots_consistent(c0.port_label.slots(), c1.port_label.slots(), a0, a1);
    lemma_same_slots_consistent(c0.connection_endpoints.slots(), c1.connection_endpoints.slots(), a0, a1);
    lemma_same_slots_consistent(c0.frame_label.slots(), c1.frame_label.slots(), a0, a1);
    lemma_same_slots_consistent(c0.frame_color.slots(), c1.frame_color.slots(), a0, a1);
    lemma_same_slots_consistent(c0.frame_rect.slots(), c1.frame_rect.slots(), a0, a1);
    lemma_same_slots_consistent(c0.frame_members.slots(), c1.frame_members.slots(), a0, a1);
    lemma_same_slots_consistent(c0.subgraph_root.slots(), c1.subgraph_root.slots(), a0, a1);
    lemma_same_slots_consistent(c0.group_io_label.slots(), c1.group_io_label.slots(), a0, a1);
    lemma_same_slots_consistent(c0.group_io_kind.slots(), c1.group_io_kind.slots(), a0, a1);
    lemma_same_slots_consistent(c0.is_reroute.slots(), c1.is_reroute.slots(), a0, a1);
    lemma_same_slots_consistent(c0.reroute_position.slots(), c1.reroute_position.slots(), a0, a1);
}


/// A slot table consistent with an allocator holds nothing for an id that
/// is neither alive nor stale there.
pub proof fn lemma_slots_fresh<T>(s: Seq<(Generation, Option<T>)>, a: EntityAllocator, id: EntityId)
    requires
        slots_consistent(s, a),
        !a.is_alive_spec(id),
        !a.is_stale(id),
    ensures
        slot_lookup(s, id) is None,
{
    let j = id.index as int;
    if j < s.len() && s[j].0 == id.generation && s[j].1 is Some {
        assert(EntityId { index: j as u32, generation: s[j].0 } == id);
    }
}

pub proof fn lemma_components_fresh<F>(c: Components<F>, a: EntityAllocator, id: EntityId)
    requires
        c.consistent_with(a),
        !a.is_alive_spec(id),
        !a.is_stale(id),
    ensures
        c.no_data_for(id),
{
    lemma_slots_fresh(c.node_header.slots(), a, id);
    lemma_slots_fresh(c.node_position.slots(), a, id);
    lemma_slots_fresh(c.node_type_id.slots(), a, id);
    lemma_slots_fresh(c.mute_state.slots(), a, id);
    lemma_slots_fresh(c.custom_body_height.slots(), a, id);
    lemma_slots_fresh(c.port_owner.slots(), a, id);
    lemma_slots_fresh(c.port_direction.slots(), a, id);
    lemma_slots_fresh(c.port_socket_type.slots(), a, id);
    lemma_slots_fresh(c.port_index.slots(), a, id);
    lemma_slots_fresh(c.port_label.slots(), a, id);
    lemma_slots_fresh(c.connection_endpoints.slots(), a, id);
    lemma_slots_fresh(c.frame_label.slots(), a, id);
    lemma_slots_fresh(c.frame_color.slots(), a, id);
    lemma_slots_fresh(c.frame_rect.slots(), a, id);
    lemma_slots_fresh(c.frame_members.slots(), a, id);
    lemma_slots_fresh(c.subgraph_root.slots(), a, id);
    lemma_slots_fresh(c.group_io_label.slots(), a, id);
    lemma_slots_fresh(c.group_io_kind.slots(), a, id);
    lemma_slots_fresh(c.is_reroute.slots(), a, id);
    lemma_slots_fresh(c.reroute_position.slots(), a, id);
}


pub proof fn lemma_same_except_single<F>(a: Components<F>, b: Components<F>, k: ComponentKind)
    requires
        a.same_except(b, k),
    ensures
        a.same_except_kinds(b, set![k]),
{
}

pub proof fn lemma_same_except_trans<F>(
    a: Components<F>,
    b: Components<F>,
    c: Components<F>,
    ks1: Set<ComponentKind>,
    ks2: Set<ComponentKind>,
)
    requires
        b.same_except_kinds(a, ks1),
        c.same_except_kinds(b, ks2),
    ensures
        c.same_except_kinds(a, ks1.union(ks2)),
{
}

/// The component stores of a `World`, one per component kind.
pub struct Components<F> {
    pub node_header: ComponentStore<NodeHeader>,
    pub node_position: ComponentStore<NodePosition<F>>,
    pub node_type_id: ComponentStore<NodeTypeId>,
    pub mute_state: ComponentStore<MuteState>,
    pub custom_body_height: ComponentStore<CustomBodyHeight<F>>,
    pub port_owner: ComponentStore<PortOwner>,
    pub port_direction: ComponentStore<PortDirection>,
    pub port_socket_type: ComponentStore<PortSocketType>,
    pub port_index: ComponentStore<PortIndex>,
    pub port_label: ComponentStore<PortLabel>,
    pub connection_endpoints: ComponentStore<ConnectionEndpoints>,
    pub frame_label: ComponentStore<FrameLabel>,
    pub frame_color: ComponentStore<FrameColor>,
    pub frame_rect: ComponentStore<FrameRect<F>>,
    pub frame_members: ComponentStore<FrameMembers>,
    pub subgraph_root: ComponentStore<SubgraphRoot>,
    pub group_io_label: ComponentStore<GroupIOLabel>,
    pub group_io_kind: ComponentStore<GroupIOKind>,
    pub is_reroute: ComponentStore<IsReroute>,
    pub reroute_position: ComponentStore<ReroutePosition<F>>,
}

/// A component type stored in a `World`: it knows which store of
/// `Components` holds it.
pub trait Component<F>: ComponentType + Duplicable + Sized {
    /// The slot table of this component's store.
    spec fn table(c: Components<F>) -> Seq<(Generation, Option<Self>)>;

    fn store(c: &Components<F>) -> (r: &ComponentStore<Self>)
        ensures
            r.slots() == Self::table(*c),
    ;

    fn store_mut(c: &mut Components<F>) -> (r: &mut ComponentStore<Self>)
        ensures
            r.slots() == Self::table(*old(c)),
            Self::table(*final(c)) == final(r).slots(),
            final(c).same_except(*old(c), Self::kind_spec()),
    ;

    proof fn lemma_table_consistent(c: Components<F>, a: EntityAllocator)
        requires
            c.consistent_with(a),
        ensures
            slots_consistent(Self::table(c), a),
    ;

    proof fn lemma_table_unchanged(c1: Components<F>, c0: Components<F>, ks: Set<ComponentKind>)
        requires
            c1.same_except_kinds(c0, ks),
            !ks.contains(Self::kind_spec()),
        ensures
            Self::table(c1) == Self::table(c0),
    ;

    proof fn lemma_no_data(c: Components<F>, id: EntityId)
        requires
            c.no_data_for(id),
        ensures
            slot_lookup(Self::table(c), id) is None,
    ;

    proof fn lemma_replace_consistent(c0: Components<F>, c1: Components<F>, a: EntityAllocator)
        requires
            c0.consistent_with(a),
            c1.same_except(c0, Self::kind_spec()),
            slots_consistent(Self::table(c1), a),
        ensures
            c1.consistent_with(a),
    ;
}

impl<F> Components<F> {
    /// All stores other than the one of kind `k` hold the same slots.
    pub open spec fn same_except(self, other: Self, k: ComponentKind) -> bool {
        &&& (k != ComponentKind::NodeHeader ==> self.node_header.slots() == other.node_header.slots())
        &&& (k != ComponentKind::NodePosition ==> self.node_position.slots() == other.node_position.slots())
        &&& (k != ComponentKind::NodeTypeId ==> self.node_type_id.slots() == other.node_type_id.slots())
        &&& (k != ComponentKind::MuteState ==> self.mute_state.slots() == other.mute_state.slots())
        &&& (k != ComponentKind::CustomBodyHeight ==> self.custom_body_height.slots() == other.custom_body_height.slots())
        &&& (k != ComponentKind::PortOwner ==> self.port_owner.slots() == other.port_owner.slots())
        &&& (k != ComponentKind::PortDirection ==> self.port_direction.slots() == other.port_direction.slots())
        &&& (k != ComponentKind::PortSocketType ==> self.port_socket_type.slots() == other.port_socket_type.slots())
        &&& (k != ComponentKind::PortIndex ==> self.port_index.slots() == other.port_index.slots())
        &&& (k != ComponentKind::PortLabel ==> self.port_label.slots() == other.port_label.slots())
        &&& (k != ComponentKind::ConnectionEndpoints ==> self.connection_endpoints.slots() == other.connection_endpoints.slots())
        &&& (k != ComponentKind::FrameLabel ==> self.frame_label.slots() == other.frame_label.slots())
        &&& (k != ComponentKind::FrameColor ==> self.frame_color.slots() == other.frame_color.slots())
        &&& (k != ComponentKind::FrameRect ==> self.frame_rect.slots() == other.frame_rect.slots())
        &&& (k != ComponentKind::FrameMembers ==> self.frame_members.slots() == other.frame_members.slots())
        &&& (k != ComponentKind::SubgraphRoot ==> self.subgraph_root.slots() == other.subgraph_root.slots())
        &&& (k != ComponentKind::GroupIOLabel ==> self.group_io_label.slots() == other.group_io_label.slots())
        &&& (k != ComponentKind::GroupIOKind ==> self.group_io_kind.slots() == other.group_io_kind.slots())
        &&& (k != ComponentKind::IsReroute ==> self.is_reroute.slots() == other.is_reroute.slots())
        &&& (k != ComponentKind::ReroutePosition ==> self.reroute_position.slots() == other.reroute_position.slots())
    }

    /// All stores other than those whose kinds are in `ks` hold the same slots.
    pub open spec fn same_except_kinds(self, other: Self, ks: Set<ComponentKind>) -> bool {
        &&& (!ks.contains(ComponentKind::NodeHeader) ==> self.node_header.slots() == other.node_header.slots())
        &&& (!ks.contains(ComponentKind::NodePosition) ==> self.node_position.slots() == other.node_position.slots())
        &&& (!ks.contains(ComponentKind::NodeTypeId) ==> self.node_type_id.slots() == other.node_type_id.slots())
        &&& (!ks.contains(ComponentKind::MuteState) ==> self.mute_state.slots() == other.mute_state.slots())
        &&& (!ks.contains(ComponentKind::CustomBodyHeight) ==> self.custom_body_height.slots() == other.custom_body_height.slots())
        &&& (!ks.contains(ComponentKind::PortOwner) ==> self.port_owner.slots() == other.port_owner.slots())
        &&& (!ks.contains(ComponentKind::PortDirection) ==> self.port_direction.slots() == other.port_direction.slots())
        &&& (!ks.contains(ComponentKind::PortSocketType) ==> self.port_socket_type.slots() == other.port_socket_type.slots())
        &&& (!ks.contains(ComponentKind::PortIndex) ==> self.port_index.slots() == other.port_index.slots())
        &&& (!ks.contains(ComponentKind::PortLabel) ==> self.port_label.slots() == other.port_label.slots())
        &&& (!ks.contains(ComponentKind::ConnectionEndpoints) ==> self.connection_endpoints.slots() == other.connection_endpoints.slots())
        &&& (!ks.contains(ComponentKind::FrameLabel) ==> self.frame_label.slots() == other.frame_label.slots())
        &&& (!ks.contains(ComponentKind::FrameColor) ==> self.frame_color.slots() == other.frame_color.slots())
        &&& (!ks.contains(ComponentKind::FrameRect) ==> self.frame_rect.slots() == other.frame_rect.slots())
        &&& (!ks.contains(ComponentKind::FrameMembers) ==> self.frame_members.slots() == other.frame_members.slots())
        &&& (!ks.contains(ComponentKind::SubgraphRoot) ==> self.subgraph_root.slots() == other.subgraph_root.slots())
        &&& (!ks.contains(ComponentKind::GroupIOLabel) ==> self.group_io_label.slots() == other.group_io_label.slots())
        &&& (!ks.contains(ComponentKind::GroupIOKind) ==> self.group_io_kind.slots() == other.group_io_kind.slots())
        &&& (!ks.contains(ComponentKind::IsReroute) ==> self.is_reroute.slots() == other.is_reroute.slots())
        &&& (!ks.contains(ComponentKind::ReroutePosition) ==> self.reroute_position.slots() == other.reroute_position.slots())
    }

    /// No store holds a component for `id`.
    pub open spec fn no_data_for(self, id: EntityId) -> bool {
        &&& slot_lookup(self.node_header.slots(), id) is None
        &&& slot_lookup(self.node_position.slots(), id) is None
        &&& slot_lookup(self.node_type_id.slots(), id) is None
        &&& slot_lookup(self.mute_state.slots(), id) is None
        &&& slot_lookup(self.custom_body_height.slots(), id) is None
        &&& slot_lookup(self.port_owner.slots(), id) is None
        &&& slot_lookup(self.port_direction.slots(), id) is None
        &&& slot_lookup(self.port_socket_type.slots(), id) is None
        &&& slot_lookup(self.port_index.slots(), id) is None
        &&& slot_lookup(self.port_label.slots(), id) is None
        &&& slot_lookup(self.connection_endpoints.slots(), id) is None
        &&& slot_lookup(self.frame_label.slots(), id) is None
        &&& slot_lookup(self.frame_color.slots(), id) is None
        &&& slot_lookup(self.frame_rect.slots(), id) is None
        &&& slot_lookup(self.frame_members.slots(), id) is None
        &&& slot_lookup(self.subgraph_root.slots(), id) is None
        &&& slot_lookup(self.group_io_label.slots(), id) is None
        &&& slot_lookup(self.group_io_kind.slots(), id) is None
        &&& slot_lookup(self.is_reroute.slots(), id) is None
        &&& slot_lookup(self.reroute_position.slots(), id) is None
    }

    pub open spec fn consistent_with(self, a: EntityAllocator) -> bool {
        &&& slots_consistent(self.node_header.slots(), a)
        &&& slots_consistent(self.node_position.slots(), a)
        &&& slots_consistent(self.node_type_id.slots(), a)
        &&& slots_consistent(self.mute_state.slots(), a)
        &&& slots_consistent(self.custom_body_height.slots(), a)
        &&& slots_consistent(self.port_owner.slots(), a)
        &&& slots_consistent(self.port_direction.slots(), a)
        &&& slots_consistent(self.port_socket_type.slots(), a)
        &&& slots_consistent(self.port_index.slots(), a)
        &&& slots_consistent(self.port_label.slots(), a)
        &&& slots_consistent(self.connection_endpoints.slots(), a)
        &&& slots_consistent(self.frame_label.slots(), a)
        &&& slots_consistent(self.frame_color.slots(), a)
        &&& slots_consistent(self.frame_rect.slots(), a)
        &&& slots_consistent(self.frame_members.slots(), a)
        &&& slots_consistent(self.subgraph_root.slots(), a)
        &&& slots_consistent(self.group_io_label.slots(), a)
        &&& slots_consistent(self.group_io_kind.slots(), a)
        &&& slots_consistent(self.is_reroute.slots(), a)
        &&& slots_consistent(self.reroute_position.slots(), a)
    }

    pub fn new() -> (c: Self)
        ensures
            c.node_header.slots().len() == 0,
            c.node_position.slots().len() == 0,
            c.node_type_id.slots().len() == 0,
            c.mute_state.slots().len() == 0,
            c.custom_body_height.slots().len() == 0,
            c.port_owner.slots().len() == 0,
            c.port_direction.slots().len() == 0,
            c.port_socket_type.slots().len() == 0,
            c.port_index.slots().len() == 0,
            c.port_label.slots().len() == 0,
            c.connection_endpoints.slots().len() == 0,
            c.frame_label.slots().len() == 0,
            c.frame_color.slots().len() == 0,
            c.frame_rect.slots().len() == 0,
            c.frame_members.slots().len() == 0,
            c.subgraph_root.slots().len() == 0,
            c.group_io_label.slots().len() == 0,
            c.group_io_kind.slots().len() == 0,
            c.is_reroute.slots().len() == 0,
            c.reroute_position.slots().len() == 0,
    {
        Components {
            node_header: ComponentStore::new(),
            node_position: ComponentStore::new(),
            node_type_id: ComponentStore::new(),
            mute_state: ComponentStore::new(),
            custom_body_height: ComponentStore::new(),
            port_owner: ComponentStore::new(),
            port_direction: ComponentStore::new(),
            port_socket_type: ComponentStore::new(),
            port_index: ComponentStore::new(),
            port_label: ComponentStore::new(),
            connection_endpoints: ComponentStore::new(),
            frame_label: ComponentStore::new(),
            frame_color: ComponentStore::new(),
            frame_rect: ComponentStore::new(),
            frame_members: ComponentStore::new(),
            subgraph_root: ComponentStore::new(),
            group_io_label: ComponentStore::new(),
            group_io_kind: ComponentStore::new(),
            is_reroute: ComponentStore::new(),
            reroute_position: ComponentStore::new(),
        }
    }
}

impl<F: Copy> Components<F> {
    /// Every store of `a` holds the same content as the matching store of `b`.
    pub open spec fn same_content(a: Self, b: Self) -> bool {
        &&& same_slots(a.node_header.slots(), b.node_header.slots())
        &&& same_slots(a.node_position.slots(), b.node_position.slots())
        &&& same_slots(a.node_type_id.slots(), b.node_type_id.slots())
        &&& same_slots(a.mute_state.slots(), b.mute_state.slots())
        &&& same_slots(a.custom_body_height.slots(), b.custom_body_height.slots())
        &&& same_slots(a.port_owner.slots(), b.port_owner.slots())
        &&& same_slots(a.port_direction.slots(), b.port_direction.slots())
        &&& same_slots(a.port_socket_type.slots(), b.port_socket_type.slots())
        &&& same_slots(a.port_index.slots(), b.port_index.slots())
        &&& same_slots(a.port_label.slots(), b.port_label.slots())
        &&& same_slots(a.connection_endpoints.slots(), b.connection_endpoints.slots())
        &&& same_slots(a.frame_label.slots(), b.frame_label.slots())
        &&& same_slots(a.frame_color.slots(), b.frame_color.slots())
        &&& same_slots(a.frame_rect.slots(), b.frame_rect.slots())
        &&& same_slots(a.frame_members.slots(), b.frame_members.slots())
        &&& same_slots(a.subgraph_root.slots(), b.subgraph_root.slots())
        &&& same_slots(a.group_io_label.slots(), b.group_io_label.slots())
        &&& same_slots(a.group_io_kind.slots(), b.group_io_kind.slots())
        &&& same_slots(a.is_reroute.slots(), b.is_reroute.slots())
        &&& same_slots(a.reroute_position.slots(), b.reroute_position.slots())
    }

    pub fn duplicate(&self) -> (r: Self)
        ensures
            Self::same_content(r, *self),
    {
        Components {
            node_header: self.node_header.duplicate(),
            node_position: self.node_position.duplicate(),
            node_type_id: self.node_type_id.duplicate(),
            mute_state: self.mute_state.duplicate(),
            custom_body_height: self.custom_body_height.duplicate(),
            port_owner: self.port_owner.duplicate(),
            port_direction: self.port_direction.duplicate(),
            port_socket_type: self.port_socket_type.duplicate(),
            port_index: self.port_index.duplicate(),
            port_label: self.port_label.duplicate(),
            connection_endpoints: self.connection_endpoints.duplicate(),
            frame_label: self.frame_label.duplicate(),
            frame_color: self.frame_color.duplicate(),
            frame_rect: self.frame_rect.duplicate(),
            frame_members: self.frame_members.duplicate(),
            subgraph_root: self.subgraph_root.duplicate(),
            group_io_label: self.group_io_label.duplicate(),
            group_io_kind: self.group_io_kind.duplicate(),
            is_reroute: self.is_reroute.duplicate(),
            reroute_position: self.reroute_position.duplicate(),
        }
    }
}

impl ComponentType for NodeHeader {
    open spec fn kind_spec() -> ComponentKind {
        ComponentKind::NodeHeader
    }

    fn kind() -> (k: ComponentKind) {
        ComponentKind::NodeHeader
    }
}

impl Duplicable for NodeHeader {
    open spec fn same_value(a: &Self, b: &Self) -> bool {
        *a == *b
    }

    fn duplicate(&self) -> (r: Self) {
        self.clone()
    }
}

impl<F: Copy> Component<F> for NodeHeader {
    open spec fn table(c: Components<F>) -> Seq<(Generation, Option<Self>)> {
        c.node_header.slots()
    }

    fn store(c: &Components<F>) -> (r: &ComponentStore<Self>) {
        &c.node_header
    }

    proof fn lemma_table_consistent(c: Components<F>, a: EntityAllocator) {
    }

    proof fn lemma_replace_consistent(c0: Components<F>, c1: Components<F>, a: EntityAllocator) {
    }

    proof fn lemma_no_data(c: Components<F>, id: EntityId) {
    }

    proof fn lemma_table_unchanged(c1: Components<F>, c0: Components<F>, ks: Set<ComponentKind>) {
    }

    fn store_mut(c: &mut Components<F>) -> (r: &mut ComponentStore<Self>) {
        &mut c.node_header
    }
}

impl<F: Copy> ComponentType for NodePosition<F> {
    open spec fn kind_spec() -> ComponentKind {
        ComponentKind::NodePosition
    }

    fn kind() -> (k: ComponentKind) {
        ComponentKind::NodePosition
    }
}

impl<F: Copy> Duplicable for NodePosition<F> {
    open spec fn same_value(a: &Self, b: &Self) -> bool {
        *a == *b
    }

    fn duplicate(&self) -> (r: Self) {
        *self
    }
}

impl<F: Copy> Component<F> for NodePosition<F> {
    open spec fn table(c: Components<F>) -> Seq<(Generation, Option<Self>)> {
        c.node_position.slots()
    }

    fn store(c: &Components<F>) -> (r: &ComponentStore<Self>) {
        &c.node_position
    }

    proof fn lemma_table_consistent(c: Components<F>, a: EntityAllocator) {
    }

    proof fn lemma_replace_consistent(c0: Components<F>, c1: Components<F>, a: EntityAllocator) {
    }

    proof fn lemma_no_data(c: Components<F>, id: EntityId) {
    }

    proof fn lemma_table_unchanged(c1: Components<F>, c0: Components<F>, ks: Set<ComponentKind>) {
    }

    fn store_mut(c: &mut Components<F>) -> (r: &mut ComponentStore<Self>) {
        &mut c.node_position
    }
}

impl ComponentType for NodeTypeId {
    open spec fn kind_spec() -> ComponentKind {
        ComponentKind::NodeTypeId
    }

    fn kind() -> (k: ComponentKind) {
        ComponentKind::NodeTypeId
    }
}

impl Duplicable for NodeTypeId {
    open spec fn same_value(a: &Self, b: &Self) -> bool {
        *a == *b
    }

    fn duplicate(&self) -> (r: Self) {
        self.clone()
    }
}

impl<F: Copy> Component<F> for NodeTypeId {
    open spec fn table(c: Components<F>) -> Seq<(Generation, Option<Self>)> {
        c.node_type_id.slots()
    }

    fn store(c: &Components<F>) -> (r: &ComponentStore<Self>) {
        &c.node_type_id
    }

    proof fn lemma_table_consistent(c: Components<F>, a: EntityAllocator) {
    }

    proof fn lemma_replace_consistent(c0: Components<F>, c1: Components<F>, a: EntityAllocator) {
    }

    proof fn lemma_no_data(c: Components<F>, id: EntityId) {
    }

    proof fn lemma_table_unchanged(c1: Components<F>, c0: Components<F>, ks: Set<ComponentKind>) {
    }

    fn store_mut(c: &mut Components<F>) -> (r: &mut ComponentStore<Self>) {
        &mut c.node_type_id
    }
}

impl ComponentType for MuteState {
    open spec fn kind_spec() -> ComponentKind {
        ComponentKind::MuteState
    }

    fn kind() -> (k: ComponentKind) {
        ComponentKind::MuteState
    }
}

impl Duplicable for MuteState {
    open spec fn same_value(a: &Self, b: &Self) -> bool {
        *a == *b
    }

    fn duplicate(&self) -> (r: Self) {
        *self
    }
}

impl<F: Copy> Component<F> for MuteState {
    open spec fn table(c: Components<F>) -> Seq<(Generation, Option<Self>)> {
        c.mute_state.slots()
    }

    fn store(c: &Components<F>) -> (r: &ComponentStore<Self>) {
        &c.mute_state
    }

    proof fn lemma_table_consistent(c: Components<F>, a: EntityAllocator) {
    }

    proof fn lemma_replace_consistent(c0: Components<F>, c1: Components<F>, a: EntityAllocator) {
    }

    proof fn lemma_no_data(c: Components<F>, id: EntityId) {
    }

    proof fn lemma_table_unchanged(c1: Components<F>, c0: Components<F>, ks: Set<ComponentKind>) {
    }

    fn store_mut(c: &mut Components<F>) -> (r: &mut ComponentStore<Self>) {
        &mut c.mute_state
    }
}

impl<F: Copy> ComponentType for CustomBodyHeight<F> {
    open spec fn kind_spec() -> ComponentKind {
        ComponentKind::CustomBodyHeight
    }

    fn kind() -> (k: ComponentKind) {
        ComponentKind::CustomBodyHeight
    }
}

impl<F: Copy> Duplicable for CustomBodyHeight<F> {
    open spec fn same_value(a: &Self, b: &Self) -> bool {
        *a == *b
    }

    fn duplicate(&self) -> (r: Self) {
        *self
    }
}

impl<F: Copy> Component<F> for CustomBodyHeight<F> {
    open spec fn table(c: Components<F>) -> Seq<(Generation, Option<Self>)> {
        c.custom_body_height.slots()
    }

    fn store(c: &Components<F>) -> (r: &ComponentStore<Self>) {
        &c.custom_body_height
    }

    proof fn lemma_table_consistent(c: Components<F>, a: EntityAllocator) {
    }

    proof fn lemma_replace_consistent(c0: Components<F>, c1: Components<F>, a: EntityAllocator) {
    }

    proof fn lemma_no_data(c: Components<F>, id: EntityId) {
    }

    proof fn lemma_table_unchanged(c1: Components<F>, c0: Components<F>, ks: Set<ComponentKind>) {
    }

    fn store_mut(c: &mut Components<F>) -> (r: &mut ComponentStore<Self>) {
        &mut c.custom_body_height
    }
}

impl ComponentType for PortOwner {
    open spec fn kind_spec() -> ComponentKind {
        ComponentKind::PortOwner
    }

    fn kind() -> (k: ComponentKind) {
        ComponentKind::PortOwner
    }
}

impl Duplicable for PortOwner {
    open spec fn same_value(a: &Self, b: &Self) -> bool {
        *a == *b
    }

    fn duplicate(&self) -> (r: Self) {
        *self
    }
}

impl<F: Copy> Component<F> for PortOwner {
    open spec fn table(c: Components<F>) -> Seq<(Generation, Option<Self>)> {
        c.port_owner.slots()
    }

    fn store(c: &Components<F>) -> (r: &ComponentStore<Self>) {
        &c.port_owner
    }

    proof fn lemma_table_consistent(c: Components<F>, a: EntityAllocator) {
    }

    proof fn lemma_replace_consistent(c0: Components<F>, c1: Components<F>, a: EntityAllocator) {
    }

    proof fn lemma_no_data(c: Components<F>, id: EntityId) {
    }

    proof fn lemma_table_unchanged(c1: Components<F>, c0: Components<F>, ks: Set<ComponentKind>) {
    }

    fn store_mut(c: &mut Components<F>) -> (r: &mut ComponentStore<Self>) {
        &mut c.port_owner
    }
}

impl ComponentType for PortDirection {
    open spec fn kind_spec() -> ComponentKind {
        ComponentKind::PortDirection
    }

    fn kind() -> (k: ComponentKind) {
        ComponentKind::PortDirection
    }
}

impl Duplicable for PortDirection {
    open spec fn same_value(a: &Self, b: &Self) -> bool {
        *a == *b
    }

    fn duplicate(&self) -> (r: Self) {
        *self
    }
}

impl<F: Copy> Component<F> for PortDirection {
    open spec fn table(c: Components<F>) -> Seq<(Generation, Option<Self>)> {
        c.port_direction.slots()
    }

    fn store(c: &Components<F>) -> (r: &ComponentStore<Self>) {
        &c.port_direction
    }

    proof fn lemma_table_consistent(c: Components<F>, a: EntityAllocator) {
    }

    proof fn lemma_replace_consistent(c0: Components<F>, c1: Components<F>, a: EntityAllocator) {
    }

    proof fn lemma_no_data(c: Components<F>, id: EntityId) {
    }

    proof fn lemma_table_unchanged(c1: Components<F>, c0: Components<F>, ks: Set<ComponentKind>) {
    }

    fn store_mut(c: &mut Components<F>) -> (r: &mut ComponentStore<Self>) {
        &mut c.port_direction
    }
}

impl ComponentType for PortSocketType {
    open spec fn kind_spec() -> ComponentKind {
        ComponentKind::PortSocketType
    }

    fn kind() -> (k: ComponentKind) {
        ComponentKind::PortSocketType
    }
}

impl Duplicable for PortSocketType {
    open spec fn same_value(a: &Self, b: &Self) -> bool {
        *a == *b
    }

    fn duplicate(&self) -> (r: Self) {
        *self
    }
}

impl<F: Copy> Component<F> for PortSocketType {
    open spec fn table(c: Components<F>) -> Seq<(Generation, Option<Self>)> {
        c.port_socket_type.slots()
    }

    fn store(c: &Components<F>) -> (r: &ComponentStore<Self>) {
        &c.port_socket_type
    }

    proof fn lemma_table_consistent(c: Components<F>, a: EntityAllocator) {
    }

    proof fn lemma_replace_consistent(c0: Components<F>, c1: Components<F>, a: EntityAllocator) {
    }

    proof fn lemma_no_data(c: Components<F>, id: EntityId) {
    }

    proof fn lemma_table_unchanged(c1: Components<F>, c0: Components<F>, ks: Set<ComponentKind>) {
    }

    fn store_mut(c: &mut Components<F>) -> (r: &mut ComponentStore<Self>) {
        &mut c.port_socket_type
    }
}

impl ComponentType for PortIndex {
    open spec fn kind_spec() -> ComponentKind {
        ComponentKind::PortIndex
    }

    fn kind() -> (k: ComponentKind) {
        ComponentKind::PortIndex
    }
}

impl Duplicable for PortIndex {
    open spec fn same_value(a: &Self, b: &Self) -> bool {
        *a == *b
    }

    fn duplicate(&self) -> (r: Self) {
        *self
    }
}

impl<F: Copy> Component<F> for PortIndex {
    open spec fn table(c: Components<F>) -> Seq<(Generation, Option<Self>)> {
        c.port_index.slots()
    }

    fn store(c: &Components<F>) -> (r: &ComponentStore<Self>) {
        &c.port_index
    }

    proof fn lemma_table_consistent(c: Components<F>, a: EntityAllocator) {
    }

    proof fn lemma_replace_consistent(c0: Components<F>, c1: Components<F>, a: EntityAllocator) {
    }

    proof fn lemma_no_data(c: Components<F>, id: EntityId) {
    }

    proof fn lemma_table_unchanged(c1: Components<F>, c0: Components<F>, ks: Set<ComponentKind>) {
    }

    fn store_mut(c: &mut Components<F>) -> (r: &mut ComponentStore<Self>) {
        &mut c.port_index
    }
}

impl ComponentType for PortLabel {
    open spec fn kind_spec() -> ComponentKind {
        ComponentKind::PortLabel
    }

    fn kind() -> (k: ComponentKind) {
        ComponentKind::PortLabel
    }
}

impl Duplicable for PortLabel {
    open spec fn same_value(a: &Self, b: &Self) -> bool {
        *a == *b
    }

    fn duplicate(&self) -> (r: Self) {
        self.clone()
    }
}

impl<F: Copy> Component<F> for PortLabel {
    open spec fn table(c: Components<F>) -> Seq<(Generation, Option<Self>)> {
        c.port_label.slots()
    }

    fn store(c: &Components<F>) -> (r: &ComponentStore<Self>) {
        &c.port_label
    }

    proof fn lemma_table_consistent(c: Components<F>, a: EntityAllocator) {
    }

    proof fn lemma_replace_consistent(c0: Components<F>, c1: Components<F>, a: EntityAllocator) {
    }

    proof fn lemma_no_data(c: Components<F>, id: EntityId) {
    }

    proof fn lemma_table_unchanged(c1: Components<F>, c0: Components<F>, ks: Set<ComponentKind>) {
    }

    fn store_mut(c: &mut Components<F>) -> (r: &mut ComponentStore<Self>) {
        &mut c.port_label
    }
}

impl ComponentType for ConnectionEndpoints {
    open spec fn kind_spec() -> ComponentKind {
        ComponentKind::ConnectionEndpoints
    }

    fn kind() -> (k: ComponentKind) {
        ComponentKind::ConnectionEndpoints
    }
}

impl Duplicable for ConnectionEndpoints {
    open spec fn same_value(a: &Self, b: &Self) -> bool {
        *a == *b
    }

    fn duplicate(&self) -> (r: Self) {
        *self
    }
}

impl<F: Copy> Component<F> for ConnectionEndpoints {
    open spec fn table(c: Components<F>) -> Seq<(Generation, Option<Self>)> {
        c.connection_endpoints.slots()
    }

    fn store(c: &Components<F>) -> (r: &ComponentStore<Self>) {
        &c.connection_endpoints
    }

    proof fn lemma_table_consistent(c: Components<F>, a: EntityAllocator) {
    }

    proof fn lemma_replace_consistent(c0: Components<F>, c1: Components<F>, a: EntityAllocator) {
    }

    proof fn lemma_no_data(c: Components<F>, id: EntityId) {
    }

    proof fn lemma_table_unchanged(c1: Components<F>, c0: Components<F>, ks: Set<ComponentKind>) {
    }

    fn store_mut(c: &mut Components<F>) -> (r: &mut ComponentStore<Self>) {
        &mut c.connection_endpoints
    }
}

impl ComponentType for FrameLabel {
    open spec fn kind_spec() -> ComponentKind {
        ComponentKind::FrameLabel
    }

    fn kind() -> (k: ComponentKind) {
        ComponentKind::FrameLabel
    }
}

impl Duplicable for FrameLabel {
    open spec fn same_value(a: &Self, b: &Self) -> bool {
        *a == *b
    }

    fn duplicate(&self) -> (r: Self) {
        self.clone()
    }
}

impl<F: Copy> Component<F> for FrameLabel {
    open spec fn table(c: Components<F>) -> Seq<(Generation, Option<Self>)> {
        c.frame_label.slots()
    }

    fn store(c: &Components<F>) -> (r: &ComponentStore<Self>) {
        &c.frame_label
    }

    proof fn lemma_table_consistent(c: Components<F>, a: EntityAllocator) {
    }

    proof fn lemma_replace_consistent(c0: Components<F>, c1: Components<F>, a: EntityAllocator) {
    }

    proof fn lemma_no_data(c: Components<F>, id: EntityId) {
    }

    proof fn lemma_table_unchanged(c1: Components<F>, c0: Components<F>, ks: Set<ComponentKind>) {
    }

    fn store_mut(c: &mut Components<F>) -> (r: &mut ComponentStore<Self>) {
        &mut c.frame_label
    }
}

impl ComponentType for FrameColor {
    open spec fn kind_spec() -> ComponentKind {
        ComponentKind::FrameColor
    }

    fn kind() -> (k: ComponentKind) {
        ComponentKind::FrameColor
    }
}

impl Duplicable for FrameColor {
    open spec fn same_value(a: &Self, b: &Self) -> bool {
        *a == *b
    }

    fn duplicate(&self) -> (r: Self) {
        *self
    }
}

impl<F: Copy> Component<F> for FrameColor {
    open spec fn table(c: Components<F>) -> Seq<(Generation, Option<Self>)> {
        c.frame_color.slots()
    }

    fn store(c: &Components<F>) -> (r: &ComponentStore<Self>) {
        &c.frame_color
    }

    proof fn lemma_table_consistent(c: Components<F>, a: EntityAllocator) {
    }

    proof fn lemma_replace_consistent(c0: Components<F>, c1: Components<F>, a: EntityAllocator) {
    }

    proof fn lemma_no_data(c: Components<F>, id: EntityId) {
    }

    proof fn lemma_table_unchanged(c1: Components<F>, c0: Components<F>, ks: Set<ComponentKind>) {
    }

    fn store_mut(c: &mut Components<F>) -> (r: &mut ComponentStore<Self>) {
        &mut c.frame_color
    }
}

impl<F: Copy> ComponentType for FrameRect<F> {
    open spec fn kind_spec() -> ComponentKind {
        ComponentKind::FrameRect
    }

    fn kind() -> (k: ComponentKind) {
        ComponentKind::FrameRect
    }
}

impl<F: Copy> Duplicable for FrameRect<F> {
    open spec fn same_value(a: &Self, b: &Self) -> bool {
        *a == *b
    }

    fn duplicate(&self) -> (r: Self) {
        *self
    }
}

impl<F: Copy> Component<F> for FrameRect<F> {
    open spec fn table(c: Components<F>) -> Seq<(Generation, Option<Self>)> {
        c.frame_rect.slots()
    }

    fn store(c: &Components<F>) -> (r: &ComponentStore<Self>) {
        &c.frame_rect
    }

    proof fn lemma_table_consistent(c: Components<F>, a: EntityAllocator) {
    }

    proof fn lemma_replace_consistent(c0: Components<F>, c1: Components<F>, a: EntityAllocator) {
    }

    proof fn lemma_no_data(c: Components<F>, id: EntityId) {
    }

    proof fn lemma_table_unchanged(c1: Components<F>, c0: Components<F>, ks: Set<ComponentKind>) {
    }

    fn store_mut(c: &mut Components<F>) -> (r: &mut ComponentStore<Self>) {
        &mut c.frame_rect
    }
}

impl ComponentType for FrameMembers {
    open spec fn kind_spec() -> ComponentKind {
        ComponentKind::FrameMembers
    }

    fn kind() -> (k: ComponentKind) {
        ComponentKind::FrameMembers
    }
}

impl Duplicable for FrameMembers {
    open spec fn same_value(a: &Self, b: &Self) -> bool {
        a.0@ == b.0@
    }

    fn duplicate(&self) -> (r: Self) {
        self.clone()
    }
}

impl<F: Copy> Component<F> for FrameMembers {
    open spec fn table(c: Components<F>) -> Seq<(Generation, Option<Self>)> {
        c.frame_members.slots()
    }

    fn store(c: &Components<F>) -> (r: &ComponentStore<Self>) {
        &c.frame_members
    }

    proof fn lemma_table_consistent(c: Components<F>, a: EntityAllocator) {
    }

    proof fn lemma_replace_consistent(c0: Components<F>, c1: Components<F>, a: EntityAllocator) {
    }

    proof fn lemma_no_data(c: Components<F>, id: EntityId) {
    }

    proof fn lemma_table_unchanged(c1: Components<F>, c0: Components<F>, ks: Set<ComponentKind>) {
    }

    fn store_mut(c: &mut Components<F>) -> (r: &mut ComponentStore<Self>) {
        &mut c.frame_members
    }
}

impl ComponentType for SubgraphRoot {
    open spec fn kind_spec() -> ComponentKind {
        ComponentKind::SubgraphRoot
    }

    fn kind() -> (k: ComponentKind) {
        ComponentKind::SubgraphRoot
    }
}

impl Duplicable for SubgraphRoot {
    open spec fn same_value(a: &Self, b: &Self) -> bool {
        *a == *b
    }

    fn duplicate(&self) -> (r: Self) {
        *self
    }
}

impl<F: Copy> Component<F> for SubgraphRoot {
    open spec fn table(c: Components<F>) -> Seq<(Generation, Option<Self>)> {
        c.subgraph_root.slots()
    }

    fn store(c: &Components<F>) -> (r: &ComponentStore<Self>) {
        &c.subgraph_root
    }

    proof fn lemma_table_consistent(c: Components<F>, a: EntityAllocator) {
    }

    proof fn lemma_replace_consistent(c0: Components<F>, c1: Components<F>, a: EntityAllocator) {
    }

    proof fn lemma_no_data(c: Components<F>, id: EntityId) {
    }

    proof fn lemma_table_unchanged(c1: Components<F>, c0: Components<F>, ks: Set<ComponentKind>) {
    }

    fn store_mut(c: &mut Components<F>) -> (r: &mut ComponentStore<Self>) {
        &mut c.subgraph_root
    }
}

impl ComponentType for GroupIOLabel {
    open spec fn kind_spec() -> ComponentKind {
        ComponentKind::GroupIOLabel
    }

    fn kind() -> (k: ComponentKind) {
        ComponentKind::GroupIOLabel
    }
}

impl Duplicable for GroupIOLabel {
    open spec fn same_value(a: &Self, b: &Self) -> bool {
        *a == *b
    }

    fn duplicate(&self) -> (r: Self) {
        self.clone()
    }
}

impl<F: Copy> Component<F> for GroupIOLabel {
    open spec fn table(c: Components<F>) -> Seq<(Generation, Option<Self>)> {
        c.group_io_label.slots()
    }

    fn store(c: &Components<F>) -> (r: &ComponentStore<Self>) {
        &c.group_io_label
    }

    proof fn lemma_table_consistent(c: Components<F>, a: EntityAllocator) {
    }

    proof fn lemma_replace_consistent(c0: Components<F>, c1: Components<F>, a: EntityAllocator) {
    }

    proof fn lemma_no_data(c: Components<F>, id: EntityId) {
    }

    proof fn lemma_table_unchanged(c1: Components<F>, c0: Components<F>, ks: Set<ComponentKind>) {
    }

    fn store_mut(c: &mut Components<F>) -> (r: &mut ComponentStore<Self>) {
        &mut c.group_io_label
    }
}

impl ComponentType for GroupIOKind {
    open spec fn kind_spec() -> ComponentKind {
        ComponentKind::GroupIOKind
    }

    fn kind() -> (k: ComponentKind) {
        ComponentKind::GroupIOKind
    }
}

impl Duplicable for GroupIOKind {
    open spec fn same_value(a: &Self, b: &Self) -> bool {
        *a == *b
    }

    fn duplicate(&self) -> (r: Self) {
        *self
    }
}

impl<F: Copy> Component<F> for GroupIOKind {
    open spec fn table(c: Components<F>) -> Seq<(Generation, Option<Self>)> {
        c.group_io_kind.slots()
    }

    fn store(c: &Components<F>) -> (r: &ComponentStore<Self>) {
        &c.group_io_kind
    }

    proof fn lemma_table_consistent(c: Components<F>, a: EntityAllocator) {
    }

    proof fn lemma_replace_consistent(c0: Components<F>, c1: Components<F>, a: EntityAllocator) {
    }

    proof fn lemma_no_data(c: Components<F>, id: EntityId) {
    }

    proof fn lemma_table_unchanged(c1: Components<F>, c0: Components<F>, ks: Set<ComponentKind>) {
    }

    fn store_mut(c: &mut Components<F>) -> (r: &mut ComponentStore<Self>) {
        &mut c.group_io_kind
    }
}

impl ComponentType for IsReroute {
    open spec fn kind_spec() -> ComponentKind {
        ComponentKind::IsReroute
    }

    fn kind() -> (k: ComponentKind) {
        ComponentKind::IsReroute
    }
}

impl Duplicable for IsReroute {
    open spec fn same_value(a: &Self, b: &Self) -> bool {
        *a == *b
    }

    fn duplicate(&self) -> (r: Self) {
        *self
    }
}

impl<F: Copy> Component<F> for IsReroute {
    open spec fn table(c: Components<F>) -> Seq<(Generation, Option<Self>)> {
        c.is_reroute.slots()
    }

    fn store(c: &Components<F>) -> (r: &ComponentStore<Self>) {
        &c.is_reroute
    }

    proof fn lemma_table_consistent(c: Components<F>, a: EntityAllocator) {
    }

    proof fn lemma_replace_consistent(c0: Components<F>, c1: Components<F>, a: EntityAllocator) {
    }

    proof fn lemma_no_data(c: Components<F>, id: EntityId) {
    }

    proof fn lemma_table_unchanged(c1: Components<F>, c0: Components<F>, ks: Set<ComponentKind>) {
    }

    fn store_mut(c: &mut Components<F>) -> (r: &mut ComponentStore<Self>) {
        &mut c.is_reroute
    }
}

impl<F: Copy> ComponentType for ReroutePosition<F> {
    open spec fn kind_spec() -> ComponentKind {
        ComponentKind::ReroutePosition
    }

    fn kind() -> (k: ComponentKind) {
        ComponentKind::ReroutePosition
    }
}

impl<F: Copy> Duplicable for ReroutePosition<F> {
    open spec fn same_value(a: &Self, b: &Self) -> bool {
        *a == *b
    }

    fn duplicate(&self) -> (r: Self) {
        *self
    }
}

impl<F: Copy> Component<F> for ReroutePosition<F> {
    open spec fn table(c: Components<F>) -> Seq<(Generation, Option<Self>)> {
        c.reroute_position.slots()
    }

    fn store(c: &Components<F>) -> (r: &ComponentStore<Self>) {
        &c.reroute_position
    }

    proof fn lemma_table_consistent(c: Components<F>, a: EntityAllocator) {
    }

    proof fn lemma_replace_consistent(c0: Components<F>, c1: Components<F>, a: EntityAllocator) {
    }

    proof fn lemma_no_data(c: Components<F>, id: EntityId) {
    }

    proof fn lemma_table_unchanged(c1: Components<F>, c0: Components<F>, ks: Set<ComponentKind>) {
    }

    fn store_mut(c: &mut Components<F>) -> (r: &mut ComponentStore<Self>) {
        &mut c.reroute_position
    }
}

} // verus!

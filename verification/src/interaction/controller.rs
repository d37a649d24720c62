use vstd::prelude::*;
use crate::store::EntityId;
use crate::graph::NodeGraph;
use crate::graph::node::NodePosition;
use crate::graph::port::{PortDirection, PortSocketType};
use crate::types::socket_type::{SocketType, compatible};
use super::{HitTarget, Modifiers, MouseButton, SelectionState, dropped};

verus! {

/// A pointer or wheel event, with its points in screen and world space.
/// The point type `P` is the application's.
#[derive(Clone, Copy, Debug)]
pub enum InputEvent<P> {
    MouseDown { screen: P, world: P, button: MouseButton, modifiers: Modifiers },
    MouseMove { screen: P, world: P, modifiers: Modifiers },
    MouseUp { screen: P, world: P, button: MouseButton, modifiers: Modifiers },
    /// One wheel step; `zoom_in` when the wheel turned toward zooming in.
    Scroll { screen: P, zoom_in: bool },
}

/// What the application observed at the event's world point: the target
/// hit there, the members of a frame hit, the nodes inside the selection
/// box, and the connections crossed by the cut line.
#[derive(Clone, Debug)]
pub struct Observation {
    pub target: HitTarget,
    pub frame_members: Vec<EntityId>,
    pub boxed: Vec<EntityId>,
    pub cut: Vec<EntityId>,
}

/// The gesture in progress.
#[derive(Debug)]
pub enum InteractionState<P, F> {
    Idle,
    Panning { last_screen: P },
    DraggingNodes { node_ids: Vec<EntityId>, start_positions: Vec<(F, F)>, last_world: P },
    ConnectingPort { source_port: EntityId, from_output: bool, cursor_world: P },
    BoxSelecting { start_world: P, current_world: P },
    CuttingLinks { points: Vec<P> },
}

/// Port `t` is a place where a wire dragged from `source_port` can be
/// dropped: another port on the side that the wire's free end seeks, whose
/// socket type the dragged port's type (Float where it has none) can feed.
pub open spec fn drop_target_ok<F: Copy>(g: NodeGraph<F>, source_port: EntityId, from_output: bool, t: EntityId) -> bool {
    let st = match g.socket_of(source_port) {
        Some(x) => x,
        None => SocketType::Float,
    };
    &&& t != source_port
    &&& g.dir_of(t) matches Some(d) && (if from_output { d == PortDirection::Input } else { d == PortDirection::Output })
    &&& g.socket_of(t) matches Some(tt) && compatible(st, tt)
}

/// Whether port `t` is a place where a wire dragged from `source_port` can
/// be dropped.
pub fn valid_drop_target<F: Copy>(g: &NodeGraph<F>, source_port: EntityId, from_output: bool, t: EntityId) -> (r: bool)
    requires
        g.wf(),
    ensures
        r == drop_target_ok(*g, source_port, from_output, t),
{
    if t == source_port {
        return false;
    }
    let st = match g.world_ref().get::<PortSocketType>(source_port) {
        Some(x) => x.0,
        None => SocketType::Float,
    };
    let dir_ok = match g.world_ref().get::<PortDirection>(t) {
        Some(d) => if from_output { *d == PortDirection::Input } else { *d == PortDirection::Output },
        None => false,
    };
    if !dir_ok {
        return false;
    }
    match g.world_ref().get::<PortSocketType>(t) {
        Some(tt) => st.is_compatible_with(&tt.0),
        None => false,
    }
}

/// The first of `candidates` where a wire dragged from `source_port` can be
/// dropped, as when a node added from a dropped wire is joined to it.
pub fn first_drop_target<F: Copy>(g: &NodeGraph<F>, source_port: EntityId, from_output: bool, candidates: &[EntityId]) -> (r:
    Option<EntityId>)
    requires
        g.wf(),
    ensures
        match r {
            Some(t) => exists|i: int|
                0 <= i < candidates@.len() && candidates@[i] == t && drop_target_ok(*g, source_port, from_output, t) && forall|j: int|
                    0 <= j < i ==> !drop_target_ok(*g, source_port, from_output, #[trigger] candidates@[j]),
            None => forall|i: int| 0 <= i < candidates@.len() ==> !drop_target_ok(*g, source_port, from_output, #[trigger] candidates@[i]),
        },
{
    let mut i: usize = 0;
    while i < candidates.len()
        invariant
            g.wf(),
            i <= candidates@.len(),
            forall|j: int| 0 <= j < i ==> !drop_target_ok(*g, source_port, from_output, #[trigger] candidates@[j]),
        decreases candidates.len() - i,
    {
        if valid_drop_target(g, source_port, from_output, candidates[i]) {
            return Some(candidates[i]);
        }
        i = i + 1;
    }
    None
}

/// What the application should show or do after an event. Moving nodes,
/// panning and zooming are geometry, which the application performs.
#[derive(Debug)]
pub enum SideEffect<P> {
    /// Draw the wire being dragged from `source_port` to `cursor`.
    PreviewWire { source_port: EntityId, cursor: P, from_output: bool },
    /// Draw the selection box between two world points.
    BoxSelectRect { start: P, end: P },
    ClearTransient,
    SelectionChanged,
    NodesMoved,
    ConnectionCreated(EntityId),
    ConnectionFailed,
    FrameSelected(EntityId),
    FrameDeselected,
    /// Move the nodes by the step from world point `from` to `to`.
    MoveNodes { node_ids: Vec<EntityId>, from: P, to: P },
    /// Pan the view by the step from screen point `from` to `to`.
    PanBy { from: P, to: P },
    /// Zoom one step in or out about a screen point.
    ZoomAt { screen: P, zoom_in: bool },
    /// A wire from `source_port` was dropped on empty canvas at world point
    /// `at`: offer the node search there, to add a node joined to the port.
    OpenSearchMenu { source_port: EntityId, from_output: bool, at: P },
}

/// `s` after selecting, in order, the first `i` ids of `ids`.
pub open spec fn select_each(s: Seq<EntityId>, ids: Seq<EntityId>, i: nat) -> Seq<EntityId>
    decreases i,
{
    if i == 0 || i > ids.len() {
        s
    } else {
        let before = select_each(s, ids, (i - 1) as nat);
        if before.contains(ids[i - 1]) {
            before
        } else {
            before.push(ids[i - 1])
        }
    }
}

/// The selection after a left press on node `n`: shift toggles it; a plain
/// press on an unselected node selects it alone.
pub open spec fn press_on_node(s: Seq<EntityId>, n: EntityId, shift: bool) -> Seq<EntityId> {
    if shift {
        if s.contains(n) {
            dropped(s, n)
        } else {
            s.push(n)
        }
    } else if s.contains(n) {
        s
    } else {
        seq![n]
    }
}

proof fn lemma_dropped_member(s: Seq<EntityId>, id: EntityId, m: EntityId)
    ensures
        dropped(s, id).contains(m) <==> s.contains(m) && m != id,
    decreases s.len(),
{
    if s.len() > 0 {
        lemma_dropped_member(s.drop_last(), id, m);
        let before = dropped(s.drop_last(), id);
        if s.drop_last().contains(m) {
            let i = choose|i: int| 0 <= i < s.drop_last().len() && s.drop_last()[i] == m;
            assert(s[i] == m);
        }
        if s.contains(m) {
            let i = choose|i: int| 0 <= i < s.len() && s[i] == m;
            if i < s.len() - 1 {
                assert(s.drop_last()[i] == m);
            }
        }
        if s.last() != id {
            if before.contains(m) {
                let i = choose|i: int| 0 <= i < before.len() && before[i] == m;
                assert(before.push(s.last())[i] == m);
            }
            if before.push(s.last()).contains(m) {
                let i = choose|i: int| 0 <= i < before.len() + 1 && before.push(s.last())[i] == m;
                if i < before.len() {
                    assert(before[i] == m);
                }
            }
            assert(before.push(s.last())[before.len() as int] == s.last());
        }
    }
}

/// A shift left press, while idle, on a node flips whether that node is
/// selected and leaves every other node's selection as it was; all
/// selected nodes are then dragged.
pub proof fn lemma_shift_press_on_node<P, F: Copy>(
    s: Seq<EntityId>,
    s1: Seq<EntityId>,
    st1: InteractionState<P, F>,
    screen: P,
    world: P,
    modifiers: Modifiers,
    seen: Observation,
    g0: NodeGraph<F>,
    g1: NodeGraph<F>,
    effects: Seq<SideEffect<P>>,
    n: EntityId,
)
    requires
        stepped(
            s,
            InteractionState::<P, F>::Idle,
            s1,
            st1,
            InputEvent::MouseDown { screen, world, button: MouseButton::Left, modifiers },
            seen,
            g0,
            g1,
            effects,
        ),
        seen.target == HitTarget::Node(n),
        modifiers.shift,
    ensures
        g1 == g0,
        s1.contains(n) <==> !s.contains(n),
        forall|m: EntityId| m != n ==> (#[trigger] s1.contains(m) <==> s.contains(m)),
        st1 matches InteractionState::DraggingNodes { node_ids, .. } && node_ids@ == s1,
{
    if s.contains(n) {
        lemma_dropped_member(s, n, n);
        assert forall|m: EntityId| m != n implies (#[trigger] s1.contains(m) <==> s.contains(m)) by {
            lemma_dropped_member(s, n, m);
        }
    } else {
        assert(s.push(n)[s.len() as int] == n);
        assert forall|m: EntityId| m != n implies (#[trigger] s1.contains(m) <==> s.contains(m)) by {
            if s.contains(m) {
                let i = choose|i: int| 0 <= i < s.len() && s[i] == m;
                assert(s.push(n)[i] == m);
            }
            if s.push(n).contains(m) {
                let i = choose|i: int| 0 <= i < s.len() + 1 && s.push(n)[i] == m;
                assert(i < s.len());
                assert(s[i] == m);
            }
        }
    }
}

/// A plain left press, while idle, on a node that is already selected keeps
/// the whole selection and starts dragging every selected node; on a node
/// that is not selected it makes that node the only selected one and drags
/// it alone. The graph is not changed.
pub proof fn lemma_plain_press_on_node<P, F: Copy>(
    s: Seq<EntityId>,
    s1: Seq<EntityId>,
    st1: InteractionState<P, F>,
    screen: P,
    world: P,
    modifiers: Modifiers,
    seen: Observation,
    g0: NodeGraph<F>,
    g1: NodeGraph<F>,
    effects: Seq<SideEffect<P>>,
    n: EntityId,
)
    requires
        stepped(
            s,
            InteractionState::<P, F>::Idle,
            s1,
            st1,
            InputEvent::MouseDown { screen, world, button: MouseButton::Left, modifiers },
            seen,
            g0,
            g1,
            effects,
        ),
        seen.target == HitTarget::Node(n),
        !modifiers.shift,
    ensures
        g1 == g0,
        s.contains(n) ==> s1 == s && (st1 matches InteractionState::DraggingNodes { node_ids, .. } && node_ids@ == s),
        !s.contains(n) ==> s1 == seq![n] && (st1 matches InteractionState::DraggingNodes { node_ids, .. } && node_ids@ == seq![n]),
{
}

/// `starts` holds the position of each node of `ids` in `g`, where it has
/// one.
pub open spec fn start_positions_of<F: Copy>(g: NodeGraph<F>, ids: Seq<EntityId>, starts: Seq<(F, F)>) -> bool {
    &&& starts.len() == ids.len()
    &&& forall|k: int|
        0 <= k < ids.len() ==> (g.wd().comp::<NodePosition<F>>(ids[k]) matches Some(p) ==> #[trigger] starts[k] == (
            p.x,
            p.y,
        ))
}

/// The state is `DraggingNodes` of exactly the nodes `ids`, which started
/// at their positions in `g`, last seen at `at`.
pub open spec fn dragging<P, F: Copy>(st: InteractionState<P, F>, g: NodeGraph<F>, ids: Seq<EntityId>, at: P) -> bool {
    st matches InteractionState::DraggingNodes { node_ids, start_positions, last_world } && node_ids@ == ids
        && start_positions_of(g, ids, start_positions@) && last_world == at
}

/// Graph `g1` is `g0` after disconnecting, in order, the connections `cs`:
/// every one of them that was a connection is gone.
pub open spec fn cut_all<F: Copy>(g0: NodeGraph<F>, g1: NodeGraph<F>, cs: Seq<EntityId>) -> bool {
    forall|k: int| 0 <= k < cs.len() && (#[trigger] g0.endpoints(cs[k])) is Some ==> !g1.wd().alive(cs[k])
}

/// The outcome of a left press while idle at world point `world`, on the
/// target `seen.target`: a port starts a connection; a node updates the
/// selection and starts dragging it; a frame selects its members and
/// starts dragging them; empty canvas pans the view from `screen`, or,
/// with shift held, starts a selection box.
pub open spec fn left_press<P, F: Copy>(
    s: Seq<EntityId>,
    st0: InteractionState<P, F>,
    s1: Seq<EntityId>,
    st1: InteractionState<P, F>,
    screen: P,
    world: P,
    modifiers: Modifiers,
    seen: Observation,
    g: NodeGraph<F>,
    effects: Seq<SideEffect<P>>,
) -> bool {
    match seen.target {
        HitTarget::Port(p) => {
            &&& st1 == InteractionState::<P, F>::ConnectingPort {
                source_port: p,
                from_output: g.dir_of(p) == Some(PortDirection::Output),
                cursor_world: world,
            }
            &&& s1 == s
            &&& effects.len() == 1 && effects[0] is FrameDeselected
        },
        HitTarget::Node(n) => {
            &&& s1 == press_on_node(s, n, modifiers.shift)
            &&& dragging(st1, g, s1, world)
            &&& effects.len() == 2 && effects[0] is FrameDeselected && effects[1] is SelectionChanged
        },
        HitTarget::Frame(f) => {
            &&& s1 == select_each(
                if modifiers.shift { s } else { Seq::empty() },
                seen.frame_members@,
                seen.frame_members@.len(),
            )
            &&& dragging(st1, g, s1, world)
            &&& effects.len() == 2 && effects[0] == SideEffect::<P>::FrameSelected(f) && effects[1] is SelectionChanged
        },
        HitTarget::Nothing => {
            &&& s1 == if modifiers.shift { s } else { Seq::empty() }
            &&& st1 == if modifiers.shift {
                InteractionState::<P, F>::BoxSelecting { start_world: world, current_world: world }
            } else {
                InteractionState::<P, F>::Panning { last_screen: screen }
            }
            &&& effects.len() == if modifiers.shift { 1int } else { 2int }
            &&& effects[0] is FrameDeselected
            &&& !modifiers.shift ==> effects[1] is SelectionChanged
        },
        HitTarget::Connection(_) => {
            &&& st1 == st0
            &&& s1 == s
            &&& effects.len() == 1 && effects[0] is FrameDeselected
        },
    }
}

/// No change: same gesture, same selection, same graph, no effect.
pub open spec fn unchanged<P, F: Copy>(
    s: Seq<EntityId>,
    st0: InteractionState<P, F>,
    s1: Seq<EntityId>,
    st1: InteractionState<P, F>,
    g0: NodeGraph<F>,
    g1: NodeGraph<F>,
    effects: Seq<SideEffect<P>>,
) -> bool {
    st1 == st0 && s1 == s && g1 == g0 && effects.len() == 0
}

/// One step of the gesture machine: from gesture `st0` with selection `s`
/// on graph `g0`, event `ev` with observation `seen` leads to gesture
/// `st1`, selection `s1`, graph `g1` and `effects`.
pub open spec fn stepped<P, F: Copy>(
    s: Seq<EntityId>,
    st0: InteractionState<P, F>,
    s1: Seq<EntityId>,
    st1: InteractionState<P, F>,
    ev: InputEvent<P>,
    seen: Observation,
    g0: NodeGraph<F>,
    g1: NodeGraph<F>,
    effects: Seq<SideEffect<P>>,
) -> bool {
    match st0 {
        InteractionState::Idle => match ev {
            InputEvent::MouseDown { screen, world, button: MouseButton::Left, modifiers } => left_press(
                s,
                st0,
                s1,
                st1,
                screen,
                world,
                modifiers,
                seen,
                g0,
                effects,
            ) && g1 == g0,
            InputEvent::MouseDown { screen, button: MouseButton::Middle, .. } => st1
                == InteractionState::<P, F>::Panning { last_screen: screen } && s1 == s && g1 == g0 && effects.len()
                == 0,
            InputEvent::MouseDown { world, button: MouseButton::Right, modifiers, .. } => if modifiers.ctrl {
                &&& st1 matches InteractionState::CuttingLinks { points } && points@ == seq![world]
                &&& s1 == s && g1 == g0 && effects.len() == 0
            } else {
                unchanged(s, st0, s1, st1, g0, g1, effects)
            },
            InputEvent::Scroll { screen, zoom_in } => st1 == st0 && s1 == s && g1 == g0 && effects == seq![
                SideEffect::ZoomAt { screen, zoom_in },
            ],
            _ => unchanged(s, st0, s1, st1, g0, g1, effects),
        },
        InteractionState::Panning { last_screen } => match ev {
            InputEvent::MouseMove { screen, .. } => st1 == InteractionState::<P, F>::Panning { last_screen: screen }
                && s1 == s && g1 == g0 && effects == seq![SideEffect::PanBy { from: last_screen, to: screen }],
            InputEvent::MouseUp { button: MouseButton::Middle, .. } => st1 is Idle && s1 == s && g1 == g0
                && effects.len() == 0,
            InputEvent::MouseUp { button: MouseButton::Left, .. } => st1 is Idle && s1 == s && g1 == g0
                && effects.len() == 0,
            _ => unchanged(s, st0, s1, st1, g0, g1, effects),
        },
        InteractionState::DraggingNodes { node_ids, start_positions, last_world } => match ev {
            InputEvent::MouseMove { world, .. } => {
                &&& st1 matches InteractionState::DraggingNodes { node_ids: ids1, start_positions: starts1, last_world: w1 }
                    && ids1@ == node_ids@ && starts1@ == start_positions@ && w1 == world
                &&& s1 == s && g1 == g0
                &&& effects.len() == 2
                &&& effects[0] matches SideEffect::MoveNodes { node_ids: moved, from, to } && moved@ == node_ids@
                    && from == last_world && to == world
                &&& effects[1] is NodesMoved
            },
            InputEvent::MouseUp { button: MouseButton::Left, .. } => st1 is Idle && s1 == s && g1 == g0
                && effects.len() == 1 && effects[0] is NodesMoved,
            _ => unchanged(s, st0, s1, st1, g0, g1, effects),
        },
        InteractionState::ConnectingPort { source_port, from_output, .. } => match ev {
            InputEvent::MouseMove { world, .. } => st1 == InteractionState::<P, F>::ConnectingPort {
                source_port,
                from_output,
                cursor_world: world,
            } && s1 == s && g1 == g0 && effects == seq![
                SideEffect::PreviewWire { source_port, cursor: world, from_output },
            ],
            InputEvent::MouseUp { world, button: MouseButton::Left, .. } => {
                &&& st1 is Idle && s1 == s
                &&& effects.len() >= 1 && effects.last() is ClearTransient
                &&& match seen.target {
                    HitTarget::Port(t) if t != source_port => match g0.validation(source_port, t) {
                        Ok((o, i)) => effects.len() == 2 && (effects[0] matches SideEffect::ConnectionCreated(c)
                            && !g0.wd().alive(c)
                            && g1.endpoints(c) == Some(crate::graph::connection::ConnectionEndpoints { source_port: o, target_port: i })
                            && (forall|e: EntityId| #[trigger] g0.conns_of(i).contains(e) ==> !g1.wd().alive(e))
                            && (forall|e: EntityId|
                                e != c && !g0.conns_of(i).contains(e) ==> #[trigger] g1.endpoints(e) == g0.endpoints(e))),
                        Err(_) => g1 == g0 && effects[0] is ConnectionFailed && if drop_target_ok(g0, source_port, from_output, t) {
                            effects.len() == 2
                        } else {
                            effects.len() == 3 && effects[1] == SideEffect::OpenSearchMenu { source_port, from_output, at: world }
                        },
                    },
                    _ => effects.len() == 2 && effects[0] == SideEffect::OpenSearchMenu {
                        source_port,
                        from_output,
                        at: world,
                    } && g1 == g0,
                }
            },
            _ => unchanged(s, st0, s1, st1, g0, g1, effects),
        },
        InteractionState::BoxSelecting { start_world, .. } => match ev {
            InputEvent::MouseMove { world, .. } => st1 == InteractionState::<P, F>::BoxSelecting {
                start_world,
                current_world: world,
            } && s1 == s && g1 == g0 && effects == seq![SideEffect::BoxSelectRect { start: start_world, end: world }],
            InputEvent::MouseUp { button: MouseButton::Left, modifiers, .. } => {
                &&& st1 is Idle && g1 == g0
                &&& s1 == if modifiers.shift { select_each(s, seen.boxed@, seen.boxed@.len()) } else { seen.boxed@ }
                &&& effects.len() == 2 && effects[0] is ClearTransient && effects[1] is SelectionChanged
            },
            _ => unchanged(s, st0, s1, st1, g0, g1, effects),
        },
        InteractionState::CuttingLinks { points } => match ev {
            InputEvent::MouseMove { world, .. } => {
                &&& st1 matches InteractionState::CuttingLinks { points: p1 } && p1@ == points@.push(world)
                &&& s1 == s && g1 == g0 && effects.len() == 0
            },
            InputEvent::MouseUp { button: MouseButton::Right, .. } => {
                &&& st1 is Idle && s1 == s
                &&& cut_all(g0, g1, seen.cut@)
                &&& effects.len() == 1 && effects[0] is ClearTransient
            },
            _ => unchanged(s, st0, s1, st1, g0, g1, effects),
        },
    }
}

/// Drives gestures on a graph: which gesture is in progress and what is
/// selected.
pub struct InteractionController<P, F> {
    pub state: InteractionState<P, F>,
    pub selection: SelectionState,
}

impl<P: Copy, F: Copy + Default> InteractionController<P, F> {
    pub fn new() -> (r: Self)
        ensures
            r.state is Idle,
            r.selection.selected@.len() == 0,
    {
        InteractionController { state: InteractionState::Idle, selection: SelectionState::new() }
    }

    /// Positions of the nodes `ids`, the default where a node has none.
    fn positions_of(graph: &NodeGraph<F>, ids: &Vec<EntityId>) -> (r: Vec<(F, F)>)
        requires
            graph.wf(),
        ensures
            start_positions_of(*graph, ids@, r@),
    {
        let mut r: Vec<(F, F)> = Vec::new();
        let mut i: usize = 0;
        while i < ids.len()
            invariant
                graph.wf(),
                i <= ids@.len(),
                r@.len() == i,
                forall|k: int|
                    0 <= k < i ==> (graph.wd().comp::<NodePosition<F>>(ids@[k]) matches Some(p) ==> #[trigger] r@[k]
                        == (p.x, p.y)),
            decreases ids.len() - i,
        {
            let pos = match graph.world_ref().get::<NodePosition<F>>(ids[i]) {
                Some(p) => (p.x, p.y),
                None => (F::default(), F::default()),
            };
            r.push(pos);
            i = i + 1;
        }
        r
    }

    fn select_all_of(&mut self, ids: &Vec<EntityId>)
        ensures
            final(self).selection.selected@ == select_each(old(self).selection.selected@, ids@, ids@.len()),
            final(self).state == old(self).state,
    {
        let mut i: usize = 0;
        while i < ids.len()
            invariant
                i <= ids@.len(),
                self.selection.selected@ == select_each(old(self).selection.selected@, ids@, i as nat),
                self.state == old(self).state,
            decreases ids.len() - i,
        {
            self.selection.select(ids[i]);
            i = i + 1;
        }
    }

    /// Handle one input event, given what the application observed at its
    /// point; returns what the application should show or do.
    pub fn handle_event(&mut self, event: InputEvent<P>, seen: &Observation, graph: &mut NodeGraph<F>) -> (effects: Vec<SideEffect<P>>)
        requires
            old(graph).wf(),
            old(graph).wd().room() >= 1,
        ensures
            final(graph).wf(),
            stepped(
                old(self).selection.selected@,
                old(self).state,
                final(self).selection.selected@,
                final(self).state,
                event,
                *seen,
                *old(graph),
                *final(graph),
                effects@,
            ),
    {
        let mut st: InteractionState<P, F> = InteractionState::Idle;
        std::mem::swap(&mut st, &mut self.state);
        let mut effects: Vec<SideEffect<P>> = Vec::new();
        match st {
            InteractionState::Idle => {
                match event {
                    InputEvent::MouseDown { screen, world, button: MouseButton::Left, modifiers } => {
                        effects = self.press_left(screen, world, modifiers, seen, graph);
                    },
                    InputEvent::MouseDown { screen, button: MouseButton::Middle, .. } => {
                        self.state = InteractionState::Panning { last_screen: screen };
                    },
                    InputEvent::MouseDown { world, button: MouseButton::Right, modifiers, .. } => {
                        if modifiers.ctrl {
                            let mut points: Vec<P> = Vec::new();
                            points.push(world);
                            proof {
                                assert(points@ =~= seq![world]);
                            }
                            self.state = InteractionState::CuttingLinks { points };
                        }
                    },
                    InputEvent::Scroll { screen, zoom_in } => {
                        effects.push(SideEffect::ZoomAt { screen, zoom_in });
                    },
                    _ => {},
                }
            },
            InteractionState::Panning { last_screen } => {
                match event {
                    InputEvent::MouseMove { screen, .. } => {
                        effects.push(SideEffect::PanBy { from: last_screen, to: screen });
                        self.state = InteractionState::Panning { last_screen: screen };
                    },
                    InputEvent::MouseUp { button: MouseButton::Middle, .. } => {},
                    InputEvent::MouseUp { button: MouseButton::Left, .. } => {},
                    _ => {
                        self.state = InteractionState::Panning { last_screen };
                    },
                }
            },
            InteractionState::DraggingNodes { node_ids, start_positions, last_world } => {
                match event {
                    InputEvent::MouseMove { world, .. } => {
                        let moved = crate::store::component::copy_ids(node_ids.as_slice());
                        effects.push(SideEffect::MoveNodes { node_ids: moved, from: last_world, to: world });
                        effects.push(SideEffect::NodesMoved);
                        self.state = InteractionState::DraggingNodes { node_ids, start_positions, last_world: world };
                    },
                    InputEvent::MouseUp { button: MouseButton::Left, .. } => {
                        effects.push(SideEffect::NodesMoved);
                    },
                    _ => {
                        self.state = InteractionState::DraggingNodes { node_ids, start_positions, last_world };
                    },
                }
            },
            InteractionState::ConnectingPort { source_port, from_output, cursor_world } => {
                match event {
                    InputEvent::MouseMove { world, .. } => {
                        effects.push(SideEffect::PreviewWire { source_port, cursor: world, from_output });
                        self.state = InteractionState::ConnectingPort { source_port, from_output, cursor_world: world };
                    },
                    InputEvent::MouseUp { world, button: MouseButton::Left, .. } => {
                        match seen.target {
                            HitTarget::Port(target_port) => {
                                if target_port != source_port {
                                    match graph.connect(source_port, target_port) {
                                        Ok(conn_id) => {
                                            effects.push(SideEffect::ConnectionCreated(conn_id));
                                        },
                                        Err(_) => {
                                            effects.push(SideEffect::ConnectionFailed);
                                            if !valid_drop_target(graph, source_port, from_output, target_port) {
                                                effects.push(SideEffect::OpenSearchMenu { source_port, from_output, at: world });
                                            }
                                        },
                                    }
                                } else {
                                    effects.push(SideEffect::OpenSearchMenu { source_port, from_output, at: world });
                                }
                            },
                            _ => {
                                effects.push(SideEffect::OpenSearchMenu { source_port, from_output, at: world });
                            },
                        }
                        effects.push(SideEffect::ClearTransient);
                    },
                    _ => {
                        self.state = InteractionState::ConnectingPort { source_port, from_output, cursor_world };
                    },
                }
            },
            InteractionState::BoxSelecting { start_world, current_world } => {
                match event {
                    InputEvent::MouseMove { world, .. } => {
                        effects.push(SideEffect::BoxSelectRect { start: start_world, end: world });
                        self.state = InteractionState::BoxSelecting { start_world, current_world: world };
                    },
                    InputEvent::MouseUp { button: MouseButton::Left, modifiers, .. } => {
                        if modifiers.shift {
                            self.select_all_of(&seen.boxed);
                        } else {
                            self.selection.set(crate::store::component::copy_ids(seen.boxed.as_slice()));
                        }
                        effects.push(SideEffect::ClearTransient);
                        effects.push(SideEffect::SelectionChanged);
                    },
                    _ => {
                        self.state = InteractionState::BoxSelecting { start_world, current_world };
                    },
                }
            },
            InteractionState::CuttingLinks { points } => {
                match event {
                    InputEvent::MouseMove { world, .. } => {
                        let mut points = points;
                        points.push(world);
                        self.state = InteractionState::CuttingLinks { points };
                    },
                    InputEvent::MouseUp { button: MouseButton::Right, .. } => {
                        let ghost g0 = *graph;
                        let mut i: usize = 0;
                        while i < seen.cut.len()
                            invariant
                                graph.wf(),
                                i <= seen.cut@.len(),
                                graph.wd().comps() == g0.wd().comps(),
                                forall|e: EntityId|
                                    !seen.cut@.subrange(0, i as int).contains(e) ==> #[trigger] graph.wd().alive(e)
                                        == g0.wd().alive(e),
                                forall|k: int|
                                    0 <= k < i && (#[trigger] g0.endpoints(seen.cut@[k])) is Some ==> !graph.wd().alive(
                                        seen.cut@[k],
                                    ),
                            decreases seen.cut.len() - i,
                        {
                            let ghost gi = *graph;
                            let c = seen.cut[i];
                            graph.disconnect(c);
                            proof {
                                assert(seen.cut@.subrange(0, i as int + 1) =~= seen.cut@.subrange(0, i as int).push(c));
                                if !seen.cut@.subrange(0, i as int).contains(c) {
                                    assert(gi.endpoints(c) == g0.endpoints(c));
                                } else {
                                    let k = choose|k: int| 0 <= k < i && seen.cut@.subrange(0, i as int)[k] == c;
                                    assert(seen.cut@[k] == c);
                                }
                                let sub = seen.cut@.subrange(0, i as int);
                                let sub1 = seen.cut@.subrange(0, i as int + 1);
                                assert forall|e: EntityId| !sub1.contains(e) implies #[trigger] graph.wd().alive(e)
                                    == g0.wd().alive(e) by {
                                    if sub.contains(e) {
                                        let k = choose|k: int| 0 <= k < sub.len() && sub[k] == e;
                                        assert(sub1[k] == e);
                                    }
                                    if e == c {
                                        assert(sub1[i as int] == c);
                                    }
                                }
                                assert forall|k: int|
                                    0 <= k < i + 1 && (#[trigger] g0.endpoints(seen.cut@[k])) is Some implies !graph.wd().alive(
                                    seen.cut@[k],
                                ) by {
                                    if k < i {
                                        assert(!gi.wd().alive(seen.cut@[k]));
                                    }
                                }
                            }
                            i = i + 1;
                        }
                        effects.push(SideEffect::ClearTransient);
                    },
                    _ => {
                        self.state = InteractionState::CuttingLinks { points };
                    },
                }
            },
        }
        effects
    }

    /// A left press while idle, on what `seen.target` says was hit.
    fn press_left(&mut self, screen: P, world: P, modifiers: Modifiers, seen: &Observation, graph: &NodeGraph<F>) -> (effects: Vec<SideEffect<P>>)
        requires
            graph.wf(),
        ensures
            left_press(
                old(self).selection.selected@,
                old(self).state,
                final(self).selection.selected@,
                final(self).state,
                screen,
                world,
                modifiers,
                *seen,
                *graph,
                effects@,
            ),
    {
        let mut effects: Vec<SideEffect<P>> = Vec::new();
        match seen.target {
            HitTarget::Frame(_) => {},
            _ => {
                effects.push(SideEffect::FrameDeselected);
            },
        }
        match seen.target {
            HitTarget::Port(port_id) => {
                let from_output = match graph.world_ref().get::<PortDirection>(port_id) {
                    Some(d) => *d == PortDirection::Output,
                    None => false,
                };
                self.state = InteractionState::ConnectingPort { source_port: port_id, from_output, cursor_world: world };
            },
            HitTarget::Node(node_id) => {
                if modifiers.shift {
                    self.selection.toggle(node_id);
                } else if !self.selection.is_selected(node_id) {
                    self.selection.clear();
                    self.selection.select(node_id);
                    proof {
                        assert(self.selection.selected@ =~= seq![node_id]);
                    }
                }
                effects.push(SideEffect::SelectionChanged);
                let node_ids = crate::store::component::copy_ids(self.selection.selected.as_slice());
                let start_positions = Self::positions_of(graph, &node_ids);
                self.state = InteractionState::DraggingNodes { node_ids, start_positions, last_world: world };
            },
            HitTarget::Frame(frame_id) => {
                if !modifiers.shift {
                    self.selection.clear();
                    proof {
                        assert(self.selection.selected@ =~= Seq::<EntityId>::empty());
                    }
                }
                self.select_all_of(&seen.frame_members);
                effects.push(SideEffect::FrameSelected(frame_id));
                effects.push(SideEffect::SelectionChanged);
                let node_ids = crate::store::component::copy_ids(self.selection.selected.as_slice());
                let start_positions = Self::positions_of(graph, &node_ids);
                self.state = InteractionState::DraggingNodes { node_ids, start_positions, last_world: world };
            },
            HitTarget::Nothing => {
                if !modifiers.shift {
                    self.selection.clear();
                    proof {
                        assert(self.selection.selected@ =~= Seq::<EntityId>::empty());
                    }
                    effects.push(SideEffect::SelectionChanged);
                    self.state = InteractionState::Panning { last_screen: screen };
                } else {
                    self.state = InteractionState::BoxSelecting { start_world: world, current_world: world };
                }
            },
            HitTarget::Connection(_) => {},
        }
        effects
    }
}

} // verus!

use nodegraph_core::graph::node::NodePosition;
use nodegraph_core::graph::port::PortDirection;
use nodegraph_core::graph::NodeGraph;
use nodegraph_core::interaction::controller::{
    first_drop_target,
    InputEvent, InteractionController, InteractionState, Observation, SideEffect,
};
use nodegraph_core::interaction::{HitTarget, Modifiers, MouseButton};
use nodegraph_core::store::EntityId;
use nodegraph_core::types::socket_type::SocketType;

type P = (f64, f64);

fn seen(target: HitTarget) -> Observation {
    Observation { target, frame_members: vec![], boxed: vec![], cut: vec![] }
}

fn down(world: P, button: MouseButton, modifiers: Modifiers) -> InputEvent<P> {
    InputEvent::MouseDown { screen: world, world, button, modifiers }
}

fn up(world: P, button: MouseButton, modifiers: Modifiers) -> InputEvent<P> {
    InputEvent::MouseUp { screen: world, world, button, modifiers }
}

fn mv(world: P) -> InputEvent<P> {
    InputEvent::MouseMove { screen: world, world, modifiers: Modifiers::default() }
}

fn two_nodes(graph: &mut NodeGraph<f64>, target_type: SocketType) -> (EntityId, EntityId, EntityId, EntityId) {
    let a = graph.add_node("A", (0.0, 0.0));
    let out = graph.add_port(a, PortDirection::Output, SocketType::Float, "Out");
    let b = graph.add_node("B", (300.0, 0.0));
    let inp = graph.add_port(b, PortDirection::Input, target_type, "In");
    (a, out, b, inp)
}

fn make_test_graph(graph: &mut NodeGraph<f64>) -> (EntityId, EntityId, EntityId) {
    let n1 = graph.add_node("Node 1", (0.0, 0.0));
    graph.add_port(n1, PortDirection::Input, SocketType::Float, "A");
    graph.add_port(n1, PortDirection::Input, SocketType::Float, "B");
    graph.add_port(n1, PortDirection::Output, SocketType::Float, "Out");
    let n2 = graph.add_node("Node 2", (300.0, 0.0));
    graph.add_port(n2, PortDirection::Input, SocketType::Float, "In");
    graph.add_port(n2, PortDirection::Output, SocketType::Float, "X");
    graph.add_port(n2, PortDirection::Output, SocketType::Float, "Y");
    let n3 = graph.add_node("Node 3", (600.0, 200.0));
    graph.add_port(n3, PortDirection::Input, SocketType::Float, "In");
    graph.add_port(n3, PortDirection::Output, SocketType::Float, "Out");
    (n1, n2, n3)
}

fn shift() -> Modifiers {
    Modifiers { shift: true, ctrl: false, alt: false }
}

fn boxed(ids: Vec<EntityId>) -> Observation {
    Observation { target: HitTarget::Nothing, frame_members: vec![], boxed: ids, cut: vec![] }
}

#[test]
fn connection_drag_creates_connection() {
    let mut graph: NodeGraph<f64> = NodeGraph::new();
    let (_a, out, _b, inp) = two_nodes(&mut graph, SocketType::Float);
    let mut ctl: InteractionController<P, f64> = InteractionController::new();

    let fx = ctl.handle_event(down((180.0, 40.0), MouseButton::Left, Modifiers::default()), &seen(HitTarget::Port(out)), &mut graph);
    assert!(matches!(fx[0], SideEffect::FrameDeselected));
    assert!(matches!(ctl.state, InteractionState::ConnectingPort { source_port, from_output: true, .. } if source_port == out));

    let fx = ctl.handle_event(mv((150.0, 0.0)), &seen(HitTarget::Nothing), &mut graph);
    assert!(fx.iter().any(|e| matches!(e, SideEffect::PreviewWire { source_port, from_output: true, .. } if *source_port == out)));

    let fx = ctl.handle_event(up((300.0, 40.0), MouseButton::Left, Modifiers::default()), &seen(HitTarget::Port(inp)), &mut graph);
    assert!(matches!(ctl.state, InteractionState::Idle));
    assert!(fx.iter().any(|e| matches!(e, SideEffect::ConnectionCreated(_))));
    assert!(matches!(fx[1], SideEffect::ClearTransient));
    assert_eq!(graph.connection_count(), 1);
}

#[test]
fn connection_drag_incompatible_fails() {
    let mut graph: NodeGraph<f64> = NodeGraph::new();
    let (_a, out, _b, inp) = two_nodes(&mut graph, SocketType::Shader);
    let mut ctl: InteractionController<P, f64> = InteractionController::new();
    ctl.handle_event(down((180.0, 40.0), MouseButton::Left, Modifiers::default()), &seen(HitTarget::Port(out)), &mut graph);
    let fx = ctl.handle_event(up((300.0, 40.0), MouseButton::Left, Modifiers::default()), &seen(HitTarget::Port(inp)), &mut graph);
    assert!(matches!(ctl.state, InteractionState::Idle));
    assert!(fx.iter().any(|e| matches!(e, SideEffect::ConnectionFailed)));
    assert_eq!(graph.connection_count(), 0);
}

#[test]
fn connection_drag_release_on_empty_cancels() {
    let mut graph: NodeGraph<f64> = NodeGraph::new();
    let (_a, out, _b, _inp) = two_nodes(&mut graph, SocketType::Float);
    let mut ctl: InteractionController<P, f64> = InteractionController::new();
    ctl.handle_event(down((180.0, 40.0), MouseButton::Left, Modifiers::default()), &seen(HitTarget::Port(out)), &mut graph);
    let fx = ctl.handle_event(up((999.0, 999.0), MouseButton::Left, Modifiers::default()), &seen(HitTarget::Nothing), &mut graph);
    assert!(matches!(ctl.state, InteractionState::Idle));
    assert_eq!(fx.len(), 2);
    assert!(matches!(fx[0], SideEffect::OpenSearchMenu { source_port, from_output: true, at: (999.0, 999.0) } if source_port == out));
    assert!(matches!(fx[1], SideEffect::ClearTransient));
    assert_eq!(graph.connection_count(), 0);
}

#[test]
fn pan_with_left_mouse_on_empty_canvas() {
    let mut graph: NodeGraph<f64> = NodeGraph::new();
    make_test_graph(&mut graph);
    let mut ctl: InteractionController<P, f64> = InteractionController::new();

    ctl.handle_event(down((1000.0, 1000.0), MouseButton::Left, Modifiers::default()), &seen(HitTarget::Nothing), &mut graph);
    assert!(matches!(ctl.state, InteractionState::Panning { .. }));

    let fx = ctl.handle_event(mv((1050.0, 1020.0)), &seen(HitTarget::Nothing), &mut graph);
    match fx[0] {
        SideEffect::PanBy { from, to } => {
            assert_eq!(to.0 - from.0, 50.0);
            assert_eq!(to.1 - from.1, 20.0);
        }
        _ => panic!("expected a pan"),
    }

    ctl.handle_event(up((1050.0, 1020.0), MouseButton::Left, Modifiers::default()), &seen(HitTarget::Nothing), &mut graph);
    assert!(matches!(ctl.state, InteractionState::Idle));
}

#[test]
fn shift_left_mouse_on_empty_canvas_box_selects() {
    let mut graph: NodeGraph<f64> = NodeGraph::new();
    make_test_graph(&mut graph);
    let mut ctl: InteractionController<P, f64> = InteractionController::new();
    ctl.handle_event(down((1000.0, 1000.0), MouseButton::Left, shift()), &seen(HitTarget::Nothing), &mut graph);
    assert!(matches!(ctl.state, InteractionState::BoxSelecting { .. }));
}

#[test]
fn box_selection() {
    let mut graph: NodeGraph<f64> = NodeGraph::new();
    let (n1, n2, _n3) = make_test_graph(&mut graph);
    let mut ctl: InteractionController<P, f64> = InteractionController::new();

    ctl.handle_event(down((-20.0, -20.0), MouseButton::Left, shift()), &seen(HitTarget::Nothing), &mut graph);
    assert!(matches!(ctl.state, InteractionState::BoxSelecting { .. }));

    let fx = ctl.handle_event(mv((500.0, 150.0)), &seen(HitTarget::Nothing), &mut graph);
    assert!(fx.iter().any(|e| matches!(e, SideEffect::BoxSelectRect { .. })));

    // The box from (-20, -20) to (500, 150) covers the first two nodes.
    ctl.handle_event(up((500.0, 150.0), MouseButton::Left, shift()), &boxed(vec![n1, n2]), &mut graph);
    assert!(matches!(ctl.state, InteractionState::Idle));
    assert_eq!(ctl.selection.selected.len(), 2);
}

#[test]
fn box_selection_shift_adds() {
    let mut graph: NodeGraph<f64> = NodeGraph::new();
    let (n1, n2, n3) = make_test_graph(&mut graph);
    let mut ctl: InteractionController<P, f64> = InteractionController::new();

    ctl.handle_event(down((-20.0, -20.0), MouseButton::Left, shift()), &seen(HitTarget::Nothing), &mut graph);
    ctl.handle_event(mv((500.0, 150.0)), &seen(HitTarget::Nothing), &mut graph);
    ctl.handle_event(up((500.0, 150.0), MouseButton::Left, shift()), &boxed(vec![n1, n2]), &mut graph);
    assert_eq!(ctl.selection.selected.len(), 2);

    ctl.handle_event(down((550.0, 150.0), MouseButton::Left, shift()), &seen(HitTarget::Nothing), &mut graph);
    ctl.handle_event(up((800.0, 400.0), MouseButton::Left, shift()), &boxed(vec![n3]), &mut graph);
    assert_eq!(ctl.selection.selected.len(), 3);
}

#[test]
fn ctrl_rmb_starts_cutting_mode() {
    let mut graph: NodeGraph<f64> = NodeGraph::new();
    make_test_graph(&mut graph);
    let mut ctl: InteractionController<P, f64> = InteractionController::new();
    let ctrl = Modifiers { shift: false, ctrl: true, alt: false };
    ctl.handle_event(down((100.0, 100.0), MouseButton::Right, ctrl), &seen(HitTarget::Nothing), &mut graph);
    assert!(matches!(ctl.state, InteractionState::CuttingLinks { .. }));
}

#[test]
fn cutting_links_disconnects_intersected() {
    let mut graph: NodeGraph<f64> = NodeGraph::new();
    let (_a, out, _b, inp) = two_nodes(&mut graph, SocketType::Float);
    let conn = graph.connect(out, inp).unwrap();
    assert_eq!(graph.connection_count(), 1);
    let mut ctl: InteractionController<P, f64> = InteractionController::new();
    let ctrl = Modifiers { shift: false, ctrl: true, alt: false };
    ctl.handle_event(down((240.0, -10.0), MouseButton::Right, ctrl), &seen(HitTarget::Nothing), &mut graph);
    ctl.handle_event(mv((240.0, 90.0)), &seen(HitTarget::Nothing), &mut graph);
    // The cut line crosses the wire.
    let obs = Observation { target: HitTarget::Nothing, frame_members: vec![], boxed: vec![], cut: vec![conn] };
    ctl.handle_event(up((240.0, 90.0), MouseButton::Right, ctrl), &obs, &mut graph);
    assert!(matches!(ctl.state, InteractionState::Idle));
    assert_eq!(graph.connection_count(), 0);
}

#[test]
fn press_on_node_selects_and_drags() {
    let mut graph: NodeGraph<f64> = NodeGraph::new();
    let (a, _out, b, _inp) = two_nodes(&mut graph, SocketType::Float);
    let mut ctl: InteractionController<P, f64> = InteractionController::new();
    ctl.selection.select(b);

    let fx = ctl.handle_event(down((10.0, 10.0), MouseButton::Left, Modifiers::default()), &seen(HitTarget::Node(a)), &mut graph);
    assert_eq!(ctl.selection.selected, vec![a]);
    assert!(matches!(fx[1], SideEffect::SelectionChanged));
    match &ctl.state {
        InteractionState::DraggingNodes { node_ids, start_positions, last_world } => {
            assert_eq!(node_ids, &vec![a]);
            assert_eq!(start_positions, &vec![(0.0, 0.0)]);
            assert_eq!(*last_world, (10.0, 10.0));
        }
        _ => panic!("expected dragging"),
    }

    let fx = ctl.handle_event(mv((60.0, 30.0)), &seen(HitTarget::Nothing), &mut graph);
    match &fx[0] {
        SideEffect::MoveNodes { node_ids, from, to } => {
            assert_eq!(node_ids, &vec![a]);
            assert_eq!((*from, *to), ((10.0, 10.0), (60.0, 30.0)));
        }
        _ => panic!("expected a move"),
    }
    assert!(matches!(fx[1], SideEffect::NodesMoved));
    ctl.handle_event(up((60.0, 30.0), MouseButton::Left, Modifiers::default()), &seen(HitTarget::Nothing), &mut graph);
    assert!(matches!(ctl.state, InteractionState::Idle));
    let pos = graph.world.get::<NodePosition<f64>>(a).unwrap();
    assert_eq!((pos.x, pos.y), (0.0, 0.0));
}

#[test]
fn shift_press_toggles_node_selection() {
    let mut graph: NodeGraph<f64> = NodeGraph::new();
    let (a, _out, b, _inp) = two_nodes(&mut graph, SocketType::Float);
    let mut ctl: InteractionController<P, f64> = InteractionController::new();
    ctl.selection.select(a);
    let shift = Modifiers { shift: true, ctrl: false, alt: false };
    ctl.handle_event(down((0.0, 0.0), MouseButton::Left, shift), &seen(HitTarget::Node(b)), &mut graph);
    assert_eq!(ctl.selection.selected, vec![a, b]);
    ctl.handle_event(up((0.0, 0.0), MouseButton::Left, shift), &seen(HitTarget::Nothing), &mut graph);
    ctl.handle_event(down((0.0, 0.0), MouseButton::Left, shift), &seen(HitTarget::Node(a)), &mut graph);
    assert_eq!(ctl.selection.selected, vec![b]);
}

#[test]
fn plain_press_on_empty_canvas_clears_selection_and_pans() {
    let mut graph: NodeGraph<f64> = NodeGraph::new();
    let (a, _out, b, _inp) = two_nodes(&mut graph, SocketType::Float);
    let mut ctl: InteractionController<P, f64> = InteractionController::new();
    ctl.selection.select(a);
    let fx = ctl.handle_event(down((-50.0, -50.0), MouseButton::Left, Modifiers::default()), &seen(HitTarget::Nothing), &mut graph);
    assert!(ctl.selection.selected.is_empty());
    assert!(matches!(fx[0], SideEffect::FrameDeselected));
    assert!(matches!(fx[1], SideEffect::SelectionChanged));
    assert!(matches!(ctl.state, InteractionState::Panning { last_screen: (-50.0, -50.0) }));
    ctl.handle_event(up((-50.0, -50.0), MouseButton::Left, Modifiers::default()), &seen(HitTarget::Nothing), &mut graph);

    // With shift held the press draws a selection box instead.
    ctl.selection.select(b);
    let fx = ctl.handle_event(down((-50.0, -50.0), MouseButton::Left, shift()), &seen(HitTarget::Nothing), &mut graph);
    assert_eq!(fx.len(), 1);
    let fx = ctl.handle_event(mv((500.0, 500.0)), &seen(HitTarget::Nothing), &mut graph);
    assert!(matches!(fx[0], SideEffect::BoxSelectRect { start: (-50.0, -50.0), end: (500.0, 500.0) }));
    let fx = ctl.handle_event(up((500.0, 500.0), MouseButton::Left, Modifiers::default()), &boxed(vec![a, b]), &mut graph);
    assert_eq!(ctl.selection.selected, vec![a, b]);
    assert!(matches!(fx[0], SideEffect::ClearTransient));
    assert!(matches!(fx[1], SideEffect::SelectionChanged));
}

#[test]
fn shift_box_adds_without_duplicates() {
    let mut graph: NodeGraph<f64> = NodeGraph::new();
    let (a, _out, b, _inp) = two_nodes(&mut graph, SocketType::Float);
    let mut ctl: InteractionController<P, f64> = InteractionController::new();
    ctl.selection.select(a);
    let shift = Modifiers { shift: true, ctrl: false, alt: false };
    ctl.handle_event(down((250.0, -50.0), MouseButton::Left, shift), &seen(HitTarget::Nothing), &mut graph);
    assert_eq!(ctl.selection.selected, vec![a]);
    let obs = Observation { target: HitTarget::Nothing, frame_members: vec![], boxed: vec![b, a], cut: vec![] };
    ctl.handle_event(up((500.0, 500.0), MouseButton::Left, shift), &obs, &mut graph);
    assert_eq!(ctl.selection.selected, vec![a, b]);
}

#[test]
fn frame_press_selects_members() {
    let mut graph: NodeGraph<f64> = NodeGraph::new();
    let (a, _out, b, _inp) = two_nodes(&mut graph, SocketType::Float);
    let frame = graph.add_frame("F", [1, 2, 3], &[a, b], nodegraph_core::graph::frame::FrameRect { x: -30.0, y: -30.0, w: 560.0, h: 110.0 });
    let mut ctl: InteractionController<P, f64> = InteractionController::new();
    let obs = Observation { target: HitTarget::Frame(frame), frame_members: vec![a, b], boxed: vec![], cut: vec![] };
    let fx = ctl.handle_event(down((5.0, 5.0), MouseButton::Left, Modifiers::default()), &obs, &mut graph);
    assert_eq!(ctl.selection.selected, vec![a, b]);
    assert!(matches!(fx[0], SideEffect::FrameSelected(f) if f == frame));
    assert!(matches!(ctl.state, InteractionState::DraggingNodes { .. }));
}

#[test]
fn ctrl_right_press_cuts_links() {
    let mut graph: NodeGraph<f64> = NodeGraph::new();
    let (_a, out, _b, inp) = two_nodes(&mut graph, SocketType::Float);
    let conn = graph.connect(out, inp).unwrap();
    let mut ctl: InteractionController<P, f64> = InteractionController::new();
    let ctrl = Modifiers { shift: false, ctrl: true, alt: false };
    ctl.handle_event(down((150.0, -100.0), MouseButton::Right, ctrl), &seen(HitTarget::Nothing), &mut graph);
    assert!(matches!(&ctl.state, InteractionState::CuttingLinks { points } if points.len() == 1));
    ctl.handle_event(mv((150.0, 100.0)), &seen(HitTarget::Nothing), &mut graph);
    assert!(matches!(&ctl.state, InteractionState::CuttingLinks { points } if points.len() == 2));
    let obs = Observation { target: HitTarget::Nothing, frame_members: vec![], boxed: vec![], cut: vec![conn] };
    let fx = ctl.handle_event(up((150.0, 100.0), MouseButton::Right, ctrl), &obs, &mut graph);
    assert!(matches!(fx[0], SideEffect::ClearTransient));
    assert_eq!(graph.connection_count(), 0);
    assert!(matches!(ctl.state, InteractionState::Idle));
}

#[test]
fn middle_drag_pans_and_scroll_zooms() {
    let mut graph: NodeGraph<f64> = NodeGraph::new();
    let mut ctl: InteractionController<P, f64> = InteractionController::new();
    ctl.handle_event(down((10.0, 10.0), MouseButton::Middle, Modifiers::default()), &seen(HitTarget::Nothing), &mut graph);
    let fx = ctl.handle_event(mv((40.0, 25.0)), &seen(HitTarget::Nothing), &mut graph);
    assert!(matches!(fx[0], SideEffect::PanBy { from: (10.0, 10.0), to: (40.0, 25.0) }));
    ctl.handle_event(up((40.0, 25.0), MouseButton::Middle, Modifiers::default()), &seen(HitTarget::Nothing), &mut graph);
    assert!(matches!(ctl.state, InteractionState::Idle));
    let fx = ctl.handle_event(InputEvent::Scroll { screen: (5.0, 5.0), zoom_in: true }, &seen(HitTarget::Nothing), &mut graph);
    assert!(matches!(fx[0], SideEffect::ZoomAt { screen: (5.0, 5.0), zoom_in: true }));
}

#[test]
fn connection_drag_incompatible_opens_search_menu() {
    let mut graph: NodeGraph<f64> = NodeGraph::new();
    let (_a, out, _b, inp) = two_nodes(&mut graph, SocketType::Shader);
    let mut ctl: InteractionController<P, f64> = InteractionController::new();
    ctl.handle_event(down((180.0, 40.0), MouseButton::Left, Modifiers::default()), &seen(HitTarget::Port(out)), &mut graph);
    let fx = ctl.handle_event(up((300.0, 40.0), MouseButton::Left, Modifiers::default()), &seen(HitTarget::Port(inp)), &mut graph);
    assert_eq!(fx.len(), 3);
    assert!(matches!(fx[0], SideEffect::ConnectionFailed));
    assert!(matches!(fx[1], SideEffect::OpenSearchMenu { source_port, from_output: true, at: (300.0, 40.0) } if source_port == out));
    assert!(matches!(fx[2], SideEffect::ClearTransient));
    assert_eq!(graph.connection_count(), 0);
}

#[test]
fn connection_drag_release_on_node_opens_search_menu() {
    let mut graph: NodeGraph<f64> = NodeGraph::new();
    let (_a, out, b, _inp) = two_nodes(&mut graph, SocketType::Float);
    let mut ctl: InteractionController<P, f64> = InteractionController::new();
    ctl.handle_event(down((180.0, 40.0), MouseButton::Left, Modifiers::default()), &seen(HitTarget::Port(out)), &mut graph);
    let fx = ctl.handle_event(up((250.0, 20.0), MouseButton::Left, Modifiers::default()), &seen(HitTarget::Node(b)), &mut graph);
    assert!(matches!(ctl.state, InteractionState::Idle));
    assert_eq!(fx.len(), 2);
    assert!(matches!(fx[0], SideEffect::OpenSearchMenu { source_port, from_output: true, at: (250.0, 20.0) } if source_port == out));
    assert_eq!(graph.connection_count(), 0);
}

#[test]
fn first_drop_target_picks_first_fitting_port() {
    let mut graph: NodeGraph<f64> = NodeGraph::new();
    let a = graph.add_node("A", (0.0, 0.0));
    let out = graph.add_port(a, PortDirection::Output, SocketType::Float, "Out");
    let b = graph.add_node("B", (300.0, 0.0));
    let b_out = graph.add_port(b, PortDirection::Output, SocketType::Float, "Out");
    let b_shader = graph.add_port(b, PortDirection::Input, SocketType::Shader, "S");
    let b_in = graph.add_port(b, PortDirection::Input, SocketType::Float, "In");
    assert_eq!(first_drop_target(&graph, out, true, &[b_out, b_shader, b_in]), Some(b_in));
    assert_eq!(first_drop_target(&graph, out, true, &[b_out, b_shader]), None);
    assert_eq!(first_drop_target(&graph, b_in, false, &[out]), Some(out));
}

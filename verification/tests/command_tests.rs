use nodegraph_core::commands::{
    copy_nodes, paste_nodes, AddNodeCommand, CollapseNodeCommand, Command, CommandHistory, ConnectCommand,
    DisconnectCommand, MuteNodeCommand, RemoveNodeCommand, UndoHistory,
};
use nodegraph_core::graph::group::SubgraphRoot;
use nodegraph_core::graph::node::{MuteState, NodeHeader, NodePosition};
use nodegraph_core::graph::port::PortDirection;
use nodegraph_core::graph::{GraphEditor, NodeGraph};
use nodegraph_core::store::EntityId;
use nodegraph_core::types::socket_type::SocketType;

fn make_chain(editor: &mut GraphEditor<f64>) -> (EntityId, EntityId, EntityId) {
    let g = editor.current_graph_mut();
    let n1 = g.add_node("A", (0.0, 0.0));
    let n1_out = g.add_port(n1, PortDirection::Output, SocketType::Float, "Out");
    let n2 = g.add_node("B", (200.0, 0.0));
    let n2_in = g.add_port(n2, PortDirection::Input, SocketType::Float, "In");
    let n2_out = g.add_port(n2, PortDirection::Output, SocketType::Float, "Out");
    let n3 = g.add_node("C", (400.0, 0.0));
    let n3_in = g.add_port(n3, PortDirection::Input, SocketType::Float, "In");
    g.connect(n1_out, n2_in).unwrap();
    g.connect(n2_out, n3_in).unwrap();
    (n1, n2, n3)
}

#[test]
fn undo_redo_move() {
    let mut editor: GraphEditor<f64> = GraphEditor::new();
    let mut history: UndoHistory<f64> = UndoHistory::new();
    let node = editor.current_graph_mut().add_node("N", (0.0, 0.0));

    history.save(&editor);
    editor.current_graph_mut().world.get_mut::<NodePosition<f64>>(node).unwrap().x = 100.0;
    editor.current_graph_mut().world.get_mut::<NodePosition<f64>>(node).unwrap().y = 50.0;

    let pos = editor.current_graph().world.get::<NodePosition<f64>>(node).unwrap();
    assert!((pos.x - 100.0).abs() < 1e-10);

    assert!(history.undo(&mut editor));
    let pos = editor.current_graph().world.get::<NodePosition<f64>>(node).unwrap();
    assert!((pos.x - 0.0).abs() < 1e-10);

    assert!(history.redo(&mut editor));
    let pos = editor.current_graph().world.get::<NodePosition<f64>>(node).unwrap();
    assert!((pos.x - 100.0).abs() < 1e-10);
}

#[test]
fn undo_redo_connect() {
    let mut editor: GraphEditor<f64> = GraphEditor::new();
    let mut history: UndoHistory<f64> = UndoHistory::new();
    let g = editor.current_graph_mut();
    let n1 = g.add_node("N1", (0.0, 0.0));
    let out = g.add_port(n1, PortDirection::Output, SocketType::Float, "Out");
    let n2 = g.add_node("N2", (200.0, 0.0));
    let inp = g.add_port(n2, PortDirection::Input, SocketType::Float, "In");

    history.save(&editor);
    editor.current_graph_mut().connect(out, inp).unwrap();
    assert_eq!(editor.current_graph().connection_count(), 1);

    history.undo(&mut editor);
    assert_eq!(editor.current_graph().connection_count(), 0);

    history.redo(&mut editor);
    assert_eq!(editor.current_graph().connection_count(), 1);
}

#[test]
fn redo_stack_clears_on_new_action() {
    let mut editor: GraphEditor<f64> = GraphEditor::new();
    let mut history: UndoHistory<f64> = UndoHistory::new();
    let node = editor.current_graph_mut().add_node("N", (0.0, 0.0));

    history.save(&editor);
    editor.current_graph_mut().world.get_mut::<NodePosition<f64>>(node).unwrap().x = 10.0;

    history.save(&editor);
    editor.current_graph_mut().world.get_mut::<NodePosition<f64>>(node).unwrap().x = 20.0;

    history.undo(&mut editor);
    assert!(history.can_redo());

    history.save(&editor);
    editor.current_graph_mut().world.get_mut::<NodePosition<f64>>(node).unwrap().x = 5.0;
    assert!(!history.can_redo());
}

#[test]
fn undo_group() {
    let mut editor: GraphEditor<f64> = GraphEditor::new();
    let mut history: UndoHistory<f64> = UndoHistory::new();
    let (_n1, n2, _n3) = make_chain(&mut editor);

    assert_eq!(editor.current_graph().node_count(), 3);
    assert_eq!(editor.current_graph().connection_count(), 2);

    history.save(&editor);
    editor.group_nodes(&[n2]);

    assert_eq!(editor.current_graph().node_count(), 3);

    history.undo(&mut editor);
    assert_eq!(editor.current_graph().node_count(), 3);
    assert_eq!(editor.current_graph().connection_count(), 2);

    history.redo(&mut editor);
    assert_eq!(editor.current_graph().node_count(), 3);
    let has_group = editor.current_graph().world.query::<SubgraphRoot>().len();
    assert_eq!(has_group, 1);

    history.undo(&mut editor);
    assert_eq!(editor.current_graph().node_count(), 3);
    assert_eq!(editor.current_graph().connection_count(), 2);
}

#[test]
fn undo_redo_group_many_cycles() {
    let mut editor: GraphEditor<f64> = GraphEditor::new();
    let mut history: UndoHistory<f64> = UndoHistory::new();
    let (_n1, n2, _n3) = make_chain(&mut editor);

    for _ in 0..5 {
        history.save(&editor);
        editor.group_nodes(&[n2]);
        history.undo(&mut editor);
        assert_eq!(editor.current_graph().node_count(), 3);
        assert_eq!(editor.current_graph().connection_count(), 2);
        history.redo(&mut editor);
        history.undo(&mut editor);
    }

    assert_eq!(editor.current_graph().node_count(), 3);
    assert_eq!(editor.current_graph().connection_count(), 2);
}

#[test]
fn undo_ungroup() {
    let mut editor: GraphEditor<f64> = GraphEditor::new();
    let mut history: UndoHistory<f64> = UndoHistory::new();
    let (_n1, n2, _n3) = make_chain(&mut editor);

    editor.group_nodes(&[n2]);
    let group_node = editor.current_graph().world.query::<SubgraphRoot>().iter().map(|(id, _)| *id).next().unwrap();

    history.save(&editor);
    editor.ungroup(group_node);
    assert_eq!(editor.current_graph().node_count(), 3);

    history.undo(&mut editor);
    assert_eq!(editor.current_graph().node_count(), 3);
    let has_group = editor.current_graph().world.query::<SubgraphRoot>().len();
    assert_eq!(has_group, 1);
}

#[test]
fn empty_undo_redo() {
    let mut editor: GraphEditor<f64> = GraphEditor::new();
    let mut history: UndoHistory<f64> = UndoHistory::new();
    assert!(!history.undo(&mut editor));
    assert!(!history.redo(&mut editor));
}

#[test]
fn undo_restores_saved_navigation() {
    let mut editor: GraphEditor<f64> = GraphEditor::new();
    let mut history: UndoHistory<f64> = UndoHistory::new();
    let (_n1, n2, _n3) = make_chain(&mut editor);
    let (g, sub) = editor.group_nodes(&[n2]).unwrap();
    history.save(&editor);
    editor.enter_group(g);
    assert_eq!(editor.current_graph_id(), sub);
    assert!(history.can_undo());
    history.undo(&mut editor);
    assert_eq!(editor.current_graph_id(), editor.root_graph_id());
    assert!(!history.can_undo());
}

fn two_ports(graph: &mut NodeGraph<f64>) -> (EntityId, EntityId, EntityId) {
    let a = graph.add_node("A", (0.0, 0.0));
    let b = graph.add_node("B", (0.0, 0.0));
    let c = graph.add_node("C", (0.0, 0.0));
    let out_a = graph.add_port(a, PortDirection::Output, SocketType::Float, "Out");
    let out_b = graph.add_port(b, PortDirection::Output, SocketType::Float, "Out");
    let inp = graph.add_port(c, PortDirection::Input, SocketType::Float, "In");
    (out_a, out_b, inp)
}

#[test]
fn command_history_connect_undo_redo() {
    let mut graph: NodeGraph<f64> = NodeGraph::new();
    let (out_a, _out_b, inp) = two_ports(&mut graph);
    let mut history: CommandHistory<f64, Box<dyn Command<f64>>> = CommandHistory::new();
    assert!(!history.can_undo());
    history.execute(Box::new(ConnectCommand::new(out_a, inp)), &mut graph);
    assert_eq!(graph.connection_count(), 1);
    assert_eq!(history.undo_count(), 1);
    assert!(history.undo(&mut graph));
    assert_eq!(graph.connection_count(), 0);
    assert_eq!(history.redo_count(), 1);
    assert!(history.redo(&mut graph));
    assert_eq!(graph.connection_count(), 1);
    assert!(!history.redo(&mut graph));
}

#[test]
fn connect_command_undo_restores_replaced_connection() {
    let mut graph: NodeGraph<f64> = NodeGraph::new();
    let (out_a, out_b, inp) = two_ports(&mut graph);
    graph.connect(out_a, inp).unwrap();
    let mut cmd = ConnectCommand::new(out_b, inp);
    cmd.execute(&mut graph);
    assert_eq!(graph.connection_count(), 1);
    assert_eq!(graph.port_connections(out_b).len(), 1);
    cmd.undo(&mut graph);
    assert_eq!(graph.connection_count(), 1);
    assert_eq!(graph.port_connections(out_a).len(), 1);
    assert_eq!(graph.port_connections(out_b).len(), 0);
    assert_eq!(Command::<f64>::description(&cmd), "Connect ports");
}

#[test]
fn disconnect_command_round_trip() {
    let mut graph: NodeGraph<f64> = NodeGraph::new();
    let (out_a, _out_b, inp) = two_ports(&mut graph);
    let c = graph.connect(out_a, inp).unwrap();
    let mut cmd = DisconnectCommand::new(c);
    cmd.execute(&mut graph);
    assert_eq!(graph.connection_count(), 0);
    cmd.undo(&mut graph);
    assert_eq!(graph.connection_count(), 1);
    assert_eq!(graph.port_connections(inp).len(), 1);
    assert_eq!(Command::<f64>::description(&cmd), "Disconnect");
}

#[test]
fn mute_and_collapse_commands() {
    let mut graph: NodeGraph<f64> = NodeGraph::new();
    let n = graph.add_node("N", (0.0, 0.0));
    let mut history: CommandHistory<f64, Box<dyn Command<f64>>> = CommandHistory::new();
    history.execute(Box::new(MuteNodeCommand { node_id: n, muted: true }), &mut graph);
    assert_eq!(graph.world.get::<MuteState>(n), Some(&MuteState(true)));
    history.execute(Box::new(CollapseNodeCommand { node_id: n, collapsed: true }), &mut graph);
    assert!(graph.world.get::<NodeHeader>(n).unwrap().collapsed);
    assert!(history.undo(&mut graph));
    assert!(!graph.world.get::<NodeHeader>(n).unwrap().collapsed);
    assert_eq!(graph.world.get::<NodeHeader>(n).unwrap().title, "N");
    assert!(history.undo(&mut graph));
    assert_eq!(graph.world.get::<MuteState>(n), Some(&MuteState(false)));
    assert!(!history.can_undo());
    assert!(history.can_redo());
}

#[test]
fn clipboard_roundtrip() {
    let mut editor: GraphEditor<f64> = GraphEditor::new();
    let (n1, n2, _n3) = make_chain(&mut editor);

    let mut clipboard = copy_nodes(editor.current_graph(), &[n1, n2]);
    assert_eq!(clipboard.nodes.len(), 2);
    assert_eq!(clipboard.connections.len(), 1);

    for node in clipboard.nodes.iter_mut() {
        node.position = (node.position.0 + 50.0, node.position.1 + 100.0);
    }
    let new_nodes = paste_nodes(editor.current_graph_mut(), &clipboard);
    assert_eq!(new_nodes.len(), 2);
    assert_eq!(editor.current_graph().node_count(), 5);
    assert_eq!(editor.current_graph().connection_count(), 3);
    let pos = editor.current_graph().world.get::<NodePosition<f64>>(new_nodes[1]).unwrap();
    assert_eq!((pos.x, pos.y), (250.0, 100.0));
    let header = editor.current_graph().world.get::<NodeHeader>(new_nodes[0]).unwrap();
    assert_eq!(header.title, "A");
}

#[test]
fn copy_skips_connections_to_nodes_left_behind() {
    let mut editor: GraphEditor<f64> = GraphEditor::new();
    let (_n1, n2, _n3) = make_chain(&mut editor);
    let clipboard = copy_nodes(editor.current_graph(), &[n2]);
    assert_eq!(clipboard.nodes.len(), 1);
    assert_eq!(clipboard.nodes[0].ports.len(), 2);
    assert!(clipboard.connections.is_empty());
}

#[test]
fn add_node_command_execute_and_undo() {
    let mut graph: NodeGraph<f64> = NodeGraph::new();
    let mut cmd: AddNodeCommand<f64> = AddNodeCommand::new(
        "Mix",
        (10.0, 20.0),
        vec![
            (PortDirection::Input, SocketType::Color, "A".to_string()),
            (PortDirection::Output, SocketType::Color, "Out".to_string()),
        ],
    );
    cmd.execute(&mut graph);
    let node = cmd.node_id.unwrap();
    assert_eq!(graph.node_count(), 1);
    assert_eq!(graph.node_ports(node).len(), 2);
    assert_eq!(cmd.port_ids.len(), 2);
    assert_eq!(graph.world.get::<NodeHeader>(node).unwrap().title, "Mix");
    assert_eq!(Command::<f64>::description(&cmd), "Add node");

    cmd.undo(&mut graph);
    assert_eq!(graph.node_count(), 0);
    assert!(cmd.node_id.is_none());
    assert!(cmd.port_ids.is_empty());
}

#[test]
fn remove_node_command_undo_rebuilds_node_and_connections() {
    let mut editor: GraphEditor<f64> = GraphEditor::new();
    let (_n1, n2, _n3) = make_chain(&mut editor);
    let graph = editor.current_graph_mut();
    graph.world.get_mut::<NodeHeader>(n2).unwrap().collapsed = true;

    let mut cmd: RemoveNodeCommand<f64> = RemoveNodeCommand::new(n2);
    cmd.execute(graph);
    assert_eq!(graph.node_count(), 2);
    assert_eq!(graph.connection_count(), 0);

    cmd.undo(graph);
    assert_eq!(graph.node_count(), 3);
    assert_eq!(graph.connection_count(), 2);
    let rebuilt = cmd.node_id;
    assert_ne!(rebuilt, n2);
    let header = graph.world.get::<NodeHeader>(rebuilt).unwrap();
    assert_eq!(header.title, "B");
    assert!(header.collapsed);
    let pos = graph.world.get::<NodePosition<f64>>(rebuilt).unwrap();
    assert_eq!((pos.x, pos.y), (200.0, 0.0));
    assert_eq!(graph.node_ports(rebuilt).len(), 2);
    assert_eq!(Command::<f64>::description(&cmd), "Remove node");
}

#[test]
fn remove_node_snapshot_records_far_ends() {
    let mut editor: GraphEditor<f64> = GraphEditor::new();
    let (n1, n2, n3) = make_chain(&mut editor);
    let graph = editor.current_graph();
    let snap = RemoveNodeCommand::snapshot_node(graph, n2).unwrap();
    assert_eq!(snap.ports.len(), 2);
    assert_eq!(snap.connections.len(), 2);
    let a_out = graph.node_ports(n1)[0];
    let c_in = graph.node_ports(n3)[0];
    assert_eq!(snap.connections[0].source_external, Some(a_out));
    assert_eq!(snap.connections[0].target_external, None);
    assert_eq!(snap.connections[0].local_port_index, 0);
    assert_eq!(snap.connections[1].source_external, None);
    assert_eq!(snap.connections[1].target_external, Some(c_in));
    assert_eq!(snap.connections[1].local_port_index, 1);
    assert!(RemoveNodeCommand::<f64>::snapshot_node(graph, a_out).is_none());
}

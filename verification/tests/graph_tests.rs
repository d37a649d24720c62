use nodegraph_core::graph::connection::ConnectionEndpoints;
use nodegraph_core::graph::group::SubgraphRoot;
use nodegraph_core::graph::node::{MuteState, NodeHeader, NodePosition};
use nodegraph_core::graph::port::{PortDirection, PortIndex, PortLabel, PortSocketType};
use nodegraph_core::graph::{ConnectionError, GraphEditor, GroupIOKind, NodeGraph};
use nodegraph_core::store::{EntityId, Generation};
use nodegraph_core::types::socket_type::SocketType;

fn build_chain(ge: &mut GraphEditor<f64>) -> (EntityId, EntityId, EntityId) {
    let g = ge.current_graph_mut();
    let n1 = g.add_node("A", (0.0, 0.0));
    let n1_out = g.add_port(n1, PortDirection::Output, SocketType::Float, "Out");
    let n2 = g.add_node("B", (200.0, 0.0));
    let n2_in = g.add_port(n2, PortDirection::Input, SocketType::Float, "In");
    let n2_out = g.add_port(n2, PortDirection::Output, SocketType::Float, "Out");
    let n3 = g.add_node("C", (400.0, 0.0));
    let n3_in = g.add_port(n3, PortDirection::Input, SocketType::Float, "In");
    g.connect(n1_out, n2_in).unwrap();
    g.connect(n2_out, n3_in).unwrap();
    (n1, n2, n3)
}

#[test]
fn graph_construction_three_nodes() {
    let mut graph: NodeGraph<f64> = NodeGraph::new();

    let node1 = graph.add_node("Node 1", (0.0, 0.0));
    let node1_in1 = graph.add_port(node1, PortDirection::Input, SocketType::Float, "In 1");
    let _node1_in2 = graph.add_port(node1, PortDirection::Input, SocketType::Float, "In 2");
    let node1_out = graph.add_port(node1, PortDirection::Output, SocketType::Float, "Out");

    let node2 = graph.add_node("Node 2", (200.0, 0.0));
    let node2_in1 = graph.add_port(node2, PortDirection::Input, SocketType::Float, "In 1");
    let _node2_in2 = graph.add_port(node2, PortDirection::Input, SocketType::Float, "In 2");
    let node2_out = graph.add_port(node2, PortDirection::Output, SocketType::Float, "Out");

    let node3 = graph.add_node("Node 3", (400.0, 0.0));
    let node3_in1 = graph.add_port(node3, PortDirection::Input, SocketType::Float, "In 1");
    let _node3_in2 = graph.add_port(node3, PortDirection::Input, SocketType::Float, "In 2");
    let node3_out = graph.add_port(node3, PortDirection::Output, SocketType::Float, "Out");

    graph.connect(node1_out, node2_in1).unwrap();
    graph.connect(node2_out, node3_in1).unwrap();

    assert_eq!(graph.connection_count(), 2);
    assert_eq!(graph.node_count(), 3);

    assert_eq!(graph.node_ports(node1).len(), 3);
    assert_eq!(graph.node_ports(node2).len(), 3);
    assert_eq!(graph.node_ports(node3).len(), 3);

    assert_eq!(graph.port_connections(node1_out).len(), 1);
    assert_eq!(graph.port_connections(node2_in1).len(), 1);
    assert_eq!(graph.port_connections(node2_out).len(), 1);
    assert_eq!(graph.port_connections(node3_in1).len(), 1);

    assert_eq!(graph.port_connections(node1_in1).len(), 0);
    assert_eq!(graph.port_connections(node3_out).len(), 0);
}

#[test]
fn graph_remove_node_cleans_connections() {
    let mut graph: NodeGraph<f64> = NodeGraph::new();

    let node1 = graph.add_node("Node 1", (0.0, 0.0));
    let node1_out = graph.add_port(node1, PortDirection::Output, SocketType::Float, "Out");

    let node2 = graph.add_node("Node 2", (200.0, 0.0));
    let node2_in = graph.add_port(node2, PortDirection::Input, SocketType::Float, "In");

    graph.connect(node1_out, node2_in).unwrap();
    assert_eq!(graph.connection_count(), 1);

    graph.remove_node(node1);
    assert_eq!(graph.connection_count(), 0);
    assert_eq!(graph.node_count(), 1);
    assert_eq!(graph.port_connections(node2_in).len(), 0);
}

#[test]
fn connection_validation_same_direction_fails() {
    let mut graph: NodeGraph<f64> = NodeGraph::new();
    let node1 = graph.add_node("N1", (0.0, 0.0));
    let node2 = graph.add_node("N2", (100.0, 0.0));
    let in1 = graph.add_port(node1, PortDirection::Input, SocketType::Float, "In");
    let in2 = graph.add_port(node2, PortDirection::Input, SocketType::Float, "In");

    let result = graph.connect(in1, in2);
    assert!(matches!(result, Err(ConnectionError::SameDirection)));
}

#[test]
fn connection_validation_incompatible_types_fails() {
    let mut graph: NodeGraph<f64> = NodeGraph::new();
    let node1 = graph.add_node("N1", (0.0, 0.0));
    let node2 = graph.add_node("N2", (100.0, 0.0));
    let out = graph.add_port(node1, PortDirection::Output, SocketType::Float, "Out");
    let inp = graph.add_port(node2, PortDirection::Input, SocketType::Shader, "In");

    let result = graph.connect(out, inp);
    assert!(matches!(result, Err(ConnectionError::IncompatibleTypes(_, _))));
    assert_eq!(result, Err(ConnectionError::IncompatibleTypes(SocketType::Float, SocketType::Shader)));
}

#[test]
fn connection_validation_compatible_succeeds() {
    let mut graph: NodeGraph<f64> = NodeGraph::new();
    let node1 = graph.add_node("N1", (0.0, 0.0));
    let node2 = graph.add_node("N2", (100.0, 0.0));
    let out = graph.add_port(node1, PortDirection::Output, SocketType::Float, "Out");
    let inp = graph.add_port(node2, PortDirection::Input, SocketType::Float, "In");

    assert!(graph.connect(out, inp).is_ok());
}

#[test]
fn connection_validation_implicit_conversion() {
    let mut graph: NodeGraph<f64> = NodeGraph::new();
    let node1 = graph.add_node("N1", (0.0, 0.0));
    let node2 = graph.add_node("N2", (100.0, 0.0));
    let out = graph.add_port(node1, PortDirection::Output, SocketType::Float, "Out");
    let inp = graph.add_port(node2, PortDirection::Input, SocketType::Int, "In");

    assert!(graph.connect(out, inp).is_ok());
}

#[test]
fn connection_validation_same_node_fails() {
    let mut graph: NodeGraph<f64> = NodeGraph::new();
    let node = graph.add_node("N", (0.0, 0.0));
    let out = graph.add_port(node, PortDirection::Output, SocketType::Float, "Out");
    let inp = graph.add_port(node, PortDirection::Input, SocketType::Float, "In");

    let result = graph.connect(out, inp);
    assert!(matches!(result, Err(ConnectionError::SameNode)));
}

#[test]
fn connection_replaces_existing_on_input() {
    let mut graph: NodeGraph<f64> = NodeGraph::new();
    let node1 = graph.add_node("N1", (0.0, 0.0));
    let node2 = graph.add_node("N2", (100.0, 0.0));
    let node3 = graph.add_node("N3", (200.0, 0.0));

    let out1 = graph.add_port(node1, PortDirection::Output, SocketType::Float, "Out");
    let out2 = graph.add_port(node2, PortDirection::Output, SocketType::Float, "Out");
    let inp = graph.add_port(node3, PortDirection::Input, SocketType::Float, "In");

    graph.connect(out1, inp).unwrap();
    assert_eq!(graph.connection_count(), 1);

    graph.connect(out2, inp).unwrap();
    assert_eq!(graph.connection_count(), 1);
    assert_eq!(graph.port_connections(inp).len(), 1);

    let conn_id = graph.port_connections(inp)[0];
    let endpoints = graph.world.get::<ConnectionEndpoints>(conn_id).unwrap();
    assert_eq!(endpoints.source_port, out2);
    assert_eq!(endpoints.target_port, inp);
}

#[test]
fn connection_to_invalid_port_fails() {
    let mut graph: NodeGraph<f64> = NodeGraph::new();
    let node1 = graph.add_node("N1", (0.0, 0.0));
    let out = graph.add_port(node1, PortDirection::Output, SocketType::Float, "Out");

    let fake_port = EntityId { index: 9999, generation: Generation::default() };
    let result = graph.connect(out, fake_port);
    assert!(matches!(result, Err(ConnectionError::InvalidTargetPort)));
}

#[test]
fn connect_normalizes_input_to_output_order() {
    let mut graph: NodeGraph<f64> = NodeGraph::new();
    let a = graph.add_node("A", (0.0, 0.0));
    let b = graph.add_node("B", (0.0, 0.0));
    let out = graph.add_port(a, PortDirection::Output, SocketType::Float, "Out");
    let inp = graph.add_port(b, PortDirection::Input, SocketType::Float, "In");
    let c = graph.connect(inp, out).unwrap();
    let ep = graph.world.get::<ConnectionEndpoints>(c).unwrap();
    assert_eq!(ep.source_port, out);
    assert_eq!(ep.target_port, inp);
    assert_eq!(graph.validate_connection(inp, out), Ok(()));
}

#[test]
fn invalid_source_port_error() {
    let mut graph: NodeGraph<f64> = NodeGraph::new();
    let a = graph.add_node("A", (0.0, 0.0));
    let inp = graph.add_port(a, PortDirection::Input, SocketType::Float, "In");
    let fake = EntityId { index: 777, generation: Generation::default() };
    assert_eq!(graph.connect(fake, inp), Err(ConnectionError::InvalidSourcePort));
}

#[test]
fn port_index_counts_same_direction() {
    let mut graph: NodeGraph<f64> = NodeGraph::new();
    let n = graph.add_node("N", (0.0, 0.0));
    let i0 = graph.add_port(n, PortDirection::Input, SocketType::Float, "A");
    let o0 = graph.add_port(n, PortDirection::Output, SocketType::Float, "Out");
    let i1 = graph.add_port(n, PortDirection::Input, SocketType::Float, "B");
    assert_eq!(graph.world.get::<PortIndex>(i0), Some(&PortIndex(0)));
    assert_eq!(graph.world.get::<PortIndex>(o0), Some(&PortIndex(0)));
    assert_eq!(graph.world.get::<PortIndex>(i1), Some(&PortIndex(1)));
}

#[test]
fn disconnect_removes_connection() {
    let mut graph: NodeGraph<f64> = NodeGraph::new();
    let a = graph.add_node("A", (0.0, 0.0));
    let b = graph.add_node("B", (0.0, 0.0));
    let out = graph.add_port(a, PortDirection::Output, SocketType::Float, "Out");
    let inp = graph.add_port(b, PortDirection::Input, SocketType::Float, "In");
    let c = graph.connect(out, inp).unwrap();
    graph.disconnect(c);
    assert_eq!(graph.connection_count(), 0);
    assert_eq!(graph.port_connections(out).len(), 0);
    assert_eq!(graph.port_connections(inp).len(), 0);
    assert!(!graph.world.is_alive(c));
}

#[test]
fn remove_port_drops_its_connections() {
    let mut graph: NodeGraph<f64> = NodeGraph::new();
    let a = graph.add_node("A", (0.0, 0.0));
    let b = graph.add_node("B", (0.0, 0.0));
    let out = graph.add_port(a, PortDirection::Output, SocketType::Float, "Out");
    let inp = graph.add_port(b, PortDirection::Input, SocketType::Float, "In");
    graph.connect(out, inp).unwrap();
    graph.remove_port(out);
    assert_eq!(graph.connection_count(), 0);
    assert_eq!(graph.node_ports(a).len(), 0);
    assert_eq!(graph.port_connections(inp).len(), 0);
}

#[test]
fn topological_sort_orders_chain() {
    let mut graph: NodeGraph<f64> = NodeGraph::new();
    let c = graph.add_node("C", (0.0, 0.0));
    let b = graph.add_node("B", (0.0, 0.0));
    let a = graph.add_node("A", (0.0, 0.0));
    let a_out = graph.add_port(a, PortDirection::Output, SocketType::Float, "Out");
    let b_in = graph.add_port(b, PortDirection::Input, SocketType::Float, "In");
    let b_out = graph.add_port(b, PortDirection::Output, SocketType::Float, "Out");
    let c_in = graph.add_port(c, PortDirection::Input, SocketType::Float, "In");
    graph.connect(a_out, b_in).unwrap();
    graph.connect(b_out, c_in).unwrap();
    let order = graph.topological_sort().unwrap();
    assert_eq!(order, vec![a, b, c]);
    assert_eq!(graph.eval_order(), vec![a, b, c]);
}

#[test]
fn topological_sort_reports_cycle() {
    let mut graph: NodeGraph<f64> = NodeGraph::new();
    let a = graph.add_node("A", (0.0, 0.0));
    let b = graph.add_node("B", (0.0, 0.0));
    let d = graph.add_node("D", (0.0, 0.0));
    let a_in = graph.add_port(a, PortDirection::Input, SocketType::Float, "In");
    let a_out = graph.add_port(a, PortDirection::Output, SocketType::Float, "Out");
    let b_in = graph.add_port(b, PortDirection::Input, SocketType::Float, "In");
    let b_out = graph.add_port(b, PortDirection::Output, SocketType::Float, "Out");
    let d_in = graph.add_port(d, PortDirection::Input, SocketType::Float, "In");
    graph.connect(a_out, b_in).unwrap();
    graph.connect(b_out, a_in).unwrap();
    graph.connect(b_out, d_in).unwrap();
    let rest = graph.topological_sort().unwrap_err();
    assert_eq!(rest.len(), 2);
    assert!(rest.contains(&a) && rest.contains(&b) && !rest.contains(&d));
    assert!(graph.eval_order().is_empty());
}

#[test]
fn frames_are_added_and_removed() {
    let mut graph: NodeGraph<f64> = NodeGraph::new();
    let a = graph.add_node("A", (0.0, 0.0));
    let f = graph.add_frame("Frame", [1, 2, 3], &[a], nodegraph_core::graph::frame::FrameRect { x: -30.0, y: -30.0, w: 260.0, h: 110.0 });
    assert_eq!(graph.frame_count(), 1);
    assert_eq!(graph.node_count(), 1);
    graph.remove_frame(f);
    assert_eq!(graph.frame_count(), 0);
    assert_eq!(graph.node_count(), 1);
}

#[test]
fn new_graph_editor_has_root() {
    let ge: GraphEditor<f64> = GraphEditor::new();
    assert_eq!(ge.current_graph_id(), ge.root_graph_id());
    assert_eq!(ge.breadcrumb().len(), 1);
    assert_eq!(ge.current_graph().node_count(), 0);
}

#[test]
fn group_middle_node() {
    let mut ge: GraphEditor<f64> = GraphEditor::new();
    let (_n1, n2, _n3) = build_chain(&mut ge);

    let result = ge.group_nodes(&[n2]);
    assert!(result.is_some());
    let (group_node, subgraph_id) = result.unwrap();

    let parent = ge.current_graph();
    assert_eq!(parent.node_count(), 3);
    assert!(parent.world.get::<SubgraphRoot>(group_node).is_some());

    let sub = ge.graph(subgraph_id).unwrap();
    assert_eq!(sub.node_count(), 3, "Subgraph should have IO nodes + moved node B");
    assert_eq!(sub.connection_count(), 2, "Subgraph should have IO->B and B->IO connections");

    for (nid, kind) in sub.world.query::<GroupIOKind>() {
        let ports = sub.node_ports(nid);
        assert_eq!(ports.len(), 1, "IO node {:?} ({:?}) should have 1 port, got {}", nid, kind, ports.len());
        let header = sub.world.get::<NodeHeader>(nid).unwrap();
        assert!(
            header.title.starts_with("In:") || header.title.starts_with("Out:"),
            "IO node title should start with In:/Out:, got '{}'",
            header.title
        );
    }

    for (nid, header) in sub.world.query::<NodeHeader>() {
        if sub.world.get::<GroupIOKind>(nid).is_none() {
            assert_eq!(header.title, "B", "Non-IO node should be B, got '{}'", header.title);
            let ports = sub.node_ports(nid);
            assert_eq!(ports.len(), 2, "Node B should have 2 ports (In + Out), got {}", ports.len());
        }
    }
}

#[test]
fn enter_and_exit_group() {
    let mut ge: GraphEditor<f64> = GraphEditor::new();
    let (_n1, n2, _n3) = build_chain(&mut ge);

    let (group_node, subgraph_id) = ge.group_nodes(&[n2]).unwrap();

    assert!(ge.enter_group(group_node));
    assert_eq!(ge.current_graph_id(), subgraph_id);
    assert_eq!(ge.breadcrumb().len(), 2);

    assert!(ge.exit_group());
    assert_eq!(ge.current_graph_id(), ge.root_graph_id());
    assert_eq!(ge.breadcrumb().len(), 1);
}

#[test]
fn navigate_to_root() {
    let mut ge: GraphEditor<f64> = GraphEditor::new();
    let (_n1, n2, _n3) = build_chain(&mut ge);
    let root = ge.root_graph_id();

    let (group_node, _) = ge.group_nodes(&[n2]).unwrap();
    ge.enter_group(group_node);

    assert!(ge.navigate_to(root));
    assert_eq!(ge.current_graph_id(), root);
    assert_eq!(ge.breadcrumb().len(), 1);
}

#[test]
fn ungroup() {
    let mut ge: GraphEditor<f64> = GraphEditor::new();
    let (_n1, n2, _n3) = build_chain(&mut ge);

    let (group_node, _) = ge.group_nodes(&[n2]).unwrap();
    assert_eq!(ge.current_graph().node_count(), 3);

    assert!(ge.ungroup(group_node));
    assert_eq!(ge.current_graph().node_count(), 3);
    assert_eq!(ge.current_graph().connection_count(), 2);
}

#[test]
fn ungroup_restores_inner_connections() {
    let mut ge: GraphEditor<f64> = GraphEditor::new();
    let (n1, n2, _n3) = build_chain(&mut ge);
    let (group_node, _) = ge.group_nodes(&[n1, n2]).unwrap();
    assert_eq!(ge.current_graph().node_count(), 2);
    assert_eq!(ge.current_graph().connection_count(), 1);
    assert!(ge.ungroup(group_node));
    assert_eq!(ge.current_graph().node_count(), 3);
    assert_eq!(ge.current_graph().connection_count(), 2);
}

#[test]
fn graph_label() {
    let mut ge: GraphEditor<f64> = GraphEditor::new();
    let root = ge.root_graph_id();
    assert_eq!(ge.graph_label(root), "Root");

    let (_n1, n2, _n3) = build_chain(&mut ge);
    let (_, subgraph_id) = ge.group_nodes(&[n2]).unwrap();
    assert_eq!(ge.graph_label(subgraph_id), "Group");
}

#[test]
fn add_group_io_node() {
    let mut ge: GraphEditor<f64> = GraphEditor::new();
    let (_n1, n2, _n3) = build_chain(&mut ge);
    let (group_node, _subgraph_id) = ge.group_nodes(&[n2]).unwrap();

    ge.enter_group(group_node);

    let io_count_before = ge.current_graph().world.query::<GroupIOKind>().len();

    let result = ge.add_group_io_node(GroupIOKind::Input, SocketType::Color, "Custom");
    assert!(result.is_some());

    let io_count_after = ge.current_graph().world.query::<GroupIOKind>().len();
    assert_eq!(io_count_after, io_count_before + 1);

    let new_io = result.unwrap();
    assert_eq!(ge.current_graph().node_ports(new_io).len(), 1);
    assert_eq!(ge.current_graph().world.get::<NodeHeader>(new_io).unwrap().title, "In: Custom");

    ge.exit_group();
    let parent = ge.current_graph();
    let group_ports = parent.node_ports(group_node);
    assert!(group_ports.len() > 2, "Group node should have gained a port");
}

#[test]
fn add_group_io_node_at_root_fails() {
    let mut ge: GraphEditor<f64> = GraphEditor::new();
    assert!(ge.add_group_io_node(GroupIOKind::Output, SocketType::Float, "X").is_none());
}

#[test]
fn enter_nonexistent_group_fails() {
    let mut ge: GraphEditor<f64> = GraphEditor::new();
    let fake = EntityId { index: 999, generation: Generation::default() };
    assert!(!ge.enter_group(fake));
}

#[test]
fn exit_at_root_fails() {
    let mut ge: GraphEditor<f64> = GraphEditor::new();
    assert!(!ge.exit_group());
}

#[test]
fn group_empty_selection_is_none() {
    let mut ge: GraphEditor<f64> = GraphEditor::new();
    build_chain(&mut ge);
    assert!(ge.group_nodes(&[]).is_none());
    assert_eq!(ge.current_graph().node_count(), 3);
}

#[test]
fn find_parent_group_after_grouping() {
    let mut ge: GraphEditor<f64> = GraphEditor::new();
    let (_n1, n2, _n3) = build_chain(&mut ge);
    let root = ge.root_graph_id();
    let (group_node, sub) = ge.group_nodes(&[n2]).unwrap();
    assert_eq!(ge.find_parent_group(sub), Some((root, group_node)));
    assert_eq!(ge.find_parent_group(root), None);
    ge.ungroup(group_node);
    assert_eq!(ge.find_parent_group(sub), None);
    assert!(ge.graph(sub).is_none());
}

#[test]
fn adapt_group_io_port_changes_both_sides() {
    let mut ge: GraphEditor<f64> = GraphEditor::new();
    let (_n1, n2, _n3) = build_chain(&mut ge);
    let (group_node, _sub) = ge.group_nodes(&[n2]).unwrap();
    ge.enter_group(group_node);
    let io = ge.add_group_io_node(GroupIOKind::Input, SocketType::Float, "V").unwrap();
    let io_port = ge.current_graph().node_ports(io)[0];
    ge.adapt_group_io_port(io_port, SocketType::Color);
    assert_eq!(ge.current_graph().world.get::<PortSocketType>(io_port), Some(&PortSocketType(SocketType::Color)));
    ge.exit_group();
    let parent_port = *ge.current_graph().node_ports(group_node).last().unwrap();
    assert_eq!(ge.current_graph().world.get::<PortSocketType>(parent_port), Some(&PortSocketType(SocketType::Color)));
}

#[test]
fn mute_state_component_roundtrip() {
    let mut graph: NodeGraph<f64> = NodeGraph::new();
    let n = graph.add_node("N", (0.0, 0.0));
    graph.set_component(n, MuteState(true));
    assert_eq!(graph.world.get::<MuteState>(n), Some(&MuteState(true)));
}

#[test]
fn bridge_connections_pair_upstream_with_downstream() {
    let mut ge: GraphEditor<f64> = GraphEditor::new();
    let (n1, n2, n3) = build_chain(&mut ge);
    let g = ge.current_graph();
    let a_out = g.node_ports(n1)[0];
    let c_in = g.node_ports(n3)[0];
    assert_eq!(g.bridge_connections(n2), vec![(a_out, c_in)]);
    assert!(g.bridge_connections(n1).is_empty());
}

#[test]
fn bridge_connections_skip_incompatible_types() {
    let mut g: NodeGraph<f64> = NodeGraph::new();
    let a = g.add_node("A", (0.0, 0.0));
    let a_out = g.add_port(a, PortDirection::Output, SocketType::Shader, "Out");
    let b = g.add_node("B", (0.0, 0.0));
    let b_in = g.add_port(b, PortDirection::Input, SocketType::Shader, "In");
    let b_out = g.add_port(b, PortDirection::Output, SocketType::Float, "Out");
    let c = g.add_node("C", (0.0, 0.0));
    let c_in = g.add_port(c, PortDirection::Input, SocketType::Float, "In");
    g.connect(a_out, b_in).unwrap();
    g.connect(b_out, c_in).unwrap();
    assert!(g.bridge_connections(b).is_empty());
}

#[test]
fn remove_node_bridged_reconnects_around_the_node() {
    let mut ge: GraphEditor<f64> = GraphEditor::new();
    let (n1, n2, n3) = build_chain(&mut ge);
    let g = ge.current_graph_mut();
    let a_out = g.node_ports(n1)[0];
    let c_in = g.node_ports(n3)[0];
    let bridges = g.remove_node_bridged(n2);
    assert_eq!(bridges, vec![(a_out, c_in)]);
    assert_eq!(g.node_count(), 2);
    assert_eq!(g.connection_count(), 1);
    let conn = g.port_connections(c_in)[0];
    let ep = g.world.get::<ConnectionEndpoints>(conn).unwrap();
    assert_eq!((ep.source_port, ep.target_port), (a_out, c_in));
}

#[test]
fn insert_node_on_connection_splices_node() {
    let mut g: NodeGraph<f64> = NodeGraph::new();
    let a = g.add_node("A", (0.0, 0.0));
    let a_out = g.add_port(a, PortDirection::Output, SocketType::Float, "Out");
    let c = g.add_node("C", (0.0, 0.0));
    let c_in = g.add_port(c, PortDirection::Input, SocketType::Float, "In");
    let conn = g.connect(a_out, c_in).unwrap();
    let b = g.add_node("B", (0.0, 0.0));
    let _b_shader = g.add_port(b, PortDirection::Input, SocketType::Shader, "S");
    let b_in = g.add_port(b, PortDirection::Input, SocketType::Float, "In");
    let b_out = g.add_port(b, PortDirection::Output, SocketType::Float, "Out");

    assert_eq!(g.insert_node_on_connection(b, conn), Some((b_in, b_out)));
    assert_eq!(g.connection_count(), 2);
    assert!(g.world.get::<ConnectionEndpoints>(conn).is_none());
    assert_eq!(g.port_connections(b_in).len(), 1);
    assert_eq!(g.port_connections(b_out).len(), 1);
    assert_eq!(g.port_connections(c_in).len(), 1);
}

#[test]
fn insert_node_on_connection_without_fitting_port_changes_nothing() {
    let mut g: NodeGraph<f64> = NodeGraph::new();
    let a = g.add_node("A", (0.0, 0.0));
    let a_out = g.add_port(a, PortDirection::Output, SocketType::Float, "Out");
    let c = g.add_node("C", (0.0, 0.0));
    let c_in = g.add_port(c, PortDirection::Input, SocketType::Float, "In");
    let conn = g.connect(a_out, c_in).unwrap();
    let b = g.add_node("B", (0.0, 0.0));
    g.add_port(b, PortDirection::Input, SocketType::Float, "In");
    assert_eq!(g.insert_node_on_connection(b, conn), None);
    assert_eq!(g.connection_count(), 1);
    assert!(g.world.get::<ConnectionEndpoints>(conn).is_some());
}

#[test]
fn adapt_io_ports_after_connect_takes_other_type() {
    let mut ge: GraphEditor<f64> = GraphEditor::new();
    let (_n1, n2, _n3) = build_chain(&mut ge);
    let (group_node, _sub) = ge.group_nodes(&[n2]).unwrap();
    ge.enter_group(group_node);
    let io = ge.add_group_io_node(GroupIOKind::Input, SocketType::Float, "X").unwrap();
    let io_port = ge.current_graph().node_ports(io)[0];
    let g = ge.current_graph_mut();
    let d = g.add_node("D", (0.0, 0.0));
    let d_in = g.add_port(d, PortDirection::Input, SocketType::Color, "In");
    g.connect(io_port, d_in).unwrap();
    ge.adapt_io_ports_after_connect(io_port, d_in);
    assert_eq!(ge.current_graph().world.get::<PortSocketType>(io_port).unwrap().0, SocketType::Color);
    assert_eq!(ge.current_graph().world.get::<PortSocketType>(d_in).unwrap().0, SocketType::Color);
}

#[test]
fn group_then_ungroup_brings_back_a_copy() {
    let mut ge: GraphEditor<f64> = GraphEditor::new();
    let (_n1, n2, _n3) = build_chain(&mut ge);
    let (group_node, subgraph_id) = ge.group_nodes(&[n2]).unwrap();

    // The subgraph holds a copy of B and one Group Input and one Group Output port.
    let sub = ge.graph(subgraph_id).unwrap();
    let copy = sub
        .world
        .query::<NodeHeader>()
        .into_iter()
        .find(|(_, h)| h.title == "B")
        .map(|(id, _)| id)
        .unwrap();
    assert!(sub.world.get::<GroupIOKind>(copy).is_none());
    let io_titles: Vec<String> = sub
        .world
        .query::<GroupIOKind>()
        .into_iter()
        .map(|(id, _)| sub.world.get::<NodeHeader>(id).unwrap().title.clone())
        .collect();
    assert_eq!(io_titles.len(), 2);
    assert!(io_titles.contains(&"In: In".to_string()));
    assert!(io_titles.contains(&"Out: Out".to_string()));

    // Group Input feeds B's input, B's output feeds Group Output.
    let owner = |p: EntityId| sub.world.get::<nodegraph_core::graph::port::PortOwner>(p).unwrap().0;
    let title = |n: EntityId| sub.world.get::<NodeHeader>(n).unwrap().title.clone();
    let wires: Vec<(String, String)> = sub
        .world
        .query::<ConnectionEndpoints>()
        .into_iter()
        .map(|(_, ep)| (title(owner(ep.source_port)), title(owner(ep.target_port))))
        .collect();
    assert_eq!(wires.len(), 2);
    assert!(wires.contains(&("In: In".to_string(), "B".to_string())));
    assert!(wires.contains(&("B".to_string(), "Out: Out".to_string())));

    assert!(ge.ungroup(group_node));
    let g = ge.current_graph();
    let back = g
        .world
        .query::<NodeHeader>()
        .into_iter()
        .find(|(_, h)| h.title == "B")
        .map(|(id, _)| id)
        .unwrap();
    assert_ne!(back, n2);
    let pos = g.world.get::<NodePosition<f64>>(back).unwrap();
    assert_eq!((pos.x, pos.y), (200.0, 0.0));
    let ports = g.node_ports(back);
    assert_eq!(ports.len(), 2);
    assert_eq!(g.world.get::<PortDirection>(ports[0]), Some(&PortDirection::Input));
    assert_eq!(g.world.get::<PortLabel>(ports[0]).unwrap().0, "In");
    assert_eq!(g.world.get::<PortDirection>(ports[1]), Some(&PortDirection::Output));
    assert_eq!(g.world.get::<PortLabel>(ports[1]).unwrap().0, "Out");
}

use nodegraph_core::graph::connection::ConnectionEndpoints;
use nodegraph_core::graph::frame::{FrameLabel, FrameMembers, FrameRect};
use nodegraph_core::graph::group::SubgraphRoot;
use nodegraph_core::graph::node::{NodeHeader, NodePosition};
use nodegraph_core::graph::port::{PortDirection, PortSocketType};
use nodegraph_core::graph::reroute::IsReroute;
use nodegraph_core::graph::{GraphEditor, GroupIOKind, NodeGraph};
use nodegraph_core::serialization::{DeserializeError, SerializedConnection, SerializedGraph};
use nodegraph_core::types::socket_type::SocketType;

fn build_chain(ge: &mut GraphEditor<f64>) -> nodegraph_core::store::EntityId {
    let a = ge.current_graph_mut().add_node("A", (0.0, 0.0));
    let a_out = ge.current_graph_mut().add_port(a, PortDirection::Output, SocketType::Float, "Out");
    let b = ge.current_graph_mut().add_node("B", (200.0, 0.0));
    let b_in = ge.current_graph_mut().add_port(b, PortDirection::Input, SocketType::Float, "In");
    let b_out = ge.current_graph_mut().add_port(b, PortDirection::Output, SocketType::Float, "Out");
    let c = ge.current_graph_mut().add_node("C", (400.0, 0.0));
    let c_in = ge.current_graph_mut().add_port(c, PortDirection::Input, SocketType::Float, "In");
    ge.current_graph_mut().connect(a_out, b_in).unwrap();
    ge.current_graph_mut().connect(b_out, c_in).unwrap();
    b
}

#[test]
fn serialization_roundtrip() {
    let mut graph: NodeGraph<f64> = NodeGraph::new();

    let node1 = graph.add_node("Math Add", (10.0, 20.0));
    let _n1_in1 = graph.add_port(node1, PortDirection::Input, SocketType::Float, "A");
    let _n1_in2 = graph.add_port(node1, PortDirection::Input, SocketType::Float, "B");
    let n1_out = graph.add_port(node1, PortDirection::Output, SocketType::Float, "Result");

    let node2 = graph.add_node("Color Mix", (200.0, 100.0));
    let _n2_in1 = graph.add_port(node2, PortDirection::Input, SocketType::Color, "Color 1");
    let _n2_in2 = graph.add_port(node2, PortDirection::Input, SocketType::Color, "Color 2");
    let n2_fac = graph.add_port(node2, PortDirection::Input, SocketType::Float, "Factor");
    let n2_out = graph.add_port(node2, PortDirection::Output, SocketType::Color, "Color");

    let node3 = graph.add_node("Output", (400.0, 50.0));
    let n3_in = graph.add_port(node3, PortDirection::Input, SocketType::Color, "Surface");

    graph.connect(n1_out, n2_fac).unwrap();
    graph.connect(n2_out, n3_in).unwrap();

    let serialized = graph.serialize();
    let restored = NodeGraph::deserialize(&serialized).unwrap();

    assert_eq!(restored.node_count(), 3);
    assert_eq!(restored.connection_count(), 2);

    let headers: Vec<String> = restored.world.query::<NodeHeader>().iter().map(|(_, h)| h.title.clone()).collect();
    assert!(headers.contains(&"Math Add".to_string()));
    assert!(headers.contains(&"Color Mix".to_string()));
    assert!(headers.contains(&"Output".to_string()));

    for (id, header) in restored.world.query::<NodeHeader>() {
        let pos = restored.world.get::<NodePosition<f64>>(id).unwrap();
        match header.title.as_str() {
            "Math Add" => {
                assert_eq!(pos.x, 10.0);
                assert_eq!(pos.y, 20.0);
            }
            "Color Mix" => {
                assert_eq!(pos.x, 200.0);
                assert_eq!(pos.y, 100.0);
            }
            "Output" => {
                assert_eq!(pos.x, 400.0);
                assert_eq!(pos.y, 50.0);
            }
            _ => panic!("unexpected node"),
        }
    }

    for (_, endpoints) in restored.world.query::<ConnectionEndpoints>() {
        let src_type = restored.world.get::<PortSocketType>(endpoints.source_port).unwrap();
        let tgt_type = restored.world.get::<PortSocketType>(endpoints.target_port).unwrap();
        assert!(src_type.0.is_compatible_with(&tgt_type.0));
    }

    for (_, endpoints) in restored.world.query::<ConnectionEndpoints>() {
        let src_dir = restored.world.get::<PortDirection>(endpoints.source_port).unwrap();
        let tgt_dir = restored.world.get::<PortDirection>(endpoints.target_port).unwrap();
        assert_eq!(*src_dir, PortDirection::Output);
        assert_eq!(*tgt_dir, PortDirection::Input);
    }
}

#[test]
fn serialization_empty_graph() {
    let graph: NodeGraph<f64> = NodeGraph::new();
    let serialized = graph.serialize();
    let restored = NodeGraph::deserialize(&serialized).unwrap();
    assert_eq!(restored.node_count(), 0);
    assert_eq!(restored.connection_count(), 0);
}

#[test]
fn deserialization_orphaned_connection_returns_error() {
    let data: SerializedGraph<f64> = SerializedGraph {
        nodes: vec![],
        connections: vec![SerializedConnection { id: 0, source_port: 999, target_port: 888 }],
        frames: vec![],
    };
    let result = NodeGraph::deserialize(&data);
    assert!(matches!(result, Err(DeserializeError::OrphanedConnection { .. })));
}

#[test]
fn serialization_roundtrip_frames_and_reroutes() {
    let mut graph: NodeGraph<f64> = NodeGraph::new();
    let n1 = graph.add_node("A", (0.0, 0.0));
    graph.add_port(n1, PortDirection::Output, SocketType::Float, "Out");
    let n2 = graph.add_node("B", (200.0, 0.0));
    graph.add_port(n2, PortDirection::Input, SocketType::Float, "In");

    let reroute = graph.add_node("Reroute", (100.0, 0.0));
    graph.add_port(reroute, PortDirection::Input, SocketType::Any, "");
    graph.add_port(reroute, PortDirection::Output, SocketType::Any, "");
    graph.world.insert(reroute, IsReroute);

    graph.add_frame("My Frame", [255, 100, 50], &[n1, n2], nodegraph_core::graph::frame::FrameRect { x: -30.0, y: -30.0, w: 460.0, h: 110.0 });

    let serialized = graph.serialize();
    let restored = NodeGraph::deserialize(&serialized).unwrap();

    let reroute_count = restored.world.query::<IsReroute>().len();
    assert_eq!(reroute_count, 1, "IsReroute should survive serialization roundtrip");

    assert_eq!(restored.frame_count(), 1, "Frame should survive serialization roundtrip");
    let fid = restored.world.query::<FrameRect<f64>>()[0].0;
    let label = restored.world.get::<FrameLabel>(fid).unwrap();
    assert_eq!(label.0, "My Frame");
    let members = restored.world.get::<FrameMembers>(fid).unwrap();
    assert_eq!(members.0.len(), 2, "Frame should have 2 members after roundtrip");
}

#[test]
fn serialization_roundtrip_with_subgraphs() {
    let mut ge: GraphEditor<f64> = GraphEditor::new();
    let b = build_chain(&mut ge);

    let (group_node, _subgraph_id) = ge.group_nodes(&[b]).unwrap();

    let root_serialized = ge.current_graph().serialize();
    let root_restored = NodeGraph::deserialize(&root_serialized).unwrap();
    assert_eq!(root_restored.node_count(), 3, "Root roundtrip: 3 nodes");
    assert_eq!(root_restored.connection_count(), 2, "Root roundtrip: 2 connections");

    ge.enter_group(group_node);
    let sub_serialized = ge.current_graph().serialize();
    let sub_restored = NodeGraph::deserialize(&sub_serialized).unwrap();

    assert!(sub_restored.node_count() >= 2, "Subgraph roundtrip: at least B + IO nodes, got {}", sub_restored.node_count());
    assert!(
        sub_restored.connection_count() >= 1,
        "Subgraph roundtrip: at least 1 connection, got {}",
        sub_restored.connection_count()
    );

    let titles: Vec<String> = sub_restored.world.query::<NodeHeader>().iter().map(|(_, h)| h.title.clone()).collect();
    assert!(titles.iter().any(|t| t == "B"), "Subgraph should contain node B after roundtrip, got {:?}", titles);
}

#[test]
fn graph_editor_full_roundtrip() {
    let mut ge: GraphEditor<f64> = GraphEditor::new();
    let b = build_chain(&mut ge);

    let (_group_node, _subgraph_id) = ge.group_nodes(&[b]).unwrap();

    let data = ge.serialize_editor();
    let restored = GraphEditor::deserialize_editor(&data).unwrap();

    assert_eq!(restored.current_graph().node_count(), 3, "Root: 3 nodes");
    assert_eq!(restored.current_graph().connection_count(), 2, "Root: 2 connections");

    let group_count = restored.current_graph().world.query::<SubgraphRoot>().len();
    assert_eq!(group_count, 1, "Root should have 1 group node with SubgraphRoot");

    assert_eq!(data.graphs.len(), 2, "Should serialize 2 graphs");

    let group_node_id = restored.current_graph().world.query::<SubgraphRoot>()[0].0;
    let mut restored = restored;
    assert!(restored.enter_group(group_node_id), "Should be able to enter group");

    assert!(restored.current_graph().node_count() >= 2, "Subgraph should have B + IO nodes");

    let io_count = restored.current_graph().world.query::<GroupIOKind>().len();
    assert!(io_count >= 1, "Subgraph should have IO nodes with GroupIOKind, got {}", io_count);
}

#[test]
fn serialized_records_keep_titles_ports_and_links() {
    let mut graph: NodeGraph<f64> = NodeGraph::new();
    let n1 = graph.add_node("Source", (1.0, 2.0));
    let out = graph.add_port(n1, PortDirection::Output, SocketType::Vector, "V");
    let n2 = graph.add_node("Sink", (3.0, 4.0));
    let inp = graph.add_port(n2, PortDirection::Input, SocketType::Vector, "V");
    graph.connect(out, inp).unwrap();

    let data = graph.serialize();
    assert_eq!(data.nodes.len(), 2);
    assert_eq!(data.nodes[0].header.title, "Source");
    assert_eq!(data.nodes[0].position, (1.0, 2.0));
    assert_eq!(data.nodes[0].ports.len(), 1);
    assert_eq!(data.nodes[0].ports[0].direction, PortDirection::Output);
    assert_eq!(data.nodes[1].header.title, "Sink");
    assert_eq!(data.connections.len(), 1);
    assert_eq!(data.connections[0].source_port, data.nodes[0].ports[0].id);
    assert_eq!(data.connections[0].target_port, data.nodes[1].ports[0].id);
    assert!(data.frames.is_empty());
}

#[test]
fn deserialization_of_incompatible_connection_fails() {
    let mut graph: NodeGraph<f64> = NodeGraph::new();
    let n1 = graph.add_node("A", (0.0, 0.0));
    let out = graph.add_port(n1, PortDirection::Output, SocketType::Float, "Out");
    let n2 = graph.add_node("B", (0.0, 0.0));
    let inp = graph.add_port(n2, PortDirection::Input, SocketType::Float, "In");
    graph.connect(out, inp).unwrap();
    let mut data = graph.serialize();
    data.nodes[1].ports[0].socket_type = SocketType::Shader;
    let result = NodeGraph::deserialize(&data);
    assert!(matches!(result, Err(DeserializeError::ConnectionFailed { .. })));
}

#[test]
fn editor_with_duplicate_graph_ids_is_refused() {
    let ge: GraphEditor<f64> = GraphEditor::new();
    let mut data = ge.serialize_editor();
    let copy = NodeGraph::<f64>::new().serialize();
    let root = data.root_graph_id;
    data.graphs.push((root, copy));
    let result = GraphEditor::deserialize_editor(&data);
    assert!(matches!(result, Err(DeserializeError::DuplicateGraphId { id }) if id == root));
}

#[test]
fn editor_without_root_graph_is_refused() {
    let ge: GraphEditor<f64> = GraphEditor::new();
    let mut data = ge.serialize_editor();
    data.root_graph_id = data.root_graph_id + 7;
    let result = GraphEditor::deserialize_editor(&data);
    assert!(matches!(
        result,
        Err(DeserializeError::MissingRootGraph { root_graph_id }) if root_graph_id == data.root_graph_id
    ));
}

#[test]
fn graph_round_trip_keeps_nodes_ports_and_links() {
    let mut graph: NodeGraph<f64> = NodeGraph::new();
    let n1 = graph.add_node("Source", (1.0, 2.0));
    let out = graph.add_port(n1, PortDirection::Output, SocketType::Vector, "V");
    let n2 = graph.add_node("Sink", (3.0, 4.0));
    let inp = graph.add_port(n2, PortDirection::Input, SocketType::Vector, "W");
    graph.connect(out, inp).unwrap();
    let data = graph.serialize();
    let restored = NodeGraph::deserialize(&data).unwrap();
    assert_eq!(restored.node_count(), 2);
    assert_eq!(restored.connection_count(), 1);
    let titles: Vec<String> = restored.world.query::<NodeHeader>().iter().map(|(_, h)| h.title.clone()).collect();
    assert!(titles.contains(&"Source".to_string()) && titles.contains(&"Sink".to_string()));
    let sockets = restored.world.query::<PortSocketType>();
    assert_eq!(sockets.len(), 2);
    assert!(sockets.iter().all(|(_, s)| s.0 == SocketType::Vector));
}

use nodegraph_core::graph::port::PortDirection;
use nodegraph_core::search::{NodeTypeDefinition, NodeTypeRegistry, PortDefinition};
use nodegraph_core::types::socket_type::SocketType;

fn make_registry() -> NodeTypeRegistry {
    let mut reg = NodeTypeRegistry::new();
    reg.register(NodeTypeDefinition {
        type_id: "math_add".into(),
        display_name: "Math Add".into(),
        category: "Math".into(),
        input_ports: vec![
            PortDefinition { direction: PortDirection::Input, socket_type: SocketType::Float, label: "A".into() },
            PortDefinition { direction: PortDirection::Input, socket_type: SocketType::Float, label: "B".into() },
        ],
        output_ports: vec![
            PortDefinition { direction: PortDirection::Output, socket_type: SocketType::Float, label: "Result".into() },
        ],
    });
    reg.register(NodeTypeDefinition {
        type_id: "color_mix".into(),
        display_name: "Color Mix".into(),
        category: "Color".into(),
        input_ports: vec![
            PortDefinition { direction: PortDirection::Input, socket_type: SocketType::Color, label: "Color 1".into() },
            PortDefinition { direction: PortDirection::Input, socket_type: SocketType::Color, label: "Color 2".into() },
            PortDefinition { direction: PortDirection::Input, socket_type: SocketType::Float, label: "Factor".into() },
        ],
        output_ports: vec![
            PortDefinition { direction: PortDirection::Output, socket_type: SocketType::Color, label: "Color".into() },
        ],
    });
    reg.register(NodeTypeDefinition {
        type_id: "principled_bsdf".into(),
        display_name: "Principled BSDF".into(),
        category: "Shader".into(),
        input_ports: vec![
            PortDefinition { direction: PortDirection::Input, socket_type: SocketType::Color, label: "Base Color".into() },
            PortDefinition { direction: PortDirection::Input, socket_type: SocketType::Float, label: "Roughness".into() },
        ],
        output_ports: vec![
            PortDefinition { direction: PortDirection::Output, socket_type: SocketType::Shader, label: "BSDF".into() },
        ],
    });
    reg
}

#[test]
fn search_empty_returns_all() {
    let reg = make_registry();
    assert_eq!(reg.search("").len(), 3);
}

#[test]
fn search_by_name() {
    let reg = make_registry();
    let results = reg.search("math");
    assert_eq!(results.len(), 1);
    assert_eq!(results[0].type_id, "math_add");
}

#[test]
fn search_by_category() {
    let reg = make_registry();
    let results = reg.search("shader");
    assert_eq!(results.len(), 1);
    assert_eq!(results[0].type_id, "principled_bsdf");
}

#[test]
fn search_case_insensitive() {
    let reg = make_registry();
    assert_eq!(reg.search("MATH").len(), 1);
    assert_eq!(reg.search("Color").len(), 1);
}

#[test]
fn get_by_type_id() {
    let reg = make_registry();
    assert!(reg.get("math_add").is_some());
    assert!(reg.get("nonexistent").is_none());
}

#[test]
fn search_compatible_from_float_output() {
    let reg = make_registry();
    let results = reg.search_compatible("", SocketType::Float, true);
    assert_eq!(results.len(), 3);
}

#[test]
fn search_compatible_from_shader_output() {
    let reg = make_registry();
    let results = reg.search_compatible("", SocketType::Shader, true);
    assert_eq!(results.len(), 0);
}

#[test]
fn search_compatible_from_color_input() {
    let reg = make_registry();
    let results = reg.search_compatible("", SocketType::Color, false);
    assert_eq!(results.len(), 2);
}

#[test]
fn any_type_compatible_with_everything() {
    assert!(SocketType::Any.is_compatible_with(&SocketType::Float));
    assert!(SocketType::Any.is_compatible_with(&SocketType::Shader));
    assert!(SocketType::Float.is_compatible_with(&SocketType::Any));
    assert!(SocketType::Any.is_compatible_with(&SocketType::Any));
}

#[test]
fn search_matches_inner_text_in_order() {
    let reg = make_registry();
    let results = reg.search("IX");
    assert_eq!(results.len(), 1);
    assert_eq!(results[0].type_id, "color_mix");
    let results = reg.search("r");
    let ids: Vec<&str> = results.iter().map(|t| t.type_id.as_str()).collect();
    assert_eq!(ids, vec!["color_mix", "principled_bsdf"]);
    assert_eq!(reg.all().len(), 3);
    assert!(reg.search("zzz").is_empty());
}

#[test]
fn search_compatible_filters_search_results() {
    let reg = make_registry();
    let results = reg.search_compatible("color", SocketType::Shader, false);
    assert_eq!(results.len(), 0);
    let results = reg.search_compatible("bsdf", SocketType::Color, true);
    assert_eq!(results.len(), 1);
}

use nodegraph_core::graph::port::PortDirection;
use nodegraph_core::interaction::{HitTarget, Modifiers, MouseButton, SelectionState};
use nodegraph_core::render::{context_menu_actions, is_exact_type_match, is_valid_connection_target, shortcut_action, MenuAction, ShortcutAction};
use nodegraph_core::store::{EntityId, Generation};
use nodegraph_core::types::socket_type::SocketType;
use nodegraph_core::widgets::{hex_to_rgba, rgba_to_hex};

#[test]
fn selection_toggle() {
    let mut sel = SelectionState::new();
    let id = EntityId { index: 0, generation: Generation::default() };

    sel.toggle(id);
    assert!(sel.is_selected(id));
    sel.toggle(id);
    assert!(!sel.is_selected(id));
}

#[test]
fn selection_select_is_idempotent_and_ordered() {
    let mut sel = SelectionState::new();
    let a = EntityId { index: 1, generation: Generation::default() };
    let b = EntityId { index: 2, generation: Generation::default() };
    sel.select(a);
    sel.select(b);
    sel.select(a);
    assert_eq!(sel.selected, vec![a, b]);
    sel.deselect(a);
    assert_eq!(sel.selected, vec![b]);
    sel.set(vec![a, b]);
    assert_eq!(sel.selected.len(), 2);
    sel.clear();
    assert!(sel.selected.is_empty());
}

#[test]
fn socket_type_same_type_compatible() {
    assert!(SocketType::Float.is_compatible_with(&SocketType::Float));
    assert!(SocketType::Shader.is_compatible_with(&SocketType::Shader));
    assert!(SocketType::Custom(42).is_compatible_with(&SocketType::Custom(42)));
}

#[test]
fn socket_type_numeric_conversions() {
    assert!(SocketType::Float.is_compatible_with(&SocketType::Int));
    assert!(SocketType::Int.is_compatible_with(&SocketType::Float));
    assert!(SocketType::Float.is_compatible_with(&SocketType::Bool));
    assert!(SocketType::Bool.is_compatible_with(&SocketType::Float));
    assert!(SocketType::Int.is_compatible_with(&SocketType::Bool));
    assert!(SocketType::Bool.is_compatible_with(&SocketType::Int));
}

#[test]
fn socket_type_float_color_vector_conversions() {
    assert!(SocketType::Float.is_compatible_with(&SocketType::Color));
    assert!(SocketType::Color.is_compatible_with(&SocketType::Float));
    assert!(SocketType::Float.is_compatible_with(&SocketType::Vector));
    assert!(SocketType::Vector.is_compatible_with(&SocketType::Float));
}

#[test]
fn socket_type_incompatible() {
    assert!(!SocketType::Float.is_compatible_with(&SocketType::Shader));
    assert!(!SocketType::Shader.is_compatible_with(&SocketType::Geometry));
    assert!(!SocketType::Custom(1).is_compatible_with(&SocketType::Custom(2)));
    assert!(!SocketType::String.is_compatible_with(&SocketType::Float));
    assert!(!SocketType::Vector.is_compatible_with(&SocketType::Color));
    assert!(!SocketType::Image.is_compatible_with(&SocketType::Object));
}

#[test]
fn valid_connection_targets() {
    assert!(is_valid_connection_target(true, SocketType::Float, PortDirection::Input, SocketType::Int));
    assert!(!is_valid_connection_target(true, SocketType::Float, PortDirection::Output, SocketType::Float));
    assert!(is_valid_connection_target(false, SocketType::Color, PortDirection::Output, SocketType::Float));
    assert!(!is_valid_connection_target(false, SocketType::Shader, PortDirection::Output, SocketType::Float));
    assert!(is_exact_type_match(SocketType::Float, SocketType::Float));
    assert!(!is_exact_type_match(SocketType::Float, SocketType::Int));
}

#[test]
fn hex_rgba_roundtrip() {
    assert_eq!(hex_to_rgba("#8b6914"), [139, 105, 20, 255]);
    let hex = rgba_to_hex([139, 105, 20, 255]);
    assert_eq!(hex, "#8b6914");
    assert_eq!(hex_to_rgba(&hex), [139, 105, 20, 255]);
}

#[test]
fn hex_rgba_short_is_fallback() {
    assert_eq!(hex_to_rgba("#abc"), [200, 200, 200, 255]);
}

#[test]
fn hex_rgba_edge_cases() {
    assert_eq!(hex_to_rgba("##FFee00"), [255, 238, 0, 255]);
    assert_eq!(hex_to_rgba("zz0a+f"), [200, 10, 15, 255]);
    assert_eq!(rgba_to_hex([0, 15, 255, 7]), "#000fff");
}

#[test]
fn input_event_types() {
    let m = Modifiers::default();
    assert!(!m.shift && !m.ctrl && !m.alt);
    assert_ne!(MouseButton::Left, MouseButton::Right);
    let id = EntityId { index: 3, generation: Generation::default() };
    assert_eq!(HitTarget::Node(id), HitTarget::Node(id));
    assert_ne!(HitTarget::Port(id), HitTarget::Nothing);
}

#[test]
fn shortcut_table() {
    assert_eq!(shortcut_action("Delete", false, false), Some(ShortcutAction::DeleteSelected));
    assert_eq!(shortcut_action("x", false, false), Some(ShortcutAction::DeleteSelected));
    assert_eq!(shortcut_action("z", true, false), Some(ShortcutAction::Undo));
    assert_eq!(shortcut_action("Z", true, true), Some(ShortcutAction::Redo));
    assert_eq!(shortcut_action("D", true, true), Some(ShortcutAction::DuplicateSelected));
    assert_eq!(shortcut_action("g", false, false), Some(ShortcutAction::Group));
    assert_eq!(shortcut_action("G", false, true), Some(ShortcutAction::Ungroup));
    assert_eq!(shortcut_action("f", false, false), Some(ShortcutAction::CreateFrame));
    assert_eq!(shortcut_action("h", false, false), Some(ShortcutAction::ToggleCollapse));
    assert_eq!(shortcut_action("m", false, true), Some(ShortcutAction::ToggleMute));
    assert_eq!(shortcut_action("a", false, false), Some(ShortcutAction::SelectAll));
    assert_eq!(shortcut_action("A", false, true), Some(ShortcutAction::OpenSearch));
    assert_eq!(shortcut_action("?", false, false), Some(ShortcutAction::ToggleHelp));
    assert_eq!(shortcut_action("x", true, false), None);
    assert_eq!(shortcut_action("q", false, false), None);
}

#[test]
fn context_menu_per_target() {
    let id = EntityId { index: 5, generation: Generation::default() };
    assert_eq!(
        context_menu_actions(HitTarget::Node(id)),
        vec![MenuAction::DeleteNode(id), MenuAction::DuplicateNode(id), MenuAction::ToggleMute(id), MenuAction::ToggleCollapse(id)]
    );
    assert_eq!(context_menu_actions(HitTarget::Connection(id)), vec![MenuAction::DeleteConnection(id)]);
    let frame = context_menu_actions(HitTarget::Frame(id));
    assert_eq!(frame.len(), 9);
    assert_eq!(frame[0], MenuAction::DeleteFrame(id));
    assert_eq!(frame[1], MenuAction::SetFrameColor(id, [200, 80, 80]));
    assert_eq!(frame[8], MenuAction::SetFrameColor(id, [120, 120, 140]));
    assert_eq!(context_menu_actions(HitTarget::Nothing), vec![MenuAction::AddNode]);
    assert!(context_menu_actions(HitTarget::Port(id)).is_empty());
}

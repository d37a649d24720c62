use vstd::prelude::*;
use crate::graph::port::PortDirection;
use crate::types::socket_type::{SocketType, compatible};
use crate::interaction::HitTarget;
use crate::store::EntityId;

verus! {

/// Whether a wire dragged from a port of type `src_type` (an output port
/// when `from_output`) may end on a port with direction `tgt_dir` and type
/// `tgt_type`: the directions must be opposite and the types compatible.
pub fn is_valid_connection_target(from_output: bool, src_type: SocketType, tgt_dir: PortDirection, tgt_type: SocketType) -> (r: bool)
    ensures
        r == ((if from_output { tgt_dir == PortDirection::Input } else { tgt_dir == PortDirection::Output })
            && compatible(src_type, tgt_type)),
{
    let dir_ok = if from_output { tgt_dir == PortDirection::Input } else { tgt_dir == PortDirection::Output };
    dir_ok && src_type.is_compatible_with(&tgt_type)
}

/// Whether two socket types are the same type.
pub fn is_exact_type_match(a: SocketType, b: SocketType) -> (r: bool)
    ensures
        r == (a == b),
{
    a == b
}

/// An editor command bound to a key.
#[derive(Clone, Copy, Debug, PartialEq, Eq, Structural)]
pub enum ShortcutAction {
    DeleteSelected,
    Undo,
    Redo,
    DuplicateSelected,
    ToggleMute,
    ToggleCollapse,
    SelectAll,
    CreateFrame,
    Group,
    Ungroup,
    OpenSearch,
    ToggleHelp,
}

/// The command that key `key`, with Ctrl and Shift as given, stands for:
/// the first matching row of the shortcut table.
pub open spec fn shortcut_spec(key: Seq<char>, ctrl: bool, shift: bool) -> Option<ShortcutAction> {
    let is = |a: Seq<char>, b: Seq<char>| key == a || key == b;
    if (key == "Delete"@ || is("x"@, "X"@)) && !ctrl {
        Some(ShortcutAction::DeleteSelected)
    } else if is("z"@, "Z"@) && ctrl && shift {
        Some(ShortcutAction::Redo)
    } else if is("z"@, "Z"@) && ctrl {
        Some(ShortcutAction::Undo)
    } else if is("d"@, "D"@) && shift {
        Some(ShortcutAction::DuplicateSelected)
    } else if is("m"@, "M"@) && !ctrl {
        Some(ShortcutAction::ToggleMute)
    } else if is("h"@, "H"@) && !ctrl {
        Some(ShortcutAction::ToggleCollapse)
    } else if is("a"@, "A"@) && !ctrl && !shift {
        Some(ShortcutAction::SelectAll)
    } else if is("f"@, "F"@) && !ctrl && !shift {
        Some(ShortcutAction::CreateFrame)
    } else if is("g"@, "G"@) && !ctrl && !shift {
        Some(ShortcutAction::Group)
    } else if is("g"@, "G"@) && shift && !ctrl {
        Some(ShortcutAction::Ungroup)
    } else if is("a"@, "A"@) && shift && !ctrl {
        Some(ShortcutAction::OpenSearch)
    } else if key == "?"@ {
        Some(ShortcutAction::ToggleHelp)
    } else {
        None
    }
}

/// Whether two strings hold the same characters.
fn same_text(a: &str, b: &str) -> (r: bool)
    ensures
        r == (a@ == b@),
{
    let n = a.unicode_len();
    if n != b.unicode_len() {
        return false;
    }
    let mut i: usize = 0;
    while i < n
        invariant
            n == a@.len(),
            n == b@.len(),
            i <= n,
            forall|t: int| 0 <= t < i ==> a@[t] == b@[t],
        decreases n - i,
    {
        if a.get_char(i) != b.get_char(i) {
            return false;
        }
        i = i + 1;
    }
    proof {
        assert(a@ =~= b@);
    }
    true
}

/// The command bound to key `key` with the given modifiers, if any.
pub fn shortcut_action(key: &str, ctrl: bool, shift: bool) -> (r: Option<ShortcutAction>)
    ensures
        r == shortcut_spec(key@, ctrl, shift),
{
    let x = same_text(key, "x") || same_text(key, "X");
    let z = same_text(key, "z") || same_text(key, "Z");
    let d = same_text(key, "d") || same_text(key, "D");
    let m = same_text(key, "m") || same_text(key, "M");
    let h = same_text(key, "h") || same_text(key, "H");
    let a = same_text(key, "a") || same_text(key, "A");
    let f = same_text(key, "f") || same_text(key, "F");
    let g = same_text(key, "g") || same_text(key, "G");
    if (same_text(key, "Delete") || x) && !ctrl {
        Some(ShortcutAction::DeleteSelected)
    } else if z && ctrl && shift {
        Some(ShortcutAction::Redo)
    } else if z && ctrl {
        Some(ShortcutAction::Undo)
    } else if d && shift {
        Some(ShortcutAction::DuplicateSelected)
    } else if m && !ctrl {
        Some(ShortcutAction::ToggleMute)
    } else if h && !ctrl {
        Some(ShortcutAction::ToggleCollapse)
    } else if a && !ctrl && !shift {
        Some(ShortcutAction::SelectAll)
    } else if f && !ctrl && !shift {
        Some(ShortcutAction::CreateFrame)
    } else if g && !ctrl && !shift {
        Some(ShortcutAction::Group)
    } else if g && shift && !ctrl {
        Some(ShortcutAction::Ungroup)
    } else if a && shift && !ctrl {
        Some(ShortcutAction::OpenSearch)
    } else if same_text(key, "?") {
        Some(ShortcutAction::ToggleHelp)
    } else {
        None
    }
}

/// An entry of the right-click menu, with the entity it acts on.
#[derive(Clone, Copy, Debug, PartialEq, Eq)]
pub enum MenuAction {
    DeleteNode(EntityId),
    DuplicateNode(EntityId),
    ToggleMute(EntityId),
    ToggleCollapse(EntityId),
    DeleteConnection(EntityId),
    DeleteFrame(EntityId),
    SetFrameColor(EntityId, [u8; 3]),
    AddNode,
}

/// The colors a frame can be given from its menu: red, orange, yellow,
/// green, cyan, blue, purple and gray.
pub open spec fn frame_color_presets() -> Seq<[u8; 3]> {
    seq![
        [200u8, 80u8, 80u8],
        [200u8, 140u8, 60u8],
        [200u8, 200u8, 60u8],
        [80u8, 180u8, 80u8],
        [60u8, 180u8, 200u8],
        [80u8, 100u8, 200u8],
        [160u8, 80u8, 200u8],
        [120u8, 120u8, 140u8],
    ]
}

/// The right-click menu offered for each target: a node can be deleted,
/// duplicated, muted or collapsed; a connection deleted; a frame deleted
/// or recolored with one of the presets; the empty canvas offers to add a
/// node; a port offers nothing.
pub open spec fn menu_spec(target: HitTarget) -> Seq<MenuAction> {
    match target {
        HitTarget::Node(n) => seq![
            MenuAction::DeleteNode(n),
            MenuAction::DuplicateNode(n),
            MenuAction::ToggleMute(n),
            MenuAction::ToggleCollapse(n),
        ],
        HitTarget::Connection(c) => seq![MenuAction::DeleteConnection(c)],
        HitTarget::Frame(f) => seq![MenuAction::DeleteFrame(f)] + frame_color_presets().map_values(
            |c: [u8; 3]| MenuAction::SetFrameColor(f, c),
        ),
        HitTarget::Nothing => seq![MenuAction::AddNode],
        HitTarget::Port(_) => Seq::empty(),
    }
}

/// The entries of the right-click menu on `target`, in display order.
pub fn context_menu_actions(target: HitTarget) -> (r: Vec<MenuAction>)
    ensures
        r@ == menu_spec(target),
{
    let mut r: Vec<MenuAction> = Vec::new();
    match target {
        HitTarget::Node(n) => {
            r.push(MenuAction::DeleteNode(n));
            r.push(MenuAction::DuplicateNode(n));
            r.push(MenuAction::ToggleMute(n));
            r.push(MenuAction::ToggleCollapse(n));
        },
        HitTarget::Connection(c) => {
            r.push(MenuAction::DeleteConnection(c));
        },
        HitTarget::Frame(f) => {
            r.push(MenuAction::DeleteFrame(f));
            r.push(MenuAction::SetFrameColor(f, [200, 80, 80]));
            r.push(MenuAction::SetFrameColor(f, [200, 140, 60]));
            r.push(MenuAction::SetFrameColor(f, [200, 200, 60]));
            r.push(MenuAction::SetFrameColor(f, [80, 180, 80]));
            r.push(MenuAction::SetFrameColor(f, [60, 180, 200]));
            r.push(MenuAction::SetFrameColor(f, [80, 100, 200]));
            r.push(MenuAction::SetFrameColor(f, [160, 80, 200]));
            r.push(MenuAction::SetFrameColor(f, [120, 120, 140]));
        },
        HitTarget::Nothing => {
            r.push(MenuAction::AddNode);
        },
        HitTarget::Port(_) => {},
    }
    proof {
        let ghost target_menu = menu_spec(target);
        assert(r@ =~= target_menu);
    }
    r
}

} // verus!

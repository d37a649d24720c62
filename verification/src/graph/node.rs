use vstd::prelude::*;

verus! {

/// Title, header color and collapse flag of a node.
#[derive(Debug, PartialEq, Eq)]
pub struct NodeHeader {
    pub title: String,
    pub color: [u8; 3],
    pub collapsed: bool,
}

impl Clone for NodeHeader {
    fn clone(&self) -> (r: Self)
        ensures
            r == *self,
    {
        NodeHeader { title: self.title.clone(), color: self.color, collapsed: self.collapsed }
    }
}

/// World-space position of a node's top-left corner. The coordinate type
/// is chosen by the application; the library only stores and copies it.
#[derive(Clone, Copy, Debug, PartialEq)]
pub struct NodePosition<F> {
    pub x: F,
    pub y: F,
}

/// The registry type a node was created from.
#[derive(Debug, PartialEq, Eq)]
pub struct NodeTypeId(pub String);

impl Clone for NodeTypeId {
    fn clone(&self) -> (r: Self)
        ensures
            r == *self,
    {
        NodeTypeId(self.0.clone())
    }
}

/// Whether a node is muted (bypassed during evaluation).
#[derive(Clone, Copy, Debug, PartialEq, Eq, Structural)]
pub struct MuteState(pub bool);

/// Extra height reserved for custom body content below the port rows.
#[derive(Clone, Copy, Debug, PartialEq)]
pub struct CustomBodyHeight<F>(pub F);

} // verus!

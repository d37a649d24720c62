use vstd::prelude::*;
use crate::store::EntityId;
use crate::types::socket_type::SocketType;

verus! {

/// Marks a group node: the id of the subgraph it stands for.
#[derive(Clone, Copy, Debug, PartialEq, Eq, Structural)]
pub struct SubgraphRoot(pub EntityId);

/// The label of a Group Input / Group Output node.
#[derive(Debug, PartialEq, Eq)]
pub struct GroupIOLabel(pub String);

impl Clone for GroupIOLabel {
    fn clone(&self) -> (r: Self)
        ensures
            r == *self,
    {
        GroupIOLabel(self.0.clone())
    }
}

/// A single IO binding between a parent-graph port and the corresponding
/// internal port on a group input / group output node in the subgraph.
#[derive(Debug, PartialEq, Eq)]
pub struct GroupIOBinding {
    /// Port on the parent graph side that was severed by grouping.
    pub external_port: EntityId,
    /// Port on the outside-facing group node, or (during ungroup) the
    /// corresponding internal port being reconnected.
    pub internal_port: EntityId,
    pub socket_type: SocketType,
    pub label: String,
}

impl Clone for GroupIOBinding {
    fn clone(&self) -> (r: Self)
        ensures
            r == *self,
    {
        GroupIOBinding {
            external_port: self.external_port,
            internal_port: self.internal_port,
            socket_type: self.socket_type,
            label: self.label.clone(),
        }
    }
}

/// Marker component for Group Input/Output special nodes inside subgraphs.
#[derive(Clone, Copy, Debug, PartialEq, Eq, Structural)]
pub enum GroupIOKind {
    Input,
    Output,
}

} // verus!

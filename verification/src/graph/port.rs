use vstd::prelude::*;
use crate::store::EntityId;
use crate::types::socket_type::SocketType;

verus! {

/// The node a port belongs to.
#[derive(Clone, Copy, Debug, PartialEq, Eq, Structural)]
pub struct PortOwner(pub EntityId);

#[derive(Clone, Copy, Debug, PartialEq, Eq, Hash, Structural)]
pub enum PortDirection {
    Input,
    Output,
}

#[derive(Clone, Copy, Debug, PartialEq, Eq, Structural)]
pub struct PortSocketType(pub SocketType);

/// Position of a port among the ports of the same direction on its node.
#[derive(Clone, Copy, Debug, PartialEq, Eq, Structural)]
pub struct PortIndex(pub u32);

#[derive(Debug, PartialEq, Eq)]
pub struct PortLabel(pub String);

impl Clone for PortLabel {
    fn clone(&self) -> (r: Self)
        ensures
            r == *self,
    {
        PortLabel(self.0.clone())
    }
}

} // verus!

use vstd::prelude::*;
use crate::store::EntityId;

verus! {

/// The two ports a connection joins: always an output port as
/// `source_port` and an input port as `target_port`.
#[derive(Clone, Copy, Debug, PartialEq, Eq, Structural)]
pub struct ConnectionEndpoints {
    pub source_port: EntityId,
    pub target_port: EntityId,
}

} // verus!

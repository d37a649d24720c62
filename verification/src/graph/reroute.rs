use vstd::prelude::*;

verus! {

/// Center position of a reroute node, in the application's coordinate type.
#[derive(Clone, Copy, Debug, PartialEq)]
pub struct ReroutePosition<F> {
    pub x: F,
    pub y: F,
}

/// Marker component for reroute nodes.
#[derive(Clone, Copy, Debug, PartialEq, Eq, Structural)]
pub struct IsReroute;

} // verus!

use vstd::prelude::*;
use crate::store::EntityId;

verus! {

#[derive(Debug, PartialEq, Eq)]
pub struct FrameLabel(pub String);

impl Clone for FrameLabel {
    fn clone(&self) -> (r: Self)
        ensures
            r == *self,
    {
        FrameLabel(self.0.clone())
    }
}

#[derive(Clone, Copy, Debug, PartialEq, Eq)]
pub struct FrameColor(pub [u8; 3]);

/// Bounding rectangle of a frame, in the application's coordinate type.
/// Frames are laid out from their members by the layout layer; the
/// library stores the rectangle it is handed.
#[derive(Clone, Copy, Debug, PartialEq)]
pub struct FrameRect<F> {
    pub x: F,
    pub y: F,
    pub w: F,
    pub h: F,
}

/// The nodes a frame groups visually.
#[derive(Debug, PartialEq, Eq)]
pub struct FrameMembers(pub Vec<EntityId>);

impl Clone for FrameMembers {
    fn clone(&self) -> (r: Self)
        ensures
            r.0@ == self.0@,
    {
        FrameMembers(crate::store::component::copy_ids(self.0.as_slice()))
    }
}

} // verus!

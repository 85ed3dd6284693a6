//! The stage at which a builder rests between the steps that change its
//! map.

use crate::floor_builder::floor_builder_state::{FloorBuilderState, Smoothable};
use crate::floor_builder::{FloorBuilder, Frame};
use crate::Floor;
use vstd::prelude::*;

verus! {

/// A builder in this stage holds nothing but its map. It can be smoothed,
/// and it can be finished.
#[derive(Debug)]
pub struct Filled {}

impl FloorBuilderState for Filled {

}

impl Smoothable for Filled {

}

impl<S: FloorBuilderState> FloorBuilder<S> {
    /// Ends the building and hands out the floor.
    pub fn finish(self) -> (r: Floor)
        requires
            self.wf(),
        ensures
            r.wf(),
            r.width == self.width,
            r.height == self.height,
            r.data == self.map,
    {
        Floor { height: self.height, width: self.width, data: self.map }
    }

    /// Ends the building and hands out the floor together with the
    /// pictures that were taken on the way, oldest first.
    pub fn finish_with_frames(self) -> (r: (Floor, Option<Vec<Frame>>))
        requires
            self.wf(),
        ensures
            r.0.wf(),
            r.0.width == self.width,
            r.0.height == self.height,
            r.0.data == self.map,
            r.1 == self.frames,
    {
        (Floor { height: self.height, width: self.width, data: self.map }, self.frames)
    }
}

} // verus!

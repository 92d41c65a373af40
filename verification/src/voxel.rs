//! Data traits shared by voxel-like shapes.

use vstd::prelude::*;

use crate::part::PartHitbox;

verus! {

/// A value that exposes a height.
pub trait HeightData {
    fn height(&self) -> u8;
}

/// A value that exposes a shape tag.
pub trait ShapeData {
    fn shape(&self) -> u8;
}

impl ShapeData for PartHitbox {
    fn shape(&self) -> u8 {
        self.shape
    }
}

} // verus!

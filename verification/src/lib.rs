//! Gameplay bookkeeping for a modular-vehicle game: assembly of named vehicle
//! parts (meshes, attachment sockets, collision hitboxes) from an imported
//! scene graph, and player lifecycle management with split-screen cameras.
//!
//! The host engine's entity store, rendering and asset loading stay outside
//! this crate; here the scene graph and the entity world are explicit plain
//! data, so every rule about them is stated and proved.

pub mod geom;
pub mod part;
pub mod player;
pub mod strings;
pub mod voxel;

use vstd::prelude::*;

verus! {

/// Registration marker for the utility systems of the game; the engine-side
/// wiring lives with the host application.
pub struct TankUtilPlugin;

} // verus!

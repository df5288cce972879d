//! A layered texture atlas: many images of varying size packed into a few
//! square layers of a fixed edge length.

pub mod allocation;
pub mod allocator;
pub mod atlas;
pub mod entry;
pub mod geometry;
pub mod layer;
pub mod model;
pub mod packing;
pub mod theorems;
pub mod tiling;
pub mod transfer;

pub use allocation::Allocation;
pub use allocator::{Allocator, Region};
pub use atlas::{Atlas, Backend};
pub use entry::{Entry, Fragment};
pub use layer::Layer;

use vstd::prelude::*;

verus! {

/// The edge length of every layer of an atlas.
pub const SIZE: u32 = 2048;

} // verus!

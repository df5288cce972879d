//! The handle that stands for an image stored in an atlas.

use crate::allocation::Allocation;
use vstd::prelude::*;

verus! {

/// All that is needed to find an image in an atlas and to give its space
/// back. It is kept for as long as the image is stored.
#[derive(Debug)]
pub enum Entry {
    /// A single allocation containing all of the image.
    Contiguous(Allocation),
    /// Several allocations containing the image together.
    Fragmented {
        /// The size of the image.
        size: (u32, u32),
        /// The fragments containing parts of the image.
        fragments: Vec<Fragment>,
    },
}

/// An allocation for part of an image.
#[derive(Debug)]
pub struct Fragment {
    /// The position, inside of the image, of the part that the space is
    /// allocated for.
    pub position: (u32, u32),
    /// The allocation containing the part of the image.
    pub allocation: Allocation,
}

impl Entry {
    /// The width and height of the image that the entry stands for.
    pub open spec fn extent(&self) -> (u32, u32) {
        match self {
            Entry::Contiguous(allocation) => (allocation.rect().width, allocation.rect().height),
            Entry::Fragmented { size, .. } => *size,
        }
    }

    /// The allocations that hold the image, in the order of its parts.
    pub open spec fn allocations(&self) -> Seq<Allocation> {
        match self {
            Entry::Contiguous(allocation) => seq![*allocation],
            Entry::Fragmented { fragments, .. } => Seq::new(
                fragments@.len(),
                |k: int| fragments@[k].allocation,
            ),
        }
    }

    /// The size of the image.
    pub fn size(&self) -> (s: (u32, u32))
        ensures
            s == self.extent(),
    {
        match self {
            Entry::Contiguous(allocation) => allocation.size(),
            Entry::Fragmented { size, .. } => *size,
        }
    }
}

} // verus!

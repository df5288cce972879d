//! Where an accepted request landed.

use crate::allocator::Region;
use crate::geometry::Rect;
use crate::SIZE;
use vstd::prelude::*;

verus! {

/// An allocated space in an atlas, usually part of an [`Entry`](crate::Entry).
#[derive(Debug)]
pub enum Allocation {
    /// Allocated space taking up part of a layer.
    Partial {
        /// The layer the space is allocated in.
        layer: usize,
        /// Where the allocation is situated inside of the layer.
        region: Region,
    },
    /// Allocated space taking up a full layer.
    Full {
        /// The layer the space is allocated in.
        layer: usize,
    },
}

impl Allocation {
    /// The rectangle that the allocation takes up inside its layer.
    pub open spec fn rect(&self) -> Rect {
        match self {
            Allocation::Partial { region, .. } => region@,
            Allocation::Full { .. } => Rect { x: 0, y: 0, width: SIZE, height: SIZE },
        }
    }

    /// The index of the layer that the allocation lies in.
    pub open spec fn layer_index(&self) -> int {
        match self {
            Allocation::Partial { layer, .. } => *layer as int,
            Allocation::Full { layer } => *layer as int,
        }
    }

    /// The top-left corner of the allocation inside of its layer.
    pub fn position(&self) -> (p: (u32, u32))
        ensures
            p == (self.rect().x, self.rect().y),
    {
        match self {
            Allocation::Partial { region, .. } => region.position(),
            Allocation::Full { .. } => (0, 0),
        }
    }

    /// The width and height of the allocation.
    pub fn size(&self) -> (s: (u32, u32))
        ensures
            s == (self.rect().width, self.rect().height),
    {
        match self {
            Allocation::Partial { region, .. } => region.size(),
            Allocation::Full { .. } => (SIZE, SIZE),
        }
    }

    /// The layer in which the allocation is situated.
    pub fn layer(&self) -> (l: usize)
        ensures
            l == self.layer_index(),
    {
        match self {
            Allocation::Partial { layer, .. } => *layer,
            Allocation::Full { layer } => *layer,
        }
    }
}

} // verus!

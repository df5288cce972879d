//! One layer of an atlas.

use crate::allocator::Allocator;
use crate::packing::Packing;
use crate::SIZE;
use vstd::prelude::*;

verus! {

/// A layer of memory in an atlas.
#[derive(Debug)]
pub enum Layer {
    /// A layer with no space allocated.
    Empty,
    /// A layer with some space allocated, and the allocator that hands out
    /// and takes back space in it.
    Busy(Allocator),
    /// A layer with all its space allocated at once.
    Full,
}

/// A layer as a mathematical value.
pub enum LayerView {
    Empty,
    Busy(Packing),
    Full,
}

impl LayerView {
    /// A busy layer is a tiling of the layer's square that holds at least
    /// one live region.
    pub open spec fn wf(self) -> bool {
        self matches LayerView::Busy(p) ==> p.wf() && p.size == SIZE && p.live.len() > 0
    }

    /// Two layers are of the same kind: both empty, both busy or both full.
    pub open spec fn same_kind(self, other: LayerView) -> bool {
        &&& self is Empty <==> other is Empty
        &&& self is Busy <==> other is Busy
        &&& self is Full <==> other is Full
    }
}

impl View for Layer {
    type V = LayerView;

    open spec fn view(&self) -> LayerView {
        match self {
            Layer::Empty => LayerView::Empty,
            Layer::Busy(allocator) => LayerView::Busy(allocator@),
            Layer::Full => LayerView::Full,
        }
    }
}

impl Layer {
    /// The layer's view is well formed.
    pub open spec fn wf(&self) -> bool {
        self@.wf()
    }

    /// True if the layer has no space allocated.
    pub fn is_empty(&self) -> (empty: bool)
        ensures
            empty == (self@ is Empty),
    {
        match self {
            Layer::Empty => true,
            _ => false,
        }
    }
}

} // verus!

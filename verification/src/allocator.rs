//! The region allocator of one layer: a guillotine packer over a square.

use crate::geometry::Rect;
use crate::packing::{
    coalesce, first_adjacent, is_first_adjacent, lemma_first_adjacent, remainder, Packing,
};
use vstd::prelude::*;

verus! {

/// A rectangle handed out by an [`Allocator`].
#[derive(Debug)]
pub struct Region {
    rect: Rect,
}

impl View for Region {
    type V = Rect;

    closed spec fn view(&self) -> Rect {
        self.rect
    }
}

impl Region {
    /// The top-left corner of the region inside its layer.
    pub fn position(&self) -> (p: (u32, u32))
        ensures
            p == (self@.x, self@.y),
    {
        (self.rect.x, self.rect.y)
    }

    /// The width and height of the region.
    pub fn size(&self) -> (s: (u32, u32))
        ensures
            s == (self@.width, self@.height),
    {
        (self.rect.width, self.rect.height)
    }
}

/// Packs rectangles into a square: it keeps the rectangles that are free
/// and the regions that are live, cuts each request from the smallest free
/// rectangle with room for it, and joins what is given back with the free
/// rectangles next to it.
#[derive(Debug)]
pub struct Allocator {
    size: u32,
    free: Vec<Rect>,
    used: Vec<Rect>,
}

impl View for Allocator {
    type V = Packing;

    closed spec fn view(&self) -> Packing {
        Packing { size: self.size as int, free: self.free@, live: self.used@ }
    }
}

impl Allocator {
    /// The free rectangles and the live regions tile the square.
    pub open spec fn wf(&self) -> bool {
        self@.wf()
    }

    /// An allocator over a square of edge `size`, with nothing taken.
    pub fn new(size: u32) -> (allocator: Allocator)
        requires
            size > 0,
        ensures
            allocator@ == Packing::fresh(size),
            allocator.wf(),
    {
        let mut free: Vec<Rect> = Vec::new();
        free.push(Rect { x: 0, y: 0, width: size, height: size });
        let allocator = Allocator { size, free, used: Vec::new() };
        proof {
            Packing::lemma_fresh(size);
            assert(allocator@.free =~= Packing::fresh(size).free);
            assert(allocator@.live =~= Packing::fresh(size).live);
        }
        allocator
    }

    /// Takes a region of `width` by `height` from the square, or returns
    /// `None`, with nothing changed, where no free rectangle has room.
    pub fn allocate(&mut self, width: u32, height: u32) -> (region: Option<Region>)
        requires
            old(self).wf(),
            width > 0,
            height > 0,
        ensures
            final(self).wf(),
            final(self)@ == old(self)@.allocate(width, height),
            region is Some <==> old(self)@.can_fit(width, height),
            region matches Some(r) ==> r@ == old(self)@.placement(width, height),
    {
        let mut best: usize = 0;
        let mut best_cells: u64 = 0;
        let mut found = false;
        let mut i: usize = 0;
        while i < self.free.len()
            invariant
                *self == *old(self),
                0 <= i <= self.free.len(),
                !found ==> forall|j: int| 0 <= j < i ==> !(#[trigger] self@.free[j]).fits(width, height),
                found ==> self@.is_best_among(i as int, best as int, width, height) && best_cells
                    == self@.free[best as int].area(),
            decreases self.free.len() - i,
        {
            let f = self.free[i];
            if width <= f.width && height <= f.height {
                let cells = f.cells();
                if !found || cells < best_cells {
                    best = i;
                    best_cells = cells;
                    found = true;
                }
            }
            i += 1;
        }
        if !found {
            return None;
        }
        proof {
            assert(self@.free[best as int].fits(width, height));
            self@.lemma_best_fit(width, height);
            self@.lemma_allocate_wf(width, height);
        }
        let f = self.free.remove(best);
        assert(f.nonempty() && f.within(self.size as int));
        let spare_w: u32 = f.width - width;
        let spare_h: u32 = f.height - height;
        let right = Rect {
            x: f.x + width,
            y: f.y,
            width: spare_w,
            height: if spare_w >= spare_h { f.height } else { height },
        };
        let below = Rect {
            x: f.x,
            y: f.y + height,
            width: if spare_w >= spare_h { width } else { f.width },
            height: spare_h,
        };
        let ghost rest = self.free@;
        if right.width > 0 && right.height > 0 {
            self.free.push(right);
        }
        if below.width > 0 && below.height > 0 {
            self.free.push(below);
        }
        let rect = Rect { x: f.x, y: f.y, width, height };
        self.used.push(rect);
        proof {
            assert(self.free@ =~= rest + remainder(f, width, height));
            assert(self@.free == old(self)@.allocate(width, height).free);
            assert(self@.live == old(self)@.allocate(width, height).live);
        }
        Some(Region { rect })
    }

    /// Gives `region` back. A region that is not live changes nothing.
    pub fn deallocate(&mut self, region: &Region)
        requires
            old(self).wf(),
        ensures
            final(self).wf(),
            final(self)@ == old(self)@.deallocate(region@),
    {
        let rect = region.rect;
        let mut k: usize = 0;
        while k < self.used.len() && !(self.used[k] == rect)
            invariant
                *self == *old(self),
                0 <= k <= self.used.len(),
                forall|j: int| 0 <= j < k ==> self@.live[j] != rect,
            decreases self.used.len() - k,
        {
            k += 1;
        }
        if k == self.used.len() {
            assert(!self@.live.contains(rect));
            return ;
        }
        proof {
            self@.lemma_live_index(rect, k as int);
            self@.lemma_deallocate_wf(rect);
        }
        self.used.remove(k);
        let mut current = rect;
        loop
            invariant
                self.size == old(self).size,
                0 <= k < old(self)@.live.len(),
                self.used@ == old(self)@.live.remove(k as int),
                coalesce(self.free@, current) == coalesce(old(self)@.free, rect),
                current.within(self.size as int),
                forall|j: int| 0 <= j < self.free.len() ==> (#[trigger] self.free@[j]).within(self.size as int),
            ensures
                first_adjacent(self.free@, current) == self.free@.len(),
            decreases self.free.len(),
        {
            let mut i: usize = 0;
            while i < self.free.len() && !self.free[i].touches(&current)
                invariant
                    0 <= i <= self.free.len(),
                    current.within(self.size as int),
                    forall|j: int| 0 <= j < self.free.len() ==> (#[trigger] self.free@[j]).within(self.size as int),
                    forall|j: int| 0 <= j < i ==> !(#[trigger] self.free@[j]).adjacent(current),
                decreases self.free.len() - i,
            {
                i += 1;
            }
            proof {
                assert(is_first_adjacent(self.free@, current, i as int));
                lemma_first_adjacent(self.free@, current);
            }
            if i == self.free.len() {
                break ;
            }
            let other = self.free.remove(i);
            current = other.join(&current);
        }
        self.free.push(current);
    }

    /// Whether no region is live.
    pub fn is_empty(&self) -> (empty: bool)
        ensures
            empty == (self@.live.len() == 0),
    {
        self.used.len() == 0
    }
}

} // verus!

//! Axis-aligned rectangles on the integer grid, and the facts about
//! collections of them that the packing proofs rest on.

use vstd::prelude::*;

verus! {

/// An axis-aligned rectangle: its top-left corner and its extent.
#[derive(Clone, Copy, Debug, PartialEq, Eq, Structural)]
pub struct Rect {
    pub x: u32,
    pub y: u32,
    pub width: u32,
    pub height: u32,
}

impl Rect {
    /// The rectangle covers at least one cell.
    pub open spec fn nonempty(self) -> bool {
        self.width > 0 && self.height > 0
    }

    /// The rectangle lies inside the square of edge `size` at the origin.
    pub open spec fn within(self, size: int) -> bool {
        self.x + self.width <= size && self.y + self.height <= size
    }

    /// The cell `(px, py)` belongs to the rectangle.
    pub open spec fn contains(self, px: int, py: int) -> bool {
        self.x <= px < self.x + self.width && self.y <= py < self.y + self.height
    }

    /// The two rectangles have a part in common.
    pub open spec fn overlaps(self, other: Rect) -> bool {
        &&& self.x < other.x + other.width
        &&& other.x < self.x + self.width
        &&& self.y < other.y + other.height
        &&& other.y < self.y + self.height
    }

    /// Every cell of `inner` is a cell of this rectangle.
    pub open spec fn covers(self, inner: Rect) -> bool {
        &&& self.x <= inner.x
        &&& inner.x + inner.width <= self.x + self.width
        &&& self.y <= inner.y
        &&& inner.y + inner.height <= self.y + self.height
    }

    /// The number of cells.
    pub open spec fn area(self) -> int {
        self.width * self.height
    }

    /// A request of `width` by `height` has room in the rectangle.
    pub open spec fn fits(self, width: u32, height: u32) -> bool {
        width <= self.width && height <= self.height
    }

    /// The two rectangles meet along one complete edge, so that their union
    /// is a rectangle again.
    pub open spec fn adjacent(self, other: Rect) -> bool {
        ||| {
            &&& self.y == other.y
            &&& self.height == other.height
            &&& (self.x + self.width == other.x || other.x + other.width == self.x)
        }
        ||| {
            &&& self.x == other.x
            &&& self.width == other.width
            &&& (self.y + self.height == other.y || other.y + other.height == self.y)
        }
    }

    /// The smallest rectangle that covers both.
    pub open spec fn hull(self, other: Rect) -> Rect {
        let x = if self.x <= other.x { self.x } else { other.x };
        let y = if self.y <= other.y { self.y } else { other.y };
        let right = if self.x + self.width >= other.x + other.width {
            self.x + self.width
        } else {
            other.x + other.width
        };
        let bottom = if self.y + self.height >= other.y + other.height {
            self.y + self.height
        } else {
            other.y + other.height
        };
        Rect { x, y, width: (right - x) as u32, height: (bottom - y) as u32 }
    }

    /// The number of cells, computed.
    pub fn cells(&self) -> (n: u64)
        ensures
            n == self.area(),
    {
        assert(self.width * self.height <= 0xffff_ffff * 0xffff_ffff) by (nonlinear_arith)
            requires
                0 <= self.width <= 0xffff_ffff,
                0 <= self.height <= 0xffff_ffff,
        ;
        (self.width as u64) * (self.height as u64)
    }

    /// Whether the two rectangles meet along one complete edge.
    pub fn touches(&self, other: &Rect) -> (hit: bool)
        requires
            self.within(u32::MAX as int),
            other.within(u32::MAX as int),
        ensures
            hit == self.adjacent(*other),
    {
        (self.y == other.y && self.height == other.height && (self.x + self.width == other.x
            || other.x + other.width == self.x)) || (self.x == other.x && self.width
            == other.width && (self.y + self.height == other.y || other.y + other.height
            == self.y))
    }

    /// The smallest rectangle that covers both, computed.
    pub fn join(&self, other: &Rect) -> (joined: Rect)
        requires
            self.within(u32::MAX as int),
            other.within(u32::MAX as int),
        ensures
            joined == self.hull(*other),
    {
        let x: u32 = if self.x <= other.x { self.x } else { other.x };
        let y: u32 = if self.y <= other.y { self.y } else { other.y };
        let right: u32 = if self.x + self.width >= other.x + other.width {
            self.x + self.width
        } else {
            other.x + other.width
        };
        let bottom: u32 = if self.y + self.height >= other.y + other.height {
            self.y + self.height
        } else {
            other.y + other.height
        };
        Rect { x, y, width: right - x, height: bottom - y }
    }
}

/// No two members of `rects` have a part in common.
pub open spec fn pairwise_disjoint(rects: Seq<Rect>) -> bool {
    forall|i: int, j: int|
        0 <= i < rects.len() && 0 <= j < rects.len() && i != j ==> !(#[trigger] rects[i]).overlaps(
            #[trigger] rects[j],
        )
}

/// No member of `left` has a part in common with a member of `right`.
pub open spec fn disjoint_from(left: Seq<Rect>, right: Seq<Rect>) -> bool {
    forall|i: int, j: int|
        0 <= i < left.len() && 0 <= j < right.len() ==> !(#[trigger] left[i]).overlaps(
            #[trigger] right[j],
        )
}

/// Every member of `rects` covers a cell and lies inside the square of edge
/// `size`.
pub open spec fn all_inside(rects: Seq<Rect>, size: int) -> bool {
    forall|i: int|
        0 <= i < rects.len() ==> (#[trigger] rects[i]).nonempty() && rects[i].within(size)
}

/// The areas of the members of `rects`, added up.
pub open spec fn total_area(rects: Seq<Rect>) -> int
    decreases rects.len(),
{
    if rects.len() == 0 {
        0
    } else {
        total_area(rects.drop_last()) + rects.last().area()
    }
}

/// Two rectangles that each cover a cell overlap exactly when some cell
/// belongs to both.
pub proof fn lemma_overlap_is_shared_cell(a: Rect, b: Rect)
    requires
        a.nonempty(),
        b.nonempty(),
    ensures
        a.overlaps(b) <==> exists|px: int, py: int| a.contains(px, py) && b.contains(px, py),
{
    if a.overlaps(b) {
        let px: int = if a.x >= b.x { a.x as int } else { b.x as int };
        let py: int = if a.y >= b.y { a.y as int } else { b.y as int };
        assert(a.contains(px, py) && b.contains(px, py));
    }
}

/// The hull of two adjacent rectangles is their union: it has the sum of
/// their areas, and whatever overlaps it overlaps one of the two.
pub proof fn lemma_hull_of_adjacent(a: Rect, b: Rect)
    requires
        a.nonempty(),
        b.nonempty(),
        a.adjacent(b),
        a.within(u32::MAX as int),
        b.within(u32::MAX as int),
    ensures
        a.hull(b).area() == a.area() + b.area(),
        a.hull(b).nonempty(),
        a.hull(b).covers(a),
        a.hull(b).covers(b),
        forall|c: Rect| c.nonempty() && #[trigger] c.overlaps(a.hull(b)) ==> c.overlaps(a) || c.overlaps(b),
{
    let m = a.hull(b);
    if a.y == b.y && a.height == b.height && (a.x + a.width == b.x || b.x + b.width == a.x) {
        assert(m.width == a.width + b.width);
        assert(m.height == a.height);
        assert((a.width + b.width) * a.height == a.width * a.height + b.width * a.height)
            by (nonlinear_arith);
    } else {
        assert(m.height == a.height + b.height);
        assert(m.width == a.width);
        assert(a.width * (a.height + b.height) == a.width * a.height + a.width * b.height)
            by (nonlinear_arith);
    }
}

/// Appending a rectangle adds its area.
pub proof fn lemma_total_area_push(rects: Seq<Rect>, r: Rect)
    ensures
        total_area(rects.push(r)) == total_area(rects) + r.area(),
{
    assert(rects.push(r).drop_last() =~= rects);
}

/// The total area of a concatenation is the sum of the parts' totals.
pub proof fn lemma_total_area_concat(left: Seq<Rect>, right: Seq<Rect>)
    ensures
        total_area(left + right) == total_area(left) + total_area(right),
    decreases right.len(),
{
    if right.len() == 0 {
        assert(left + right =~= left);
    } else {
        lemma_total_area_concat(left, right.drop_last());
        assert((left + right).drop_last() =~= left + right.drop_last());
    }
}

/// Taking a rectangle out subtracts its area.
pub proof fn lemma_total_area_remove(rects: Seq<Rect>, i: int)
    requires
        0 <= i < rects.len(),
    ensures
        total_area(rects.remove(i)) == total_area(rects) - rects[i].area(),
    decreases rects.len(),
{
    if i == rects.len() - 1 {
        assert(rects.remove(i) =~= rects.drop_last());
    } else {
        lemma_total_area_remove(rects.drop_last(), i);
        assert(rects.remove(i).drop_last() =~= rects.drop_last().remove(i));
        assert(rects.remove(i).last() == rects.last());
    }
}

} // verus!

//! The mathematical model of one layer's packing: which rectangles are free,
//! which are taken, and how a request and a release change the two.

use crate::geometry::{
    all_inside, disjoint_from, lemma_hull_of_adjacent, lemma_total_area_concat,
    lemma_total_area_push, lemma_total_area_remove, pairwise_disjoint, total_area, Rect,
};
use vstd::prelude::*;

verus! {

/// A square of edge `size`, cut into free rectangles and live regions.
pub struct Packing {
    pub size: int,
    pub free: Seq<Rect>,
    pub live: Seq<Rect>,
}

/// What is left of the free rectangle `f` once a request of `width` by
/// `height` has taken its top-left corner: a strip to the right, a strip
/// below, each only if it covers a cell. The strip on the side with more
/// room to spare runs the whole length of `f`.
pub open spec fn remainder(f: Rect, width: u32, height: u32) -> Seq<Rect> {
    let spare_w = (f.width - width) as u32;
    let spare_h = (f.height - height) as u32;
    let right = Rect {
        x: (f.x + width) as u32,
        y: f.y,
        width: spare_w,
        height: if spare_w >= spare_h { f.height } else { height },
    };
    let below = Rect {
        x: f.x,
        y: (f.y + height) as u32,
        width: if spare_w >= spare_h { width } else { f.width },
        height: spare_h,
    };
    let first = if right.nonempty() { seq![right] } else { Seq::<Rect>::empty() };
    if below.nonempty() { first.push(below) } else { first }
}

/// `i` is the position of the first member of `free` that is adjacent to
/// `r`, or the length of `free` if none is.
pub open spec fn is_first_adjacent(free: Seq<Rect>, r: Rect, i: int) -> bool {
    &&& 0 <= i <= free.len()
    &&& i < free.len() ==> free[i].adjacent(r)
    &&& forall|j: int| 0 <= j < i ==> !(#[trigger] free[j]).adjacent(r)
}

/// The position of the first member of `free` that is adjacent to `r`, or
/// the length of `free`.
pub open spec fn first_adjacent(free: Seq<Rect>, r: Rect) -> int {
    choose|i: int| is_first_adjacent(free, r, i)
}

/// The free list after `r` has been given back: as long as a free rectangle
/// is adjacent to `r`, the first such one is taken out and joined with `r`;
/// what `r` has grown into is appended.
pub open spec fn coalesce(free: Seq<Rect>, r: Rect) -> Seq<Rect>
    decreases free.len(),
{
    let i = first_adjacent(free, r);
    if 0 <= i < free.len() {
        coalesce(free.remove(i), free[i].hull(r))
    } else {
        free.push(r)
    }
}

impl Packing {
    /// A square of edge `size` with nothing taken.
    pub open spec fn fresh(size: u32) -> Packing {
        Packing {
            size: size as int,
            free: seq![Rect { x: 0, y: 0, width: size, height: size }],
            live: Seq::empty(),
        }
    }

    /// The free rectangles and the live regions each cover a cell, lie
    /// inside the square, have no part in common with one another, and
    /// together have the area of the square: they tile it.
    pub open spec fn wf(self) -> bool {
        &&& 0 < self.size <= u32::MAX
        &&& all_inside(self.free, self.size)
        &&& all_inside(self.live, self.size)
        &&& pairwise_disjoint(self.free)
        &&& pairwise_disjoint(self.live)
        &&& disjoint_from(self.free, self.live)
        &&& total_area(self.free) + total_area(self.live) == self.size * self.size
    }

    /// Some free rectangle has room for `width` by `height`.
    pub open spec fn can_fit(self, width: u32, height: u32) -> bool {
        exists|i: int| 0 <= i < self.free.len() && (#[trigger] self.free[i]).fits(width, height)
    }

    /// Among the first `n` free rectangles, the one at `i` has room for the
    /// request, none with room is smaller, and none of the same area stands
    /// before it.
    pub open spec fn is_best_among(self, n: int, i: int, width: u32, height: u32) -> bool {
        &&& 0 <= i < n <= self.free.len()
        &&& self.free[i].fits(width, height)
        &&& forall|j: int|
            0 <= j < n && (#[trigger] self.free[j]).fits(width, height) ==> {
                ||| self.free[i].area() < self.free[j].area()
                ||| self.free[i].area() == self.free[j].area() && i <= j
            }
    }

    /// The position of the free rectangle that a request of `width` by
    /// `height` is cut from: the smallest with room, the first of those.
    pub open spec fn best_fit(self, width: u32, height: u32) -> int {
        choose|i: int| self.is_best_among(self.free.len() as int, i, width, height)
    }

    /// Where a request of `width` by `height` lands: the top-left corner of
    /// the best fit.
    pub open spec fn placement(self, width: u32, height: u32) -> Rect {
        let f = self.free[self.best_fit(width, height)];
        Rect { x: f.x, y: f.y, width, height }
    }

    /// The packing after a request of `width` by `height`: unchanged if no
    /// free rectangle has room; else the best fit leaves the free list, what
    /// remains of it is appended, and the placement becomes live.
    pub open spec fn allocate(self, width: u32, height: u32) -> Packing {
        if self.can_fit(width, height) {
            let b = self.best_fit(width, height);
            Packing {
                size: self.size,
                free: self.free.remove(b) + remainder(self.free[b], width, height),
                live: self.live.push(self.placement(width, height)),
            }
        } else {
            self
        }
    }

    /// The packing after the region `r` has been given back: unchanged if
    /// `r` is not live; else `r` leaves the live regions and is coalesced
    /// into the free list.
    pub open spec fn deallocate(self, r: Rect) -> Packing {
        if self.live.contains(r) {
            Packing {
                size: self.size,
                free: coalesce(self.free, r),
                live: self.live.remove(self.live.index_of(r)),
            }
        } else {
            self
        }
    }
}

/// What remains of a free rectangle after a request has taken its corner
/// lies inside it, stays clear of the corner, and has the area that the
/// corner left over.
pub proof fn lemma_remainder(f: Rect, width: u32, height: u32)
    requires
        f.fits(width, height),
        width > 0,
        height > 0,
        f.within(u32::MAX as int),
    ensures
        ({
            let p = Rect { x: f.x, y: f.y, width, height };
            let parts = remainder(f, width, height);
            &&& f.covers(p)
            &&& parts.len() <= 2
            &&& forall|i: int|
                0 <= i < parts.len() ==> (#[trigger] parts[i]).nonempty() && f.covers(parts[i])
                    && !parts[i].overlaps(p)
            &&& pairwise_disjoint(parts)
            &&& total_area(parts) + p.area() == f.area()
        }),
{
    let p = Rect { x: f.x, y: f.y, width, height };
    let parts = remainder(f, width, height);
    let spare_w = (f.width - width) as u32;
    let spare_h = (f.height - height) as u32;
    let right = Rect {
        x: (f.x + width) as u32,
        y: f.y,
        width: spare_w,
        height: if spare_w >= spare_h { f.height } else { height },
    };
    let below = Rect {
        x: f.x,
        y: (f.y + height) as u32,
        width: if spare_w >= spare_h { width } else { f.width },
        height: spare_h,
    };
    reveal_with_fuel(total_area, 3);
    let none = Seq::<Rect>::empty();
    assert(seq![right].drop_last() =~= none);
    assert(seq![below].drop_last() =~= none);
    assert(seq![right].push(below).drop_last() =~= seq![right]);
    assert(none.push(below) =~= seq![below]);
    assert(right.area() + below.area() + p.area() == f.area()) by (nonlinear_arith)
        requires
            right.width == f.width - width,
            below.height == f.height - height,
            (right.height == f.height && below.width == width) || (right.height == height
                && below.width == f.width),
            p.width == width,
            p.height == height,
    ;
    assert(!right.nonempty() ==> right.area() == 0) by (nonlinear_arith)
        requires
            right.height > 0,
    ;
    assert(!below.nonempty() ==> below.area() == 0) by (nonlinear_arith)
        requires
            below.width > 0,
    ;
}

/// A scan from position `n` finds the first free rectangle adjacent to `r`.
proof fn lemma_scan_adjacent(free: Seq<Rect>, r: Rect, n: int) -> (i: int)
    requires
        0 <= n <= free.len(),
        forall|j: int| 0 <= j < n ==> !(#[trigger] free[j]).adjacent(r),
    ensures
        is_first_adjacent(free, r, i),
    decreases free.len() - n,
{
    if n == free.len() || free[n].adjacent(r) {
        n
    } else {
        lemma_scan_adjacent(free, r, n + 1)
    }
}

/// `first_adjacent` is what its name says, and nothing else is.
pub proof fn lemma_first_adjacent(free: Seq<Rect>, r: Rect)
    ensures
        is_first_adjacent(free, r, first_adjacent(free, r)),
        forall|i: int| is_first_adjacent(free, r, i) ==> i == first_adjacent(free, r),
{
    let w = lemma_scan_adjacent(free, r, 0);
    let f = first_adjacent(free, r);
    assert forall|i: int| is_first_adjacent(free, r, i) implies i == f by {
        if i < f {
            assert(free[i].adjacent(r));
        } else if f < i {
            assert(free[f].adjacent(r));
        }
    }
}

/// Giving back a rectangle that tiles the square together with the free
/// list and the live regions leaves a tiling, however much is joined.
pub proof fn lemma_coalesce_wf(size: int, free: Seq<Rect>, live: Seq<Rect>, r: Rect)
    requires
        (Packing { size, free: free.push(r), live }).wf(),
    ensures
        (Packing { size, free: coalesce(free, r), live }).wf(),
    decreases free.len(),
{
    lemma_first_adjacent(free, r);
    let i = first_adjacent(free, r);
    let all = free.push(r);
    assert(all[free.len() as int] == r);
    if i < free.len() {
        let o = free[i];
        let m = o.hull(r);
        let rest = free.remove(i);
        let next = rest.push(m);
        assert(all[i] == o);
        lemma_hull_of_adjacent(o, r);
        assert forall|a: int| 0 <= a < rest.len() implies rest[a] == all[if a < i { a } else { a + 1 }]
            && !(#[trigger] rest[a]).overlaps(m) by {
            let k = if a < i { a } else { a + 1 };
            assert(rest[a] == all[k]);
            assert(!all[k].overlaps(all[i]));
            assert(!all[k].overlaps(all[free.len() as int]));
            if rest[a].overlaps(m) {
                assert(rest[a].overlaps(o) || rest[a].overlaps(r));
            }
        }
        assert(all_inside(next, size)) by {
            assert forall|a: int| 0 <= a < next.len() implies (#[trigger] next[a]).nonempty()
                && next[a].within(size) by {
                if a < rest.len() {
                    assert(rest[a] == all[if a < i { a } else { a + 1 }]);
                }
            }
        }
        assert(pairwise_disjoint(next)) by {
            assert forall|a: int, b: int|
                0 <= a < next.len() && 0 <= b < next.len() && a != b implies !(#[trigger] next[a]).overlaps(
                #[trigger] next[b],
            ) by {
                if a < rest.len() && b < rest.len() {
                    let ka = if a < i { a } else { a + 1 };
                    let kb = if b < i { b } else { b + 1 };
                    assert(rest[a] == all[ka]);
                    assert(rest[b] == all[kb]);
                    assert(!all[ka].overlaps(all[kb]));
                } else if a < rest.len() {
                    assert(!rest[a].overlaps(m));
                } else {
                    assert(!rest[b].overlaps(m));
                }
            }
        }
        assert(disjoint_from(next, live)) by {
            assert forall|a: int, b: int|
                0 <= a < next.len() && 0 <= b < live.len() implies !(#[trigger] next[a]).overlaps(
                #[trigger] live[b],
            ) by {
                if a < rest.len() {
                    assert(rest[a] == all[if a < i { a } else { a + 1 }]);
                } else {
                    assert(!all[i].overlaps(live[b]));
                    assert(!all[free.len() as int].overlaps(live[b]));
                    if live[b].overlaps(m) {
                        assert(live[b].overlaps(o) || live[b].overlaps(r));
                    }
                }
            }
        }
        assert(total_area(next) == total_area(all)) by {
            lemma_total_area_push(rest, m);
            lemma_total_area_remove(free, i);
            lemma_total_area_push(free, r);
        }
        lemma_coalesce_wf(size, rest, live, m);
    }
}

impl Packing {
    /// A square with nothing taken is a tiling, and has room for whatever
    /// is no larger than itself, at its top-left corner.
    pub proof fn lemma_fresh(size: u32)
        requires
            size > 0,
        ensures
            Packing::fresh(size).wf(),
            forall|width: u32, height: u32|
                0 < width <= size && 0 < height <= size ==> #[trigger] Packing::fresh(size).can_fit(
                    width,
                    height,
                ) && Packing::fresh(size).placement(width, height) == (Rect {
                    x: 0,
                    y: 0,
                    width,
                    height,
                }),
    {
        let p = Packing::fresh(size);
        let whole = Rect { x: 0, y: 0, width: size, height: size };
        reveal_with_fuel(total_area, 2);
        assert(p.free.drop_last() =~= Seq::<Rect>::empty());
        assert(p.free[0] == whole);
        assert forall|width: u32, height: u32|
            0 < width <= size && 0 < height <= size implies #[trigger] p.can_fit(width, height)
            && p.placement(width, height) == (Rect { x: 0, y: 0, width, height }) by {
            assert(p.free[0].fits(width, height));
            p.lemma_best_fit(width, height);
        }
    }

    /// Among the first `n` free rectangles, of which one has room, there
    /// is a best.
    proof fn lemma_best_among(self, n: int, width: u32, height: u32) -> (i: int)
        requires
            0 <= n <= self.free.len(),
            exists|j: int| 0 <= j < n && (#[trigger] self.free[j]).fits(width, height),
        ensures
            self.is_best_among(n, i, width, height),
        decreases n,
    {
        let last = n - 1;
        if exists|j: int| 0 <= j < last && (#[trigger] self.free[j]).fits(width, height) {
            let b = self.lemma_best_among(last, width, height);
            if self.free[last].fits(width, height) && self.free[last].area() < self.free[b].area() {
                last
            } else {
                b
            }
        } else {
            assert(self.free[last].fits(width, height));
            last
        }
    }

    /// Where a request has room, `best_fit` is the one best fit.
    pub proof fn lemma_best_fit(self, width: u32, height: u32)
        requires
            self.can_fit(width, height),
        ensures
            self.is_best_among(
                self.free.len() as int,
                self.best_fit(width, height),
                width,
                height,
            ),
            forall|i: int|
                self.is_best_among(self.free.len() as int, i, width, height) ==> i
                    == self.best_fit(width, height),
    {
        let n = self.free.len() as int;
        let w = self.lemma_best_among(n, width, height);
        let b = self.best_fit(width, height);
        assert forall|i: int| self.is_best_among(n, i, width, height) implies i == b by {
            assert(self.free[i].fits(width, height));
            assert(self.free[b].fits(width, height));
        }
    }

    /// A request leaves a tiling a tiling.
    pub proof fn lemma_allocate_wf(self, width: u32, height: u32)
        requires
            self.wf(),
            width > 0,
            height > 0,
        ensures
            self.allocate(width, height).wf(),
            self.allocate(width, height).size == self.size,
    {
        if self.can_fit(width, height) {
            self.lemma_best_fit(width, height);
            let b = self.best_fit(width, height);
            let f = self.free[b];
            let p = self.placement(width, height);
            let parts = remainder(f, width, height);
            let rest = self.free.remove(b);
            let next = self.allocate(width, height);
            lemma_remainder(f, width, height);
            assert(f.nonempty() && f.within(self.size));
            assert forall|a: int| 0 <= a < rest.len() implies #[trigger] rest[a]
                == self.free[if a < b { a } else { a + 1 }] by {}
            assert forall|a: int| 0 <= a < next.free.len() implies {
                &&& (#[trigger] next.free[a]).nonempty()
                &&& next.free[a].within(self.size)
                &&& !next.free[a].overlaps(p)
                &&& a >= rest.len() ==> f.covers(next.free[a])
                &&& a < rest.len() ==> !next.free[a].overlaps(f)
            } by {
                if a < rest.len() {
                    let k = if a < b { a } else { a + 1 };
                    assert(next.free[a] == rest[a]);
                    assert(rest[a] == self.free[k]);
                    assert(!self.free[k].overlaps(self.free[b]));
                } else {
                    assert(next.free[a] == parts[a - rest.len()]);
                }
            }
            assert(pairwise_disjoint(next.free)) by {
                assert forall|a: int, c: int|
                    0 <= a < next.free.len() && 0 <= c < next.free.len() && a != c implies !(
                #[trigger] next.free[a]).overlaps(#[trigger] next.free[c]) by {
                    if a < rest.len() && c < rest.len() {
                        let ka = if a < b { a } else { a + 1 };
                        let kc = if c < b { c } else { c + 1 };
                        assert(next.free[a] == rest[a]);
                        assert(next.free[c] == rest[c]);
                        assert(rest[a] == self.free[ka]);
                        assert(rest[c] == self.free[kc]);
                        assert(!self.free[ka].overlaps(self.free[kc]));
                    } else if a >= rest.len() && c >= rest.len() {
                        assert(next.free[a] == parts[a - rest.len()]);
                        assert(next.free[c] == parts[c - rest.len()]);
                        assert(!parts[a - rest.len()].overlaps(parts[c - rest.len()]));
                    }
                }
            }
            assert(all_inside(next.live, self.size) && pairwise_disjoint(next.live)) by {
                assert forall|a: int| 0 <= a < self.live.len() implies !(
                #[trigger] self.live[a]).overlaps(p) by {
                    assert(!self.free[b].overlaps(self.live[a]));
                }
                assert forall|a: int| 0 <= a < next.live.len() implies #[trigger] next.live[a] == (
                if a < self.live.len() {
                    self.live[a]
                } else {
                    p
                }) by {}
            }
            assert(disjoint_from(next.free, next.live)) by {
                assert forall|a: int, c: int|
                    0 <= a < next.free.len() && 0 <= c < next.live.len() implies !(
                #[trigger] next.free[a]).overlaps(#[trigger] next.live[c]) by {
                    if c < self.live.len() {
                        assert(next.live[c] == self.live[c]);
                        assert(!self.free[b].overlaps(self.live[c]));
                        if a < rest.len() {
                            let k = if a < b { a } else { a + 1 };
                            assert(next.free[a] == rest[a]);
                            assert(rest[a] == self.free[k]);
                            assert(!self.free[k].overlaps(self.live[c]));
                        }
                    } else {
                        assert(next.live[c] == p);
                    }
                }
            }
            assert(total_area(next.free) + total_area(next.live) == self.size * self.size) by {
                lemma_total_area_concat(rest, parts);
                lemma_total_area_remove(self.free, b);
                lemma_total_area_push(self.live, p);
            }
        }
    }

    /// In a tiling no region is live twice: where `r` stands at `k`, that
    /// is where `index_of` finds it.
    pub proof fn lemma_live_index(self, r: Rect, k: int)
        requires
            self.wf(),
            0 <= k < self.live.len(),
            self.live[k] == r,
        ensures
            self.live.contains(r),
            self.live.index_of(r) == k,
    {
        let j = self.live.index_of(r);
        assert(0 <= j < self.live.len() && self.live[j] == r);
        if j != k {
            assert(self.live[j].nonempty());
            assert(self.live[j].overlaps(self.live[k]));
        }
    }

    /// A release leaves a tiling a tiling.
    pub proof fn lemma_deallocate_wf(self, r: Rect)
        requires
            self.wf(),
        ensures
            self.deallocate(r).wf(),
            self.deallocate(r).size == self.size,
    {
        if self.live.contains(r) {
            let k = self.live.index_of(r);
            let live = self.live.remove(k);
            let free = self.free.push(r);
            let mid = Packing { size: self.size, free, live };
            assert(self.live[k] == r);
            assert forall|a: int| 0 <= a < live.len() implies #[trigger] live[a]
                == self.live[if a < k { a } else { a + 1 }] by {}
            assert forall|a: int| 0 <= a < free.len() implies #[trigger] free[a] == (if a
                < self.free.len() {
                self.free[a]
            } else {
                r
            }) by {}
            assert(pairwise_disjoint(live)) by {
                assert forall|a: int, c: int|
                    0 <= a < live.len() && 0 <= c < live.len() && a != c implies !(
                #[trigger] live[a]).overlaps(#[trigger] live[c]) by {
                    let ka = if a < k { a } else { a + 1 };
                    let kc = if c < k { c } else { c + 1 };
                    assert(!self.live[ka].overlaps(self.live[kc]));
                }
            }
            assert(pairwise_disjoint(free)) by {
                assert forall|a: int, c: int|
                    0 <= a < free.len() && 0 <= c < free.len() && a != c implies !(
                #[trigger] free[a]).overlaps(#[trigger] free[c]) by {
                    if a < self.free.len() && c < self.free.len() {
                        assert(!self.free[a].overlaps(self.free[c]));
                    } else if a < self.free.len() {
                        assert(!self.free[a].overlaps(self.live[k]));
                    } else {
                        assert(!self.free[c].overlaps(self.live[k]));
                    }
                }
            }
            assert(disjoint_from(free, live)) by {
                assert forall|a: int, c: int|
                    0 <= a < free.len() && 0 <= c < live.len() implies !(#[trigger] free[a]).overlaps(
                    #[trigger] live[c],
                ) by {
                    let kc = if c < k { c } else { c + 1 };
                    if a < self.free.len() {
                        assert(!self.free[a].overlaps(self.live[kc]));
                    } else {
                        assert(!self.live[k].overlaps(self.live[kc]));
                    }
                }
            }
            assert(total_area(free) + total_area(live) == self.size * self.size) by {
                lemma_total_area_push(self.free, r);
                lemma_total_area_remove(self.live, k);
            }
            assert(mid.wf());
            lemma_coalesce_wf(self.size, self.free, live, r);
        }
    }

    /// Giving a region back right after it was handed out leaves the live
    /// regions as they were before the request.
    pub proof fn lemma_allocate_then_deallocate(self, width: u32, height: u32)
        requires
            self.wf(),
            width > 0,
            height > 0,
            self.can_fit(width, height),
        ensures
            self.allocate(width, height).deallocate(self.placement(width, height)).live
                == self.live,
            self.allocate(width, height).deallocate(self.placement(width, height)).wf(),
    {
        let p = self.placement(width, height);
        let next = self.allocate(width, height);
        self.lemma_allocate_wf(width, height);
        next.lemma_live_index(p, self.live.len() as int);
        next.lemma_deallocate_wf(p);
        assert(next.live.remove(self.live.len() as int) =~= self.live);
    }
}

} // verus!

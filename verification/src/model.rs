//! The layers of an atlas as a sequence of mathematical values, and what a
//! request and a release do to it.

use crate::allocation::Allocation;
use crate::entry::Entry;
use crate::geometry::Rect;
use crate::layer::LayerView;
use crate::packing::Packing;
use crate::tiling::{lemma_tile_inside, tile, tile_count};
use crate::SIZE;
use vstd::prelude::*;

verus! {

/// Every layer is well formed.
pub open spec fn layers_wf(layers: Seq<LayerView>) -> bool {
    forall|i: int| 0 <= i < layers.len() ==> (#[trigger] layers[i]).wf()
}

/// The request is for exactly one whole layer.
pub open spec fn whole_layer(width: u32, height: u32) -> bool {
    width == SIZE && height == SIZE
}

/// The packing that a request into `layer` is served from: the layer's own
/// if it is busy, a fresh one else.
pub open spec fn packing_of(layer: LayerView) -> Packing {
    match layer {
        LayerView::Busy(p) => p,
        _ => Packing::fresh(SIZE),
    }
}

/// `layer` can take a request of `width` by `height`: a whole layer goes
/// only into an empty one; anything else into a layer that is not full
/// and has a free rectangle with room.
pub open spec fn accepts(layer: LayerView, width: u32, height: u32) -> bool {
    if whole_layer(width, height) {
        layer is Empty
    } else {
        !(layer is Full) && packing_of(layer).can_fit(width, height)
    }
}

/// `layer` after it has taken a request of `width` by `height`.
pub open spec fn occupy(layer: LayerView, width: u32, height: u32) -> LayerView {
    if whole_layer(width, height) {
        LayerView::Full
    } else {
        LayerView::Busy(packing_of(layer).allocate(width, height))
    }
}

/// The rectangle inside `layer` that a request of `width` by `height`
/// is given.
pub open spec fn landing(layer: LayerView, width: u32, height: u32) -> Rect {
    if whole_layer(width, height) {
        Rect { x: 0, y: 0, width: SIZE, height: SIZE }
    } else {
        packing_of(layer).placement(width, height)
    }
}

/// `i` is the index of the first layer that accepts the request, or the
/// number of layers if none does.
pub open spec fn is_target(layers: Seq<LayerView>, width: u32, height: u32, i: int) -> bool {
    &&& 0 <= i <= layers.len()
    &&& i < layers.len() ==> accepts(layers[i], width, height)
    &&& forall|j: int| 0 <= j < i ==> !accepts(#[trigger] layers[j], width, height)
}

/// The index of the layer that a request goes to: the first that accepts
/// it, or, if none does, the index that a new layer will have.
pub open spec fn target(layers: Seq<LayerView>, width: u32, height: u32) -> int {
    choose|i: int| is_target(layers, width, height, i)
}

/// The layers after a request that fits in one layer: the target takes
/// it, and if no layer accepts it a new one is appended to take it.
pub open spec fn reserve(layers: Seq<LayerView>, width: u32, height: u32) -> Seq<LayerView> {
    let t = target(layers, width, height);
    if 0 <= t < layers.len() {
        layers.update(t, occupy(layers[t], width, height))
    } else {
        layers.push(occupy(LayerView::Empty, width, height))
    }
}

/// `allocation` is what a request of `width` by `height` on `layers`
/// hands out: it names the target layer, is a full allocation exactly for
/// a whole layer, and else lies where the target's packing places it.
pub open spec fn lands(
    layers: Seq<LayerView>,
    width: u32,
    height: u32,
    allocation: Allocation,
) -> bool {
    let t = target(layers, width, height);
    let layer = if 0 <= t < layers.len() { layers[t] } else { LayerView::Empty };
    &&& allocation.layer_index() == t
    &&& allocation is Full <==> whole_layer(width, height)
    &&& allocation.rect() == landing(layer, width, height)
}

/// The layers after `allocation` has been given back. A full allocation
/// empties its layer, whatever it held. A partial one is given back to the
/// packing of its layer, and the layer becomes empty when that was its
/// last live region; on a layer that is not busy nothing changes.
pub open spec fn release(layers: Seq<LayerView>, allocation: Allocation) -> Seq<LayerView> {
    let i = allocation.layer_index();
    match allocation {
        Allocation::Full { .. } => layers.update(i, LayerView::Empty),
        Allocation::Partial { region, .. } => match layers[i] {
            LayerView::Busy(p) => {
                let q = p.deallocate(region@);
                layers.update(
                    i,
                    if q.live.len() == 0 {
                        LayerView::Empty
                    } else {
                        LayerView::Busy(q)
                    },
                )
            },
            _ => layers,
        },
    }
}

/// Every allocation of `allocations` names a layer among the first `count`.
pub open spec fn all_within(allocations: Seq<Allocation>, count: int) -> bool {
    forall|k: int|
        0 <= k < allocations.len() ==> 0 <= (#[trigger] allocations[k]).layer_index() < count
}

/// The layers after each of `allocations` has been given back, in order.
pub open spec fn release_all(layers: Seq<LayerView>, allocations: Seq<Allocation>) -> Seq<
    LayerView,
>
    decreases allocations.len(),
{
    if allocations.len() == 0 {
        layers
    } else {
        release(release_all(layers, allocations.drop_last()), allocations.last())
    }
}

/// The request fits in one layer.
pub open spec fn fits_one_layer(width: u32, height: u32) -> bool {
    width <= SIZE && height <= SIZE
}

/// The layers after the first `n` tiles of an image of `width` by `height`
/// have been requested, one after the other.
pub open spec fn reserve_tiles(layers: Seq<LayerView>, width: u32, height: u32, n: int) -> Seq<
    LayerView,
>
    decreases n,
{
    if n <= 0 {
        layers
    } else {
        let t = tile(width, height, n - 1);
        reserve(reserve_tiles(layers, width, height, n - 1), t.width, t.height)
    }
}

/// The layers after a request of `width` by `height`: one that fits in one
/// layer is reserved as it is, a larger one tile by tile.
pub open spec fn allocated(layers: Seq<LayerView>, width: u32, height: u32) -> Seq<LayerView> {
    if fits_one_layer(width, height) {
        reserve(layers, width, height)
    } else {
        reserve_tiles(layers, width, height, tile_count(width, height))
    }
}

/// `entry` is what a request of `width` by `height` on `layers` hands out:
/// for a request that fits in one layer, the one allocation that it lands
/// in; for a larger one, one fragment for each tile, in order, at the
/// tile's place in the image, landed on the layers as the tiles before it
/// left them.
pub open spec fn describes(layers: Seq<LayerView>, width: u32, height: u32, entry: Entry) -> bool {
    if fits_one_layer(width, height) {
        entry matches Entry::Contiguous(allocation) && lands(layers, width, height, allocation)
    } else {
        &&& entry matches Entry::Fragmented { size, fragments }
        &&& size == (width, height)
        &&& fragments@.len() == tile_count(width, height)
        &&& forall|k: int|
            0 <= k < fragments@.len() ==> {
                let t = tile(width, height, k);
                &&& (#[trigger] fragments@[k]).position == (t.x, t.y)
                &&& lands(
                    reserve_tiles(layers, width, height, k),
                    t.width,
                    t.height,
                    fragments@[k].allocation,
                )
            }
    }
}

/// A scan from index `n` finds the target.
proof fn lemma_scan_target(layers: Seq<LayerView>, width: u32, height: u32, n: int) -> (i: int)
    requires
        0 <= n <= layers.len(),
        forall|j: int| 0 <= j < n ==> !accepts(#[trigger] layers[j], width, height),
    ensures
        is_target(layers, width, height, i),
    decreases layers.len() - n,
{
    if n == layers.len() || accepts(layers[n], width, height) {
        n
    } else {
        lemma_scan_target(layers, width, height, n + 1)
    }
}

/// `target` is the first layer that accepts the request, or the number of
/// layers, and nothing else is.
pub proof fn lemma_target(layers: Seq<LayerView>, width: u32, height: u32)
    ensures
        is_target(layers, width, height, target(layers, width, height)),
        forall|i: int|
            is_target(layers, width, height, i) ==> i == target(layers, width, height),
{
    let w = lemma_scan_target(layers, width, height, 0);
    let t = target(layers, width, height);
    assert forall|i: int| is_target(layers, width, height, i) implies i == t by {
        if i < t {
            assert(accepts(layers[i], width, height));
        } else if t < i {
            assert(accepts(layers[t], width, height));
        }
    }
}

/// A request that fits in one layer keeps the layers well formed, changes
/// no layer but its target, and appends one layer exactly when no layer
/// accepts it.
pub proof fn lemma_reserve(layers: Seq<LayerView>, width: u32, height: u32)
    requires
        layers_wf(layers),
        0 < width <= SIZE,
        0 < height <= SIZE,
    ensures
        layers_wf(reserve(layers, width, height)),
        ({
            let t = target(layers, width, height);
            let after = reserve(layers, width, height);
            &&& 0 <= t <= layers.len()
            &&& after.len() == if t == layers.len() { layers.len() + 1 } else { layers.len() }
            &&& forall|j: int| 0 <= j < layers.len() && j != t ==> after[j] == layers[j]
            &&& after[t] == occupy(
                if t < layers.len() { layers[t] } else { LayerView::Empty },
                width,
                height,
            )
            &&& !(after[t] is Empty)
            &&& accepts(if t < layers.len() { layers[t] } else { LayerView::Empty }, width, height)
        }),
{
    lemma_target(layers, width, height);
    let t = target(layers, width, height);
    let after = reserve(layers, width, height);
    let before = if t < layers.len() { layers[t] } else { LayerView::Empty };
    Packing::lemma_fresh(SIZE);
    if !whole_layer(width, height) {
        let p = packing_of(before);
        assert(Packing::fresh(SIZE).can_fit(width, height));
        assert(p.wf() && p.size == SIZE) by {
            if t < layers.len() {
                assert(layers[t].wf());
            }
        }
        p.lemma_allocate_wf(width, height);
        assert(p.allocate(width, height).live.len() > 0);
    }
    assert forall|i: int| 0 <= i < after.len() implies (#[trigger] after[i]).wf() by {
        if i != t {
            assert(after[i] == layers[i]);
            assert(layers[i].wf());
        }
    }
}

/// Requesting tile after tile keeps the layers well formed and never
/// takes a layer away.
pub proof fn lemma_reserve_tiles(layers: Seq<LayerView>, width: u32, height: u32, n: int)
    requires
        layers_wf(layers),
        0 <= n <= tile_count(width, height),
    ensures
        layers_wf(reserve_tiles(layers, width, height, n)),
        layers.len() <= reserve_tiles(layers, width, height, n).len() <= layers.len() + n,
    decreases n,
{
    if n > 0 {
        lemma_reserve_tiles(layers, width, height, n - 1);
        lemma_tile_inside(width, height, n - 1);
        let t = tile(width, height, n - 1);
        lemma_reserve(reserve_tiles(layers, width, height, n - 1), t.width, t.height);
    }
}

/// A release keeps the layers well formed and their number unchanged.
pub proof fn lemma_release(layers: Seq<LayerView>, allocation: Allocation)
    requires
        layers_wf(layers),
        0 <= allocation.layer_index() < layers.len(),
    ensures
        layers_wf(release(layers, allocation)),
        release(layers, allocation).len() == layers.len(),
        forall|j: int|
            0 <= j < layers.len() && j != allocation.layer_index() ==> release(
                layers,
                allocation,
            )[j] == layers[j],
{
    let i = allocation.layer_index();
    let after = release(layers, allocation);
    assert(layers[i].wf());
    if let Allocation::Partial { region, .. } = allocation {
        if let LayerView::Busy(p) = layers[i] {
            p.lemma_deallocate_wf(region@);
        }
    }
    assert forall|j: int| 0 <= j < after.len() implies (#[trigger] after[j]).wf() by {
        if j != i {
            assert(after[j] == layers[j]);
            assert(layers[j].wf());
        }
    }
}

} // verus!

//! What holds of the atlas whatever is asked of it, proved over the model.

use crate::allocation::Allocation;
use crate::geometry::lemma_overlap_is_shared_cell;
use crate::layer::LayerView;
use crate::model::{
    accepts, allocated, fits_one_layer, lands, layers_wf, lemma_release, lemma_reserve,
    lemma_reserve_tiles, lemma_target, packing_of, release, release_all, reserve, target,
    whole_layer,
};
use crate::packing::Packing;
use crate::tiling::tile_count;
use crate::SIZE;
use vstd::prelude::*;

verus! {

/// The packing after each of `requests`, a width and a height each, has
/// been made in turn; one that finds no room changes nothing.
pub open spec fn after_requests(p: Packing, requests: Seq<(u32, u32)>) -> Packing
    decreases requests.len(),
{
    if requests.len() == 0 {
        p
    } else {
        after_requests(p, requests.drop_last()).allocate(requests.last().0, requests.last().1)
    }
}

/// Whatever requests are made of a layer, it stays a tiling.
pub proof fn theorem_requests_keep_tiling(p: Packing, requests: Seq<(u32, u32)>)
    requires
        p.wf(),
        forall|k: int| 0 <= k < requests.len() ==> (#[trigger] requests[k]).0 > 0 && requests[k].1 > 0,
    ensures
        after_requests(p, requests).wf(),
        after_requests(p, requests).size == p.size,
    decreases requests.len(),
{
    if requests.len() > 0 {
        let init = requests.drop_last();
        assert forall|k: int| 0 <= k < init.len() implies (#[trigger] init[k]).0 > 0 && init[k].1
            > 0 by {
            assert(init[k] == requests[k]);
        }
        theorem_requests_keep_tiling(p, init);
        let last = requests.last();
        assert(last == requests[requests.len() - 1]);
        after_requests(p, init).lemma_allocate_wf(last.0, last.1);
    }
}

/// Whatever requests are made of a layer, no two of its live regions have
/// a part in common: no cell of the layer belongs to both.
pub proof fn theorem_live_regions_never_overlap(
    p: Packing,
    requests: Seq<(u32, u32)>,
    i: int,
    j: int,
)
    requires
        p.wf(),
        forall|k: int| 0 <= k < requests.len() ==> (#[trigger] requests[k]).0 > 0 && requests[k].1 > 0,
        0 <= i < after_requests(p, requests).live.len(),
        0 <= j < after_requests(p, requests).live.len(),
        i != j,
    ensures
        !after_requests(p, requests).live[i].overlaps(after_requests(p, requests).live[j]),
        forall|px: int, py: int|
            !(after_requests(p, requests).live[i].contains(px, py) && after_requests(
                p,
                requests,
            ).live[j].contains(px, py)),
{
    theorem_requests_keep_tiling(p, requests);
    let q = after_requests(p, requests);
    assert(q.live[i].nonempty() && q.live[j].nonempty());
    lemma_overlap_is_shared_cell(q.live[i], q.live[j]);
}

/// The region that a request is given covers a cell, lies inside the
/// layer, and has no part in common with any region that was live before.
pub proof fn theorem_new_region_is_clear(p: Packing, width: u32, height: u32)
    requires
        p.wf(),
        width > 0,
        height > 0,
        p.can_fit(width, height),
    ensures
        p.placement(width, height).nonempty(),
        p.placement(width, height).within(p.size),
        forall|i: int|
            0 <= i < p.live.len() ==> !(#[trigger] p.live[i]).overlaps(p.placement(width, height)),
{
    p.lemma_allocate_wf(width, height);
    let next = p.allocate(width, height);
    let n = p.live.len() as int;
    assert(next.live[n] == p.placement(width, height));
    assert forall|i: int| 0 <= i < n implies !(#[trigger] p.live[i]).overlaps(
        p.placement(width, height),
    ) by {
        assert(next.live[i] == p.live[i]);
        assert(!next.live[i].overlaps(next.live[n]));
    }
}

/// Whatever is requested, the layers stay well formed and none is taken
/// away; whatever is given back, their number stays as it is.
pub proof fn theorem_layers_never_shrink(
    layers: Seq<LayerView>,
    width: u32,
    height: u32,
    allocation: Allocation,
)
    requires
        layers_wf(layers),
        width > 0,
        height > 0,
        0 <= allocation.layer_index() < layers.len(),
    ensures
        layers_wf(allocated(layers, width, height)),
        allocated(layers, width, height).len() >= layers.len(),
        layers_wf(release(layers, allocation)),
        release(layers, allocation).len() == layers.len(),
{
    if fits_one_layer(width, height) {
        lemma_reserve(layers, width, height);
    } else {
        lemma_reserve_tiles(layers, width, height, tile_count(width, height));
    }
    lemma_release(layers, allocation);
}

/// A request that finds no room in a layer leaves the layer as it was:
/// nothing is taken and nothing is lost.
pub proof fn theorem_refused_request_changes_nothing(p: Packing, width: u32, height: u32)
    requires
        !p.can_fit(width, height),
    ensures
        p.allocate(width, height) == p,
{
}

/// A request that fits in one layer changes one layer at most: every layer
/// that does not take it, whether it was tried and had no room or was never
/// reached, stays as it was.
pub proof fn theorem_request_touches_one_layer(
    layers: Seq<LayerView>,
    width: u32,
    height: u32,
    j: int,
)
    requires
        layers_wf(layers),
        0 < width <= SIZE,
        0 < height <= SIZE,
        0 <= j < layers.len(),
        j != target(layers, width, height),
    ensures
        reserve(layers, width, height)[j] == layers[j],
{
    lemma_reserve(layers, width, height);
}

/// A request that fits in one layer appends exactly one layer where no
/// layer accepts it, and none where some layer does.
pub proof fn theorem_growth(layers: Seq<LayerView>, width: u32, height: u32)
    requires
        layers_wf(layers),
        0 < width <= SIZE,
        0 < height <= SIZE,
    ensures
        (forall|j: int| 0 <= j < layers.len() ==> !accepts(#[trigger] layers[j], width, height))
            ==> reserve(layers, width, height).len() == layers.len() + 1,
        (exists|j: int| 0 <= j < layers.len() && accepts(#[trigger] layers[j], width, height))
            ==> reserve(layers, width, height).len() == layers.len(),
{
    lemma_reserve(layers, width, height);
    lemma_target(layers, width, height);
    let t = target(layers, width, height);
    if exists|j: int| 0 <= j < layers.len() && accepts(#[trigger] layers[j], width, height) {
        let j = choose|j: int| 0 <= j < layers.len() && accepts(#[trigger] layers[j], width, height);
        assert(t <= j);
    }
    if t < layers.len() {
        assert(accepts(layers[t], width, height));
    }
}

/// The allocation that a request is given names a layer that exists once
/// the request is served.
pub proof fn theorem_allocation_names_a_layer(
    layers: Seq<LayerView>,
    width: u32,
    height: u32,
    allocation: Allocation,
)
    requires
        layers_wf(layers),
        0 < width <= SIZE,
        0 < height <= SIZE,
        lands(layers, width, height, allocation),
    ensures
        0 <= allocation.layer_index() < reserve(layers, width, height).len(),
{
    lemma_reserve(layers, width, height);
}

/// Giving an allocation back right after it was handed out returns every
/// layer to the kind it had before the request, with the live regions it
/// had; a layer that was appended for the request remains, empty.
pub proof fn theorem_reserve_then_release(
    layers: Seq<LayerView>,
    width: u32,
    height: u32,
    allocation: Allocation,
)
    requires
        layers_wf(layers),
        0 < width <= SIZE,
        0 < height <= SIZE,
        lands(layers, width, height, allocation),
    ensures
        ({
            let after = release(reserve(layers, width, height), allocation);
            &&& layers_wf(after)
            &&& layers.len() <= after.len() <= layers.len() + 1
            &&& forall|j: int| 0 <= j < layers.len() ==> (#[trigger] after[j]).same_kind(layers[j])
            &&& forall|j: int|
                0 <= j < layers.len() && layers[j] is Busy ==> packing_of(#[trigger] after[j]).live
                    == packing_of(layers[j]).live
            &&& forall|j: int| layers.len() <= j < after.len() ==> #[trigger] after[j] is Empty
        }),
{
    lemma_reserve(layers, width, height);
    lemma_target(layers, width, height);
    let t = target(layers, width, height);
    let mid = reserve(layers, width, height);
    let after = release(mid, allocation);
    lemma_release(mid, allocation);
    let before = if t < layers.len() { layers[t] } else { LayerView::Empty };
    if !whole_layer(width, height) {
        let p = packing_of(before);
        Packing::lemma_fresh(SIZE);
        if t < layers.len() {
            assert(layers[t].wf());
        }
        p.lemma_allocate_then_deallocate(width, height);
        assert(mid[t] == LayerView::Busy(p.allocate(width, height)));
    }
    assert forall|j: int| 0 <= j < layers.len() implies (#[trigger] after[j]).same_kind(layers[j])
        && (layers[j] is Busy ==> packing_of(after[j]).live == packing_of(layers[j]).live) by {
        if j != t {
            assert(after[j] == mid[j]);
            assert(mid[j] == layers[j]);
        } else {
            assert(layers[j].wf());
        }
    }
}

/// A whole layer that is requested right after a full layer was given
/// back is found among the layers there are: none is appended, and the
/// layer it gets is the one that was freed or an empty one before it. It
/// is the freed one where no layer before that was empty.
pub proof fn theorem_full_layer_reuse(layers: Seq<LayerView>, i: usize)
    requires
        layers_wf(layers),
        i < layers.len(),
    ensures
        ({
            let freed = release(layers, Allocation::Full { layer: i });
            let t = target(freed, SIZE, SIZE);
            &&& 0 <= t <= i
            &&& reserve(freed, SIZE, SIZE).len() == layers.len()
            &&& reserve(freed, SIZE, SIZE)[t] is Full
            &&& (forall|j: int| 0 <= j < i ==> !(#[trigger] layers[j] is Empty)) ==> t == i
        }),
{
    let freed = release(layers, Allocation::Full { layer: i });
    lemma_release(layers, Allocation::Full { layer: i });
    lemma_reserve(freed, SIZE, SIZE);
    lemma_target(freed, SIZE, SIZE);
    let t = target(freed, SIZE, SIZE);
    assert(accepts(freed[i as int], SIZE, SIZE));
    if t < i {
        assert(accepts(freed[t], SIZE, SIZE));
        assert(freed[t] == layers[t]);
    }
}

/// After the first `n` live regions of a busy layer have been given back,
/// the layer holds the rest; after the last, it is empty.
proof fn lemma_release_prefix(
    layers: Seq<LayerView>,
    i: int,
    allocations: Seq<Allocation>,
    n: int,
)
    requires
        layers_wf(layers),
        0 <= i < layers.len(),
        layers[i] is Busy,
        allocations.len() == packing_of(layers[i]).live.len(),
        forall|k: int|
            0 <= k < allocations.len() ==> (#[trigger] allocations[k]) is Partial
                && allocations[k].layer_index() == i && allocations[k].rect() == packing_of(
                layers[i],
            ).live[k],
        0 <= n <= allocations.len(),
    ensures
        ({
            let after = release_all(layers, allocations.take(n));
            let live = packing_of(layers[i]).live;
            &&& layers_wf(after)
            &&& after.len() == layers.len()
            &&& n < allocations.len() ==> after[i] is Busy && packing_of(after[i]).live
                == live.subrange(n, live.len() as int)
            &&& n == allocations.len() ==> after[i] is Empty
        }),
    decreases n,
{
    let live = packing_of(layers[i]).live;
    assert(layers[i].wf());
    if n == 0 {
        assert(allocations.take(0) =~= Seq::<Allocation>::empty());
        assert(live.subrange(0, live.len() as int) =~= live);
    } else {
        lemma_release_prefix(layers, i, allocations, n - 1);
        let mid = release_all(layers, allocations.take(n - 1));
        let a = allocations[n - 1];
        assert(allocations.take(n).drop_last() =~= allocations.take(n - 1));
        assert(allocations.take(n).last() == a);
        let q = packing_of(mid[i]);
        assert(mid[i].wf());
        assert(q.live[0] == live[n - 1]);
        q.lemma_live_index(a.rect(), 0);
        q.lemma_deallocate_wf(a.rect());
        lemma_release(mid, a);
        assert(q.live.remove(0) =~= live.subrange(n, live.len() as int));
    }
}

/// A busy layer whose live regions have all been given back is empty
/// again, and takes whatever fits in a layer.
pub proof fn theorem_released_layer_is_empty(
    layers: Seq<LayerView>,
    i: int,
    allocations: Seq<Allocation>,
)
    requires
        layers_wf(layers),
        0 <= i < layers.len(),
        layers[i] is Busy,
        allocations.len() == packing_of(layers[i]).live.len(),
        forall|k: int|
            0 <= k < allocations.len() ==> (#[trigger] allocations[k]) is Partial
                && allocations[k].layer_index() == i && allocations[k].rect() == packing_of(
                layers[i],
            ).live[k],
    ensures
        release_all(layers, allocations)[i] is Empty,
        forall|width: u32, height: u32|
            0 < width <= SIZE && 0 < height <= SIZE ==> #[trigger] accepts(
                release_all(layers, allocations)[i],
                width,
                height,
            ),
{
    lemma_release_prefix(layers, i, allocations, allocations.len() as int);
    assert(allocations.take(allocations.len() as int) =~= allocations);
    Packing::lemma_fresh(SIZE);
}

} // verus!

//! The atlas: a growing sequence of layers behind one backend.

use crate::allocation::Allocation;
use crate::allocator::Allocator;
use crate::entry::{Entry, Fragment};
use crate::layer::{Layer, LayerView};
use crate::model::{
    accepts, all_within, allocated, describes, is_target, lands, layers_wf, lemma_release,
    lemma_reserve, lemma_target, packing_of, release, release_all, reserve, reserve_tiles,
    target, whole_layer,
};
use crate::packing::Packing;
use crate::tiling::{blocks, lemma_tile_number, tile};
use crate::SIZE;
use vstd::prelude::*;

verus! {

/// What stands between an atlas and the storage behind it, usually a
/// texture on a graphics device.
pub trait Backend: std::fmt::Debug {
    /// What a renderer needs in order to display the stored images.
    type Texture;

    /// The texture that holds the stored images.
    fn texture(&self) -> &Self::Texture;
}

/// The views of a run of layers.
pub open spec fn layer_views(layers: Seq<Layer>) -> Seq<LayerView> {
    Seq::new(layers.len(), |i: int| layers[i]@)
}

/// A texture atlas: a store that packs images into layers.
#[derive(Debug)]
pub struct Atlas<B: Backend> {
    backend: B,
    layers: Vec<Layer>,
}

impl<B: Backend> Atlas<B> {
    /// The layers of the atlas, as mathematical values.
    pub closed spec fn layers(&self) -> Seq<LayerView> {
        layer_views(self.layers@)
    }

    /// The backend of the atlas.
    pub closed spec fn spec_backend(&self) -> &B {
        &self.backend
    }

    /// Every layer of the atlas is well formed.
    pub open spec fn wf(&self) -> bool {
        layers_wf(self.layers())
    }

    /// A new atlas over `backend`, with one empty layer.
    pub fn new(backend: B) -> (atlas: Self)
        ensures
            atlas.wf(),
            atlas.layers() == seq![LayerView::Empty],
            *atlas.spec_backend() == backend,
    {
        let mut layers: Vec<Layer> = Vec::new();
        layers.push(Layer::Empty);
        let atlas = Atlas { backend, layers };
        assert(atlas.layers() =~= seq![LayerView::Empty]);
        atlas
    }

    /// The texture that a renderer needs in order to display the images:
    /// what the backend's `texture` returns.
    pub fn view(&self) -> (texture: &B::Texture)
        ensures
            call_ensures(B::texture, (self.spec_backend(),), texture),
    {
        self.backend.texture()
    }

    /// The number of layers that memory is set aside for, whether in use
    /// or not.
    pub fn layer_count(&self) -> (count: usize)
        ensures
            count == self.layers().len(),
    {
        self.layers.len()
    }

    /// Access the backend.
    #[verifier::when_used_as_spec(spec_backend)]
    pub fn backend(&self) -> (backend: &B)
        ensures
            backend == self.spec_backend(),
    {
        &self.backend
    }

    /// Access the backend mutably. The layers stay as they are.
    pub fn backend_mut(&mut self) -> (backend: &mut B)
        ensures
            *backend == *old(self).spec_backend(),
            *final(self).spec_backend() == *final(backend),
            final(self).layers() == old(self).layers(),
    {
        &mut self.backend
    }

    /// Reserves space for a request that fits in one layer: in the first
    /// layer that accepts it, or in a new layer where none does.
    pub fn place(&mut self, width: u32, height: u32) -> (allocation: Allocation)
        requires
            old(self).wf(),
            0 < width <= SIZE,
            0 < height <= SIZE,
        ensures
            final(self).wf(),
            final(self).layers() == reserve(old(self).layers(), width, height),
            lands(old(self).layers(), width, height, allocation),
            final(self).spec_backend() == old(self).spec_backend(),
    {
        let whole = width == SIZE && height == SIZE;
        let mut i: usize = 0;
        while i < self.layers.len()
            invariant
                self.layers() == old(self).layers(),
                self.spec_backend() == old(self).spec_backend(),
                0 <= i <= self.layers.len(),
                whole == (width == SIZE && height == SIZE),
                0 < width <= SIZE,
                0 < height <= SIZE,
                self.wf(),
                forall|j: int|
                    0 <= j < i ==> !accepts(#[trigger] old(self).layers()[j], width, height),
            decreases self.layers.len() - i,
        {
            proof {
                Packing::lemma_fresh(SIZE);
                assert(self.layers()[i as int].wf());
                assert(self.layers()[i as int] == self.layers@[i as int]@);
            }
            if whole {
                if self.layers[i].is_empty() {
                    self.layers[i] = Layer::Full;
                    proof {
                        assert(is_target(old(self).layers(), width, height, i as int));
                        lemma_target(old(self).layers(), width, height);
                        assert(self.layers() =~= reserve(old(self).layers(), width, height));
                        lemma_reserve(old(self).layers(), width, height);
                    }
                    return Allocation::Full { layer: i };
                }
            } else {
                let slot = &mut self.layers[i];
                match slot {
                    Layer::Empty => {
                        let mut allocator = Allocator::new(SIZE);
                        if let Some(region) = allocator.allocate(width, height) {
                            *slot = Layer::Busy(allocator);
                            proof {
                                assert(is_target(old(self).layers(), width, height, i as int));
                                lemma_target(old(self).layers(), width, height);
                                assert(self.layers() =~= reserve(
                                    old(self).layers(),
                                    width,
                                    height,
                                ));
                                lemma_reserve(old(self).layers(), width, height);
                            }
                            return Allocation::Partial { region, layer: i };
                        }
                    },
                    Layer::Busy(allocator) => {
                        if let Some(region) = allocator.allocate(width, height) {
                            proof {
                                assert(is_target(old(self).layers(), width, height, i as int));
                                lemma_target(old(self).layers(), width, height);
                                assert(self.layers() =~= reserve(
                                    old(self).layers(),
                                    width,
                                    height,
                                ));
                                lemma_reserve(old(self).layers(), width, height);
                            }
                            return Allocation::Partial { region, layer: i };
                        }
                    },
                    Layer::Full => {},
                }
                assert(self.layers() =~= old(self).layers());
            }
            i += 1;
        }
        proof {
            Packing::lemma_fresh(SIZE);
            assert(is_target(old(self).layers(), width, height, i as int));
            lemma_target(old(self).layers(), width, height);
            lemma_reserve(old(self).layers(), width, height);
        }
        if whole {
            self.layers.push(Layer::Full);
            assert(self.layers() =~= reserve(old(self).layers(), width, height));
            Allocation::Full { layer: self.layers.len() - 1 }
        } else {
            let mut allocator = Allocator::new(SIZE);
            let region = allocator.allocate(width, height).unwrap();
            self.layers.push(Layer::Busy(allocator));
            assert(self.layers() =~= reserve(old(self).layers(), width, height));
            Allocation::Partial { region, layer: self.layers.len() - 1 }
        }
    }

    /// Reserves space for an image of `width` by `height`. One that fits in
    /// one layer gets one allocation. A larger one is cut into tiles, row
    /// by row, and each tile gets an allocation of its own. Layers are
    /// appended as needed, so the request is always met.
    pub fn allocate(&mut self, width: u32, height: u32) -> (entry: Option<Entry>)
        requires
            old(self).wf(),
            width > 0,
            height > 0,
        ensures
            final(self).wf(),
            final(self).layers() == allocated(old(self).layers(), width, height),
            final(self).layers().len() >= old(self).layers().len(),
            entry matches Some(e) && describes(old(self).layers(), width, height, e)
                && e.extent() == (width, height) && all_within(
                e.allocations(),
                final(self).layers().len() as int,
            ),
            final(self).spec_backend() == old(self).spec_backend(),
    {
        if width <= SIZE && height <= SIZE {
            proof {
                lemma_reserve(self.layers(), width, height);
                Packing::lemma_fresh(SIZE);
            }
            let allocation = self.place(width, height);
            proof {
                let t = target(old(self).layers(), width, height);
                if !whole_layer(width, height) {
                    let before = if t < old(self).layers().len() {
                        old(self).layers()[t]
                    } else {
                        LayerView::Empty
                    };
                    if t < old(self).layers().len() {
                        assert(old(self).layers()[t].wf());
                    }
                    packing_of(before).lemma_best_fit(width, height);
                }
            }
            let entry = Entry::Contiguous(allocation);
            assert(entry.allocations()[0] == allocation);
            return Some(entry);
        }
        let mut fragments: Vec<Fragment> = Vec::new();
        let ghost cols = blocks(width);
        let ghost rows = blocks(height);
        let ghost mut row: int = 0;
        let mut y: u32 = 0;
        while y < height
            invariant
                self.wf(),
                self.spec_backend() == old(self).spec_backend(),
                cols == blocks(width),
                rows == blocks(height),
                0 <= row <= rows,
                y == if row < rows { row * SIZE } else { height as int },
                fragments@.len() == row * cols,
                self.layers() == reserve_tiles(old(self).layers(), width, height, row * cols),
                self.layers().len() >= old(self).layers().len(),
                forall|k: int|
                    0 <= k < fragments@.len() ==> (#[trigger] fragments@[k]).allocation.layer_index()
                        < self.layers().len(),
                forall|k: int|
                    0 <= k < fragments@.len() ==> {
                        let t = tile(width, height, k);
                        &&& (#[trigger] fragments@[k]).position == (t.x, t.y)
                        &&& lands(
                            reserve_tiles(old(self).layers(), width, height, k),
                            t.width,
                            t.height,
                            fragments@[k].allocation,
                        )
                    },
            decreases height - y,
        {
            let block_height: u32 = if height - y < SIZE { height - y } else { SIZE };
            let ghost mut col: int = 0;
            let mut x: u32 = 0;
            while x < width
                invariant
                    self.wf(),
                    self.spec_backend() == old(self).spec_backend(),
                    cols == blocks(width),
                    rows == blocks(height),
                    0 <= row < rows,
                    y == row * SIZE,
                    y < height,
                    block_height == if height - y < SIZE { height - y } else { SIZE as int },
                    0 <= col <= cols,
                    x == if col < cols { col * SIZE } else { width as int },
                    fragments@.len() == row * cols + col,
                    self.layers() == reserve_tiles(
                        old(self).layers(),
                        width,
                        height,
                        row * cols + col,
                    ),
                    self.layers().len() >= old(self).layers().len(),
                    forall|k: int|
                        0 <= k < fragments@.len() ==> (
                        #[trigger] fragments@[k]).allocation.layer_index() < self.layers().len(),
                    forall|k: int|
                        0 <= k < fragments@.len() ==> {
                            let t = tile(width, height, k);
                            &&& (#[trigger] fragments@[k]).position == (t.x, t.y)
                            &&& lands(
                                reserve_tiles(old(self).layers(), width, height, k),
                                t.width,
                                t.height,
                                fragments@[k].allocation,
                            )
                        },
                decreases width - x,
            {
                let block_width: u32 = if width - x < SIZE { width - x } else { SIZE };
                let ghost k = row * cols + col;
                let ghost before = self.layers();
                proof {
                    lemma_tile_number(width, height, row, col);
                    lemma_reserve(before, block_width, block_height);
                }
                let allocation = self.place(block_width, block_height);
                fragments.push(Fragment { position: (x, y), allocation });
                proof {
                    assert(tile(width, height, k).width == block_width);
                    assert(tile(width, height, k).height == block_height);
                    assert(reserve_tiles(old(self).layers(), width, height, k + 1) == reserve(
                        before,
                        block_width,
                        block_height,
                    ));
                    col = col + 1;
                }
                x += block_width;
            }
            proof {
                assert((row + 1) * cols == row * cols + cols) by (nonlinear_arith);
                row = row + 1;
            }
            y += block_height;
        }
        proof {
            assert(rows * cols == cols * rows) by (nonlinear_arith);
        }
        let entry = Entry::Fragmented { size: (width, height), fragments };
        assert forall|k: int| 0 <= k < entry.allocations().len() implies 0 <= (
        #[trigger] entry.allocations()[k]).layer_index() < self.layers().len() by {
            assert(entry.allocations()[k] == fragments@[k].allocation);
        }
        Some(entry)
    }

    /// Reserves space for an image of `width` by `height`, then hands
    /// `grow` the backend, the layers as they now are and the number of
    /// layers that were appended, so that the storage can grow before
    /// anything is uploaded. `grow` is called once, also when no layer was
    /// appended.
    pub fn entry_for(
        &mut self,
        width: u32,
        height: u32,
        grow: impl FnOnce(&mut B, &[Layer], usize),
    ) -> (entry: Option<Entry>)
        requires
            old(self).wf(),
            width > 0,
            height > 0,
            forall|backend: &mut B, layers: &[Layer], amount: usize|
                {
                    &&& *backend == *old(self).spec_backend()
                    &&& layer_views(layers@) == allocated(old(self).layers(), width, height)
                    &&& amount == allocated(old(self).layers(), width, height).len() - old(
                        self,
                    ).layers().len()
                } ==> call_requires(grow, (backend, layers, amount)),
        ensures
            final(self).wf(),
            final(self).layers() == allocated(old(self).layers(), width, height),
            final(self).layers().len() >= old(self).layers().len(),
            entry matches Some(e) && describes(old(self).layers(), width, height, e)
                && e.extent() == (width, height) && all_within(
                e.allocations(),
                final(self).layers().len() as int,
            ),
            exists|backend: &mut B, layers: &[Layer]|
                {
                    &&& *backend == *old(self).spec_backend()
                    &&& *final(backend) == *final(self).spec_backend()
                    &&& layer_views(layers@) == final(self).layers()
                    &&& call_ensures(
                        grow,
                        (
                            backend,
                            layers,
                            (final(self).layers().len() - old(self).layers().len()) as usize,
                        ),
                        (),
                    )
                },
    {
        let current_size = self.layers.len();
        let entry = self.allocate(width, height);
        let new_layers = self.layers.len() - current_size;
        grow(&mut self.backend, self.layers.as_slice(), new_layers);
        entry
    }

    /// Gives the space of `entry` back, allocation by allocation.
    pub fn remove(&mut self, entry: &Entry)
        requires
            old(self).wf(),
            all_within(entry.allocations(), old(self).layers().len() as int),
        ensures
            final(self).wf(),
            final(self).layers() == release_all(old(self).layers(), entry.allocations()),
            final(self).layers().len() == old(self).layers().len(),
            final(self).spec_backend() == old(self).spec_backend(),
    {
        match entry {
            Entry::Contiguous(allocation) => {
                proof {
                    let all = entry.allocations();
                    assert(all[0] == *allocation);
                    assert(all.drop_last() =~= Seq::<Allocation>::empty());
                    reveal_with_fuel(release_all, 2);
                }
                self.deallocate(allocation);
            },
            Entry::Fragmented { fragments, .. } => {
                let ghost all = entry.allocations();
                let mut k: usize = 0;
                while k < fragments.len()
                    invariant
                        self.wf(),
                        self.spec_backend() == old(self).spec_backend(),
                        0 <= k <= fragments.len(),
                        all == entry.allocations(),
                        all.len() == fragments@.len(),
                        forall|j: int| 0 <= j < all.len() ==> #[trigger] all[j] == fragments@[j].allocation,
                        forall|j: int|
                            0 <= j < all.len() ==> (#[trigger] all[j]).layer_index() < old(
                                self,
                            ).layers().len(),
                        self.layers().len() == old(self).layers().len(),
                        self.layers() == release_all(old(self).layers(), all.take(k as int)),
                    decreases fragments.len() - k,
                {
                    proof {
                        assert(all[k as int] == fragments@[k as int].allocation);
                        assert(all.take(k + 1).drop_last() =~= all.take(k as int));
                        assert(all.take(k + 1).last() == all[k as int]);
                    }
                    self.deallocate(&fragments[k].allocation);
                    k += 1;
                }
                assert(all.take(k as int) =~= all);
            },
        }
    }

    /// Gives the space of `allocation` back.
    pub fn deallocate(&mut self, allocation: &Allocation)
        requires
            old(self).wf(),
            allocation.layer_index() < old(self).layers().len(),
        ensures
            final(self).wf(),
            final(self).layers() == release(old(self).layers(), *allocation),
            final(self).layers().len() == old(self).layers().len(),
            final(self).spec_backend() == old(self).spec_backend(),
    {
        proof {
            lemma_release(self.layers(), *allocation);
        }
        match allocation {
            Allocation::Full { layer } => {
                self.layers[*layer] = Layer::Empty;
            },
            Allocation::Partial { layer, region } => {
                let slot = &mut self.layers[*layer];
                if let Layer::Busy(allocator) = slot {
                    allocator.deallocate(region);
                    if allocator.is_empty() {
                        *slot = Layer::Empty;
                    }
                }
            },
        }
        assert(self.layers() =~= release(old(self).layers(), *allocation));
    }
}

} // verus!

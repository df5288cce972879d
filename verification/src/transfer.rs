//! What a backend computes before it moves bytes: how the rows of an image
//! are padded for a staging buffer, which part of the buffer goes to which
//! place in which layer, and which layers are kept when the storage grows.

use crate::allocation::Allocation;
use crate::entry::Entry;
use crate::layer::{Layer, LayerView};
use vstd::arithmetic::div_mod::{
    lemma_fundamental_div_mod, lemma_fundamental_div_mod_converse, lemma_mod_multiples_basic,
    lemma_mod_self_0, lemma_small_mod,
};
use vstd::prelude::*;

verus! {

/// The number of bytes that one pixel takes.
pub const BYTES_PER_PIXEL: u32 = 4;

/// The bytes that are added to a row of `image_width` pixels so that its
/// length is a multiple of `align`.
pub open spec fn padding_for(image_width: u32, align: u32) -> int {
    (align - (BYTES_PER_PIXEL * image_width) % (align as int)) % (align as int)
}

/// The byte at position `i` of a staging buffer whose rows of `row_bytes`
/// bytes of `data` are each followed by padding up to `stride` bytes.
pub open spec fn staged_byte(data: Seq<u8>, row_bytes: int, stride: int, i: int) -> u8 {
    if i % stride < row_bytes {
        data[(i / stride) * row_bytes + i % stride]
    } else {
        0u8
    }
}

/// The staging buffer for an image of `image_width` by `image_height`
/// pixels: row after row of `data`, each followed by `padding` zero bytes.
pub open spec fn staged(data: Seq<u8>, image_width: u32, image_height: u32, padding: u32) -> Seq<
    u8,
> {
    let row_bytes = BYTES_PER_PIXEL * image_width;
    let stride = row_bytes + padding;
    Seq::new((stride * image_height) as nat, |i: int| staged_byte(data, row_bytes, stride, i))
}

/// One copy out of the staging buffer into a layer.
#[derive(Clone, Copy, Debug, PartialEq, Eq, Structural)]
pub struct BufferCopy {
    /// Where in the staging buffer the copy starts, in bytes.
    pub offset: usize,
    /// The length of a row of the staging buffer, padding included.
    pub bytes_per_row: u32,
    /// The number of rows of the whole image.
    pub rows_per_image: u32,
    /// The left edge of the destination inside its layer.
    pub x: u32,
    /// The top edge of the destination inside its layer.
    pub y: u32,
    /// The layer of the destination.
    pub layer: u32,
    /// The width of what is copied, in pixels.
    pub width: u32,
    /// The height of what is copied, in rows.
    pub height: u32,
}

/// The copy that brings the part of the image that starts at `offset` to
/// where `allocation` lies.
pub open spec fn copy_to(
    image_width: u32,
    image_height: u32,
    padding: u32,
    offset: usize,
    allocation: Allocation,
) -> BufferCopy {
    BufferCopy {
        offset,
        bytes_per_row: (BYTES_PER_PIXEL * image_width + padding) as u32,
        rows_per_image: image_height,
        x: allocation.rect().x,
        y: allocation.rect().y,
        layer: allocation.layer_index() as u32,
        width: allocation.rect().width,
        height: allocation.rect().height,
    }
}

/// Where in the staging buffer the part of the image at `position` starts.
pub open spec fn offset_of(image_width: u32, padding: u32, position: (u32, u32)) -> int {
    position.1 * (BYTES_PER_PIXEL * image_width + padding) + BYTES_PER_PIXEL * position.0
}

/// The indices below `n` of the layers that are not empty, ascending.
pub open spec fn occupied_below(layers: Seq<LayerView>, n: int) -> Seq<u32>
    decreases n,
{
    if n <= 0 {
        Seq::empty()
    } else if layers[n - 1] is Empty {
        occupied_below(layers, n - 1)
    } else {
        occupied_below(layers, n - 1).push((n - 1) as u32)
    }
}

/// The bytes to add to each row of an image of `image_width` pixels so
/// that a row's length is a multiple of `align`.
pub fn row_padding(image_width: u32, align: u32) -> (padding: u32)
    requires
        align > 0,
        BYTES_PER_PIXEL * image_width <= u32::MAX,
    ensures
        padding == padding_for(image_width, align),
        padding < align,
        (BYTES_PER_PIXEL * image_width + padding) % (align as int) == 0,
{
    let row_bytes: u32 = BYTES_PER_PIXEL * image_width;
    let over: u32 = row_bytes % align;
    let padding: u32 = (align - over) % align;
    proof {
        let a = align as int;
        let x = row_bytes as int;
        lemma_fundamental_div_mod(x, a);
        if over == 0 {
            lemma_mod_self_0(a);
        } else {
            lemma_small_mod((a - over) as nat, a as nat);
            assert(x + padding == a * (x / a + 1)) by (nonlinear_arith)
                requires
                    x == a * (x / a) + over,
                    padding == a - over,
            ;
            lemma_mod_multiples_basic(x / a + 1, a);
            assert(a * (x / a + 1) == (x / a + 1) * a) by (nonlinear_arith);
        }
    }
    padding
}

/// Lays the rows of an image out for a staging buffer: each row of `data`
/// followed by `padding` zero bytes.
pub fn pad_rows(data: &[u8], image_width: u32, image_height: u32, padding: u32) -> (padded: Vec<
    u8,
>)
    requires
        BYTES_PER_PIXEL * image_width + padding <= u32::MAX,
        (BYTES_PER_PIXEL * image_width + padding) * image_height <= usize::MAX,
        data@.len() >= BYTES_PER_PIXEL * image_width * image_height,
    ensures
        padded@ == staged(data@, image_width, image_height, padding),
{
    let row_bytes: usize = (BYTES_PER_PIXEL * image_width) as usize;
    let stride: usize = row_bytes + padding as usize;
    let rows: usize = image_height as usize;
    let available: usize = data.len();
    let mut padded: Vec<u8> = Vec::new();
    let mut row: usize = 0;
    while row < rows
        invariant
            row_bytes == BYTES_PER_PIXEL * image_width,
            stride == row_bytes + padding,
            rows == image_height,
            stride * rows <= usize::MAX,
            available == data@.len(),
            available >= row_bytes * rows,
            0 <= row <= rows,
            padded@.len() == row * stride,
            forall|i: int|
                0 <= i < padded@.len() ==> #[trigger] padded@[i] == staged_byte(
                    data@,
                    row_bytes as int,
                    stride as int,
                    i,
                ),
        decreases rows - row,
    {
        proof {
            assert(row * stride + stride <= rows * stride && row * row_bytes + row_bytes <= rows
                * row_bytes && row * stride >= 0 && row * row_bytes >= 0) by (nonlinear_arith)
                requires
                    0 <= row < rows,
                    0 <= stride,
                    0 <= row_bytes,
            ;
            assert(rows * stride == stride * rows && rows * row_bytes == row_bytes * rows)
                by (nonlinear_arith);
        }
        let mut c: usize = 0;
        while c < row_bytes
            invariant
                0 <= c <= row_bytes,
                stride == row_bytes + padding,
                row * stride + stride <= usize::MAX,
                available == data@.len(),
                row * row_bytes + row_bytes <= available,
                row * row_bytes >= 0,
                row * stride >= 0,
                padded@.len() == row * stride + c,
                forall|i: int|
                    0 <= i < padded@.len() ==> #[trigger] padded@[i] == staged_byte(
                        data@,
                        row_bytes as int,
                        stride as int,
                        i,
                    ),
            decreases row_bytes - c,
        {
            proof {
                lemma_fundamental_div_mod_converse(
                    row * stride + c,
                    stride as int,
                    row as int,
                    c as int,
                );
            }
            padded.push(data[row * row_bytes + c]);
            c += 1;
        }
        let mut z: usize = 0;
        while z < padding as usize
            invariant
                0 <= z <= padding,
                stride == row_bytes + padding,
                row * stride + stride <= usize::MAX,
                row * stride >= 0,
                padded@.len() == row * stride + row_bytes + z,
                forall|i: int|
                    0 <= i < padded@.len() ==> #[trigger] padded@[i] == staged_byte(
                        data@,
                        row_bytes as int,
                        stride as int,
                        i,
                    ),
            decreases padding - z,
        {
            proof {
                lemma_fundamental_div_mod_converse(
                    row * stride + row_bytes + z,
                    stride as int,
                    row as int,
                    row_bytes + z,
                );
            }
            padded.push(0u8);
            z += 1;
        }
        proof {
            assert((row + 1) * stride == row * stride + stride) by (nonlinear_arith);
        }
        row += 1;
    }
    proof {
        assert(rows * stride == stride * rows) by (nonlinear_arith);
        assert(padded@ =~= staged(data@, image_width, image_height, padding));
    }
    padded
}

/// The copy that brings the part of the image that starts at `offset` in
/// the staging buffer to where `allocation` lies.
pub fn copy_for(
    image_width: u32,
    image_height: u32,
    padding: u32,
    offset: usize,
    allocation: &Allocation,
) -> (copy: BufferCopy)
    requires
        BYTES_PER_PIXEL * image_width + padding <= u32::MAX,
        allocation.layer_index() <= u32::MAX,
    ensures
        copy == copy_to(image_width, image_height, padding, offset, *allocation),
{
    let (x, y) = allocation.position();
    let (width, height) = allocation.size();
    let layer = allocation.layer();
    BufferCopy {
        offset,
        bytes_per_row: BYTES_PER_PIXEL * image_width + padding,
        rows_per_image: image_height,
        x,
        y,
        layer: layer as u32,
        width,
        height,
    }
}

/// The copies that bring an image from its staging buffer to where `entry`
/// lies: one for a contiguous entry, from the start of the buffer; one for
/// each fragment of a fragmented one, from where the fragment's part of
/// the image starts.
pub fn upload_plan(image_width: u32, image_height: u32, padding: u32, entry: &Entry) -> (plan: Vec<
    BufferCopy,
>)
    requires
        BYTES_PER_PIXEL * image_width + padding <= u32::MAX,
        forall|k: int|
            0 <= k < entry.allocations().len() ==> (#[trigger] entry.allocations()[k]).layer_index()
                <= u32::MAX,
        entry matches Entry::Fragmented { fragments, .. } ==> forall|k: int|
            0 <= k < fragments@.len() ==> offset_of(
                image_width,
                padding,
                (#[trigger] fragments@[k]).position,
            ) <= u32::MAX,
    ensures
        plan@.len() == entry.allocations().len(),
        entry matches Entry::Contiguous(allocation) ==> plan@[0] == copy_to(
            image_width,
            image_height,
            padding,
            0,
            *allocation,
        ),
        entry matches Entry::Fragmented { fragments, .. } ==> forall|k: int|
            0 <= k < fragments@.len() ==> #[trigger] plan@[k] == copy_to(
                image_width,
                image_height,
                padding,
                offset_of(image_width, padding, fragments@[k].position) as usize,
                fragments@[k].allocation,
            ),
{
    let mut plan: Vec<BufferCopy> = Vec::new();
    match entry {
        Entry::Contiguous(allocation) => {
            assert(entry.allocations()[0] == *allocation);
            plan.push(copy_for(image_width, image_height, padding, 0, allocation));
        },
        Entry::Fragmented { fragments, .. } => {
            let stride: u32 = BYTES_PER_PIXEL * image_width + padding;
            let mut k: usize = 0;
            while k < fragments.len()
                invariant
                    0 <= k <= fragments.len(),
                    stride == BYTES_PER_PIXEL * image_width + padding,
                    entry.allocations().len() == fragments@.len(),
                    forall|j: int|
                        0 <= j < fragments@.len() ==> #[trigger] entry.allocations()[j]
                            == fragments@[j].allocation,
                    forall|j: int|
                        0 <= j < entry.allocations().len() ==> (
                        #[trigger] entry.allocations()[j]).layer_index() <= u32::MAX,
                    forall|j: int|
                        0 <= j < fragments@.len() ==> offset_of(
                            image_width,
                            padding,
                            (#[trigger] fragments@[j]).position,
                        ) <= u32::MAX,
                    plan@.len() == k,
                    forall|j: int|
                        0 <= j < k ==> #[trigger] plan@[j] == copy_to(
                            image_width,
                            image_height,
                            padding,
                            offset_of(image_width, padding, fragments@[j].position) as usize,
                            fragments@[j].allocation,
                        ),
                decreases fragments.len() - k,
            {
                let fragment = &fragments[k];
                let (x, y) = fragment.position;
                proof {
                    assert(entry.allocations()[k as int] == fragment.allocation);
                    assert(offset_of(image_width, padding, fragment.position) <= u32::MAX);
                    assert(y * stride >= 0 && BYTES_PER_PIXEL * x >= 0) by (nonlinear_arith)
                        requires
                            y >= 0,
                            stride >= 0,
                            x >= 0,
                    ;
                }
                let offset: u32 = y * stride + BYTES_PER_PIXEL * x;
                plan.push(
                    copy_for(image_width, image_height, padding, offset as usize, &fragment.allocation),
                );
                k += 1;
            }
        },
    }
    plan
}

/// Which layers are carried over when the storage grows by `amount`
/// layers to hold `layers`: none, and nothing is to be done, where
/// `amount` is zero; else those among the layers there were before that
/// are not empty.
pub fn layers_to_keep(layers: &[Layer], amount: usize) -> (kept: Option<Vec<u32>>)
    requires
        amount <= layers@.len() <= u32::MAX,
    ensures
        kept is None <==> amount == 0,
        kept matches Some(indices) ==> indices@ == occupied_below(
            crate::atlas::layer_views(layers@),
            layers@.len() - amount,
        ),
{
    if amount == 0 {
        return None;
    }
    let before: usize = layers.len() - amount;
    let ghost views = crate::atlas::layer_views(layers@);
    let mut indices: Vec<u32> = Vec::new();
    let mut i: usize = 0;
    while i < before
        invariant
            0 <= i <= before <= layers@.len() <= u32::MAX,
            views == crate::atlas::layer_views(layers@),
            indices@ == occupied_below(views, i as int),
        decreases before - i,
    {
        assert(views[i as int] == layers@[i as int]@);
        if !layers[i].is_empty() {
            indices.push(i as u32);
        }
        i += 1;
    }
    Some(indices)
}

} // verus!

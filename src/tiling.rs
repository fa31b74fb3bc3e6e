use vstd::prelude::*;
use vstd::arithmetic::div_mod::{
    lemma_fundamental_div_mod, lemma_fundamental_div_mod_converse,
};
use rayon::iter::{IndexedParallelIterator, ParallelIterator};
use rayon::slice::ParallelSliceMut;
use crate::raster::{PixelRGBA, RasterImage};

verus! {

/// Number of output pixels that one parallel task fills.
pub const COMPOSITE_CHUNK_SIZE: usize = 4 * 1024 * 1024;

/// The source pixel that lands at linear position `k` of an output that is
/// `out_width` pixels wide: the position is split into column and row, and each
/// wraps around the source's size.
pub open spec fn tiled_pixel(src: RasterImage, out_width: int, k: int) -> PixelRGBA {
    src.pixel_at((k % out_width) % (src.width as int), (k / out_width) % (src.height as int))
}

/// All pixels of an `out_width` x `out_height` tiling of `src`, row-major.
pub open spec fn tiled_pixels(src: RasterImage, out_width: int, out_height: int) -> Seq<PixelRGBA> {
    Seq::new((out_width * out_height) as nat, |k: int| tiled_pixel(src, out_width, k))
}

/// Offset `i` of chunk number `chunk_index` when the output is cut into chunks
/// of `chunk_size` pixels: the chunk recovers its absolute position from its
/// own start alone.
pub open spec fn chunk_pixel(
    src: RasterImage,
    out_width: int,
    chunk_index: int,
    chunk_size: int,
    i: int,
) -> PixelRGBA {
    tiled_pixel(src, out_width, chunk_index * chunk_size + i)
}

/// A buffer of `len` pixels in which every chunk of `chunk_size` pixels was
/// filled on its own.
pub open spec fn chunked_pixels(src: RasterImage, out_width: int, len: int, chunk_size: int) -> Seq<
    PixelRGBA,
> {
    Seq::new(len as nat, |k: int| chunk_pixel(src, out_width, k / chunk_size, chunk_size, k % chunk_size))
}

/// A source usable for tiling: well formed and at least one pixel in each
/// direction, so that positions can wrap around it.
pub open spec fn tileable(src: RasterImage) -> bool {
    src.wf() && src.width > 0 && src.height > 0
}

/// Fills one chunk of an output buffer that is `output_width` pixels wide.
/// The chunk is number `chunk_index` among chunks of `chunk_size` pixels.
pub fn copy_pixels_tiled(
    input: &RasterImage,
    output_width: u32,
    chunk: &mut [PixelRGBA],
    chunk_index: usize,
    chunk_size: usize,
)
    requires
        tileable(*input),
        output_width > 0,
        chunk_index as int * chunk_size as int + old(chunk)@.len() <= usize::MAX,
    ensures
        final(chunk)@.len() == old(chunk)@.len(),
        forall|i: int|
            0 <= i < final(chunk)@.len() ==> #[trigger] final(chunk)@[i] == chunk_pixel(
                *input,
                output_width as int,
                chunk_index as int,
                chunk_size as int,
                i,
            ),
{
    proof {
        assert(0 <= chunk_index as int * chunk_size as int) by (nonlinear_arith);
    }
    let start_index: usize = chunk_index * chunk_size;
    let width: usize = output_width as usize;
    let len: usize = chunk.len();
    let mut index: usize = 0;
    while index < len
        invariant
            tileable(*input),
            width == output_width as usize,
            width > 0,
            len == chunk@.len(),
            len == old(chunk)@.len(),
            start_index == chunk_index as int * chunk_size as int,
            start_index + len <= usize::MAX,
            index <= len,
            forall|i: int|
                0 <= i < index ==> #[trigger] chunk@[i] == chunk_pixel(
                    *input,
                    output_width as int,
                    chunk_index as int,
                    chunk_size as int,
                    i,
                ),
        decreases len - index,
    {
        let position: usize = start_index + index;
        let output_x: usize = position % width;
        let output_y: usize = position / width;
        let input_x: u32 = (output_x % (input.width as usize)) as u32;
        let input_y: u32 = (output_y % (input.height as usize)) as u32;
        chunk[index] = input.get(input_x, input_y);
        index = index + 1;
    }
}

/// Relies on rayon's `par_chunks_mut`, `enumerate` and `for_each`: the buffer is
/// cut into consecutive chunks of `chunk_size` elements (the last may be
/// shorter), numbered from zero in buffer order, and every chunk is handed to
/// the closure exactly once; `par_chunks_mut` panics on a chunk size of zero.
#[verifier::external_body]
fn fill_chunks_in_parallel(
    input: &RasterImage,
    output_width: u32,
    data: &mut Vec<PixelRGBA>,
    chunk_size: usize,
)
    requires
        tileable(*input),
        output_width > 0,
        chunk_size > 0,
    ensures
        final(data)@ == chunked_pixels(
            *input,
            output_width as int,
            old(data)@.len() as int,
            chunk_size as int,
        ),
{
    data.par_chunks_mut(chunk_size).enumerate().for_each(
        |(chunk_index, chunk)| copy_pixels_tiled(input, output_width, chunk, chunk_index, chunk_size),
    );
}

/// Filling a buffer chunk by chunk gives the plain tiling, whatever the chunk
/// size.
pub proof fn lemma_chunked_is_tiled(src: RasterImage, out_width: int, out_height: int, chunk_size: int)
    requires
        out_width >= 0,
        out_height >= 0,
        chunk_size > 0,
    ensures
        chunked_pixels(src, out_width, out_width * out_height, chunk_size) == tiled_pixels(
            src,
            out_width,
            out_height,
        ),
{
    let a = chunked_pixels(src, out_width, out_width * out_height, chunk_size);
    let b = tiled_pixels(src, out_width, out_height);
    assert forall|k: int| 0 <= k < a.len() implies a[k] == b[k] by {
        lemma_fundamental_div_mod(k, chunk_size);
        assert((k / chunk_size) * chunk_size + k % chunk_size == k) by (nonlinear_arith)
            requires
                k == chunk_size * (k / chunk_size) + (k % chunk_size),
        ;
    }
    assert(a =~= b);
}

/// Compositing is deterministic: two runs that cut the output into chunks of
/// different sizes produce identical buffers.
pub proof fn lemma_chunk_size_does_not_matter(
    src: RasterImage,
    out_width: int,
    out_height: int,
    chunk_size_a: int,
    chunk_size_b: int,
)
    requires
        out_width >= 0,
        out_height >= 0,
        chunk_size_a > 0,
        chunk_size_b > 0,
    ensures
        chunked_pixels(src, out_width, out_width * out_height, chunk_size_a) == chunked_pixels(
            src,
            out_width,
            out_width * out_height,
            chunk_size_b,
        ),
{
    lemma_chunked_is_tiled(src, out_width, out_height, chunk_size_a);
    lemma_chunked_is_tiled(src, out_width, out_height, chunk_size_b);
}

/// In a tiling, the output pixel at column `x` and row `y` is the source pixel
/// at column `x mod w` and row `y mod h`, where `w` x `h` is the source's size.
pub proof fn lemma_tiled_pixel_at(src: RasterImage, out_width: int, out_height: int, x: int, y: int)
    requires
        0 <= x < out_width,
        0 <= y < out_height,
    ensures
        0 <= y * out_width + x < out_width * out_height,
        tiled_pixels(src, out_width, out_height)[y * out_width + x] == src.pixel_at(
            x % (src.width as int),
            y % (src.height as int),
        ),
{
    assert(0 <= y * out_width + x < out_width * out_height) by (nonlinear_arith)
        requires
            0 <= x < out_width,
            0 <= y < out_height,
    ;
    lemma_fundamental_div_mod_converse(y * out_width + x, out_width, y, x);
}

/// Tiles `src` into an `output_width` x `output_height` raster, filling the
/// output in parallel chunks of `chunk_size` pixels.
pub fn create_tiled_image_chunked(
    src: &RasterImage,
    output_width: u32,
    output_height: u32,
    chunk_size: usize,
) -> (r: RasterImage)
    requires
        tileable(*src),
        chunk_size > 0,
        output_width as int * output_height as int <= usize::MAX,
    ensures
        r.wf(),
        r.width == output_width,
        r.height == output_height,
        r.pixels@ == tiled_pixels(*src, output_width as int, output_height as int),
        forall|x: int, y: int|
            0 <= x < output_width && 0 <= y < output_height ==> #[trigger] r.pixel_at(x, y)
                == src.pixel_at(x % (src.width as int), y % (src.height as int)),
{
    let mut result = RasterImage::new(output_width, output_height);
    if output_width > 0 {
        fill_chunks_in_parallel(src, output_width, &mut result.pixels, chunk_size);
        proof {
            lemma_chunked_is_tiled(*src, output_width as int, output_height as int, chunk_size as int);
        }
    } else {
        assert(result.pixels@ =~= tiled_pixels(*src, output_width as int, output_height as int));
    }
    assert forall|x: int, y: int|
        0 <= x < output_width && 0 <= y < output_height implies #[trigger] result.pixel_at(x, y)
            == src.pixel_at(x % (src.width as int), y % (src.height as int)) by {
        lemma_tiled_pixel_at(*src, output_width as int, output_height as int, x, y);
    }
    result
}

/// Tiles `src` into an `output_width` x `output_height` raster: the output pixel
/// at `(x, y)` is the source pixel at `(x mod w, y mod h)`.
pub fn create_tiled_image(src: &RasterImage, output_width: u32, output_height: u32) -> (r: RasterImage)
    requires
        tileable(*src),
        output_width as int * output_height as int <= usize::MAX,
    ensures
        r.wf(),
        r.width == output_width,
        r.height == output_height,
        r.pixels@ == tiled_pixels(*src, output_width as int, output_height as int),
        forall|x: int, y: int|
            0 <= x < output_width && 0 <= y < output_height ==> #[trigger] r.pixel_at(x, y)
                == src.pixel_at(x % (src.width as int), y % (src.height as int)),
{
    create_tiled_image_chunked(src, output_width, output_height, COMPOSITE_CHUNK_SIZE)
}

} // verus!

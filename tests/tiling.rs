use repeaty::raster::{PixelRGBA, RasterImage};
use repeaty::tiling::{create_tiled_image, create_tiled_image_chunked};

fn px(v: u8) -> PixelRGBA {
    PixelRGBA { r: v, g: v.wrapping_add(1), b: v.wrapping_add(2), a: 255 }
}

fn numbered_source(width: u32, height: u32) -> RasterImage {
    let mut image = RasterImage::new(width, height);
    for i in 0..image.pixels.len() {
        image.pixels[i] = px(i as u8);
    }
    image
}

#[test]
fn new_raster_is_blank_and_sized() {
    let image = RasterImage::new(3, 2);
    assert_eq!(image.pixels.len(), 6);
    assert!(image.pixels.iter().all(|p| *p == PixelRGBA { r: 0, g: 0, b: 0, a: 0 }));
}

#[test]
fn raster_get_reads_row_major() {
    let image = numbered_source(3, 2);
    assert_eq!(image.get(0, 0), px(0));
    assert_eq!(image.get(2, 0), px(2));
    assert_eq!(image.get(0, 1), px(3));
    assert_eq!(image.get(2, 1), px(5));
}

#[test]
fn tiled_pixel_wraps_around_source() {
    let src = numbered_source(2, 3);
    let out = create_tiled_image(&src, 5, 7);
    assert_eq!(out.width, 5);
    assert_eq!(out.height, 7);
    assert_eq!(out.pixels.len(), 35);
    for y in 0..7u32 {
        for x in 0..5u32 {
            assert_eq!(out.get(x, y), src.get(x % 2, y % 3), "at ({}, {})", x, y);
        }
    }
}

#[test]
fn tiling_smaller_than_source_crops() {
    let src = numbered_source(4, 4);
    let out = create_tiled_image(&src, 2, 3);
    assert_eq!(out.pixels, vec![px(0), px(1), px(4), px(5), px(8), px(9)]);
}

#[test]
fn tiling_to_zero_width_is_empty() {
    let src = numbered_source(2, 2);
    let out = create_tiled_image(&src, 0, 10);
    assert_eq!(out.width, 0);
    assert_eq!(out.height, 10);
    assert!(out.pixels.is_empty());
    let out = create_tiled_image(&src, 10, 0);
    assert!(out.pixels.is_empty());
}

#[test]
fn chunk_size_does_not_change_output() {
    let src = numbered_source(3, 5);
    let reference = create_tiled_image(&src, 17, 11);
    for chunk_size in [1usize, 2, 3, 7, 16, 17, 18, 100, 187, 1000] {
        let out = create_tiled_image_chunked(&src, 17, 11, chunk_size);
        assert_eq!(out.pixels, reference.pixels, "chunk size {}", chunk_size);
    }
}

#[test]
fn tiling_spans_several_default_chunks() {
    let src = numbered_source(7, 3);
    let out = create_tiled_image(&src, 3000, 1500);
    let n = out.pixels.len();
    assert_eq!(n, 4_500_000);
    for k in [0usize, 1, 4 * 1024 * 1024 - 1, 4 * 1024 * 1024, 4 * 1024 * 1024 + 1, n - 1] {
        let x = (k % 3000) as u32;
        let y = (k / 3000) as u32;
        assert_eq!(out.pixels[k], src.get(x % 7, y % 3));
    }
}

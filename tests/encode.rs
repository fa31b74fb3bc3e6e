use repeaty::chunks::{png_extract_ancillary_chunks, ChunkSet};
use repeaty::encode::{create_pattern_png, encode_png, raster_bytes, EncodeError};
use repeaty::raster::{PixelRGBA, RasterImage};
use repeaty::tiling::create_tiled_image;

fn source() -> RasterImage {
    let mut image = RasterImage::new(2, 2);
    image.pixels[0] = PixelRGBA { r: 255, g: 0, b: 0, a: 255 };
    image.pixels[1] = PixelRGBA { r: 0, g: 255, b: 0, a: 255 };
    image.pixels[2] = PixelRGBA { r: 0, g: 0, b: 255, a: 255 };
    image.pixels[3] = PixelRGBA { r: 1, g: 2, b: 3, a: 4 };
    image
}

fn preserved() -> ChunkSet {
    let mut set = ChunkSet::new();
    set.insert(b"pHYs".to_vec(), vec![0, 0, 0x2e, 0x23, 0, 0, 0x2e, 0x23, 1]);
    set.insert(b"gAMA".to_vec(), vec![0, 0, 0xb1, 0x8f]);
    set
}

fn decode(bytes: &[u8]) -> (u32, u32, Vec<u8>) {
    let decoder = png::Decoder::new(std::io::Cursor::new(bytes.to_vec()));
    let mut reader = decoder.read_info().unwrap();
    let mut buf = vec![0; reader.output_buffer_size().unwrap()];
    let info = reader.next_frame(&mut buf).unwrap();
    buf.truncate(info.buffer_size());
    (info.width, info.height, buf)
}

#[test]
fn raster_bytes_are_rgba_in_order() {
    let image = source();
    assert_eq!(raster_bytes(&image), vec![255, 0, 0, 255, 0, 255, 0, 255, 0, 0, 255, 255, 1, 2, 3, 4]);
}

#[test]
fn encoded_png_carries_chunks_verbatim() {
    let bytes = encode_png(&source(), &preserved()).unwrap();
    let found = png_extract_ancillary_chunks(&bytes).unwrap();
    assert_eq!(found.len(), 2);
    assert_eq!(found.get(b"pHYs").unwrap(), &vec![0, 0, 0x2e, 0x23, 0, 0, 0x2e, 0x23, 1]);
    assert_eq!(found.get(b"gAMA").unwrap(), &vec![0, 0, 0xb1, 0x8f]);
}

#[test]
fn encoded_png_decodes_to_the_pixels() {
    let image = source();
    let bytes = encode_png(&image, &ChunkSet::new()).unwrap();
    let (w, h, data) = decode(&bytes);
    assert_eq!((w, h), (2, 2));
    assert_eq!(data, raster_bytes(&image));
}

#[test]
fn encoding_empty_image_fails() {
    let image = RasterImage::new(0, 3);
    assert!(matches!(encode_png(&image, &ChunkSet::new()), Err(EncodeError::Codec(_))));
}

#[test]
fn pattern_png_is_tiled_and_keeps_phys() {
    let src = source();
    let bytes = create_pattern_png(&src, &preserved(), 5, 3).unwrap();
    let (w, h, data) = decode(&bytes);
    assert_eq!((w, h), (5, 3));
    assert_eq!(data, raster_bytes(&create_tiled_image(&src, 5, 3)));
    let found = png_extract_ancillary_chunks(&bytes).unwrap();
    assert_eq!(found.get(b"pHYs").unwrap(), preserved().get(b"pHYs").unwrap());
}

#[test]
fn pattern_png_refuses_oversized_and_empty_output() {
    let src = source();
    assert!(matches!(create_pattern_png(&src, &preserved(), u32::MAX, u32::MAX), Err(EncodeError::TooLarge)));
    assert!(matches!(create_pattern_png(&src, &preserved(), 0, 4), Err(EncodeError::Codec(_))));
}

#[test]
fn encoded_png_layout_is_signature_ihdr_then_chunks() {
    let mut image = RasterImage::new(3, 2);
    image.pixels[5] = PixelRGBA { r: 9, g: 8, b: 7, a: 6 };
    let chunks = preserved();
    let bytes = encode_png(&image, &chunks).unwrap();
    assert_eq!(&bytes[..8], &[0x89, b'P', b'N', b'G', b'\r', b'\n', 0x1a, b'\n']);
    assert_eq!(&bytes[8..16], &[0, 0, 0, 13, b'I', b'H', b'D', b'R']);
    assert_eq!(&bytes[16..29], &[0, 0, 0, 3, 0, 0, 0, 2, 8, 6, 0, 0, 0]);
    let mut pos = 33;
    for i in 0..chunks.len() {
        let tag = chunks.tag_at(i);
        let data = chunks.data_at(i);
        assert_eq!(&bytes[pos..pos + 4], &(data.len() as u32).to_be_bytes());
        assert_eq!(&bytes[pos + 4..pos + 8], tag.as_slice());
        assert_eq!(&bytes[pos + 8..pos + 8 + data.len()], data.as_slice());
        pos += 12 + data.len();
    }
    assert_eq!(&bytes[pos + 4..pos + 8], b"IDAT");
    assert_eq!(&bytes[bytes.len() - 12..], &[0, 0, 0, 0, b'I', b'E', b'N', b'D', 0xae, 0x42, 0x60, 0x82]);
}

#[test]
fn pattern_png_refuses_sizes_the_encoder_cannot_split() {
    // (4w+1)h fits 64 bits, but mtpng's split of the rows into pieces would not.
    let src = source();
    assert!(matches!(create_pattern_png(&src, &preserved(), 1 << 20, 1 << 30), Err(EncodeError::TooLarge)));
}

#[test]
fn encoded_png_scans_back_to_the_set() {
    let bytes = encode_png(&source(), &preserved()).unwrap();
    let found = png_extract_ancillary_chunks(&bytes).unwrap();
    let expected = preserved();
    assert_eq!(found.len(), expected.len());
    for i in 0..expected.len() {
        assert_eq!(found.get(expected.tag_at(i)).unwrap(), expected.data_at(i));
    }
    assert_eq!(&bytes[bytes.len() - 12..bytes.len() - 4], &[0, 0, 0, 0, b'I', b'E', b'N', b'D']);
}

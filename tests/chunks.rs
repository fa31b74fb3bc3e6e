use repeaty::chunks::{png_extract_ancillary_chunks, ChunkSet, DecodeError};
use repeaty::resolution::{
    get_pixels_per_meter_from_png_metadata, parse_phys_chunk, pixels_per_meter_of_phys, PngPhysChunk,
};

const SIGNATURE: [u8; 8] = [0x89, b'P', b'N', b'G', b'\r', b'\n', 0x1a, b'\n'];

fn chunk(tag: &[u8; 4], data: &[u8]) -> Vec<u8> {
    let mut out = (data.len() as u32).to_be_bytes().to_vec();
    out.extend_from_slice(tag);
    out.extend_from_slice(data);
    out.extend_from_slice(&[0xde, 0xad, 0xbe, 0xef]);
    out
}

fn png(chunks: &[Vec<u8>]) -> Vec<u8> {
    let mut out = SIGNATURE.to_vec();
    for c in chunks {
        out.extend_from_slice(c);
    }
    out
}

fn phys(x: u32, y: u32, unit: u8) -> Vec<u8> {
    let mut out = x.to_be_bytes().to_vec();
    out.extend_from_slice(&y.to_be_bytes());
    out.push(unit);
    out
}

fn extract(bytes: &[u8]) -> ChunkSet {
    match png_extract_ancillary_chunks(bytes) {
        Ok(set) => set,
        Err(e) => panic!("unexpected error {:?}", e),
    }
}

fn error_of(bytes: &[u8]) -> DecodeError {
    match png_extract_ancillary_chunks(bytes) {
        Ok(_) => panic!("expected an error"),
        Err(e) => e,
    }
}

#[test]
fn keeps_exactly_the_preserved_chunks() {
    let bytes = png(&[
        chunk(b"IHDR", &[0, 0, 0, 1, 0, 0, 0, 1, 8, 6, 0, 0, 0]),
        chunk(b"gAMA", &[0, 0, 0xb1, 0x8f]),
        chunk(b"tEXt", b"Comment\0hello"),
        chunk(b"cHRM", &[1, 2, 3, 4, 5, 6, 7, 8]),
        chunk(b"iCCP", b"profile\0\0zzz"),
        chunk(b"pHYs", &phys(11811, 11811, 1)),
        chunk(b"sRGB", &[0]),
        chunk(b"IDAT", &[1, 2, 3]),
        chunk(b"IEND", &[]),
    ]);
    let set = extract(&bytes);
    assert_eq!(set.len(), 5);
    assert_eq!(set.get(b"gAMA").unwrap(), &vec![0, 0, 0xb1, 0x8f]);
    assert_eq!(set.get(b"cHRM").unwrap(), &vec![1, 2, 3, 4, 5, 6, 7, 8]);
    assert_eq!(set.get(b"iCCP").unwrap(), &b"profile\0\0zzz".to_vec());
    assert_eq!(set.get(b"pHYs").unwrap(), &phys(11811, 11811, 1));
    assert_eq!(set.get(b"sRGB").unwrap(), &vec![0]);
    assert!(set.get(b"IHDR").is_none());
    assert!(set.get(b"tEXt").is_none());
    assert!(set.get(b"IDAT").is_none());
    assert!(set.get(b"IEND").is_none());
}

#[test]
fn signature_only_gives_empty_set() {
    let set = extract(&SIGNATURE);
    assert_eq!(set.len(), 0);
}

#[test]
fn repeated_type_keeps_last_payload() {
    let bytes = png(&[chunk(b"gAMA", &[1]), chunk(b"IDAT", &[9]), chunk(b"gAMA", &[2, 2])]);
    let set = extract(&bytes);
    assert_eq!(set.len(), 1);
    assert_eq!(set.get(b"gAMA").unwrap(), &vec![2, 2]);
}

#[test]
fn empty_payload_is_kept() {
    let set = extract(&png(&[chunk(b"sRGB", &[])]));
    assert_eq!(set.get(b"sRGB").unwrap(), &Vec::<u8>::new());
}

#[test]
fn corrupted_signature_is_rejected() {
    let mut bytes = png(&[chunk(b"gAMA", &[1, 2, 3, 4])]);
    bytes[1] = b'p';
    assert_eq!(error_of(&bytes), DecodeError::BadSignature);
    assert_eq!(error_of(&[]), DecodeError::BadSignature);
    assert_eq!(error_of(&SIGNATURE[..7]), DecodeError::BadSignature);
}

#[test]
fn overlong_chunk_is_rejected() {
    let mut bytes = png(&[chunk(b"gAMA", &[1, 2, 3, 4])]);
    let mut bad = chunk(b"pHYs", &phys(1, 1, 1));
    bad[3] = 10;
    bytes.extend_from_slice(&bad);
    assert_eq!(error_of(&bytes), DecodeError::Truncated);
    let mut huge = SIGNATURE.to_vec();
    huge.extend_from_slice(&[0xff, 0xff, 0xff, 0xff]);
    huge.extend_from_slice(b"IDAT");
    huge.extend_from_slice(&[0; 8]);
    assert_eq!(error_of(&huge), DecodeError::Truncated);
}

#[test]
fn cut_chunk_header_is_rejected() {
    let mut bytes = png(&[chunk(b"gAMA", &[1, 2, 3, 4])]);
    bytes.extend_from_slice(&[0, 0]);
    assert_eq!(error_of(&bytes), DecodeError::Truncated);
    let mut bytes = png(&[chunk(b"IEND", &[])]);
    bytes.pop();
    assert_eq!(error_of(&bytes), DecodeError::Truncated);
}

#[test]
fn non_utf8_chunk_type_is_rejected() {
    let mut bytes = png(&[chunk(b"gAMA", &[1])]);
    bytes[12] = 0xff;
    assert_eq!(error_of(&bytes), DecodeError::BadChunkType);
}

#[test]
fn chunk_set_insert_replaces() {
    let mut set = ChunkSet::new();
    set.insert(b"gAMA".to_vec(), vec![1]);
    set.insert(b"sRGB".to_vec(), vec![2]);
    set.insert(b"gAMA".to_vec(), vec![3]);
    assert_eq!(set.len(), 2);
    assert_eq!(set.get(b"gAMA").unwrap(), &vec![3]);
    assert_eq!(set.tag_at(1), &b"sRGB".to_vec());
    assert_eq!(set.data_at(1), &vec![2]);
}

#[test]
fn phys_payload_is_read_big_endian() {
    let p = parse_phys_chunk(&phys(11811, 2835, 1)).unwrap();
    assert_eq!(p, PngPhysChunk { pixel_per_unit_x: 11811, pixel_per_unit_y: 2835, unit_is_meter: 1 });
    let mut longer = phys(7, 8, 0);
    longer.push(42);
    let p = parse_phys_chunk(&longer).unwrap();
    assert_eq!(p, PngPhysChunk { pixel_per_unit_x: 7, pixel_per_unit_y: 8, unit_is_meter: 0 });
    assert_eq!(parse_phys_chunk(&[0, 0, 0, 1, 0, 0, 0, 1]), Err(DecodeError::MalformedPhys));
}

#[test]
fn phys_density_needs_meter_and_equal_axes() {
    let p = PngPhysChunk { pixel_per_unit_x: 11811, pixel_per_unit_y: 11811, unit_is_meter: 1 };
    assert_eq!(pixels_per_meter_of_phys(&p), Some(11811));
    let p = PngPhysChunk { pixel_per_unit_x: 11811, pixel_per_unit_y: 11811, unit_is_meter: 0 };
    assert_eq!(pixels_per_meter_of_phys(&p), None);
    let p = PngPhysChunk { pixel_per_unit_x: 11811, pixel_per_unit_y: 11812, unit_is_meter: 1 };
    assert_eq!(pixels_per_meter_of_phys(&p), None);
}

#[test]
fn resolution_from_metadata() {
    let set = extract(&png(&[chunk(b"pHYs", &phys(11811, 11811, 1))]));
    assert_eq!(get_pixels_per_meter_from_png_metadata(&set), Ok(Some(11811)));
    let set = extract(&png(&[chunk(b"pHYs", &phys(11811, 2835, 1))]));
    assert_eq!(get_pixels_per_meter_from_png_metadata(&set), Ok(None));
    let set = extract(&png(&[chunk(b"pHYs", &phys(11811, 11811, 0))]));
    assert_eq!(get_pixels_per_meter_from_png_metadata(&set), Ok(None));
    let set = extract(&png(&[chunk(b"gAMA", &[1, 2, 3, 4])]));
    assert_eq!(get_pixels_per_meter_from_png_metadata(&set), Ok(None));
    let set = extract(&png(&[chunk(b"pHYs", &[0, 0, 1])]));
    assert_eq!(get_pixels_per_meter_from_png_metadata(&set), Err(DecodeError::MalformedPhys));
}

#[test]
fn zero_density_is_unknown() {
    let p = PngPhysChunk { pixel_per_unit_x: 0, pixel_per_unit_y: 0, unit_is_meter: 1 };
    assert_eq!(pixels_per_meter_of_phys(&p), None);
    let set = extract(&png(&[chunk(b"pHYs", &phys(0, 0, 1))]));
    assert_eq!(get_pixels_per_meter_from_png_metadata(&set), Ok(None));
}

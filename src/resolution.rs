use vstd::prelude::*;
use crate::chunks::{be_u32_at, ChunkSet, DecodeError};

verus! {

/// The payload of a `pHYs` chunk: pixels per unit along each axis, and the
/// unit (1 for the meter, 0 for unknown).
#[derive(Clone, Copy, Debug, PartialEq, Eq, Structural)]
pub struct PngPhysChunk {
    pub pixel_per_unit_x: u32,
    pub pixel_per_unit_y: u32,
    pub unit_is_meter: u8,
}

/// The tag `pHYs`.
pub open spec fn phys_tag() -> Seq<u8> {
    seq![0x70u8, 0x48u8, 0x59u8, 0x73u8]
}

/// Reads a `pHYs` payload: two big-endian 32-bit densities and a unit byte.
/// Bytes after the ninth are ignored.
pub fn parse_phys_chunk(data: &[u8]) -> (r: Result<PngPhysChunk, DecodeError>)
    ensures
        data@.len() < 9 ==> r == Err::<PngPhysChunk, DecodeError>(DecodeError::MalformedPhys),
        data@.len() >= 9 ==> r == Ok::<PngPhysChunk, DecodeError>(
            PngPhysChunk {
                pixel_per_unit_x: be_u32_at(data@, 0) as u32,
                pixel_per_unit_y: be_u32_at(data@, 4) as u32,
                unit_is_meter: data@[8],
            },
        ),
{
    if data.len() < 9 {
        return Err(DecodeError::MalformedPhys);
    }
    let x: u32 = (data[0] as u32) * 16777216 + (data[1] as u32) * 65536 + (data[2] as u32) * 256
        + (data[3] as u32);
    let y: u32 = (data[4] as u32) * 16777216 + (data[5] as u32) * 65536 + (data[6] as u32) * 256
        + (data[7] as u32);
    Ok(PngPhysChunk { pixel_per_unit_x: x, pixel_per_unit_y: y, unit_is_meter: data[8] })
}

/// The density in pixels per meter that a `pHYs` chunk states, if it states
/// one: the unit must be the meter, both axes must agree, and the density
/// must be above zero.
pub open spec fn phys_pixels_per_meter(p: PngPhysChunk) -> Option<u32> {
    if p.unit_is_meter == 1 && p.pixel_per_unit_x == p.pixel_per_unit_y && p.pixel_per_unit_x > 0 {
        Some(p.pixel_per_unit_x)
    } else {
        None
    }
}

/// The density in pixels per meter that a `pHYs` chunk states; `None` where
/// its unit is not the meter, its axes disagree or the density is zero.
pub fn pixels_per_meter_of_phys(p: &PngPhysChunk) -> (r: Option<u32>)
    ensures
        r == phys_pixels_per_meter(*p),
{
    if p.unit_is_meter != 1 {
        return None;
    }
    if p.pixel_per_unit_x != p.pixel_per_unit_y || p.pixel_per_unit_x == 0 {
        return None;
    }
    Some(p.pixel_per_unit_x)
}

/// The resolution that a set of PNG chunks states, in pixels per meter.
pub open spec fn metadata_pixels_per_meter(m: Map<Seq<u8>, Seq<u8>>) -> Result<Option<u32>, DecodeError> {
    if !m.contains_key(phys_tag()) {
        Ok(None)
    } else if m[phys_tag()].len() < 9 {
        Err(DecodeError::MalformedPhys)
    } else {
        let d = m[phys_tag()];
        Ok(
            phys_pixels_per_meter(
                PngPhysChunk {
                    pixel_per_unit_x: be_u32_at(d, 0) as u32,
                    pixel_per_unit_y: be_u32_at(d, 4) as u32,
                    unit_is_meter: d[8],
                },
            ),
        )
    }
}

/// The image resolution in pixels per meter that the preserved chunks state.
/// `Ok(None)` where there is no `pHYs` chunk, where its unit is not the
/// meter, where its horizontal and vertical densities differ, or where the
/// density is zero; an error
/// where the chunk is too short to read.
pub fn get_pixels_per_meter_from_png_metadata(chunks: &ChunkSet) -> (r: Result<Option<u32>, DecodeError>)
    requires
        chunks.wf(),
    ensures
        r == metadata_pixels_per_meter(chunks@),
{
    let tag: [u8; 4] = [0x70u8, 0x48u8, 0x59u8, 0x73u8];
    assert(tag@ == phys_tag());
    match chunks.get(&tag) {
        None => Ok(None),
        Some(data) => {
            match parse_phys_chunk(data.as_slice()) {
                Err(e) => Err(e),
                Ok(p) => Ok(pixels_per_meter_of_phys(&p)),
            }
        },
    }
}

} // verus!

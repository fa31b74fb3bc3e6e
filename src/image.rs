use vstd::prelude::*;
use crate::chunks::{png_extract_ancillary_chunks, scan_chunks, ChunkSet, DecodeError};
use crate::dimensions::DimensionModel;
use crate::raster::RasterImage;
use crate::resolution::{get_pixels_per_meter_from_png_metadata, metadata_pixels_per_meter};
use crate::tiling::tileable;

verus! {

/// A loaded source image: where it came from, its pixels, the chunks that
/// its output will carry, and its resolution in pixels per meter if known.
pub struct InputImage {
    pub filepath: String,
    pub bitmap: RasterImage,
    pub png_metadata: ChunkSet,
    pub pixels_per_meter: Option<u32>,
}

/// What loading makes of a file's bytes: its preserved chunks and the
/// resolution that they state.
pub open spec fn load_spec(file_bytes: Seq<u8>) -> Result<(Map<Seq<u8>, Seq<u8>>, Option<u32>), DecodeError> {
    match scan_chunks(file_bytes) {
        Err(e) => Err(e),
        Ok(m) => match metadata_pixels_per_meter(m) {
            Err(e) => Err(e),
            Ok(p) => Ok((m, p)),
        },
    }
}

/// A file extension of a supported image type: it ends with `png`.
pub open spec fn is_png_extension_spec(extension: Seq<u8>) -> bool {
    extension.len() >= 3 && extension.subrange(extension.len() - 3, extension.len() as int) == seq![
        0x70u8,
        0x6eu8,
        0x67u8,
    ]
}

/// Whether a file extension names a supported image type: it ends with `png`.
pub fn is_png_extension(extension: &[u8]) -> (r: bool)
    ensures
        r == is_png_extension_spec(extension@),
{
    let n = extension.len();
    if n < 3 {
        return false;
    }
    let r = extension[n - 3] == 0x70 && extension[n - 2] == 0x6e && extension[n - 1] == 0x67;
    assert(r == (extension@.subrange(n - 3, n as int) =~= seq![0x70u8, 0x6eu8, 0x67u8]));
    r
}

impl InputImage {
    /// Pixels that can be tiled, and a well-formed chunk set.
    pub open spec fn wf(&self) -> bool {
        tileable(self.bitmap) && self.png_metadata.wf()
    }

    /// The image of file `filepath`, given its decoded pixels and the file's
    /// bytes, from which the metadata chunks and the resolution are read.
    pub fn new(filepath: String, bitmap: RasterImage, file_bytes: &[u8]) -> (r: Result<InputImage, DecodeError>)
        requires
            tileable(bitmap),
        ensures
            match load_spec(file_bytes@) {
                Err(e) => r matches Err(f) && f == e,
                Ok((m, p)) => r matches Ok(img) && img.wf() && img.filepath == filepath && img.bitmap
                    == bitmap && img.png_metadata@ == m && img.pixels_per_meter == p,
            },
    {
        let png_metadata = match png_extract_ancillary_chunks(file_bytes) {
            Ok(set) => set,
            Err(e) => return Err(e),
        };
        let pixels_per_meter = match get_pixels_per_meter_from_png_metadata(&png_metadata) {
            Ok(p) => p,
            Err(e) => return Err(e),
        };
        Ok(InputImage { filepath, bitmap, png_metadata, pixels_per_meter })
    }

    /// The dimension model for this image, with the default repeat counts.
    pub fn dimension_model(&self) -> (r: DimensionModel)
        requires
            self.wf(),
        ensures
            r.wf(),
            r == DimensionModel::initial(self.bitmap.width, self.bitmap.height, self.pixels_per_meter),
    {
        DimensionModel::new(self.bitmap.width, self.bitmap.height, self.pixels_per_meter)
    }
}

} // verus!

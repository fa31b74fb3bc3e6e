//! Tiling of a source image into a larger pattern, with the PNG metadata that
//! describes its colour and physical size carried from input to output.
//!
//! - `chunks`: the PNG chunk scanner that keeps `cHRM`, `gAMA`, `iCCP`, `pHYs`
//!   and `sRGB` payloads verbatim.
//! - `resolution`: the density that a `pHYs` chunk states.
//! - `dimensions`, `decimal`: repeat counts and physical sizes as exact ratios,
//!   kept consistent through the image's resolution, and the entered text
//!   that they come from.
//! - `raster`, `tiling`: the pixel buffer and the parallel wrapped tiling.
//! - `encode`: the output PNG, with the preserved chunks re-inserted.
//! - `image`, `session`: a loaded image, and the decisions of an editing
//!   session from event to action.

pub mod raster;
pub mod tiling;
pub mod chunks;
pub mod resolution;
pub mod encode;
pub mod dimensions;
pub mod decimal;
pub mod image;
pub mod session;

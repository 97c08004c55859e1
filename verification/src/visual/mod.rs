//! Pixel-level parts of the visual comparison: eroding the raw difference
//! mask, grouping differing pixels into connected regions, clustering nearby
//! regions, and turning regions into report entries.
//!
//! Rasters are row-major: pixel `(x, y)` of a `w` × `h` raster sits at index
//! `y * w + x`. Colour distances, alignment and the conversion of pixel boxes
//! to page points are floating-point work done by the caller.

pub mod mask;
pub mod regions;
pub mod page;
pub mod clusters;
pub mod align;

//! A software wireframe rasterizer: integer line drawing into a packed
//! RGBA frame buffer, with bounds-checked writes.
//!
//! The buffer is a flat byte vector of length `width * height * 4`,
//! row-major, four bytes per pixel. All drawing routines clip to the
//! buffer rectangle: a coordinate outside `[0, width) x [0, height)` is
//! skipped, never written out of range.

pub mod buffer;
pub mod line;
pub mod wireframe;

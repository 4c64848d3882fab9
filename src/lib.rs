//! Streaming of point batches and the cutaway raster engine: boundary
//! linking, pencil, eraser and region flood fill over an RGBA raster, and
//! the pointer and keyboard state that drives the tools.

pub mod batching;
pub mod editor;
pub mod fill;
pub mod geometry;
pub mod input;
pub mod linker;
pub mod raster;

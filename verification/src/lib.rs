//! Integer core of a renderer for fractals of the complex plane.
//!
//! A raster is a row-major buffer of 8-bit samples. The modules here cover the
//! pixel grid and its indexing, the two iteration schemes with their numeric
//! steps left to the caller, the classification of a point's outcome, the
//! colour policy, the band renderer, the split of the rows into bands that
//! can be rendered independently, the schedule that gives each band its part
//! of the buffer, and the proof that the split does not change the picture.

pub mod assemble;
pub mod bands;
pub mod classify;
pub mod color;
pub mod iterate;
pub mod raster;
pub mod render;
pub mod schedule;

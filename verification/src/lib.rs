//! Geometry pipeline that turns freehand pen strokes into a classifier-ready
//! 28x28 grayscale image: rasterization into a 280x280 binary coverage buffer,
//! ink bounding-box detection, crop with a 20% margin, bilinear resize to
//! 20x20, and centered paste into the 28x28 output.
//!
//! All arithmetic is exact fixed-point: canvas and buffer coordinates carry 16
//! sub-units per pixel, and output intensities are numerators over the fixed
//! denominator 36100, so every stage has a closed-form integer specification.

pub mod fixed;
pub mod raster;
pub mod inkbox;
pub mod normalize;
pub mod pipeline;
pub mod encode;
pub mod config;

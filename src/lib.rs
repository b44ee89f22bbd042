//! Adaptive-precision escape-time engine for Mandelbrot renders.
//!
//! The arbitrary-precision arithmetic runs outside this library; what is
//! verified here is precision planning, the escape decision sequence,
//! gradient sampling, pixel enumeration and raster assembly.

pub mod precision;
pub mod escape;
pub mod gradient;
pub mod raster;
pub mod render;
pub mod parse;

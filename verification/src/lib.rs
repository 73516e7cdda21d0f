//! Rasterising escape-time images of the Mandelbrot set into RGBA buffers.
//!
//! The crate owns the integer side of the work: how a pixel grid is laid out
//! in a byte buffer, how an escape count becomes a grey level, how a buffer is
//! cut into disjoint horizontal bands, how textual dimensions are read, and
//! how a grey image becomes a PNG file. The arithmetic on the complex plane is
//! supplied by the caller as closures.

pub mod grid;
pub mod render;
pub mod bands;
pub mod escape;
pub mod parse;
pub mod export;
pub mod state;

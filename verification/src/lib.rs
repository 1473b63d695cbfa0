//! Sampling and colouring of the Mandelbrot set.
//!
//! The crate holds the discrete half of a renderer: how sub-samples are
//! reduced to one count per pixel, how counts are laid out in a grid, how a
//! grid becomes colour planes and how those planes are turned into the
//! row-major bytes of a picture. Everything that needs real arithmetic (the
//! orbit of a point, the blend between two anchor colours) is handed in by
//! the caller as a function value.
pub mod colour;
pub mod frames;
pub mod grid;
pub mod pixels;
pub mod sample;

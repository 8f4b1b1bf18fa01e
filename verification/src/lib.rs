//! Rasterising the Mandelbrot set over a rectangle of the complex plane.
//!
//! The crate holds the escape-time loop, the pixel-grid geometry, the split of
//! a pixel buffer into row bands, the loop that fills a buffer with grey levels
//! from per-pixel escape times, and the parser for `<left><sep><right>`
//! argument pairs. The arithmetic on the points of the plane is the caller's:
//! it reaches the library as functions, and the contracts speak of what those
//! functions return.
//!
//! Everything here is proved against its contract, with one exception: the
//! call of a type's own `FromStr` parser in [`parse`], whose result no contract
//! describes.

pub mod escape;
pub mod grid;
pub mod parse;
pub mod render;

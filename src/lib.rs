//! Escape-time rendering of the Mandelbrot set: the iteration driver, the
//! grid generator, and the integer post-processing of the grid into text, a
//! checksum or a PNG image.

pub mod dims;
pub mod escape;
pub mod grid;
pub mod render;

pub use dims::{Dimensions, DimensionsError, NumberError};
pub use escape::escape_time;
pub use grid::{escape_row, from_rows, mandelbrot, Grid};
pub use render::{
    ascii_art, checksum, render_png, scale, scaled_pixels, shade_of, within_bound, RenderError,
};

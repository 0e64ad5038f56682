//! Grayscale rasterization of corner-anchored rectangles.
//!
//! A [`Query`] is a filled rectangle given by intensity, size and origin; it is
//! built from one of its four corners through a [`QueryBuilder`]. The raster
//! module paints a list of queries, in order, onto a downscaled canvas, and
//! the gray module hands the result to a grayscale image.

pub mod query;
pub mod raster;
pub mod gray;
pub mod laws;

pub use query::{Query, QueryBuilder};
pub use raster::{rasterize, Raster, RasterError};
pub use gray::{draw, GrayCanvas};

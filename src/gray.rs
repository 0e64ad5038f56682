//! The rasterized canvas as an 8-bit grayscale image of the `image` crate.

use vstd::prelude::*;
use image::GrayImage;
use crate::query::Query;
use crate::raster::{rasterize, render, RasterError};

verus! {

/// A grayscale image of the `image` crate, built from a rasterized canvas.
#[verifier::external_body]
#[derive(Debug)]
pub struct GrayCanvas {
    pub image: GrayImage,
}

/// The intensities that a grayscale image holds, row by row.
pub uninterp spec fn gray_pixels(img: GrayCanvas) -> Seq<u8>;

/// The `(width, height)` of a grayscale image.
pub uninterp spec fn gray_dimensions(img: GrayCanvas) -> (u32, u32);

/// Relies on `image::ImageBuffer::from_raw`: with one channel per pixel it
/// gives an image exactly when `width * height` fits in `usize` and is at most
/// the length of `buf`, and that image keeps `buf` as its data.
#[verifier::external_body]
fn gray_from_raw(width: u32, height: u32, buf: Vec<u8>) -> (r: Option<GrayCanvas>)
    ensures
        r is Some <==> width * height <= buf@.len(),
        r matches Some(img) ==> gray_pixels(img) == buf@ && gray_dimensions(img) == (width, height),
{
    GrayImage::from_raw(width, height, buf).map(|image| GrayCanvas { image })
}

/// Rasterizes `queries` as `rasterize` does and hands the buffer to a
/// grayscale image of the scaled width and height.
pub fn draw(queries: &[Query], image_size: (u32, u32), pixel_length: u32) -> (r: Result<
    GrayCanvas,
    RasterError,
>)
    ensures
        match r {
            Ok(img) => render(queries@, image_size, pixel_length) == Ok::<
                (u32, u32, Seq<u8>),
                RasterError,
            >((gray_dimensions(img).1, gray_dimensions(img).0, gray_pixels(img))),
            Err(e) => render(queries@, image_size, pixel_length) == Err::<
                (u32, u32, Seq<u8>),
                RasterError,
            >(e),
        },
{
    let raster = match rasterize(queries, image_size, pixel_length) {
        Ok(raster) => raster,
        Err(e) => return Err(e),
    };
    let height = raster.height;
    let width = raster.width;
    match gray_from_raw(width, height, raster.pixels) {
        Some(img) => Ok(img),
        None => Err(RasterError::InvalidImageSizeError { height, width }),
    }
}

} // verus!

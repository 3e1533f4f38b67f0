//! Space-efficient image encoding primitives with machine-checked contracts: the pixel and
//! conversion core, a DEFLATE/zlib encoder, and the DNG raw-format building blocks.
pub mod codec;
pub mod convert;
pub mod deflate;
pub mod dng;
pub mod error;
pub mod image;
pub mod invariants;
pub mod luminance;
pub mod pixel;

pub use codec::{DecodeImage, EncodeImage};
pub use error::{Diagnostic, Dimensions, Error, ErrorKind, Result};
pub use image::{ImageBuf, ImageRef};
pub use pixel::{
    Bilevel, Cmyk8, ColorModel, Gray16, Gray8, GrayAlpha16, GrayAlpha8, Indexed8, Pixel,
    PixelFormat, Rgb16, Rgb8, Rgba16, Rgba8, Sample,
};

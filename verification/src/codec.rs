//! The codec traits: encoding an [`ImageRef`] of a pixel layout to bytes, and decoding bytes to an
//! owned [`ImageBuf`] of a layout. Codecs implement them once per layout they support.
use vstd::prelude::*;
use crate::error::Result;
use crate::image::{ImageBuf, ImageRef};
use crate::pixel::Pixel;

verus! {

/// Encodes an [`ImageRef`] of a specific pixel layout `P` into a compressed byte stream.
///
/// A codec implements this once per pixel layout it supports, so asking it to encode an
/// unsupported layout is a compile error rather than a runtime refusal. Bytes are appended to
/// `out` so callers can reuse a scratch buffer. An implementation describes what it produces by
/// the two spec functions: which byte strings encode an image, and which images it refuses.
pub trait EncodeImage<P: Pixel> {
    /// Whether `bytes` is an encoding this codec gives of `image` (by default any bytes: a codec
    /// that does not describe its output promises nothing of it).
    open spec fn spec_encodes(&self, image: ImageRef<'_, P>, bytes: Seq<u8>) -> bool {
        true
    }

    /// Whether this codec may refuse to encode `image` (by default any image).
    open spec fn spec_refuses(&self, image: ImageRef<'_, P>) -> bool {
        true
    }

    /// Encodes `image` into `out` (appended), returning the number of bytes written: an encoding
    /// of the image, or an error where the codec refuses it.
    fn encode_image(&self, image: ImageRef<'_, P>, out: &mut Vec<u8>) -> (r: Result<usize>)
        ensures
            match r {
                Ok(n) => final(out)@.len() == old(out)@.len() + n && final(out)@.take(
                    old(out)@.len() as int,
                ) == old(out)@ && self.spec_encodes(
                    image,
                    final(out)@.skip(old(out)@.len() as int),
                ),
                Err(_) => self.spec_refuses(image),
            },
    ;

    /// Encodes `image` into a fresh `Vec`: what [`EncodeImage::encode_image`] appends to an empty
    /// buffer, or its error.
    fn encode_to_vec(&self, image: ImageRef<'_, P>) -> (r: Result<Vec<u8>>)
        ensures
            match r {
                Ok(v) => self.spec_encodes(image, v@),
                Err(_) => self.spec_refuses(image),
            },
    {
        let mut out: Vec<u8> = Vec::new();
        match self.encode_image(image, &mut out) {
            Ok(_) => {
                assert(out@.skip(0) =~= out@);
                Ok(out)
            },
            Err(e) => Err(e),
        }
    }
}

/// Decodes a compressed byte stream into an owned [`ImageBuf`] of pixel layout `P`. An
/// implementation describes what it produces by the two spec functions: which images decode
/// from given bytes, and which bytes it rejects.
pub trait DecodeImage<P: Pixel> {
    /// Whether `image` is a decoding this codec gives of `data` (by default any image: a codec
    /// that does not describe its output promises nothing of it).
    open spec fn spec_decodes(&self, data: Seq<u8>, image: ImageBuf<P>) -> bool {
        true
    }

    /// Whether this codec may reject `data` (by default any data).
    open spec fn spec_rejects(&self, data: Seq<u8>) -> bool {
        true
    }

    /// Decodes `data` into a fresh [`ImageBuf`]: a decoding of the data, or an error where the
    /// codec rejects it.
    fn decode_image(&self, data: &[u8]) -> (r: Result<ImageBuf<P>>)
        ensures
            match r {
                Ok(img) => self.spec_decodes(data@, img),
                Err(_) => self.spec_rejects(data@),
            },
    ;

    /// Decodes `data` into `dst`; by default the decoded image replaces `dst`, and on failure
    /// `dst` is left as it was.
    fn decode_image_into(&self, data: &[u8], dst: &mut ImageBuf<P>) -> (r: Result<()>)
        ensures
            match r {
                Ok(()) => self.spec_decodes(data@, *final(dst)),
                Err(_) => self.spec_rejects(data@) && *final(dst) == *old(dst),
            },
    {
        match self.decode_image(data) {
            Ok(img) => {
                *dst = img;
                Ok(())
            },
            Err(e) => Err(e),
        }
    }
}

} // verus!

//! Compressing and decompressing the packed DNG sample stream.
//!
//! DNG's **Deflate** (`Compression = 8`) is zlib-format (RFC 1950). Compression goes through the
//! crate's own encoder ([`DeflateEncoder`] at its default level); decompression goes through
//! `miniz_oxide`, since the encoder is deliberately encoder-only. Lossless JPEG and JPEG XL strips
//! are not handled here.
use vstd::prelude::*;
use crate::deflate::adler32::spec_adler32;
use crate::deflate::encoder::{DeflateEncoder, Level, level_body, zlib_header_bytes, be32_bytes};
use crate::dng::values::Compression;
use crate::error::{Error, ErrorKind, Result, ORIGIN_DNG};

verus! {

/// The message for a scheme this crate cannot encode.
pub const MSG_NOT_ENCODABLE: &'static str = "DNG: this compression is not yet encodable";

/// The message for a scheme this crate cannot decode.
pub const MSG_NOT_DECODABLE: &'static str = "DNG: this compression is not yet decodable";

/// The message for a Deflate stream that inflates past the size its chunk allows.
pub const MSG_INFLATES_PAST: &'static str = "DNG: Deflate stream inflates past the expected size";

/// The message for a Deflate stream that does not inflate.
pub const MSG_CORRUPT_DEFLATE: &'static str = "DNG: corrupt Deflate stream";

/// Why a zlib stream did not inflate: it would grow past the limit (`over_limit`), or it is
/// malformed; `detail` names the inflater's status.
pub struct InflateFailure {
    /// The stream holds more output than the limit allows.
    pub over_limit: bool,
    /// The inflater's status, as text.
    pub detail: String,
}

/// What `miniz_oxide`'s zlib inflater yields for `input` with an output limit of `max_size`:
/// the inflated bytes, or whether it stopped at the limit together with its status text.
pub uninterp spec fn zlib_inflate_outcome(input: Seq<u8>, max_size: usize) -> core::result::Result<Seq<u8>, (bool, Seq<char>)>;

/// Inflates a zlib stream with `miniz_oxide::inflate::decompress_to_vec_zlib_with_limit`.
///
/// Trusted: the outcome is [`zlib_inflate_outcome`] of the input and the limit (the inflater is
/// deterministic), and inflated output never exceeds the limit — the function grows its buffer
/// to at most `max_size` bytes and fails with `HasMoreOutput` when more is pending. The failure
/// is split into that status (`over_limit`) and every other one, with the status as text.
#[verifier::external_body]
fn inflate_zlib_with_limit(input: &[u8], max_size: usize) -> (r: core::result::Result<
    Vec<u8>,
    InflateFailure,
>)
    ensures
        zlib_inflate_outcome(input@, max_size) == match r {
            Ok(v) => Ok(v@),
            Err(f) => Err((f.over_limit, f.detail@)),
        },
        r matches Ok(v) ==> v@.len() <= max_size,
{
    match miniz_oxide::inflate::decompress_to_vec_zlib_with_limit(input, max_size) {
        Ok(v) => Ok(v),
        Err(e) => match e.status {
            miniz_oxide::inflate::TINFLStatus::HasMoreOutput => Err(
                InflateFailure { over_limit: true, detail: format!("miniz status {:?}", e.status) },
            ),
            other => Err(
                InflateFailure { over_limit: false, detail: format!("miniz status {:?}", other) },
            ),
        },
    }
}

/// A copy of `bytes`.
fn copy_bytes(bytes: &[u8]) -> (r: Vec<u8>)
    ensures
        r@ == bytes@,
{
    let mut out: Vec<u8> = Vec::new();
    out.extend_from_slice(bytes);
    proof {
        assert(out@ =~= bytes@);
    }
    out
}

/// Whether `e` is the DNG codec's invalid-input error with message `msg` and no detail.
pub open spec fn is_dng_error(e: Error, kind: ErrorKind, msg: &'static str) -> bool {
    &&& e.spec_kind() == kind
    &&& e.spec_static_message() == Some(msg)
    &&& e.spec_origin() == Some(ORIGIN_DNG)
}

/// Compresses one already-packed strip with `scheme`: uncompressed strips are copied, Deflate
/// strips become a zlib stream from the crate's encoder at its default level, and every other
/// scheme is refused as not yet encodable.
pub fn compress(scheme: Compression, packed: &[u8]) -> (r: Result<Vec<u8>>)
    ensures
        scheme == Compression::Uncompressed ==> (r matches Ok(v) && v@ == packed@),
        scheme == Compression::Deflate ==> (r matches Ok(v) && v@ == zlib_header_bytes(
            Level::Default,
        ) + level_body(packed@, Level::Default) + be32_bytes(spec_adler32(1, packed@))),
        scheme != Compression::Uncompressed && scheme != Compression::Deflate ==> (r matches Err(e)
            && is_dng_error(e, ErrorKind::Unsupported, MSG_NOT_ENCODABLE) && e.spec_detail() is None),
{
    match scheme {
        Compression::Uncompressed => Ok(copy_bytes(packed)),
        Compression::Deflate => {
            let mut out: Vec<u8> = Vec::new();
            let enc = DeflateEncoder::new();
            enc.zlib_compress(packed, &mut out);
            proof {
                assert(Seq::<u8>::empty() + zlib_header_bytes(Level::Default) + level_body(
                    packed@,
                    Level::Default,
                ) + be32_bytes(spec_adler32(1, packed@)) =~= zlib_header_bytes(Level::Default)
                    + level_body(packed@, Level::Default) + be32_bytes(spec_adler32(1, packed@)));
            }
            Ok(out)
        },
        _ => Err(Error::unsupported(ORIGIN_DNG, MSG_NOT_ENCODABLE)),
    }
}

/// Decompresses one strip produced with `scheme` back to the packed sample bytes.
///
/// `max_out` is the packed byte length the chunk's geometry implies; a Deflate chunk inflating
/// past it is refused (so a hostile stream cannot allocate without limit) with a message distinct
/// from plain corruption. Uncompressed strips are copied; other schemes are refused as not yet
/// decodable.
pub fn decompress(scheme: Compression, bytes: &[u8], max_out: usize) -> (r: Result<Vec<u8>>)
    ensures
        scheme == Compression::Uncompressed ==> (r matches Ok(v) && v@ == bytes@),
        scheme == Compression::Deflate ==> match zlib_inflate_outcome(bytes@, max_out) {
            Ok(v) => (r matches Ok(w) && w@ == v && v.len() <= max_out),
            Err((over, detail)) => (r matches Err(e) && is_dng_error(
                e,
                ErrorKind::InvalidInput,
                if over {
                    MSG_INFLATES_PAST
                } else {
                    MSG_CORRUPT_DEFLATE
                },
            ) && e.spec_detail() == Some(detail)),
        },
        scheme != Compression::Uncompressed && scheme != Compression::Deflate ==> (r matches Err(e)
            && is_dng_error(e, ErrorKind::Unsupported, MSG_NOT_DECODABLE) && e.spec_detail() is None),
{
    match scheme {
        Compression::Uncompressed => Ok(copy_bytes(bytes)),
        Compression::Deflate => match inflate_zlib_with_limit(bytes, max_out) {
            Ok(v) => Ok(v),
            Err(failure) => {
                let message = if failure.over_limit {
                    MSG_INFLATES_PAST
                } else {
                    MSG_CORRUPT_DEFLATE
                };
                Err(Error::invalid_input(ORIGIN_DNG, message).with_detail(failure.detail.as_str()))
            },
        },
        _ => Err(Error::unsupported(ORIGIN_DNG, MSG_NOT_DECODABLE)),
    }
}

} // verus!

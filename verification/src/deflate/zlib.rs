//! zlib stream framing (RFC 1950 §2.2): the 2-byte header that wraps a raw DEFLATE stream.
//!
//! A full zlib stream is `header || deflate || adler32`. This module builds the header; the encoder
//! appends the DEFLATE body and the big-endian Adler-32 trailer. [`inflate_zlib`] states what such
//! a stream decodes to.
use vstd::prelude::*;

use crate::deflate::encoder::{Level, be32_bytes};
use crate::deflate::adler32::spec_adler32;
use crate::deflate::inflate::inflate_blocks;

verus! {

/// The `FLEVEL` hint for a level: 0 for the fastest algorithms, 2 for the default, 3 for maximum
/// compression. Purely advisory.
pub open spec fn flevel(level: Level) -> nat {
    match level {
        Level::Store | Level::Fast => 0,
        Level::Default => 2,
        Level::Best => 3,
    }
}

/// The 16-bit header value: `CMF = 0x78` (deflate, 32 KiB window), `FLEVEL` in bits 6-7, and
/// `FCHECK` raising the value to the next multiple of 31.
pub open spec fn header_value(level: Level) -> nat {
    let base = 0x7800 + flevel(level) * 64;
    base + ((31 - base % 31) % 31) as nat
}

/// The 2-byte zlib header for the given compression level: `header_value` in big-endian order —
/// a multiple of 31 whose first byte is `0x78`.
pub fn header(level: Level) -> (r: [u8; 2])
    ensures
        r@[0] as nat * 256 + r@[1] as nat == header_value(level),
        (r@[0] as nat * 256 + r@[1] as nat) % 31 == 0,
        r@[0] == 0x78,
{
    let cmf: u16 = 0x78;
    let fl: u16 = match level {
        Level::Store | Level::Fast => 0,
        Level::Default => 2,
        Level::Best => 3,
    };
    let flg_base = fl * 64;
    let mut value = cmf * 256 + flg_base;
    let rem = value % 31;
    if rem != 0 {
        value = value + (31 - rem);
    }
    [(value / 256) as u8, (value % 256) as u8]
}

/// What a zlib stream (RFC 1950) decodes to: a header whose `CMF` names DEFLATE (`CM = 8`) with
/// a window of at most 32 KiB (`CINFO <= 7`), whose `FLG` asks for no preset dictionary
/// (`FDICT = 0`) and makes `CMF * 256 + FLG` a multiple of 31; then DEFLATE blocks, and in the
/// four bytes after the byte they end in, the big-endian Adler-32 of their output, which must
/// match. Bytes after the trailer are ignored.
pub open spec fn inflate_zlib(stream: Seq<u8>) -> Option<Seq<u8>> {
    if stream.len() < 2 {
        None
    } else {
        let cmf = stream[0] as nat;
        let flg = stream[1] as nat;
        if cmf % 16 != 8 || cmf / 16 > 7 || (cmf * 256 + flg) % 31 != 0 || (flg / 32) % 2 == 1 {
            None
        } else {
            match inflate_blocks(stream.skip(2), 0, Seq::empty()) {
                None => None,
                Some((out, e)) => {
                    let t = 2 + (e + 7) / 8;
                    if t + 4 > stream.len() || stream.subrange(t as int, t + 4int) != be32_bytes(
                        spec_adler32(1, out),
                    ) {
                        None
                    } else {
                        Some(out)
                    }
                },
            }
        }
    }
}

} // verus!

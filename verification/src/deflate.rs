//! A DEFLATE (RFC 1951) and zlib (RFC 1950) encoder: the Adler-32 checksum, an LSB-first bit
//! writer, the length/distance symbol tables, Huffman code construction, LZ77 parsing, the stored,
//! fixed- and dynamic-Huffman block writers, and the [`DeflateEncoder`](encoder::DeflateEncoder)
//! that picks the smallest of them. The encoder does not decode; what a stream decodes to is
//! written down as spec functions ([`inflate`](inflate::inflate),
//! [`inflate_zlib`](zlib::inflate_zlib)), and every stream the encoder emits is proved to decode
//! back to its input.
pub mod adler32;
pub mod bitwriter;
pub mod symbols;
pub mod zlib;
pub mod encoder;
pub mod huffman;
pub mod lz77;
pub mod block;
pub mod dynamic;
pub mod inflate;
pub mod round_trip;

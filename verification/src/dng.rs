//! DNG raw-format building blocks: tag values, sub-image roles, opcode lists, the
//! horizontal-difference predictor, the lossless-JPEG (SOF3) codec, strip compression, and the
//! decoder's layout helpers, and the findings a strict deconstruct and a preserving rewrite
//! report.
pub mod values;
pub mod subimage;
pub mod metadata;
pub mod predictor;
pub mod opcode;
pub mod lossless_jpeg;
pub mod compression;
pub mod raw;
pub mod decoder;
pub mod writer;
pub mod gain_map;
pub mod deconstruct;
pub mod rewrite;
pub mod chunks;
pub mod byte_order;
pub mod levels;
pub mod profile;

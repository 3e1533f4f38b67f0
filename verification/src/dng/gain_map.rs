//! Profile gain-table maps: `ProfileGainTableMap` (DNG 1.6) and `ProfileGainTableMap2` (DNG
//! 1.7), spatially varying gain tables applied while rendering. Both tags share one model: a
//! `MapPointsV x MapPointsH` grid of tables with `MapPointsN` entries each, the grid's placement,
//! the five input weights, and (v2 only) a gamma and integer gain storage with its range.
//!
//! The payloads are stored in the file's byte order. Every floating-point field is held here as
//! its IEEE 754 bit pattern (`u32` for binary32, `u64` for binary64), so that parsing and
//! serialising are byte-exact: a parsed map serialises back to the bytes it came from.
use vstd::prelude::*;
use crate::error::{Error, ErrorKind, Result};
use crate::dng::byte_order::{
    ByteOrder, u16_bytes, u32_bytes, u64_bytes, u16_at, u32_at, u64_at, u16s_bytes, u32s_bytes,
    u16s_at, u32s_at, read_u16, read_u32, read_u64, push_u16, push_u32, push_u64, lemma_u32,
    lemma_u64, lemma_u16s, lemma_u32s, lemma_u16s_len, lemma_u32s_len, lemma_split, lemma_sub_of_prefix,
};

verus! {

/// The message for a map with an empty axis.
pub const MSG_GAIN_ZERO: &'static str = "DNG: gain-table map dimensions must be non-zero";

/// The message for a map whose entry count overflows `usize`.
pub const MSG_GAIN_OVERFLOW: &'static str = "DNG: gain-table map dimensions overflow";

/// Why a map with these dimensions is refused: an empty axis, or an entry count past `usize`.
pub open spec fn dims_refusal(points_v: u32, points_h: u32, points_n: u32) -> Option<&'static str> {
    if points_v == 0 || points_h == 0 || points_n == 0 {
        Some(MSG_GAIN_ZERO)
    } else if points_v * points_h > usize::MAX || points_v * points_h * points_n > usize::MAX {
        Some(MSG_GAIN_OVERFLOW)
    } else {
        None
    }
}

/// `MapPointsV * MapPointsH * MapPointsN`, rejecting an empty axis or a count past `usize`.
pub fn table_count(points_v: u32, points_h: u32, points_n: u32) -> (r: Result<usize>)
    ensures
        match dims_refusal(points_v, points_h, points_n) {
            None => r matches Ok(n) && n == points_v * points_h * points_n,
            Some(msg) => r == Err::<usize, Error>(Error::InvalidInput(msg)),
        },
{
    if points_v == 0 || points_h == 0 || points_n == 0 {
        return Err(Error::InvalidInput(MSG_GAIN_ZERO));
    }
    match (points_v as usize).checked_mul(points_h as usize) {
        Some(vh) => match vh.checked_mul(points_n as usize) {
            Some(n) => Ok(n),
            None => Err(Error::InvalidInput(MSG_GAIN_OVERFLOW)),
        },
        None => Err(Error::InvalidInput(MSG_GAIN_OVERFLOW)),
    }
}

/// The message for a payload shorter than its fixed fields.
pub const MSG_GAIN_TRUNCATED: &'static str = "DNG: gain-table map is truncated";

/// The message for a v1 payload whose size disagrees with its dimensions.
pub const MSG_V1_LENGTH: &'static str =
    "DNG: ProfileGainTableMap byte count disagrees with its dimensions";

/// The message for a v1 gain that is negative or not finite.
pub const MSG_V1_GAINS: &'static str =
    "DNG: ProfileGainTableMap gains must be finite and non-negative";

/// The message for a v2 gamma outside `0.25 ..= 4.0`.
pub const MSG_GAMMA: &'static str = "DNG: ProfileGainTableMap2 Gamma must be within 0.25 ..= 4.0";

/// The message for a v2 `DataType` beyond 3.
pub const MSG_DATA_TYPE: &'static str = "DNG: ProfileGainTableMap2 has an unknown DataType";

/// The message for a v2 payload whose size disagrees with its dimensions.
pub const MSG_V2_LENGTH: &'static str =
    "DNG: ProfileGainTableMap2 byte count disagrees with its dimensions";

/// The message for a v2 float gain that is not finite.
pub const MSG_V2_GAINS: &'static str = "DNG: ProfileGainTableMap2 gains must be finite";

/// The message for serialising integer gains as v1.
pub const MSG_V1_F32_ONLY: &'static str =
    "DNG: ProfileGainTableMap (v1) stores 32-bit float gains only";

/// The message for serialising a gamma other than 1 as v1.
pub const MSG_V1_GAMMA: &'static str =
    "DNG: ProfileGainTableMap (v1) cannot store a Gamma; use ProfileGainTableMap2";

/// The message for a gain count other than the grid's.
pub const MSG_GAIN_COUNT: &'static str =
    "DNG: gain count must be MapPointsV * MapPointsH * MapPointsN";

/// The binary32 bit pattern of `1.0`.
pub const F32_ONE: u32 = 0x3F80_0000;

/// A binary32 bit pattern is finite: its exponent field is not all ones.
pub open spec fn f32_finite(bits: u32) -> bool {
    (bits / 0x80_0000) % 256 != 255
}

/// A finite binary32 bit pattern is below zero: its sign is set and it is not `-0.0`.
pub open spec fn f32_below_zero(bits: u32) -> bool {
    bits > 0x8000_0000
}

/// A binary32 bit pattern lies within `0.25 ..= 4.0`: positive values order as their bit
/// patterns do, from `0x3E80_0000` (0.25) to `0x4080_0000` (4.0); negatives and NaNs fall
/// outside.
pub open spec fn gamma_in_range(bits: u32) -> bool {
    0x3E80_0000 <= bits <= 0x4080_0000
}

/// Whether a binary32 bit pattern is a finite number.
fn is_finite_bits(bits: u32) -> (r: bool)
    ensures
        r == f32_finite(bits),
{
    (bits / 0x80_0000) % 256 != 255
}

/// The stored entries of a gain map, as spec values.
pub enum GainModel {
    /// `DataType 0`: 8-bit codes over `GainMin ..= GainMax`.
    U8(Seq<u8>),
    /// `DataType 1`: 16-bit codes over `GainMin ..= GainMax`.
    U16(Seq<u16>),
    /// `DataType 2`: half-float bit patterns.
    F16(Seq<u16>),
    /// `DataType 3`: binary32 bit patterns.
    F32(Seq<u32>),
}

/// The number of stored entries.
pub open spec fn gain_len(g: GainModel) -> nat {
    match g {
        GainModel::U8(v) => v.len(),
        GainModel::U16(v) => v.len(),
        GainModel::F16(v) => v.len(),
        GainModel::F32(v) => v.len(),
    }
}

/// The v2 `DataType` code of a representation.
pub open spec fn data_type_of(g: GainModel) -> u32 {
    match g {
        GainModel::U8(_) => 0,
        GainModel::U16(_) => 1,
        GainModel::F16(_) => 2,
        GainModel::F32(_) => 3,
    }
}

/// Bytes per stored entry of `DataType` `dt` (0 to 3).
pub open spec fn entry_size(dt: u32) -> nat {
    if dt == 0 {
        1
    } else if dt == 1 || dt == 2 {
        2
    } else {
        4
    }
}

/// The stored gain values of a gain-table map, preserved exactly as encoded. A v1 tag always
/// stores [`F32`](Self::F32).
#[derive(Debug, Clone, PartialEq, Eq)]
pub enum GainValues {
    /// `DataType 0`: unsigned 8-bit codes over `GainMin ..= GainMax`.
    U8(Vec<u8>),
    /// `DataType 1`: unsigned 16-bit codes over `GainMin ..= GainMax`.
    U16(Vec<u16>),
    /// `DataType 2`: half-float gains, kept as raw bit patterns.
    F16(Vec<u16>),
    /// `DataType 3`: 32-bit float gains, as their bit patterns.
    F32(Vec<u32>),
}

impl View for GainValues {
    type V = GainModel;

    open spec fn view(&self) -> GainModel {
        match self {
            GainValues::U8(v) => GainModel::U8(v@),
            GainValues::U16(v) => GainModel::U16(v@),
            GainValues::F16(v) => GainModel::F16(v@),
            GainValues::F32(v) => GainModel::F32(v@),
        }
    }
}

impl GainValues {
    /// The number of stored gain entries.
    pub fn len(&self) -> (r: usize)
        ensures
            r == gain_len(self@),
    {
        match self {
            GainValues::U8(v) => v.len(),
            GainValues::U16(v) => v.len(),
            GainValues::F16(v) => v.len(),
            GainValues::F32(v) => v.len(),
        }
    }

    /// Whether no gain entries are stored.
    pub fn is_empty(&self) -> (r: bool)
        ensures
            r == (gain_len(self@) == 0),
    {
        self.len() == 0
    }

    /// The v2 `DataType` code of this representation.
    fn data_type(&self) -> (r: u32)
        ensures
            r == data_type_of(self@),
    {
        match self {
            GainValues::U8(_) => 0,
            GainValues::U16(_) => 1,
            GainValues::F16(_) => 2,
            GainValues::F32(_) => 3,
        }
    }
}

/// A gain-table map, as spec values.
pub struct GainMapModel {
    pub points_v: u32,
    pub points_h: u32,
    pub spacing_v: u64,
    pub spacing_h: u64,
    pub origin_v: u64,
    pub origin_h: u64,
    pub points_n: u32,
    pub input_weights: Seq<u32>,
    pub gamma: u32,
    pub gain_min: u32,
    pub gain_max: u32,
    pub gains: GainModel,
}

/// A parsed `ProfileGainTableMap` or `ProfileGainTableMap2` payload. Floating-point fields hold
/// their IEEE 754 bit patterns: `f64` fields as `u64`, `f32` fields as `u32`.
#[derive(Debug, Clone, PartialEq, Eq)]
pub struct ProfileGainTableMap {
    /// `MapPointsV`: gain tables in the vertical direction (at least 1).
    pub points_v: u32,
    /// `MapPointsH`: gain tables in the horizontal direction (at least 1).
    pub points_h: u32,
    /// `MapSpacingV` (binary64): vertical spacing between tables, relative to the image height.
    pub spacing_v: u64,
    /// `MapSpacingH` (binary64): horizontal spacing between tables, relative to the image width.
    pub spacing_h: u64,
    /// `MapOriginV` (binary64): vertical origin of the grid, relative to the image height.
    pub origin_v: u64,
    /// `MapOriginH` (binary64): horizontal origin of the grid, relative to the image width.
    pub origin_h: u64,
    /// `MapPointsN`: entries per gain table (at least 1).
    pub points_n: u32,
    /// `MapInputWeights` (binary32): the weights over `(R, G, B, min, max)` that give the table
    /// input value.
    pub input_weights: [u32; 5],
    /// `Gamma` (binary32; v2 only, `1.0` for v1): within `0.25 ..= 4.0`.
    pub gamma: u32,
    /// `GainMin` (binary32; v2 only): the gain integer code 0 stands for.
    pub gain_min: u32,
    /// `GainMax` (binary32; v2 only): the gain the largest integer code stands for.
    pub gain_max: u32,
    /// The stored entries, `points_v * points_h * points_n` of them, V-major, then H, then N.
    pub gains: GainValues,
}

impl View for ProfileGainTableMap {
    type V = GainMapModel;

    open spec fn view(&self) -> GainMapModel {
        GainMapModel {
            points_v: self.points_v,
            points_h: self.points_h,
            spacing_v: self.spacing_v,
            spacing_h: self.spacing_h,
            origin_v: self.origin_v,
            origin_h: self.origin_h,
            points_n: self.points_n,
            input_weights: self.input_weights@,
            gamma: self.gamma,
            gain_min: self.gain_min,
            gain_max: self.gain_max,
            gains: self.gains@,
        }
    }
}

/// The 64-byte header both versions start with.
#[verifier::opaque]
pub open spec fn header_bytes(order: ByteOrder, m: GainMapModel) -> Seq<u8> {
    u32_bytes(order, m.points_v) + u32_bytes(order, m.points_h) + u64_bytes(order, m.spacing_v)
        + u64_bytes(order, m.spacing_h) + u64_bytes(order, m.origin_v) + u64_bytes(
        order,
        m.origin_h,
    ) + u32_bytes(order, m.points_n) + u32s_bytes(order, m.input_weights)
}

/// The stored entries as bytes.
pub open spec fn gain_bytes(order: ByteOrder, g: GainModel) -> Seq<u8> {
    match g {
        GainModel::U8(v) => v,
        GainModel::U16(v) => u16s_bytes(order, v),
        GainModel::F16(v) => u16s_bytes(order, v),
        GainModel::F32(v) => u32s_bytes(order, v),
    }
}

/// A `ProfileGainTableMap` payload: the header, then the gains.
pub open spec fn v1_bytes(order: ByteOrder, m: GainMapModel) -> Seq<u8> {
    header_bytes(order, m) + gain_bytes(order, m.gains)
}

/// A `ProfileGainTableMap2` payload: the header, `DataType`, `Gamma`, `GainMin`, `GainMax`,
/// then the gains.
pub open spec fn v2_bytes(order: ByteOrder, m: GainMapModel) -> Seq<u8> {
    header_bytes(order, m) + u32_bytes(order, data_type_of(m.gains)) + u32_bytes(order, m.gamma)
        + u32_bytes(order, m.gain_min) + u32_bytes(order, m.gain_max) + gain_bytes(order, m.gains)
}

/// Why a map cannot be written as v1: integer gains, a gamma other than 1, bad dimensions, or
/// a gain count other than the grid's.
pub open spec fn v1_write_refusal(m: GainMapModel) -> Option<&'static str> {
    if !(m.gains is F32) {
        Some(MSG_V1_F32_ONLY)
    } else if m.gamma != F32_ONE {
        Some(MSG_V1_GAMMA)
    } else if dims_refusal(m.points_v, m.points_h, m.points_n) is Some {
        dims_refusal(m.points_v, m.points_h, m.points_n)
    } else if gain_len(m.gains) != m.points_v * m.points_h * m.points_n {
        Some(MSG_GAIN_COUNT)
    } else {
        None
    }
}

/// Why a map cannot be written as v2: a gamma outside `0.25 ..= 4.0`, bad dimensions, or a gain
/// count other than the grid's.
pub open spec fn v2_write_refusal(m: GainMapModel) -> Option<&'static str> {
    if !gamma_in_range(m.gamma) {
        Some(MSG_GAMMA)
    } else if dims_refusal(m.points_v, m.points_h, m.points_n) is Some {
        dims_refusal(m.points_v, m.points_h, m.points_n)
    } else if gain_len(m.gains) != m.points_v * m.points_h * m.points_n {
        Some(MSG_GAIN_COUNT)
    } else {
        None
    }
}

/// The map whose header `b` holds, with the given v2 fields and gains.
pub open spec fn with_header(
    b: Seq<u8>,
    order: ByteOrder,
    gamma: u32,
    gain_min: u32,
    gain_max: u32,
    gains: GainModel,
) -> GainMapModel {
    GainMapModel {
        points_v: u32_at(b, order, 0),
        points_h: u32_at(b, order, 4),
        spacing_v: u64_at(b, order, 8),
        spacing_h: u64_at(b, order, 16),
        origin_v: u64_at(b, order, 24),
        origin_h: u64_at(b, order, 32),
        points_n: u32_at(b, order, 40),
        input_weights: u32s_at(b, order, 44, 5),
        gamma,
        gain_min,
        gain_max,
        gains,
    }
}

/// The entry count the header of `b` declares.
pub open spec fn stored_count(b: Seq<u8>, order: ByteOrder) -> nat {
    (u32_at(b, order, 0) * u32_at(b, order, 4) * u32_at(b, order, 40)) as nat
}

/// The dimensions refusal of the header of `b`.
pub open spec fn stored_dims_refusal(b: Seq<u8>, order: ByteOrder) -> Option<&'static str> {
    dims_refusal(u32_at(b, order, 0), u32_at(b, order, 4), u32_at(b, order, 40))
}

/// A v1 gain is accepted: finite and not below zero.
pub open spec fn v1_gain_ok(bits: u32) -> bool {
    f32_finite(bits) && !f32_below_zero(bits)
}

/// Why `b` is not a `ProfileGainTableMap` payload, the first reason in the order the fields are
/// read: too short for the header, bad dimensions, a size other than the header's, or a gain
/// that is negative or not finite.
pub open spec fn v1_refusal(b: Seq<u8>, order: ByteOrder) -> Option<&'static str> {
    if b.len() < 64 {
        Some(MSG_GAIN_TRUNCATED)
    } else if stored_dims_refusal(b, order) is Some {
        stored_dims_refusal(b, order)
    } else if b.len() != 64 + 4 * stored_count(b, order) {
        Some(MSG_V1_LENGTH)
    } else if exists|i: int|
        0 <= i < stored_count(b, order) && !v1_gain_ok(#[trigger] u32_at(b, order, 64 + 4 * i)) {
        Some(MSG_V1_GAINS)
    } else {
        None
    }
}

/// The map a `ProfileGainTableMap` payload holds: gamma 1, no gain range, binary32 gains.
pub open spec fn v1_model(b: Seq<u8>, order: ByteOrder) -> GainMapModel {
    with_header(
        b,
        order,
        F32_ONE,
        0,
        0,
        GainModel::F32(u32s_at(b, order, 64, stored_count(b, order))),
    )
}

/// The gains of a v2 payload of `DataType` `dt` holding `n` entries.
pub open spec fn v2_gains(b: Seq<u8>, order: ByteOrder, dt: u32, n: nat) -> GainModel {
    if dt == 0 {
        GainModel::U8(b.subrange(80, 80 + n as int))
    } else if dt == 1 {
        GainModel::U16(u16s_at(b, order, 80, n))
    } else if dt == 2 {
        GainModel::F16(u16s_at(b, order, 80, n))
    } else {
        GainModel::F32(u32s_at(b, order, 80, n))
    }
}

/// Why `b` is not a `ProfileGainTableMap2` payload, the first reason in the order the fields
/// are read: too short for the fixed fields, a gamma outside `0.25 ..= 4.0`, bad dimensions, an
/// unknown `DataType`, a size other than the header's, or a float gain that is not finite.
pub open spec fn v2_refusal(b: Seq<u8>, order: ByteOrder) -> Option<&'static str> {
    if b.len() < 80 {
        Some(MSG_GAIN_TRUNCATED)
    } else if !gamma_in_range(u32_at(b, order, 68)) {
        Some(MSG_GAMMA)
    } else if stored_dims_refusal(b, order) is Some {
        stored_dims_refusal(b, order)
    } else if u32_at(b, order, 64) > 3 {
        Some(MSG_DATA_TYPE)
    } else if b.len() != 80 + entry_size(u32_at(b, order, 64)) * stored_count(b, order) {
        Some(MSG_V2_LENGTH)
    } else if u32_at(b, order, 64) == 3 && exists|i: int|
        0 <= i < stored_count(b, order) && !f32_finite(#[trigger] u32_at(b, order, 80 + 4 * i)) {
        Some(MSG_V2_GAINS)
    } else {
        None
    }
}

/// The map a `ProfileGainTableMap2` payload holds.
pub open spec fn v2_model(b: Seq<u8>, order: ByteOrder) -> GainMapModel {
    with_header(
        b,
        order,
        u32_at(b, order, 68),
        u32_at(b, order, 72),
        u32_at(b, order, 76),
        v2_gains(b, order, u32_at(b, order, 64), stored_count(b, order)),
    )
}

/// Appends the bytes of each value in turn.
fn push_u16s(out: &mut Vec<u8>, v: &[u16], order: ByteOrder)
    ensures
        final(out)@ == old(out)@ + u16s_bytes(order, v@),
{
    let ghost start = out@;
    let mut i: usize = 0;
    while i < v.len()
        invariant
            i <= v@.len(),
            out@ == start + u16s_bytes(order, v@.take(i as int)),
        decreases v@.len() - i,
    {
        push_u16(out, v[i], order);
        proof {
            assert(v@.take(i + 1).drop_last() =~= v@.take(i as int));
            assert(out@ =~= start + u16s_bytes(order, v@.take(i + 1)));
        }
        i = i + 1;
    }
    assert(v@.take(v@.len() as int) =~= v@);
}

/// Appends the bytes of each value in turn.
fn push_u32s(out: &mut Vec<u8>, v: &[u32], order: ByteOrder)
    ensures
        final(out)@ == old(out)@ + u32s_bytes(order, v@),
{
    let ghost start = out@;
    let mut i: usize = 0;
    while i < v.len()
        invariant
            i <= v@.len(),
            out@ == start + u32s_bytes(order, v@.take(i as int)),
        decreases v@.len() - i,
    {
        push_u32(out, v[i], order);
        proof {
            assert(v@.take(i + 1).drop_last() =~= v@.take(i as int));
            assert(out@ =~= start + u32s_bytes(order, v@.take(i + 1)));
        }
        i = i + 1;
    }
    assert(v@.take(v@.len() as int) =~= v@);
}

/// Appends bytes.
fn push_bytes(out: &mut Vec<u8>, v: &[u8])
    ensures
        final(out)@ == old(out)@ + v@,
{
    let ghost start = out@;
    let mut i: usize = 0;
    while i < v.len()
        invariant
            i <= v@.len(),
            out@ == start + v@.take(i as int),
        decreases v@.len() - i,
    {
        out.push(v[i]);
        i = i + 1;
        assert(out@ =~= start + v@.take(i as int));
    }
    assert(v@.take(v@.len() as int) =~= v@);
}

/// Reads `n` values from `start` on.
fn read_u16s(bytes: &[u8], start: usize, n: usize, order: ByteOrder) -> (r: Vec<u16>)
    requires
        start + 2 * n <= bytes@.len(),
    ensures
        r@ == u16s_at(bytes@, order, start as int, n as nat),
{
    let len = bytes.len();
    let mut v: Vec<u16> = Vec::new();
    let mut i: usize = 0;
    while i < n
        invariant
            i <= n,
            len == bytes@.len(),
            start + 2 * n <= bytes@.len(),
            v@ == u16s_at(bytes@, order, start as int, i as nat),
        decreases n - i,
    {
        v.push(read_u16(bytes, start + 2 * i, order));
        i = i + 1;
        assert(v@ =~= u16s_at(bytes@, order, start as int, i as nat));
    }
    v
}

/// A copy of `bytes[start..end]`.
fn copy_range(bytes: &[u8], start: usize, end: usize) -> (r: Vec<u8>)
    requires
        start <= end <= bytes@.len(),
    ensures
        r@ == bytes@.subrange(start as int, end as int),
{
    let mut v: Vec<u8> = Vec::new();
    let mut i: usize = start;
    while i < end
        invariant
            start <= i <= end,
            end <= bytes@.len(),
            v@ == bytes@.subrange(start as int, i as int),
        decreases end - i,
    {
        v.push(bytes[i]);
        i = i + 1;
        assert(v@ =~= bytes@.subrange(start as int, i as int));
    }
    v
}

impl ProfileGainTableMap {
    /// Reads the 64-byte header: the dimensions, the grid placement and the input weights.
    fn read_header(bytes: &[u8], order: ByteOrder) -> (r: (u32, u32, u64, u64, u64, u64, u32, [u32; 5]))
        requires
            bytes@.len() >= 64,
        ensures
            ({
                let m = with_header(bytes@, order, 0, 0, 0, GainModel::U8(Seq::empty()));
                r.0 == m.points_v && r.1 == m.points_h && r.2 == m.spacing_v && r.3 == m.spacing_h
                    && r.4 == m.origin_v && r.5 == m.origin_h && r.6 == m.points_n && r.7@
                    == m.input_weights
            }),
    {
        let weights: [u32; 5] = [
            read_u32(bytes, 44, order),
            read_u32(bytes, 48, order),
            read_u32(bytes, 52, order),
            read_u32(bytes, 56, order),
            read_u32(bytes, 60, order),
        ];
        assert(weights@ =~= u32s_at(bytes@, order, 44, 5));
        (
            read_u32(bytes, 0, order),
            read_u32(bytes, 4, order),
            read_u64(bytes, 8, order),
            read_u64(bytes, 16, order),
            read_u64(bytes, 24, order),
            read_u64(bytes, 32, order),
            read_u32(bytes, 40, order),
            weights,
        )
    }

    /// Parses a `ProfileGainTableMap` payload: the 64-byte header, then binary32 gains, in the
    /// file's byte order.
    ///
    /// Fails with [`Error::InvalidInput`] if the payload is shorter than the header, a dimension
    /// is zero or the entry count overflows, the size disagrees with the dimensions, or a gain
    /// is negative or not finite.
    pub fn parse_v1(bytes: &[u8], order: ByteOrder) -> (r: Result<Self>)
        ensures
            match v1_refusal(bytes@, order) {
                None => r matches Ok(m) && m@ == v1_model(bytes@, order),
                Some(msg) => r == Err::<Self, Error>(Error::InvalidInput(msg)),
            },
    {
        if bytes.len() < 64 {
            return Err(Error::InvalidInput(MSG_GAIN_TRUNCATED));
        }
        let (points_v, points_h, spacing_v, spacing_h, origin_v, origin_h, points_n, input_weights) =
            Self::read_header(bytes, order);
        let count = match table_count(points_v, points_h, points_n) {
            Ok(n) => n,
            Err(e) => return Err(e),
        };
        if count > (usize::MAX - 64) / 4 || bytes.len() != 64 + 4 * count {
            return Err(Error::InvalidInput(MSG_V1_LENGTH));
        }
        let len = bytes.len();
        let mut gains: Vec<u32> = Vec::new();
        let mut i: usize = 0;
        while i < count
            invariant
                i <= count,
                len == bytes@.len(),
                stored_dims_refusal(bytes@, order) is None,
                count == stored_count(bytes@, order),
                bytes@.len() == 64 + 4 * count,
                gains@ == u32s_at(bytes@, order, 64, i as nat),
                forall|k: int| 0 <= k < i ==> v1_gain_ok(#[trigger] u32_at(bytes@, order, 64 + 4 * k)),
            decreases count - i,
        {
            let g = read_u32(bytes, 64 + 4 * i, order);
            if !is_finite_bits(g) || g > 0x8000_0000 {
                proof {
                    assert(!v1_gain_ok(u32_at(bytes@, order, 64 + 4 * (i as int))));
                }
                return Err(Error::InvalidInput(MSG_V1_GAINS));
            }
            gains.push(g);
            i = i + 1;
            assert(gains@ =~= u32s_at(bytes@, order, 64, i as nat));
        }
        Ok(
            ProfileGainTableMap {
                points_v,
                points_h,
                spacing_v,
                spacing_h,
                origin_v,
                origin_h,
                points_n,
                input_weights,
                gamma: F32_ONE,
                gain_min: 0,
                gain_max: 0,
                gains: GainValues::F32(gains),
            },
        )
    }

    /// Parses a `ProfileGainTableMap2` payload: the 80-byte header, then gains in the declared
    /// `DataType`, in the file's byte order.
    ///
    /// Fails with [`Error::InvalidInput`] if the payload is shorter than its fixed fields,
    /// `Gamma` lies outside `0.25 ..= 4.0`, a dimension is zero or the entry count overflows,
    /// `DataType` is unknown, the size disagrees with the header, or a float gain is not finite.
    pub fn parse_v2(bytes: &[u8], order: ByteOrder) -> (r: Result<Self>)
        ensures
            match v2_refusal(bytes@, order) {
                None => r matches Ok(m) && m@ == v2_model(bytes@, order),
                Some(msg) => r == Err::<Self, Error>(Error::InvalidInput(msg)),
            },
    {
        if bytes.len() < 80 {
            return Err(Error::InvalidInput(MSG_GAIN_TRUNCATED));
        }
        let (points_v, points_h, spacing_v, spacing_h, origin_v, origin_h, points_n, input_weights) =
            Self::read_header(bytes, order);
        let data_type = read_u32(bytes, 64, order);
        let gamma = read_u32(bytes, 68, order);
        let gain_min = read_u32(bytes, 72, order);
        let gain_max = read_u32(bytes, 76, order);
        if !(0x3E80_0000 <= gamma && gamma <= 0x4080_0000) {
            return Err(Error::InvalidInput(MSG_GAMMA));
        }
        let count = match table_count(points_v, points_h, points_n) {
            Ok(n) => n,
            Err(e) => return Err(e),
        };
        let entry: usize = if data_type == 0 {
            1
        } else if data_type == 1 || data_type == 2 {
            2
        } else if data_type == 3 {
            4
        } else {
            return Err(Error::InvalidInput(MSG_DATA_TYPE));
        };
        let cap = (usize::MAX - 80) / entry;
        proof {
            vstd::arithmetic::div_mod::lemma_fundamental_div_mod((usize::MAX - 80) as int, entry as int);
            vstd::arithmetic::div_mod::lemma_mod_bound((usize::MAX - 80) as int, entry as int);
        }
        if count > cap || bytes.len() != 80 + entry * count {
            proof {
                if count > cap {
                    assert(entry * count > usize::MAX - 80) by (nonlinear_arith)
                        requires
                            count >= cap + 1,
                            usize::MAX - 80 == entry * cap + (usize::MAX - 80) % (entry as int),
                            (usize::MAX - 80) % (entry as int) < entry,
                            entry >= 1,
                    ;
                }
            }
            return Err(Error::InvalidInput(MSG_V2_LENGTH));
        }
        proof {
            assert(entry * count <= usize::MAX - 80) by (nonlinear_arith)
                requires
                    count <= cap,
                    usize::MAX - 80 == entry * cap + (usize::MAX - 80) % (entry as int),
                    0 <= (usize::MAX - 80) % (entry as int),
                    entry >= 1,
            ;
        }
        let gains = if data_type == 0 {
            GainValues::U8(copy_range(bytes, 80, bytes.len()))
        } else if data_type == 1 {
            GainValues::U16(read_u16s(bytes, 80, count, order))
        } else if data_type == 2 {
            GainValues::F16(read_u16s(bytes, 80, count, order))
        } else {
            let len = bytes.len();
            let mut v: Vec<u32> = Vec::new();
            let mut i: usize = 0;
            while i < count
                invariant
                    i <= count,
                    len == bytes@.len(),
                    stored_dims_refusal(bytes@, order) is None,
                    gamma_in_range(u32_at(bytes@, order, 68)),
                    u32_at(bytes@, order, 64) == 3,
                    count == stored_count(bytes@, order),
                    bytes@.len() == 80 + 4 * count,
                    v@ == u32s_at(bytes@, order, 80, i as nat),
                    forall|k: int| 0 <= k < i ==> f32_finite(#[trigger] u32_at(bytes@, order, 80 + 4 * k)),
                decreases count - i,
            {
                let g = read_u32(bytes, 80 + 4 * i, order);
                if !is_finite_bits(g) {
                    proof {
                        assert(!f32_finite(u32_at(bytes@, order, 80 + 4 * (i as int))));
                    }
                    return Err(Error::InvalidInput(MSG_V2_GAINS));
                }
                v.push(g);
                i = i + 1;
                assert(v@ =~= u32s_at(bytes@, order, 80, i as nat));
            }
            GainValues::F32(v)
        };
        Ok(
            ProfileGainTableMap {
                points_v,
                points_h,
                spacing_v,
                spacing_h,
                origin_v,
                origin_h,
                points_n,
                input_weights,
                gamma,
                gain_min,
                gain_max,
                gains,
            },
        )
    }

    /// Appends the 64-byte header.
    fn write_header(&self, out: &mut Vec<u8>, order: ByteOrder)
        ensures
            final(out)@ == old(out)@ + header_bytes(order, self@),
    {
        let ghost start = out@;
        push_u32(out, self.points_v, order);
        push_u32(out, self.points_h, order);
        push_u64(out, self.spacing_v, order);
        push_u64(out, self.spacing_h, order);
        push_u64(out, self.origin_v, order);
        push_u64(out, self.origin_h, order);
        push_u32(out, self.points_n, order);
        push_u32s(out, &self.input_weights, order);
        proof {
            reveal(header_bytes);
        }
        assert(out@ =~= start + header_bytes(order, self@));
    }

    /// Serialises as a `ProfileGainTableMap` payload in `order`; byte-exact for a map parsed
    /// with [`Self::parse_v1`].
    ///
    /// Fails with [`Error::InvalidInput`] if the gains are not the binary32 values v1 stores,
    /// the gamma is not the 1.0 v1 implies, a dimension is zero or the entry count overflows, or
    /// the gain count disagrees with the dimensions.
    pub fn to_bytes_v1(&self, order: ByteOrder) -> (r: Result<Vec<u8>>)
        ensures
            match v1_write_refusal(self@) {
                None => r matches Ok(b) && b@ == v1_bytes(order, self@),
                Some(msg) => r == Err::<Vec<u8>, Error>(Error::InvalidInput(msg)),
            },
    {
        let gains = match &self.gains {
            GainValues::F32(g) => g,
            _ => return Err(Error::InvalidInput(MSG_V1_F32_ONLY)),
        };
        if self.gamma != F32_ONE {
            return Err(Error::InvalidInput(MSG_V1_GAMMA));
        }
        let count = match table_count(self.points_v, self.points_h, self.points_n) {
            Ok(n) => n,
            Err(e) => return Err(e),
        };
        if gains.len() != count {
            return Err(Error::InvalidInput(MSG_GAIN_COUNT));
        }
        let mut out: Vec<u8> = Vec::new();
        self.write_header(&mut out, order);
        push_u32s(&mut out, gains.as_slice(), order);
        Ok(out)
    }

    /// Serialises as a `ProfileGainTableMap2` payload in `order`; byte-exact for a map parsed
    /// with [`Self::parse_v2`].
    ///
    /// Fails with [`Error::InvalidInput`] if `gamma` lies outside `0.25 ..= 4.0`, a dimension is
    /// zero or the entry count overflows, or the gain count disagrees with the dimensions.
    pub fn to_bytes_v2(&self, order: ByteOrder) -> (r: Result<Vec<u8>>)
        ensures
            match v2_write_refusal(self@) {
                None => r matches Ok(b) && b@ == v2_bytes(order, self@),
                Some(msg) => r == Err::<Vec<u8>, Error>(Error::InvalidInput(msg)),
            },
    {
        if !(0x3E80_0000 <= self.gamma && self.gamma <= 0x4080_0000) {
            return Err(Error::InvalidInput(MSG_GAMMA));
        }
        let count = match table_count(self.points_v, self.points_h, self.points_n) {
            Ok(n) => n,
            Err(e) => return Err(e),
        };
        if self.gains.len() != count {
            return Err(Error::InvalidInput(MSG_GAIN_COUNT));
        }
        let mut out: Vec<u8> = Vec::new();
        self.write_header(&mut out, order);
        push_u32(&mut out, self.gains.data_type(), order);
        push_u32(&mut out, self.gamma, order);
        push_u32(&mut out, self.gain_min, order);
        push_u32(&mut out, self.gain_max, order);
        match &self.gains {
            GainValues::U8(v) => push_bytes(&mut out, v.as_slice()),
            GainValues::U16(v) => push_u16s(&mut out, v.as_slice(), order),
            GainValues::F16(v) => push_u16s(&mut out, v.as_slice(), order),
            GainValues::F32(v) => push_u32s(&mut out, v.as_slice(), order),
        }
        Ok(out)
    }
}

/// The header is 64 bytes.
proof fn lemma_header_len(order: ByteOrder, m: GainMapModel)
    requires
        m.input_weights.len() == 5,
    ensures
        header_bytes(order, m).len() == 64,
{
    reveal(header_bytes);
    lemma_u32s_len(order, m.input_weights);
}

/// A header read from bytes writes back as those bytes.
proof fn lemma_header_read(
    b: Seq<u8>,
    order: ByteOrder,
    gamma: u32,
    gain_min: u32,
    gain_max: u32,
    gains: GainModel,
)
    requires
        b.len() >= 64,
    ensures
        header_bytes(order, with_header(b, order, gamma, gain_min, gain_max, gains)) == b.subrange(
            0,
            64,
        ),
{
    reveal(header_bytes);
    let m = with_header(b, order, gamma, gain_min, gain_max, gains);
    lemma_u32(b, order, 0, m.points_v);
    lemma_u32(b, order, 4, m.points_h);
    lemma_u64(b, order, 8, m.spacing_v);
    lemma_u64(b, order, 16, m.spacing_h);
    lemma_u64(b, order, 24, m.origin_v);
    lemma_u64(b, order, 32, m.origin_h);
    lemma_u32(b, order, 40, m.points_n);
    lemma_u32s(b, order, 44, m.input_weights);
    assert(b.subrange(0, 64) =~= b.subrange(0, 4) + b.subrange(4, 8) + b.subrange(8, 16)
        + b.subrange(16, 24) + b.subrange(24, 32) + b.subrange(32, 40) + b.subrange(40, 44)
        + b.subrange(44, 64));
}

/// Where each header field sits.
#[verifier::spinoff_prover]
proof fn lemma_header_pieces(order: ByteOrder, m: GainMapModel)
    requires
        m.input_weights.len() == 5,
    ensures
        header_bytes(order, m).subrange(0, 4) == u32_bytes(order, m.points_v),
        header_bytes(order, m).subrange(4, 8) == u32_bytes(order, m.points_h),
        header_bytes(order, m).subrange(8, 16) == u64_bytes(order, m.spacing_v),
        header_bytes(order, m).subrange(16, 24) == u64_bytes(order, m.spacing_h),
        header_bytes(order, m).subrange(24, 32) == u64_bytes(order, m.origin_v),
        header_bytes(order, m).subrange(32, 40) == u64_bytes(order, m.origin_h),
        header_bytes(order, m).subrange(40, 44) == u32_bytes(order, m.points_n),
        header_bytes(order, m).subrange(44, 64) == u32s_bytes(order, m.input_weights),
{
    reveal(header_bytes);
    lemma_u32s_len(order, m.input_weights);
    let a0 = u32_bytes(order, m.points_v);
    let a1 = u32_bytes(order, m.points_h);
    let a2 = u64_bytes(order, m.spacing_v);
    let a3 = u64_bytes(order, m.spacing_h);
    let a4 = u64_bytes(order, m.origin_v);
    let a5 = u64_bytes(order, m.origin_h);
    let a6 = u32_bytes(order, m.points_n);
    let a7 = u32s_bytes(order, m.input_weights);
    let p1 = a0 + a1;
    let p2 = p1 + a2;
    let p3 = p2 + a3;
    let p4 = p3 + a4;
    let p5 = p4 + a5;
    let p6 = p5 + a6;
    let h = p6 + a7;
    assert(h == header_bytes(order, m));
    assert(h.subrange(44, 64) =~= a7);
    assert(h.subrange(40, 44) =~= p6.subrange(40, 44));
    assert(p6.subrange(40, 44) =~= a6);
    assert(h.subrange(32, 40) =~= p5.subrange(32, 40));
    assert(p5.subrange(32, 40) =~= a5);
    assert(h.subrange(24, 32) =~= p4.subrange(24, 32));
    assert(p4.subrange(24, 32) =~= a4);
    assert(h.subrange(16, 24) =~= p3.subrange(16, 24));
    assert(p3.subrange(16, 24) =~= a3);
    assert(h.subrange(8, 16) =~= p2.subrange(8, 16));
    assert(p2.subrange(8, 16) =~= a2);
    assert(h.subrange(4, 8) =~= p1.subrange(4, 8));
    assert(p1.subrange(4, 8) =~= a1);
    assert(h.subrange(0, 4) =~= p1.subrange(0, 4));
    assert(p1.subrange(0, 4) =~= a0);
}

/// Bytes that begin with a map's header read back as that header.
proof fn lemma_header_written(b: Seq<u8>, order: ByteOrder, m: GainMapModel)
    requires
        b.len() >= 64,
        m.input_weights.len() == 5,
        b.subrange(0, 64) == header_bytes(order, m),
    ensures
        with_header(b, order, m.gamma, m.gain_min, m.gain_max, m.gains) == m,
{
    lemma_header_pieces(order, m);
    let h = header_bytes(order, m);
    assert(b.subrange(0, 4) =~= h.subrange(0, 4));
    assert(b.subrange(4, 8) =~= h.subrange(4, 8));
    assert(b.subrange(8, 16) =~= h.subrange(8, 16));
    assert(b.subrange(16, 24) =~= h.subrange(16, 24));
    assert(b.subrange(24, 32) =~= h.subrange(24, 32));
    assert(b.subrange(32, 40) =~= h.subrange(32, 40));
    assert(b.subrange(40, 44) =~= h.subrange(40, 44));
    assert(b.subrange(44, 64) =~= h.subrange(44, 64));
    lemma_u32(b, order, 0, m.points_v);
    lemma_u32(b, order, 4, m.points_h);
    lemma_u64(b, order, 8, m.spacing_v);
    lemma_u64(b, order, 16, m.spacing_h);
    lemma_u64(b, order, 24, m.origin_v);
    lemma_u64(b, order, 32, m.origin_h);
    lemma_u32(b, order, 40, m.points_n);
    lemma_u32s(b, order, 44, m.input_weights);
}

/// A parsed `ProfileGainTableMap` is one [`ProfileGainTableMap::to_bytes_v1`] accepts, and it
/// serialises back to exactly the bytes it was parsed from.
pub proof fn law_v1_serialises_back(b: Seq<u8>, order: ByteOrder)
    requires
        v1_refusal(b, order) is None,
    ensures
        v1_write_refusal(v1_model(b, order)) is None,
        v1_bytes(order, v1_model(b, order)) == b,
{
    let m = v1_model(b, order);
    let n = stored_count(b, order);
    lemma_header_read(b, order, F32_ONE, 0, 0, m.gains);
    lemma_u32s(b, order, 64, u32s_at(b, order, 64, n));
    assert(b =~= b.subrange(0, 64) + b.subrange(64, 64 + 4 * (n as int)));
}

/// A map serialised with [`ProfileGainTableMap::to_bytes_v1`] parses back to itself, when it
/// holds only what v1 stores: no gain range (`GainMin` and `GainMax` zero), and gains that are
/// finite and not below zero.
pub proof fn law_v1_parses_back(m: GainMapModel, order: ByteOrder)
    requires
        v1_write_refusal(m) is None,
        m.input_weights.len() == 5,
        m.gain_min == 0,
        m.gain_max == 0,
        match m.gains {
            GainModel::F32(g) => forall|i: int| 0 <= i < g.len() ==> v1_gain_ok(#[trigger] g[i]),
            _ => true,
        },
    ensures
        v1_refusal(v1_bytes(order, m), order) is None,
        v1_model(v1_bytes(order, m), order) == m,
{
    let g = match m.gains {
        GainModel::F32(g) => g,
        _ => Seq::empty(),
    };
    let b = v1_bytes(order, m);
    let n = g.len();
    lemma_header_len(order, m);
    lemma_u32s_len(order, g);
    assert(b.subrange(0, 64) =~= header_bytes(order, m));
    lemma_header_written(b, order, m);
    assert(stored_count(b, order) == n);
    assert(b.subrange(64, 64 + 4 * (n as int)) =~= u32s_bytes(order, g));
    lemma_u32s(b, order, 64, g);
    assert forall|i: int| 0 <= i < n implies v1_gain_ok(#[trigger] u32_at(b, order, 64 + 4 * i)) by {
        assert(u32s_at(b, order, 64, n)[i] == u32_at(b, order, 64 + 4 * i));
    }
    assert(v1_model(b, order) == with_header(b, order, m.gamma, m.gain_min, m.gain_max, m.gains));
}

/// A parsed `ProfileGainTableMap2` is one [`ProfileGainTableMap::to_bytes_v2`] accepts, and it
/// serialises back to exactly the bytes it was parsed from.
#[verifier::spinoff_prover]
pub proof fn law_v2_serialises_back(b: Seq<u8>, order: ByteOrder)
    requires
        v2_refusal(b, order) is None,
    ensures
        v2_write_refusal(v2_model(b, order)) is None,
        v2_bytes(order, v2_model(b, order)) == b,
{
    let m = v2_model(b, order);
    let n = stored_count(b, order);
    let dt = u32_at(b, order, 64);
    lemma_header_read(b, order, m.gamma, m.gain_min, m.gain_max, m.gains);
    lemma_u32(b, order, 64, dt);
    lemma_u32(b, order, 68, m.gamma);
    lemma_u32(b, order, 72, m.gain_min);
    lemma_u32(b, order, 76, m.gain_max);
    assert(data_type_of(m.gains) == dt);
    if dt == 1 || dt == 2 {
        lemma_u16s(b, order, 80, u16s_at(b, order, 80, n));
    } else if dt == 3 {
        lemma_u32s(b, order, 80, u32s_at(b, order, 80, n));
    }
    assert(gain_bytes(order, m.gains) == b.subrange(80, b.len() as int));
    assert(b =~= b.subrange(0, 64) + b.subrange(64, 68) + b.subrange(68, 72) + b.subrange(72, 76)
        + b.subrange(76, 80) + b.subrange(80, b.len() as int));
}

/// The fields a v2 payload has before its gains.
pub open spec fn v2_fixed_bytes(order: ByteOrder, m: GainMapModel) -> Seq<u8> {
    header_bytes(order, m) + u32_bytes(order, data_type_of(m.gains)) + u32_bytes(order, m.gamma)
        + u32_bytes(order, m.gain_min) + u32_bytes(order, m.gain_max)
}

/// Where each fixed v2 field sits.
#[verifier::spinoff_prover]
proof fn lemma_v2_fixed_pieces(order: ByteOrder, m: GainMapModel)
    requires
        m.input_weights.len() == 5,
    ensures
        v2_fixed_bytes(order, m).len() == 80,
        v2_fixed_bytes(order, m).subrange(0, 64) == header_bytes(order, m),
        v2_fixed_bytes(order, m).subrange(64, 68) == u32_bytes(order, data_type_of(m.gains)),
        v2_fixed_bytes(order, m).subrange(68, 72) == u32_bytes(order, m.gamma),
        v2_fixed_bytes(order, m).subrange(72, 76) == u32_bytes(order, m.gain_min),
        v2_fixed_bytes(order, m).subrange(76, 80) == u32_bytes(order, m.gain_max),
{
    lemma_header_len(order, m);
    let h = header_bytes(order, m);
    let a = u32_bytes(order, data_type_of(m.gains));
    let g = u32_bytes(order, m.gamma);
    let lo = u32_bytes(order, m.gain_min);
    let hi = u32_bytes(order, m.gain_max);
    assert(a.len() == 4 && g.len() == 4 && lo.len() == 4 && hi.len() == 4);
    let p1 = h + a;
    let p2 = p1 + g;
    let p3 = p2 + lo;
    let f = p3 + hi;
    assert(f == v2_fixed_bytes(order, m));
    lemma_split(p3, hi);
    lemma_split(p2, lo);
    lemma_split(p1, g);
    lemma_split(h, a);
    lemma_sub_of_prefix(f, 76, 72, 76);
    lemma_sub_of_prefix(f, 76, 0, 72);
    lemma_sub_of_prefix(f, 72, 68, 72);
    lemma_sub_of_prefix(f, 72, 0, 68);
    lemma_sub_of_prefix(f, 68, 64, 68);
    lemma_sub_of_prefix(f, 68, 0, 64);
    assert(f.subrange(0, 72) =~= p2);
    assert(f.subrange(0, 68) =~= p1);
}

/// The fixed fields of a v2 payload read back as the map's, and its gains follow them.
#[verifier::spinoff_prover]
proof fn lemma_v2_fixed(m: GainMapModel, order: ByteOrder)
    requires
        m.input_weights.len() == 5,
    ensures
        ({
            let b = v2_bytes(order, m);
            &&& b.len() == 80 + gain_bytes(order, m.gains).len()
            &&& with_header(b, order, m.gamma, m.gain_min, m.gain_max, m.gains) == m
            &&& u32_at(b, order, 64) == data_type_of(m.gains)
            &&& u32_at(b, order, 68) == m.gamma
            &&& u32_at(b, order, 72) == m.gain_min
            &&& u32_at(b, order, 76) == m.gain_max
            &&& b.subrange(80, b.len() as int) == gain_bytes(order, m.gains)
        }),
{
    let b = v2_bytes(order, m);
    let f = v2_fixed_bytes(order, m);
    let gb = gain_bytes(order, m.gains);
    lemma_v2_fixed_pieces(order, m);
    assert(b == f + gb);
    assert(b.subrange(0, 80) =~= f);
    assert(b.subrange(80, b.len() as int) =~= gb);
    assert(b.subrange(0, 64) =~= f.subrange(0, 64));
    assert(b.subrange(64, 68) =~= f.subrange(64, 68));
    assert(b.subrange(68, 72) =~= f.subrange(68, 72));
    assert(b.subrange(72, 76) =~= f.subrange(72, 76));
    assert(b.subrange(76, 80) =~= f.subrange(76, 80));
    lemma_header_written(b, order, m);
    lemma_u32(b, order, 64, data_type_of(m.gains));
    lemma_u32(b, order, 68, m.gamma);
    lemma_u32(b, order, 72, m.gain_min);
    lemma_u32(b, order, 76, m.gain_max);
}

/// Gains stored from byte 80 on read back as themselves.
#[verifier::spinoff_prover]
proof fn lemma_v2_gains_back(b: Seq<u8>, order: ByteOrder, g: GainModel)
    requires
        b.len() >= 80,
        b.subrange(80, b.len() as int) == gain_bytes(order, g),
    ensures
        b.len() == 80 + entry_size(data_type_of(g)) * gain_len(g),
        v2_gains(b, order, data_type_of(g), gain_len(g)) == g,
        match g {
            GainModel::F32(v) => forall|i: int|
                0 <= i < v.len() ==> #[trigger] u32_at(b, order, 80 + 4 * i) == v[i],
            _ => true,
        },
{
    let n = gain_len(g);
    match g {
        GainModel::U8(v) => {
            assert(b.subrange(80, 80 + n as int) =~= v);
        },
        GainModel::U16(v) => {
            lemma_u16s_len(order, v);
            assert(b.subrange(80, 80 + 2 * (n as int)) =~= u16s_bytes(order, v));
            lemma_u16s(b, order, 80, v);
        },
        GainModel::F16(v) => {
            lemma_u16s_len(order, v);
            assert(b.subrange(80, 80 + 2 * (n as int)) =~= u16s_bytes(order, v));
            lemma_u16s(b, order, 80, v);
        },
        GainModel::F32(v) => {
            lemma_u32s_len(order, v);
            assert(b.subrange(80, 80 + 4 * (n as int)) =~= u32s_bytes(order, v));
            lemma_u32s(b, order, 80, v);
            assert forall|i: int| 0 <= i < v.len() implies #[trigger] u32_at(b, order, 80 + 4 * i)
                == v[i] by {
                assert(u32s_at(b, order, 80, n)[i] == u32_at(b, order, 80 + 4 * i));
            }
        },
    }
}

/// A map serialised with [`ProfileGainTableMap::to_bytes_v2`] parses back to itself, when its
/// float gains, if any, are finite.
pub proof fn law_v2_parses_back(m: GainMapModel, order: ByteOrder)
    requires
        v2_write_refusal(m) is None,
        m.input_weights.len() == 5,
        match m.gains {
            GainModel::F32(g) => forall|i: int| 0 <= i < g.len() ==> f32_finite(#[trigger] g[i]),
            _ => true,
        },
    ensures
        v2_refusal(v2_bytes(order, m), order) is None,
        v2_model(v2_bytes(order, m), order) == m,
{
    let b = v2_bytes(order, m);
    lemma_v2_fixed(m, order);
    lemma_v2_gains_back(b, order, m.gains);
    assert(stored_count(b, order) == gain_len(m.gains));
    if let GainModel::F32(v) = m.gains {
        assert forall|i: int| 0 <= i < stored_count(b, order) implies f32_finite(
            #[trigger] u32_at(b, order, 80 + 4 * i),
        ) by {
            assert(u32_at(b, order, 80 + 4 * i) == v[i]);
        }
    }
    assert(v2_model(b, order) == with_header(b, order, m.gamma, m.gain_min, m.gain_max, m.gains));
}

} // verus!

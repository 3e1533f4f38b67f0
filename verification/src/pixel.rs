//! Compile-time pixel vocabulary: the [`Sample`] storage primitives, the [`ColorModel`] tag, the
//! runtime [`PixelFormat`] tag, and the [`Pixel`] trait with one zero-sized marker per supported
//! interleaved layout. Both traits are sealed: only `u8` and `u16` are samples, and only the
//! markers here are pixels.
use vstd::prelude::*;

mod sample_sealed;
mod pixel_sealed;

verus! {

/// `v` widened from its `bits`-bit storage onto the full 16-bit scale: an 8-bit value is
/// replicated into both bytes (`v * 257`, PNG §13.12), a 16-bit value is already full range.
pub open spec fn widen(bits: nat, v: nat) -> nat {
    if bits == 8 {
        v * 257
    } else {
        v
    }
}

/// A full-range 16-bit value rescaled to `bits`-bit storage, rounding to nearest: the exact
/// inverse of [`widen`] (`round(v / 257)` for 8-bit storage).
pub open spec fn narrow(bits: nat, v: nat) -> nat {
    if bits == 8 {
        (v + 128) / 257
    } else {
        v
    }
}

/// The largest value of `bits`-bit storage.
pub open spec fn storage_max(bits: nat) -> nat {
    if bits == 8 {
        255
    } else {
        65535
    }
}

/// A pixel-sample storage primitive: `u8` (8-bit) or `u16` (high-bit-depth).
pub trait Sample: sample_sealed::Sealed + Copy + core::fmt::Debug + 'static {
    /// The storage width in bits (8 or 16).
    spec fn spec_bits() -> nat;

    /// The sample's integer value.
    spec fn spec_value(self) -> nat;

    /// The sample's integer value (the storage width is 8 or 16 bits and the value fits in it).
    proof fn lemma_range(s: Self)
        ensures
            Self::spec_bits() == 8 || Self::spec_bits() == 16,
            s.spec_value() <= storage_max(Self::spec_bits()),
    ;

    /// The storage width is 8 or 16 bits.
    proof fn lemma_bits()
        ensures
            Self::spec_bits() == 8 || Self::spec_bits() == 16,
    ;

    /// Two samples with the same value are the same sample.
    proof fn lemma_value_injective(a: Self, b: Self)
        ensures
            a.spec_value() == b.spec_value() ==> a == b,
    ;

    /// The storage width in bits.
    fn storage_bits() -> (r: usize)
        ensures
            r as nat == Self::spec_bits(),
    ;

    /// Whether two samples hold the same value.
    fn same_value(self, other: Self) -> (r: bool)
        ensures
            r == (self.spec_value() == other.spec_value()),
    ;

    /// Widens onto the full 16-bit scale.
    fn to_full_range_u16(self) -> (r: u16)
        ensures
            r as nat == widen(Self::spec_bits(), self.spec_value()),
    ;

    /// Rescales a full-range value into this storage width, rounding to nearest.
    fn from_full_range_u16(v: u16) -> (r: Self)
        ensures
            r.spec_value() == narrow(Self::spec_bits(), v as nat),
    ;

    /// The zero sample.
    fn zero() -> (r: Self)
        ensures
            r.spec_value() == 0,
    ;

    /// The largest sample.
    fn max_value() -> (r: Self)
        ensures
            r.spec_value() == storage_max(Self::spec_bits()),
    ;

    /// Whether the sample is zero.
    fn is_zero(self) -> (r: bool)
        ensures
            r == (self.spec_value() == 0),
    ;
}

impl Sample for u8 {
    open spec fn spec_bits() -> nat {
        8
    }

    fn storage_bits() -> (r: usize) {
        8
    }

    fn same_value(self, other: Self) -> (r: bool) {
        self == other
    }

    open spec fn spec_value(self) -> nat {
        self as nat
    }

    proof fn lemma_range(s: Self) {
    }

    proof fn lemma_value_injective(a: Self, b: Self) {
    }

    proof fn lemma_bits() {
    }

    fn to_full_range_u16(self) -> (r: u16) {
        (self as u16) * 257
    }

    fn from_full_range_u16(v: u16) -> (r: Self) {
        (((v as u32) + 128) / 257) as u8
    }

    fn zero() -> (r: Self) {
        0
    }

    fn max_value() -> (r: Self) {
        255
    }

    fn is_zero(self) -> (r: bool) {
        self == 0
    }
}

impl Sample for u16 {
    open spec fn spec_bits() -> nat {
        16
    }

    fn storage_bits() -> (r: usize) {
        16
    }

    fn same_value(self, other: Self) -> (r: bool) {
        self == other
    }

    open spec fn spec_value(self) -> nat {
        self as nat
    }

    proof fn lemma_range(s: Self) {
    }

    proof fn lemma_value_injective(a: Self, b: Self) {
    }

    proof fn lemma_bits() {
    }

    fn to_full_range_u16(self) -> (r: u16) {
        self
    }

    fn from_full_range_u16(v: u16) -> (r: Self) {
        v
    }

    fn zero() -> (r: Self) {
        0
    }

    fn max_value() -> (r: Self) {
        65535
    }

    fn is_zero(self) -> (r: bool) {
        self == 0
    }
}

/// The colour interpretation of a pixel's channels.
#[derive(Debug, Clone, Copy, PartialEq, Eq, Hash, Structural)]
pub enum ColorModel {
    /// Single luminance channel.
    Gray,
    /// Luminance plus an alpha channel.
    GrayAlpha,
    /// Red, green, blue.
    Rgb,
    /// Red, green, blue, alpha (unassociated).
    Rgba,
    /// Cyan, magenta, yellow, black ink separations.
    Cmyk,
    /// One channel, `0` = black and any non-zero value = white.
    Bilevel,
    /// One channel of indices into a separate colour palette.
    Indexed,
}

/// Runtime tag for the closed set of [`Pixel`] marker types — one variant per marker.
#[derive(Debug, Clone, Copy, PartialEq, Eq, Hash, Structural)]
pub enum PixelFormat {
    /// Tag for [`Gray8`].
    Gray8,
    /// Tag for [`Bilevel`].
    Bilevel,
    /// Tag for [`Indexed8`].
    Indexed8,
    /// Tag for [`Rgb8`].
    Rgb8,
    /// Tag for [`Rgba8`].
    Rgba8,
    /// Tag for [`Cmyk8`].
    Cmyk8,
    /// Tag for [`GrayAlpha8`].
    GrayAlpha8,
    /// Tag for [`Gray16`].
    Gray16,
    /// Tag for [`Rgb16`].
    Rgb16,
    /// Tag for [`Rgba16`].
    Rgba16,
    /// Tag for [`GrayAlpha16`].
    GrayAlpha16,
}

impl PixelFormat {
    /// Every pixel format, in declaration order.
    pub const ALL: [PixelFormat; 11] = [
        PixelFormat::Gray8,
        PixelFormat::Bilevel,
        PixelFormat::Indexed8,
        PixelFormat::Rgb8,
        PixelFormat::Rgba8,
        PixelFormat::Cmyk8,
        PixelFormat::GrayAlpha8,
        PixelFormat::Gray16,
        PixelFormat::Rgb16,
        PixelFormat::Rgba16,
        PixelFormat::GrayAlpha16,
    ];

    /// Samples per pixel, as a spec value.
    pub open spec fn spec_channels(self) -> nat {
        match self {
            PixelFormat::Gray8 | PixelFormat::Bilevel | PixelFormat::Indexed8
            | PixelFormat::Gray16 => 1,
            PixelFormat::GrayAlpha8 | PixelFormat::GrayAlpha16 => 2,
            PixelFormat::Rgb8 | PixelFormat::Rgb16 => 3,
            PixelFormat::Rgba8 | PixelFormat::Cmyk8 | PixelFormat::Rgba16 => 4,
        }
    }

    /// The colour model, as a spec value.
    pub open spec fn spec_color_model(self) -> ColorModel {
        match self {
            PixelFormat::Gray8 | PixelFormat::Gray16 => ColorModel::Gray,
            PixelFormat::Bilevel => ColorModel::Bilevel,
            PixelFormat::Indexed8 => ColorModel::Indexed,
            PixelFormat::Rgb8 | PixelFormat::Rgb16 => ColorModel::Rgb,
            PixelFormat::Rgba8 | PixelFormat::Rgba16 => ColorModel::Rgba,
            PixelFormat::Cmyk8 => ColorModel::Cmyk,
            PixelFormat::GrayAlpha8 | PixelFormat::GrayAlpha16 => ColorModel::GrayAlpha,
        }
    }

    /// Bytes per sample, as a spec value.
    pub open spec fn spec_bytes_per_sample(self) -> nat {
        match self {
            PixelFormat::Gray16 | PixelFormat::Rgb16 | PixelFormat::Rgba16
            | PixelFormat::GrayAlpha16 => 2,
            _ => 1,
        }
    }

    /// Samples per pixel.
    pub fn channels(self) -> (r: usize)
        ensures
            r as nat == self.spec_channels(),
    {
        match self {
            PixelFormat::Gray8 | PixelFormat::Bilevel | PixelFormat::Indexed8
            | PixelFormat::Gray16 => 1,
            PixelFormat::GrayAlpha8 | PixelFormat::GrayAlpha16 => 2,
            PixelFormat::Rgb8 | PixelFormat::Rgb16 => 3,
            PixelFormat::Rgba8 | PixelFormat::Cmyk8 | PixelFormat::Rgba16 => 4,
        }
    }

    /// The colour interpretation of the samples.
    pub fn color_model(self) -> (r: ColorModel)
        ensures
            r == self.spec_color_model(),
    {
        match self {
            PixelFormat::Gray8 | PixelFormat::Gray16 => ColorModel::Gray,
            PixelFormat::Bilevel => ColorModel::Bilevel,
            PixelFormat::Indexed8 => ColorModel::Indexed,
            PixelFormat::Rgb8 | PixelFormat::Rgb16 => ColorModel::Rgb,
            PixelFormat::Rgba8 | PixelFormat::Rgba16 => ColorModel::Rgba,
            PixelFormat::Cmyk8 => ColorModel::Cmyk,
            PixelFormat::GrayAlpha8 | PixelFormat::GrayAlpha16 => ColorModel::GrayAlpha,
        }
    }

    /// Bytes per sample of the storage primitive (`1` for `u8` layouts, `2` for `u16`).
    pub fn bytes_per_sample(self) -> (r: usize)
        ensures
            r as nat == self.spec_bytes_per_sample(),
    {
        match self {
            PixelFormat::Gray16 | PixelFormat::Rgb16 | PixelFormat::Rgba16
            | PixelFormat::GrayAlpha16 => 2,
            _ => 1,
        }
    }

    /// Bytes one pixel occupies in an interleaved buffer.
    pub fn bytes_per_pixel(self) -> (r: usize)
        ensures
            r as nat == self.spec_channels() * self.spec_bytes_per_sample(),
    {
        self.channels() * self.bytes_per_sample()
    }
}

/// Compile-time description of one interleaved pixel layout, implemented by the zero-sized
/// marker types below.
pub trait Pixel: pixel_sealed::Sealed + Copy + core::fmt::Debug + 'static {
    /// The storage primitive of each sample (`u8` or `u16`).
    type Sample: Sample;

    /// The runtime tag identifying this layout.
    const FORMAT: PixelFormat;

    /// Samples per pixel.
    const CHANNELS: usize;

    /// The colour interpretation of those samples.
    const MODEL: ColorModel;

    /// Bytes one pixel occupies in an interleaved buffer.
    const BYTES_PER_PIXEL: usize;

    /// The constants agree with the runtime tag.
    proof fn lemma_layout()
        ensures
            Self::CHANNELS as nat == Self::FORMAT.spec_channels(),
            Self::MODEL == Self::FORMAT.spec_color_model(),
            Self::BYTES_PER_PIXEL as nat == Self::FORMAT.spec_channels()
                * Self::FORMAT.spec_bytes_per_sample(),
            <Self::Sample as Sample>::spec_bits() == 8 * Self::FORMAT.spec_bytes_per_sample(),
    ;
}

/// 8-bit grayscale: one luminance byte per pixel.
#[derive(Debug, Clone, Copy, PartialEq, Eq, Hash)]
pub struct Gray8;

/// 8-bit bilevel: one byte per pixel, `0` = black and non-zero = white.
#[derive(Debug, Clone, Copy, PartialEq, Eq, Hash)]
pub struct Bilevel;

/// 8-bit palette indices: one index byte per pixel into a separate colour table.
#[derive(Debug, Clone, Copy, PartialEq, Eq, Hash)]
pub struct Indexed8;

/// 8-bit RGB: three interleaved bytes per pixel, row-major.
#[derive(Debug, Clone, Copy, PartialEq, Eq, Hash)]
pub struct Rgb8;

/// 8-bit RGBA: four interleaved bytes per pixel (unassociated alpha).
#[derive(Debug, Clone, Copy, PartialEq, Eq, Hash)]
pub struct Rgba8;

/// 8-bit CMYK: four interleaved ink bytes per pixel.
#[derive(Debug, Clone, Copy, PartialEq, Eq, Hash)]
pub struct Cmyk8;

/// 8-bit grayscale + alpha: two interleaved bytes per pixel.
#[derive(Debug, Clone, Copy, PartialEq, Eq, Hash)]
pub struct GrayAlpha8;

/// 16-bit grayscale: one `u16` luminance sample per pixel.
#[derive(Debug, Clone, Copy, PartialEq, Eq, Hash)]
pub struct Gray16;

/// 16-bit RGB: three interleaved `u16` samples per pixel.
#[derive(Debug, Clone, Copy, PartialEq, Eq, Hash)]
pub struct Rgb16;

/// 16-bit RGBA: four interleaved `u16` samples per pixel.
#[derive(Debug, Clone, Copy, PartialEq, Eq, Hash)]
pub struct Rgba16;

/// 16-bit grayscale + alpha: two interleaved `u16` samples per pixel.
#[derive(Debug, Clone, Copy, PartialEq, Eq, Hash)]
pub struct GrayAlpha16;

impl pixel_sealed::Sealed for Gray8 {}

impl Pixel for Gray8 {
    type Sample = u8;

    const FORMAT: PixelFormat = PixelFormat::Gray8;

    const CHANNELS: usize = 1;

    const MODEL: ColorModel = ColorModel::Gray;

    const BYTES_PER_PIXEL: usize = 1;

    proof fn lemma_layout()
        ensures
            Self::FORMAT == PixelFormat::Gray8,
            Self::CHANNELS == 1,
    {
        assert(PixelFormat::Gray8.spec_bytes_per_sample() == 1);
    }
}

impl pixel_sealed::Sealed for Bilevel {}

impl Pixel for Bilevel {
    type Sample = u8;

    const FORMAT: PixelFormat = PixelFormat::Bilevel;

    const CHANNELS: usize = 1;

    const MODEL: ColorModel = ColorModel::Bilevel;

    const BYTES_PER_PIXEL: usize = 1;

    proof fn lemma_layout()
        ensures
            Self::FORMAT == PixelFormat::Bilevel,
            Self::CHANNELS == 1,
    {
        assert(PixelFormat::Bilevel.spec_bytes_per_sample() == 1);
    }
}

impl pixel_sealed::Sealed for Indexed8 {}

impl Pixel for Indexed8 {
    type Sample = u8;

    const FORMAT: PixelFormat = PixelFormat::Indexed8;

    const CHANNELS: usize = 1;

    const MODEL: ColorModel = ColorModel::Indexed;

    const BYTES_PER_PIXEL: usize = 1;

    proof fn lemma_layout()
        ensures
            Self::FORMAT == PixelFormat::Indexed8,
            Self::CHANNELS == 1,
    {
        assert(PixelFormat::Indexed8.spec_bytes_per_sample() == 1);
    }
}

impl pixel_sealed::Sealed for Rgb8 {}

impl Pixel for Rgb8 {
    type Sample = u8;

    const FORMAT: PixelFormat = PixelFormat::Rgb8;

    const CHANNELS: usize = 3;

    const MODEL: ColorModel = ColorModel::Rgb;

    const BYTES_PER_PIXEL: usize = 3;

    proof fn lemma_layout()
        ensures
            Self::FORMAT == PixelFormat::Rgb8,
            Self::CHANNELS == 3,
    {
        assert(PixelFormat::Rgb8.spec_bytes_per_sample() == 1);
    }
}

impl pixel_sealed::Sealed for Rgba8 {}

impl Pixel for Rgba8 {
    type Sample = u8;

    const FORMAT: PixelFormat = PixelFormat::Rgba8;

    const CHANNELS: usize = 4;

    const MODEL: ColorModel = ColorModel::Rgba;

    const BYTES_PER_PIXEL: usize = 4;

    proof fn lemma_layout()
        ensures
            Self::FORMAT == PixelFormat::Rgba8,
            Self::CHANNELS == 4,
    {
        assert(PixelFormat::Rgba8.spec_bytes_per_sample() == 1);
    }
}

impl pixel_sealed::Sealed for Cmyk8 {}

impl Pixel for Cmyk8 {
    type Sample = u8;

    const FORMAT: PixelFormat = PixelFormat::Cmyk8;

    const CHANNELS: usize = 4;

    const MODEL: ColorModel = ColorModel::Cmyk;

    const BYTES_PER_PIXEL: usize = 4;

    proof fn lemma_layout()
        ensures
            Self::FORMAT == PixelFormat::Cmyk8,
            Self::CHANNELS == 4,
    {
        assert(PixelFormat::Cmyk8.spec_bytes_per_sample() == 1);
    }
}

impl pixel_sealed::Sealed for GrayAlpha8 {}

impl Pixel for GrayAlpha8 {
    type Sample = u8;

    const FORMAT: PixelFormat = PixelFormat::GrayAlpha8;

    const CHANNELS: usize = 2;

    const MODEL: ColorModel = ColorModel::GrayAlpha;

    const BYTES_PER_PIXEL: usize = 2;

    proof fn lemma_layout()
        ensures
            Self::FORMAT == PixelFormat::GrayAlpha8,
            Self::CHANNELS == 2,
    {
        assert(PixelFormat::GrayAlpha8.spec_bytes_per_sample() == 1);
    }
}

impl pixel_sealed::Sealed for Gray16 {}

impl Pixel for Gray16 {
    type Sample = u16;

    const FORMAT: PixelFormat = PixelFormat::Gray16;

    const CHANNELS: usize = 1;

    const MODEL: ColorModel = ColorModel::Gray;

    const BYTES_PER_PIXEL: usize = 2;

    proof fn lemma_layout()
        ensures
            Self::FORMAT == PixelFormat::Gray16,
            Self::CHANNELS == 1,
    {
        assert(PixelFormat::Gray16.spec_bytes_per_sample() == 2);
    }
}

impl pixel_sealed::Sealed for Rgb16 {}

impl Pixel for Rgb16 {
    type Sample = u16;

    const FORMAT: PixelFormat = PixelFormat::Rgb16;

    const CHANNELS: usize = 3;

    const MODEL: ColorModel = ColorModel::Rgb;

    const BYTES_PER_PIXEL: usize = 6;

    proof fn lemma_layout()
        ensures
            Self::FORMAT == PixelFormat::Rgb16,
            Self::CHANNELS == 3,
    {
        assert(PixelFormat::Rgb16.spec_bytes_per_sample() == 2);
    }
}

impl pixel_sealed::Sealed for Rgba16 {}

impl Pixel for Rgba16 {
    type Sample = u16;

    const FORMAT: PixelFormat = PixelFormat::Rgba16;

    const CHANNELS: usize = 4;

    const MODEL: ColorModel = ColorModel::Rgba;

    const BYTES_PER_PIXEL: usize = 8;

    proof fn lemma_layout()
        ensures
            Self::FORMAT == PixelFormat::Rgba16,
            Self::CHANNELS == 4,
    {
        assert(PixelFormat::Rgba16.spec_bytes_per_sample() == 2);
    }
}

impl pixel_sealed::Sealed for GrayAlpha16 {}

impl Pixel for GrayAlpha16 {
    type Sample = u16;

    const FORMAT: PixelFormat = PixelFormat::GrayAlpha16;

    const CHANNELS: usize = 2;

    const MODEL: ColorModel = ColorModel::GrayAlpha;

    const BYTES_PER_PIXEL: usize = 4;

    proof fn lemma_layout()
        ensures
            Self::FORMAT == PixelFormat::GrayAlpha16,
            Self::CHANNELS == 2,
    {
        assert(PixelFormat::GrayAlpha16.spec_bytes_per_sample() == 2);
    }
}

/// Narrowing a full-range value to 8 bits picks the nearest 8-bit level: the stored value,
/// scaled back up by 257, lies within half a step (128) of the full-range value, and fits 8
/// bits. Sixteen-bit storage keeps the value.
pub proof fn law_narrow_rounds_to_nearest(v: nat)
    requires
        v <= 65535,
    ensures
        narrow(8, v) <= 255,
        narrow(8, v) * 257 <= v + 128,
        v <= narrow(8, v) * 257 + 128,
        narrow(16, v) == v,
{
    let q = (v + 128) / 257;
    assert(q * 257 <= v + 128 && v + 128 < q * 257 + 257 && q <= 255) by (nonlinear_arith)
        requires
            q == (v + 128) / 257,
            v <= 65535,
    ;
}

/// Widening then narrowing recovers every sample exactly: the narrowing rounds to nearest, so
/// it is the exact inverse of the byte-replicating widening (PNG §13.12).
pub proof fn lemma_narrow_widen_exact(bits: nat, v: nat)
    requires
        bits == 8 || bits == 16,
        v <= storage_max(bits),
    ensures
        narrow(bits, widen(bits, v)) == v,
        widen(bits, v) <= 65535,
{
    if bits == 8 {
        assert((v * 257 + 128) / 257 == v) by (nonlinear_arith)
            requires
                v <= 255,
        ;
    }
}


/// Which layout each marker type stands for, and how many samples its pixels have.
pub proof fn lemma_marker_layouts()
    ensures
        <Gray8 as Pixel>::FORMAT == PixelFormat::Gray8,
        <Gray8 as Pixel>::CHANNELS == 1,
        <Bilevel as Pixel>::FORMAT == PixelFormat::Bilevel,
        <Bilevel as Pixel>::CHANNELS == 1,
        <Indexed8 as Pixel>::FORMAT == PixelFormat::Indexed8,
        <Indexed8 as Pixel>::CHANNELS == 1,
        <Rgb8 as Pixel>::FORMAT == PixelFormat::Rgb8,
        <Rgb8 as Pixel>::CHANNELS == 3,
        <Rgba8 as Pixel>::FORMAT == PixelFormat::Rgba8,
        <Rgba8 as Pixel>::CHANNELS == 4,
        <Cmyk8 as Pixel>::FORMAT == PixelFormat::Cmyk8,
        <Cmyk8 as Pixel>::CHANNELS == 4,
        <GrayAlpha8 as Pixel>::FORMAT == PixelFormat::GrayAlpha8,
        <GrayAlpha8 as Pixel>::CHANNELS == 2,
        <Gray16 as Pixel>::FORMAT == PixelFormat::Gray16,
        <Gray16 as Pixel>::CHANNELS == 1,
        <Rgb16 as Pixel>::FORMAT == PixelFormat::Rgb16,
        <Rgb16 as Pixel>::CHANNELS == 3,
        <Rgba16 as Pixel>::FORMAT == PixelFormat::Rgba16,
        <Rgba16 as Pixel>::CHANNELS == 4,
        <GrayAlpha16 as Pixel>::FORMAT == PixelFormat::GrayAlpha16,
        <GrayAlpha16 as Pixel>::CHANNELS == 2,
{
}

} // verus!

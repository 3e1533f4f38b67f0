//! Enumerated DNG tag *values* — the codes stored in the `Compression`,
//! `PhotometricInterpretation`, `CalibrationIlluminant`, `CFALayout`, `Predictor`, `SampleFormat`,
//! `ProfileEmbedPolicy`, and `PreviewColorSpace` tags, plus the `NewSubFileType` bit values.
//!
//! Values come from the DNG 1.7.1.0 specification. Each enum has a `from_code` that rejects
//! unknown codes (`None`) and a `code` that returns the on-disk value; both are stated against the
//! enum's `spec_code`, which is injective, so `from_code` inverts `code`.
use vstd::prelude::*;

verus! {
/// The compression scheme of an image's data, stored in the `Compression` tag (259).
///
/// This library encodes and decodes [`Uncompressed`](Self::Uncompressed),
/// [`LosslessJpeg`](Self::LosslessJpeg), and [`Deflate`](Self::Deflate).
/// [`LossyJpeg`](Self::LossyJpeg) and [`JpegXl`](Self::JpegXl) are recognised for completeness
/// but are outside the encode/decode scope.
#[derive(Debug, Clone, Copy, PartialEq, Eq, Default, Structural)]
pub enum Compression {
    /// `1` — uncompressed sample data.
    #[default]
    Uncompressed,
    /// `7` — lossless JPEG (Huffman + predictor); the standard DNG raw compression.
    LosslessJpeg,
    /// `8` — Deflate/ZIP (RFC 1951), used for integer and floating-point data.
    Deflate,
    /// `34892` — DNG lossy JPEG (8-bit `LinearRaw`/mask only). Out of scope.
    LossyJpeg,
    /// `52546` — JPEG XL (DNG 1.7). Outside the encode/decode scope.
    JpegXl,
}

impl Compression {
    /// The on-disk tag value, as a spec value.
    pub open spec fn spec_code(self) -> u16 {
        match self {
            Compression::Uncompressed => 1,
            Compression::LosslessJpeg => 7,
            Compression::Deflate => 8,
            Compression::LossyJpeg => 34892,
            Compression::JpegXl => 52546,
        }
    }

    /// Returns the compression for an on-disk tag value, or `None` if unrecognised.
    pub fn from_code(code: u16) -> (r: Option<Self>)
        ensures
            match r {
                Some(v) => v.spec_code() == code,
                None => forall|v: Self| #[trigger] v.spec_code() != code,
            },
    {
        match code {
            1 => Some(Compression::Uncompressed),
            7 => Some(Compression::LosslessJpeg),
            8 => Some(Compression::Deflate),
            34892 => Some(Compression::LossyJpeg),
            52546 => Some(Compression::JpegXl),
            _ => None,
        }
    }

    /// Returns the on-disk tag value.
    pub fn code(self) -> (r: u16)
        ensures
            r == self.spec_code(),
    {
        match self {
            Compression::Uncompressed => 1,
            Compression::LosslessJpeg => 7,
            Compression::Deflate => 8,
            Compression::LossyJpeg => 34892,
            Compression::JpegXl => 52546,
        }
    }

    /// Distinct values have distinct codes, so `from_code(v.code())` is `Some(v)`.
    pub proof fn law_code_is_injective(a: Self, b: Self)
        ensures
            a.spec_code() == b.spec_code() ==> a == b,
    {
    }

    /// Whether this library can currently encode and decode this scheme.
    pub fn is_supported(self) -> (r: bool)
        ensures
            r == (self == Compression::Uncompressed || self == Compression::LosslessJpeg || self
                == Compression::Deflate),
    {
        match self {
            Compression::Uncompressed | Compression::LosslessJpeg | Compression::Deflate => true,
            _ => false,
        }
    }
}

/// How pixel samples map to colour / raw photometry, stored in `PhotometricInterpretation` (262).
///
/// Only the DNG-relevant interpretations are modelled.
#[derive(Debug, Clone, Copy, PartialEq, Eq, Structural)]
pub enum PhotometricInterpretation {
    /// `1` — grayscale where `0` is black (used by previews and masks).
    BlackIsZero,
    /// `2` — full-colour RGB (used by previews and as `LinearRaw`'s base for demosaiced RGB).
    Rgb,
    /// `4` — a transparency mask.
    TransparencyMask,
    /// `32803` — a colour-filter-array (mosaic) raw image.
    Cfa,
    /// `34892` — a demosaiced ("linear") raw image, one sample per plane per pixel.
    LinearRaw,
    /// `51177` — a depth map.
    Depth,
    /// `52527` — a photometric (per-channel) mask.
    PhotometricMask,
}

impl PhotometricInterpretation {
    /// The on-disk tag value, as a spec value.
    pub open spec fn spec_code(self) -> u16 {
        match self {
            PhotometricInterpretation::BlackIsZero => 1,
            PhotometricInterpretation::Rgb => 2,
            PhotometricInterpretation::TransparencyMask => 4,
            PhotometricInterpretation::Cfa => 32803,
            PhotometricInterpretation::LinearRaw => 34892,
            PhotometricInterpretation::Depth => 51177,
            PhotometricInterpretation::PhotometricMask => 52527,
        }
    }

    /// Returns the interpretation for an on-disk tag value, or `None` if unrecognised.
    pub fn from_code(code: u16) -> (r: Option<Self>)
        ensures
            match r {
                Some(v) => v.spec_code() == code,
                None => forall|v: Self| #[trigger] v.spec_code() != code,
            },
    {
        match code {
            1 => Some(PhotometricInterpretation::BlackIsZero),
            2 => Some(PhotometricInterpretation::Rgb),
            4 => Some(PhotometricInterpretation::TransparencyMask),
            32803 => Some(PhotometricInterpretation::Cfa),
            34892 => Some(PhotometricInterpretation::LinearRaw),
            51177 => Some(PhotometricInterpretation::Depth),
            52527 => Some(PhotometricInterpretation::PhotometricMask),
            _ => None,
        }
    }

    /// Returns the on-disk tag value.
    pub fn code(self) -> (r: u16)
        ensures
            r == self.spec_code(),
    {
        match self {
            PhotometricInterpretation::BlackIsZero => 1,
            PhotometricInterpretation::Rgb => 2,
            PhotometricInterpretation::TransparencyMask => 4,
            PhotometricInterpretation::Cfa => 32803,
            PhotometricInterpretation::LinearRaw => 34892,
            PhotometricInterpretation::Depth => 51177,
            PhotometricInterpretation::PhotometricMask => 52527,
        }
    }

    /// Distinct values have distinct codes, so `from_code(v.code())` is `Some(v)`.
    pub proof fn law_code_is_injective(a: Self, b: Self)
        ensures
            a.spec_code() == b.spec_code() ==> a == b,
    {
    }
}

/// A calibration illuminant, stored in `CalibrationIlluminant1/2/3` (and equal to the EXIF
/// `LightSource` codes).
///
/// [`Other`](Self::Other) (`255`) signals that spectral data is supplied separately via the
/// `IlluminantData1/2/3` tags instead of a named illuminant.
#[derive(Debug, Clone, Copy, PartialEq, Eq, Structural)]
pub enum CalibrationIlluminant {
    /// `0` — unknown.
    Unknown,
    /// `1` — daylight.
    Daylight,
    /// `2` — fluorescent.
    Fluorescent,
    /// `3` — tungsten (incandescent).
    Tungsten,
    /// `4` — flash.
    Flash,
    /// `9` — fine weather.
    FineWeather,
    /// `10` — cloudy weather.
    CloudyWeather,
    /// `11` — shade.
    Shade,
    /// `12` — daylight fluorescent (D, 5700–7100 K).
    DaylightFluorescent,
    /// `13` — day-white fluorescent (N, 4600–5500 K).
    DayWhiteFluorescent,
    /// `14` — cool-white fluorescent (W, 3800–4500 K).
    CoolWhiteFluorescent,
    /// `15` — white fluorescent (WW, 3250–3800 K).
    WhiteFluorescent,
    /// `16` — warm-white fluorescent (L, 2600–3250 K).
    WarmWhiteFluorescent,
    /// `17` — Standard Light A.
    StandardLightA,
    /// `18` — Standard Light B.
    StandardLightB,
    /// `19` — Standard Light C.
    StandardLightC,
    /// `20` — D55.
    D55,
    /// `21` — D65.
    D65,
    /// `22` — D75.
    D75,
    /// `23` — D50.
    D50,
    /// `24` — ISO studio tungsten.
    IsoStudioTungsten,
    /// `255` — other (spectral data given via `IlluminantData`).
    Other,
}

impl CalibrationIlluminant {
    /// The on-disk tag value, as a spec value.
    pub open spec fn spec_code(self) -> u16 {
        match self {
            CalibrationIlluminant::Unknown => 0,
            CalibrationIlluminant::Daylight => 1,
            CalibrationIlluminant::Fluorescent => 2,
            CalibrationIlluminant::Tungsten => 3,
            CalibrationIlluminant::Flash => 4,
            CalibrationIlluminant::FineWeather => 9,
            CalibrationIlluminant::CloudyWeather => 10,
            CalibrationIlluminant::Shade => 11,
            CalibrationIlluminant::DaylightFluorescent => 12,
            CalibrationIlluminant::DayWhiteFluorescent => 13,
            CalibrationIlluminant::CoolWhiteFluorescent => 14,
            CalibrationIlluminant::WhiteFluorescent => 15,
            CalibrationIlluminant::WarmWhiteFluorescent => 16,
            CalibrationIlluminant::StandardLightA => 17,
            CalibrationIlluminant::StandardLightB => 18,
            CalibrationIlluminant::StandardLightC => 19,
            CalibrationIlluminant::D55 => 20,
            CalibrationIlluminant::D65 => 21,
            CalibrationIlluminant::D75 => 22,
            CalibrationIlluminant::D50 => 23,
            CalibrationIlluminant::IsoStudioTungsten => 24,
            CalibrationIlluminant::Other => 255,
        }
    }

    /// Returns the illuminant for an on-disk tag value, or `None` if unrecognised.
    pub fn from_code(code: u16) -> (r: Option<Self>)
        ensures
            match r {
                Some(v) => v.spec_code() == code,
                None => forall|v: Self| #[trigger] v.spec_code() != code,
            },
    {
        match code {
            0 => Some(CalibrationIlluminant::Unknown),
            1 => Some(CalibrationIlluminant::Daylight),
            2 => Some(CalibrationIlluminant::Fluorescent),
            3 => Some(CalibrationIlluminant::Tungsten),
            4 => Some(CalibrationIlluminant::Flash),
            9 => Some(CalibrationIlluminant::FineWeather),
            10 => Some(CalibrationIlluminant::CloudyWeather),
            11 => Some(CalibrationIlluminant::Shade),
            12 => Some(CalibrationIlluminant::DaylightFluorescent),
            13 => Some(CalibrationIlluminant::DayWhiteFluorescent),
            14 => Some(CalibrationIlluminant::CoolWhiteFluorescent),
            15 => Some(CalibrationIlluminant::WhiteFluorescent),
            16 => Some(CalibrationIlluminant::WarmWhiteFluorescent),
            17 => Some(CalibrationIlluminant::StandardLightA),
            18 => Some(CalibrationIlluminant::StandardLightB),
            19 => Some(CalibrationIlluminant::StandardLightC),
            20 => Some(CalibrationIlluminant::D55),
            21 => Some(CalibrationIlluminant::D65),
            22 => Some(CalibrationIlluminant::D75),
            23 => Some(CalibrationIlluminant::D50),
            24 => Some(CalibrationIlluminant::IsoStudioTungsten),
            255 => Some(CalibrationIlluminant::Other),
            _ => None,
        }
    }

    /// Returns the on-disk tag value.
    pub fn code(self) -> (r: u16)
        ensures
            r == self.spec_code(),
    {
        match self {
            CalibrationIlluminant::Unknown => 0,
            CalibrationIlluminant::Daylight => 1,
            CalibrationIlluminant::Fluorescent => 2,
            CalibrationIlluminant::Tungsten => 3,
            CalibrationIlluminant::Flash => 4,
            CalibrationIlluminant::FineWeather => 9,
            CalibrationIlluminant::CloudyWeather => 10,
            CalibrationIlluminant::Shade => 11,
            CalibrationIlluminant::DaylightFluorescent => 12,
            CalibrationIlluminant::DayWhiteFluorescent => 13,
            CalibrationIlluminant::CoolWhiteFluorescent => 14,
            CalibrationIlluminant::WhiteFluorescent => 15,
            CalibrationIlluminant::WarmWhiteFluorescent => 16,
            CalibrationIlluminant::StandardLightA => 17,
            CalibrationIlluminant::StandardLightB => 18,
            CalibrationIlluminant::StandardLightC => 19,
            CalibrationIlluminant::D55 => 20,
            CalibrationIlluminant::D65 => 21,
            CalibrationIlluminant::D75 => 22,
            CalibrationIlluminant::D50 => 23,
            CalibrationIlluminant::IsoStudioTungsten => 24,
            CalibrationIlluminant::Other => 255,
        }
    }

    /// Distinct values have distinct codes, so `from_code(v.code())` is `Some(v)`.
    pub proof fn law_code_is_injective(a: Self, b: Self)
        ensures
            a.spec_code() == b.spec_code() ==> a == b,
    {
    }
}

/// The physical layout of the colour filter array, stored in `CFALayout` (50711).
///
/// `1` is the common rectangular (square) grid (e.g. ordinary Bayer); `2`–`9` are the staggered
/// layouts where alternate rows or columns are offset by half a pixel.
#[derive(Debug, Clone, Copy, PartialEq, Eq, Default, Structural)]
pub enum CfaLayout {
    /// `1` — rectangular (square) layout.
    #[default]
    Rectangular,
    /// `2` — staggered layout A (even columns shifted down by 1/2 row).
    StaggeredA,
    /// `3` — staggered layout B (even columns shifted up by 1/2 row).
    StaggeredB,
    /// `4` — staggered layout C (even rows shifted right by 1/2 column).
    StaggeredC,
    /// `5` — staggered layout D (even rows shifted left by 1/2 column).
    StaggeredD,
    /// `6` — staggered layout E.
    StaggeredE,
    /// `7` — staggered layout F.
    StaggeredF,
    /// `8` — staggered layout G.
    StaggeredG,
    /// `9` — staggered layout H.
    StaggeredH,
}

impl CfaLayout {
    /// The on-disk tag value, as a spec value.
    pub open spec fn spec_code(self) -> u16 {
        match self {
            CfaLayout::Rectangular => 1,
            CfaLayout::StaggeredA => 2,
            CfaLayout::StaggeredB => 3,
            CfaLayout::StaggeredC => 4,
            CfaLayout::StaggeredD => 5,
            CfaLayout::StaggeredE => 6,
            CfaLayout::StaggeredF => 7,
            CfaLayout::StaggeredG => 8,
            CfaLayout::StaggeredH => 9,
        }
    }

    /// Returns the layout for an on-disk tag value, or `None` if out of range.
    pub fn from_code(code: u16) -> (r: Option<Self>)
        ensures
            match r {
                Some(v) => v.spec_code() == code,
                None => forall|v: Self| #[trigger] v.spec_code() != code,
            },
    {
        match code {
            1 => Some(CfaLayout::Rectangular),
            2 => Some(CfaLayout::StaggeredA),
            3 => Some(CfaLayout::StaggeredB),
            4 => Some(CfaLayout::StaggeredC),
            5 => Some(CfaLayout::StaggeredD),
            6 => Some(CfaLayout::StaggeredE),
            7 => Some(CfaLayout::StaggeredF),
            8 => Some(CfaLayout::StaggeredG),
            9 => Some(CfaLayout::StaggeredH),
            _ => None,
        }
    }

    /// Returns the on-disk tag value.
    pub fn code(self) -> (r: u16)
        ensures
            r == self.spec_code(),
    {
        match self {
            CfaLayout::Rectangular => 1,
            CfaLayout::StaggeredA => 2,
            CfaLayout::StaggeredB => 3,
            CfaLayout::StaggeredC => 4,
            CfaLayout::StaggeredD => 5,
            CfaLayout::StaggeredE => 6,
            CfaLayout::StaggeredF => 7,
            CfaLayout::StaggeredG => 8,
            CfaLayout::StaggeredH => 9,
        }
    }

    /// Distinct values have distinct codes, so `from_code(v.code())` is `Some(v)`.
    pub proof fn law_code_is_injective(a: Self, b: Self)
        ensures
            a.spec_code() == b.spec_code() ==> a == b,
    {
    }
}

/// The prediction scheme applied before compression, stored in the `Predictor` tag (317).
#[derive(Debug, Clone, Copy, PartialEq, Eq, Default, Structural)]
pub enum Predictor {
    /// `1` — no prediction.
    #[default]
    Null,
    /// `2` — horizontal differencing (each sample minus the one to its left).
    HorizontalDifference,
    /// `3` — floating-point horizontal differencing.
    FloatingPoint,
    /// `34892` — horizontal differencing with a stride of 2 samples.
    HorizontalDifferenceX2,
    /// `34893` — horizontal differencing with a stride of 4 samples.
    HorizontalDifferenceX4,
    /// `34894` — floating-point differencing with a stride of 2 samples.
    FloatingPointX2,
    /// `34895` — floating-point differencing with a stride of 4 samples.
    FloatingPointX4,
}

impl Predictor {
    /// The on-disk tag value, as a spec value.
    pub open spec fn spec_code(self) -> u16 {
        match self {
            Predictor::Null => 1,
            Predictor::HorizontalDifference => 2,
            Predictor::FloatingPoint => 3,
            Predictor::HorizontalDifferenceX2 => 34892,
            Predictor::HorizontalDifferenceX4 => 34893,
            Predictor::FloatingPointX2 => 34894,
            Predictor::FloatingPointX4 => 34895,
        }
    }

    /// Returns the predictor for an on-disk tag value, or `None` if unrecognised.
    pub fn from_code(code: u16) -> (r: Option<Self>)
        ensures
            match r {
                Some(v) => v.spec_code() == code,
                None => forall|v: Self| #[trigger] v.spec_code() != code,
            },
    {
        match code {
            1 => Some(Predictor::Null),
            2 => Some(Predictor::HorizontalDifference),
            3 => Some(Predictor::FloatingPoint),
            34892 => Some(Predictor::HorizontalDifferenceX2),
            34893 => Some(Predictor::HorizontalDifferenceX4),
            34894 => Some(Predictor::FloatingPointX2),
            34895 => Some(Predictor::FloatingPointX4),
            _ => None,
        }
    }

    /// Returns the on-disk tag value.
    pub fn code(self) -> (r: u16)
        ensures
            r == self.spec_code(),
    {
        match self {
            Predictor::Null => 1,
            Predictor::HorizontalDifference => 2,
            Predictor::FloatingPoint => 3,
            Predictor::HorizontalDifferenceX2 => 34892,
            Predictor::HorizontalDifferenceX4 => 34893,
            Predictor::FloatingPointX2 => 34894,
            Predictor::FloatingPointX4 => 34895,
        }
    }

    /// Distinct values have distinct codes, so `from_code(v.code())` is `Some(v)`.
    pub proof fn law_code_is_injective(a: Self, b: Self)
        ensures
            a.spec_code() == b.spec_code() ==> a == b,
    {
    }
}

/// How each sample is encoded, stored in the `SampleFormat` tag (339).
#[derive(Debug, Clone, Copy, PartialEq, Eq, Default, Structural)]
pub enum SampleFormat {
    /// `1` — unsigned integer (the default for raw mosaic and linear-raw data).
    #[default]
    UnsignedInteger,
    /// `2` — signed integer.
    SignedInteger,
    /// `3` — IEEE floating point.
    FloatingPoint,
    /// `4` — undefined.
    Undefined,
}

impl SampleFormat {
    /// The on-disk tag value, as a spec value.
    pub open spec fn spec_code(self) -> u16 {
        match self {
            SampleFormat::UnsignedInteger => 1,
            SampleFormat::SignedInteger => 2,
            SampleFormat::FloatingPoint => 3,
            SampleFormat::Undefined => 4,
        }
    }

    /// Returns the sample format for an on-disk tag value, or `None` if unrecognised.
    pub fn from_code(code: u16) -> (r: Option<Self>)
        ensures
            match r {
                Some(v) => v.spec_code() == code,
                None => forall|v: Self| #[trigger] v.spec_code() != code,
            },
    {
        match code {
            1 => Some(SampleFormat::UnsignedInteger),
            2 => Some(SampleFormat::SignedInteger),
            3 => Some(SampleFormat::FloatingPoint),
            4 => Some(SampleFormat::Undefined),
            _ => None,
        }
    }

    /// Returns the on-disk tag value.
    pub fn code(self) -> (r: u16)
        ensures
            r == self.spec_code(),
    {
        match self {
            SampleFormat::UnsignedInteger => 1,
            SampleFormat::SignedInteger => 2,
            SampleFormat::FloatingPoint => 3,
            SampleFormat::Undefined => 4,
        }
    }

    /// Distinct values have distinct codes, so `from_code(v.code())` is `Some(v)`.
    pub proof fn law_code_is_injective(a: Self, b: Self)
        ensures
            a.spec_code() == b.spec_code() ==> a == b,
    {
    }
}

/// The embedding/usage policy of a camera profile, stored in `ProfileEmbedPolicy` (50941).
#[derive(Debug, Clone, Copy, PartialEq, Eq, Default, Structural)]
pub enum ProfileEmbedPolicy {
    /// `0` — the profile may be freely copied.
    #[default]
    AllowCopying,
    /// `1` — embed the profile only in files it was used to render.
    EmbedIfUsed,
    /// `2` — never embed the profile.
    EmbedNever,
    /// `3` — no restrictions.
    NoRestrictions,
}

impl ProfileEmbedPolicy {
    /// The on-disk tag value, as a spec value.
    pub open spec fn spec_code(self) -> u32 {
        match self {
            ProfileEmbedPolicy::AllowCopying => 0,
            ProfileEmbedPolicy::EmbedIfUsed => 1,
            ProfileEmbedPolicy::EmbedNever => 2,
            ProfileEmbedPolicy::NoRestrictions => 3,
        }
    }

    /// Returns the policy for an on-disk tag value, or `None` if unrecognised.
    pub fn from_code(code: u32) -> (r: Option<Self>)
        ensures
            match r {
                Some(v) => v.spec_code() == code,
                None => forall|v: Self| #[trigger] v.spec_code() != code,
            },
    {
        match code {
            0 => Some(ProfileEmbedPolicy::AllowCopying),
            1 => Some(ProfileEmbedPolicy::EmbedIfUsed),
            2 => Some(ProfileEmbedPolicy::EmbedNever),
            3 => Some(ProfileEmbedPolicy::NoRestrictions),
            _ => None,
        }
    }

    /// Returns the on-disk tag value.
    pub fn code(self) -> (r: u32)
        ensures
            r == self.spec_code(),
    {
        match self {
            ProfileEmbedPolicy::AllowCopying => 0,
            ProfileEmbedPolicy::EmbedIfUsed => 1,
            ProfileEmbedPolicy::EmbedNever => 2,
            ProfileEmbedPolicy::NoRestrictions => 3,
        }
    }

    /// Distinct values have distinct codes, so `from_code(v.code())` is `Some(v)`.
    pub proof fn law_code_is_injective(a: Self, b: Self)
        ensures
            a.spec_code() == b.spec_code() ==> a == b,
    {
    }
}

/// The colour space of a preview image, stored in `PreviewColorSpace` (50970).
#[derive(Debug, Clone, Copy, PartialEq, Eq, Default, Structural)]
pub enum PreviewColorSpace {
    /// `0` — unknown.
    #[default]
    Unknown,
    /// `1` — grayscale, gamma 2.2.
    GrayGamma22,
    /// `2` — sRGB.
    Srgb,
    /// `3` — Adobe RGB (1998).
    AdobeRgb,
    /// `4` — ProPhoto RGB.
    ProPhotoRgb,
}

impl PreviewColorSpace {
    /// The on-disk tag value, as a spec value.
    pub open spec fn spec_code(self) -> u32 {
        match self {
            PreviewColorSpace::Unknown => 0,
            PreviewColorSpace::GrayGamma22 => 1,
            PreviewColorSpace::Srgb => 2,
            PreviewColorSpace::AdobeRgb => 3,
            PreviewColorSpace::ProPhotoRgb => 4,
        }
    }

    /// Returns the colour space for an on-disk tag value, or `None` if unrecognised.
    pub fn from_code(code: u32) -> (r: Option<Self>)
        ensures
            match r {
                Some(v) => v.spec_code() == code,
                None => forall|v: Self| #[trigger] v.spec_code() != code,
            },
    {
        match code {
            0 => Some(PreviewColorSpace::Unknown),
            1 => Some(PreviewColorSpace::GrayGamma22),
            2 => Some(PreviewColorSpace::Srgb),
            3 => Some(PreviewColorSpace::AdobeRgb),
            4 => Some(PreviewColorSpace::ProPhotoRgb),
            _ => None,
        }
    }

    /// Returns the on-disk tag value.
    pub fn code(self) -> (r: u32)
        ensures
            r == self.spec_code(),
    {
        match self {
            PreviewColorSpace::Unknown => 0,
            PreviewColorSpace::GrayGamma22 => 1,
            PreviewColorSpace::Srgb => 2,
            PreviewColorSpace::AdobeRgb => 3,
            PreviewColorSpace::ProPhotoRgb => 4,
        }
    }

    /// Distinct values have distinct codes, so `from_code(v.code())` is `Some(v)`.
    pub proof fn law_code_is_injective(a: Self, b: Self)
        ensures
            a.spec_code() == b.spec_code() ==> a == b,
    {
    }
}

} // verus!

/// `NewSubFileType` (254) values DNG assigns to each subfile.
///
/// The TIFF field is a 32-bit bit field, but DNG uses a small set of specific values to label what
/// each IFD holds. The main raw image is `0`; a reduced-resolution preview is `1`.
pub mod new_subfile_type;

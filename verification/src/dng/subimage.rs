//! Non-raw sub-images of a DNG: previews, transparency masks, depth maps, enhanced images, and
//! semantic masks (DNG 1.6+).
//!
//! Every image IFD other than the main raw is described by a [`SubImage`]: its role
//! ([`SubImageKind`], from `NewSubFileType`), geometry, photometry, and pixel data — decoded
//! samples, or the compressed chunks verbatim ([`SubImageData::Undecoded`]) when the scheme is
//! outside decode scope. Semantic-mask IFDs additionally carry their [`SemanticMaskInfo`].
use vstd::prelude::*;

use crate::dng::values::PhotometricInterpretation;
use crate::error::Dimensions;

verus! {

/// The role of a non-raw sub-image, from its IFD's `NewSubFileType` (DNG 1.7.1 pp. 22-23).
///
/// Unrecognised bit patterns are preserved as [`Other`](Self::Other), never dropped.
#[non_exhaustive]
#[derive(Debug, Clone, Copy, PartialEq, Eq, Structural)]
pub enum SubImageKind {
    /// `1` — a reduced-resolution preview of the main image.
    Preview,
    /// `0x10001` — an alternative (non-primary) preview.
    AltPreview,
    /// `4` — a transparency mask.
    TransparencyMask,
    /// `5` — a reduced-resolution transparency mask.
    TransparencyMaskReduced,
    /// `8` — a depth map.
    DepthMap,
    /// `9` — a reduced-resolution depth map.
    DepthMapReduced,
    /// `16` — an enhanced (processed) version of the main image (DNG 1.5).
    EnhancedImage,
    /// `32` — a gain map image (DNG 1.7.1).
    GainMap,
    /// `0x10004` — a semantic mask (DNG 1.6); see [`SemanticMaskInfo`].
    SemanticMask,
    /// A full-resolution main image (`NewSubFileType` 0) that was not selected as the raw —
    /// e.g. a second full-resolution IFD.
    MainImage,
    /// Any other `NewSubFileType` bit pattern, preserved verbatim.
    Other(u32),
}

impl SubImageKind {
    /// The classification of an on-disk `NewSubFileType` value, as a spec value.
    pub open spec fn spec_from_code(code: u32) -> SubImageKind {
        if code == 0 {
            SubImageKind::MainImage
        } else if code == 1 {
            SubImageKind::Preview
        } else if code == 4 {
            SubImageKind::TransparencyMask
        } else if code == 5 {
            SubImageKind::TransparencyMaskReduced
        } else if code == 8 {
            SubImageKind::DepthMap
        } else if code == 9 {
            SubImageKind::DepthMapReduced
        } else if code == 16 {
            SubImageKind::EnhancedImage
        } else if code == 32 {
            SubImageKind::GainMap
        } else if code == 0x0001_0001 {
            SubImageKind::AltPreview
        } else if code == 0x0001_0004 {
            SubImageKind::SemanticMask
        } else {
            SubImageKind::Other(code)
        }
    }

    /// The on-disk `NewSubFileType` value, as a spec value.
    pub open spec fn spec_code(self) -> u32 {
        match self {
            SubImageKind::MainImage => 0,
            SubImageKind::Preview => 1,
            SubImageKind::TransparencyMask => 4,
            SubImageKind::TransparencyMaskReduced => 5,
            SubImageKind::DepthMap => 8,
            SubImageKind::DepthMapReduced => 9,
            SubImageKind::EnhancedImage => 16,
            SubImageKind::GainMap => 32,
            SubImageKind::AltPreview => 0x0001_0001,
            SubImageKind::SemanticMask => 0x0001_0004,
            SubImageKind::Other(code) => code,
        }
    }

    /// Classifies an on-disk `NewSubFileType` value.
    pub fn from_code(code: u32) -> (r: Self)
        ensures
            r == Self::spec_from_code(code),
    {
        match code {
            0 => SubImageKind::MainImage,
            1 => SubImageKind::Preview,
            4 => SubImageKind::TransparencyMask,
            5 => SubImageKind::TransparencyMaskReduced,
            8 => SubImageKind::DepthMap,
            9 => SubImageKind::DepthMapReduced,
            16 => SubImageKind::EnhancedImage,
            32 => SubImageKind::GainMap,
            0x0001_0001 => SubImageKind::AltPreview,
            0x0001_0004 => SubImageKind::SemanticMask,
            other => SubImageKind::Other(other),
        }
    }

    /// The on-disk `NewSubFileType` value.
    pub fn code(self) -> (r: u32)
        ensures
            r == self.spec_code(),
    {
        match self {
            SubImageKind::MainImage => 0,
            SubImageKind::Preview => 1,
            SubImageKind::TransparencyMask => 4,
            SubImageKind::TransparencyMaskReduced => 5,
            SubImageKind::DepthMap => 8,
            SubImageKind::DepthMapReduced => 9,
            SubImageKind::EnhancedImage => 16,
            SubImageKind::GainMap => 32,
            SubImageKind::AltPreview => 0x0001_0001,
            SubImageKind::SemanticMask => 0x0001_0004,
            SubImageKind::Other(code) => code,
        }
    }

    /// Every code survives classification: the kind `from_code` gives back carries that code.
    pub proof fn law_code_of_a_classified_code(code: u32)
        ensures
            Self::spec_from_code(code).spec_code() == code,
    {
    }

    /// Every kind survives the code: a named kind, and an `Other` whose code no named kind uses,
    /// is classified back to itself.
    pub proof fn law_kind_of_its_code(kind: SubImageKind)
        requires
            kind matches SubImageKind::Other(c) ==> Self::spec_from_code(c) is Other,
        ensures
            Self::spec_from_code(kind.spec_code()) == kind,
    {
    }
}

/// A sub-image's pixel payload: decoded samples, or the verbatim compressed chunks when the
/// scheme is outside decode scope (e.g. a baseline-DCT JPEG preview, or lossy JPEG 34892).
#[non_exhaustive]
#[derive(Debug, Clone, PartialEq, Eq)]
pub enum SubImageData {
    /// Decoded samples, `width * height * samples_per_pixel` long. JPEG XL data is full-range
    /// 16-bit (see [`crate::decoder`]); other schemes carry code values at the IFD's bit depth.
    Decoded(Vec<u16>),
    /// The stored chunks (strips or tiles, in offset order), verbatim.
    Undecoded {
        /// The IFD's `Compression` code.
        compression: u16,
        /// The compressed chunk bytes, in offset-array order.
        chunks: Vec<Vec<u8>>,
    },
}

/// `MaskSubArea` (52536): how a cropped semantic mask places into the full mask area (which
/// corresponds to the main image's `ActiveArea`); DNG 1.7.1 pp. 73-74.
#[derive(Debug, Clone, Copy, PartialEq, Eq)]
pub struct MaskSubArea {
    /// `T_crop` — top coordinate of the cropped mask within the full mask.
    pub top: u32,
    /// `L_crop` — left coordinate of the cropped mask within the full mask.
    pub left: u32,
    /// `W_full` — width of the full (uncropped) mask.
    pub full_width: u32,
    /// `H_full` — height of the full (uncropped) mask.
    pub full_height: u32,
}

/// The semantic-mask tags of a [`SubImageKind::SemanticMask`] IFD (DNG 1.7.1 pp. 73-74).
#[non_exhaustive]
#[derive(Debug, Clone, PartialEq, Eq, Default)]
pub struct SemanticMaskInfo {
    /// `SemanticName` (52526) — the mask's purpose, e.g. Apple's `"Person"`/`"Sky"` (required
    /// by the spec, but surfaced as written).
    pub name: Option<String>,
    /// `SemanticInstanceID` (52528) — distinguishes instances that share a name.
    pub instance_id: Option<String>,
    /// `MaskSubArea` (52536) — the crop placement, when present and valid (the spec says an
    /// invalid tag "should be ignored"; validation pairs top with the mask height and left with
    /// the mask width, as the SDK does — the spec's own inequality text transposes the axes).
    pub sub_area: Option<MaskSubArea>,
}

/// IFD 0's depth-map description tags (DNG 1.5; DNG 1.7.1 pp. 74-76), describing how a
/// [`SubImageKind::DepthMap`] sub-image's values map to distances.
#[non_exhaustive]
#[derive(Debug, Clone, Copy, PartialEq, Eq, Default)]
pub struct DepthInfo {
    /// `DepthFormat` (51177): 0 unknown, 1 linear, 2 inverse.
    pub format: Option<u16>,
    /// `DepthNear` (51178) as its stored rational — the distance of value 0 (`0/0` = unknown).
    pub near: Option<(u32, u32)>,
    /// `DepthFar` (51179) as its stored rational — the distance of the maximum value (`0/0` =
    /// unknown, `n/0` = infinity).
    pub far: Option<(u32, u32)>,
    /// `DepthUnits` (51180): 0 unknown, 1 metres.
    pub units: Option<u16>,
    /// `DepthMeasureType` (51181): 0 unknown, 1 optical axis, 2 optical ray.
    pub measure_type: Option<u16>,
}

/// One decoded non-raw image IFD (see the module docs).
#[non_exhaustive]
#[derive(Debug, Clone, PartialEq)]
pub struct SubImage {
    /// The image's role, from `NewSubFileType`.
    pub kind: SubImageKind,
    /// The `PhotometricInterpretation` code, kept verbatim (use
    /// [`interpretation`](Self::interpretation) for the typed reading).
    pub photometric: u16,
    /// The image dimensions.
    pub dimensions: Dimensions,
    /// Bits per sample as declared by the IFD (for JPEG XL, the codestream precision; decoded
    /// JXL samples are full-range 16-bit).
    pub bits_per_sample: u16,
    /// Samples per pixel.
    pub samples_per_pixel: u16,
    /// The pixel payload — decoded, or the verbatim chunks.
    pub data: SubImageData,
    /// Semantic-mask tags, when this is a semantic mask (or carries the tags).
    pub semantic: Option<SemanticMaskInfo>,
}

impl SubImage {
    /// The typed photometric interpretation, when the code is one the library models.
    pub fn interpretation(&self) -> (r: Option<PhotometricInterpretation>)
        ensures
            match r {
                Some(p) => p.spec_code() == self.photometric,
                None => forall|p: PhotometricInterpretation| #[trigger] p.spec_code()
                    != self.photometric,
            },
    {
        PhotometricInterpretation::from_code(self.photometric)
    }
}

} // verus!

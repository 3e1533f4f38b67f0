//! Optional metadata embedded in a DNG: an EXIF sub-IFD plus XMP / IPTC / ICC blocks.
//!
//! XMP, IPTC, and ICC are carried opaquely (callers supply the already-serialised bytes). EXIF
//! capture settings are a small typed set written into an `ExifIFD` sub-IFD; an encoder writes
//! whatever is present, and nothing at all when [`DngMetadata::is_empty`] holds.
use vstd::prelude::*;

verus! {

/// Common EXIF capture settings, written into the DNG's `ExifIFD` sub-IFD.
///
/// All fields are optional; only those set are emitted. Rationals are `(numerator, denominator)`.
#[derive(Debug, Clone, Default)]
pub struct ExifMetadata {
    /// `ExposureTime` in seconds.
    pub exposure_time: Option<(u32, u32)>,
    /// `FNumber` (the lens f-stop).
    pub f_number: Option<(u32, u32)>,
    /// `ISOSpeedRatings`.
    pub iso_speed: Option<u16>,
    /// `DateTimeOriginal` (`YYYY:MM:DD HH:MM:SS`).
    pub date_time_original: Option<String>,
    /// `FocalLength` in millimetres.
    pub focal_length: Option<(u32, u32)>,
}

impl ExifMetadata {
    /// Whether no field is set, as a spec value.
    pub open spec fn spec_is_empty(&self) -> bool {
        &&& self.exposure_time is None
        &&& self.f_number is None
        &&& self.iso_speed is None
        &&& self.date_time_original is None
        &&& self.focal_length is None
    }

    /// Whether no field is set (an empty EXIF IFD is not worth writing).
    pub fn is_empty(&self) -> (r: bool)
        ensures
            r == self.spec_is_empty(),
    {
        self.exposure_time.is_none() && self.f_number.is_none() && self.iso_speed.is_none()
            && self.date_time_original.is_none() && self.focal_length.is_none()
    }
}

/// Metadata to embed in a DNG: an EXIF sub-IFD and/or opaque XMP / IPTC / ICC blocks.
#[derive(Debug, Clone, Default)]
pub struct DngMetadata {
    /// EXIF capture settings (written into an `ExifIFD` sub-IFD).
    pub exif: ExifMetadata,
    /// An XMP packet (UTF-8 RDF/XML), stored in the `XMP` tag.
    pub xmp: Option<Vec<u8>>,
    /// IPTC-IIM metadata, stored in the `IPTC/NAA` tag.
    pub iptc: Option<Vec<u8>>,
    /// An ICC profile, stored in the `ICCProfile` tag.
    pub icc: Option<Vec<u8>>,
}

impl DngMetadata {
    /// Whether there is nothing to embed.
    pub fn is_empty(&self) -> (r: bool)
        ensures
            r == (self.exif.spec_is_empty() && self.xmp is None && self.iptc is None && self.icc
                is None),
    {
        self.exif.is_empty() && self.xmp.is_none() && self.iptc.is_none() && self.icc.is_none()
    }
}

} // verus!

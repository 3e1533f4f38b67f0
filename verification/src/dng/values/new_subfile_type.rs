use vstd::prelude::*;

verus! {

/// The main (full-resolution) raw image.
pub const MAIN_IMAGE: u32 = 0;

/// A reduced-resolution preview or thumbnail.
pub const PREVIEW_IMAGE: u32 = 1;

/// A transparency mask.
pub const TRANSPARENCY_MASK: u32 = 4;

/// A depth map.
pub const DEPTH_MAP: u32 = 8;

/// An enhanced (e.g. denoised / super-resolution) version of the main image.
pub const ENHANCED_IMAGE: u32 = 16;

/// A gain map.
pub const GAIN_MAP: u32 = 32;

/// An alternate (non-primary) preview image.
pub const ALT_PREVIEW_IMAGE: u32 = 0x0001_0001;

/// A semantic mask.
pub const SEMANTIC_MASK: u32 = 0x0001_0004;

} // verus!

//! CFA colour codes, as stored in the `CFAPattern` tag (DNG spec / TIFF-EP).
use vstd::prelude::*;

verus! {

/// Red.
pub const RED: u8 = 0;

/// Green.
pub const GREEN: u8 = 1;

/// Blue.
pub const BLUE: u8 = 2;

/// Cyan.
pub const CYAN: u8 = 3;

/// Magenta.
pub const MAGENTA: u8 = 4;

/// Yellow.
pub const YELLOW: u8 = 5;

/// White.
pub const WHITE: u8 = 6;

} // verus!

//! What a preserving rewrite reports about the `MakerNote` bytes.
use vstd::prelude::*;

verus! {

/// What happened to the `MakerNote` byte range on a rewrite. Vendor notes often hold offsets
/// relative to the TIFF header, so whether the note kept its absolute position matters.
#[derive(Debug, Clone, Copy, PartialEq, Eq)]
#[non_exhaustive]
pub enum MakerNotePreservation {
    /// The file carries no out-of-line maker note.
    Absent,
    /// The note's bytes sit at their original absolute offset: vendor-internal offsets stay
    /// valid.
    Pinned,
    /// The note's bytes are intact but moved (the original offset collides with the new
    /// directory layout); vendor-internal absolute offsets may be stale.
    Relocated,
}

} // verus!

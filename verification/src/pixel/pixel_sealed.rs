//! The seal on [`Pixel`](super::Pixel): only the layout markers of this crate are pixels.
use vstd::prelude::*;

verus! {

/// Implemented only by the layout markers, so no type outside this crate can become a pixel.
pub trait Sealed {}

} // verus!

//! The seal on [`Sample`](super::Sample): only `u8` and `u16` can be samples.
use vstd::prelude::*;

verus! {

/// Implemented only here, so no type outside this crate can become a sample.
pub trait Sealed {}

impl Sealed for u8 {}

impl Sealed for u16 {}

} // verus!

//! Laying image data out after the DNG's directory tree: data blocks begin on a word boundary.
use vstd::prelude::*;

verus! {

/// Rounds `n` up to the next even (word) boundary, so block data begins on a word boundary.
pub fn even(n: usize) -> (r: usize)
    requires
        n < usize::MAX,
    ensures
        r == n + n % 2,
        r % 2 == 0,
        n <= r <= n + 1,
{
    assert(n & 1 == n % 2) by (bit_vector);
    n + (n & 1)
}

} // verus!

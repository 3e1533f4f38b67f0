//! Undoing the `Predictor` tag (317) — the horizontal-differencing transform applied before
//! compression.
//!
//! DNG 1.7.1 allows a non-null predictor only on IFDs using Deflate, and defines the `X2`/`X4`
//! variants as differencing against the pixel two/four to the left rather than one. Readers are
//! more lenient than the specification: the integer predictors are honoured on uncompressed data
//! too, and the tag is ignored for lossless JPEG and JPEG XL, whose codecs predict internally.
//!
//! Rows are independent (the recurrence restarts every row, seeded by that row's first `channels`
//! samples), the back-reference is `channels = samples_per_pixel * x_factor` elements, and the
//! addition wraps at the container width — which is why a non-null predictor is confined to 8-
//! and 16-bit data.
use vstd::prelude::*;

use crate::dng::values::{Compression, Predictor};
use crate::error::{Error, ErrorKind, Result, ORIGIN_DNG};

verus! {

/// The refusal of a code outside the `Predictor` tag's set.
pub const MSG_UNKNOWN_PREDICTOR: &'static str = "DNG: unknown Predictor code";

/// The refusal of the floating-point predictors.
pub const MSG_FLOATING_PREDICTOR: &'static str = "DNG: floating-point predictors are not supported";

/// The refusal of a predictor over samples that are neither 8 nor 16 bits wide.
pub const MSG_PREDICTOR_DEPTH: &'static str =
    "DNG: a horizontal-difference predictor needs 8- or 16-bit samples";

/// How many pixels to the left `predictor` differences against, or `None` when it is not an
/// integer horizontal differencer.
pub open spec fn spec_x_factor(predictor: Predictor) -> Option<usize> {
    match predictor {
        Predictor::Null => Some(0),
        Predictor::HorizontalDifference => Some(1),
        Predictor::HorizontalDifferenceX2 => Some(2),
        Predictor::HorizontalDifferenceX4 => Some(4),
        _ => None,
    }
}

fn x_factor(predictor: Predictor) -> (r: Option<usize>)
    ensures
        r == spec_x_factor(predictor),
{
    match predictor {
        Predictor::Null => Some(0),
        Predictor::HorizontalDifference => Some(1),
        Predictor::HorizontalDifferenceX2 => Some(2),
        Predictor::HorizontalDifferenceX4 => Some(4),
        _ => None,
    }
}

/// The predictor whose on-disk code is `code`, if any.
pub open spec fn predictor_of(code: u32) -> Option<Predictor> {
    if code <= 0xffff && exists|p: Predictor| #[trigger] p.spec_code() == code {
        Some(choose|p: Predictor| #[trigger] p.spec_code() == code)
    } else {
        None
    }
}

/// What validating the `Predictor` tag `code` yields for an IFD compressed with `compression` at
/// `bits` bits per sample: the predictor to apply, or the refusal's message.
pub open spec fn validation(code: Option<u32>, compression: Compression, bits: u16) -> core::result::Result<
    Predictor,
    &'static str,
> {
    match code {
        None => Ok(Predictor::Null),
        Some(c) => match predictor_of(c) {
            None => Err(MSG_UNKNOWN_PREDICTOR),
            Some(p) => if p == Predictor::Null || compression == Compression::LosslessJpeg
                || compression == Compression::JpegXl {
                Ok(Predictor::Null)
            } else if spec_x_factor(p) is None {
                Err(MSG_FLOATING_PREDICTOR)
            } else if bits != 8 && bits != 16 {
                Err(MSG_PREDICTOR_DEPTH)
            } else {
                Ok(p)
            },
        },
    }
}

/// Validates the `Predictor` tag against the IFD's compression and bit depth, returning the
/// predictor to apply after each chunk is unpacked.
///
/// An absent tag, the null predictor, and any predictor on lossless JPEG or JPEG XL data yield
/// [`Predictor::Null`]. The floating-point predictors and a non-null predictor at a depth other
/// than 8 or 16 bits are [`Error::Unsupported`]; a code outside the tag's set is
/// [`Error::InvalidInput`].
pub fn validate(code: Option<u32>, compression: Compression, bits: u16) -> (r: Result<Predictor>)
    ensures
        match r {
            Ok(p) => validation(code, compression, bits) == Ok::<Predictor, &'static str>(p),
            Err(e) => validation(code, compression, bits) matches Err(m) && e.spec_static_message()
                == Some(m) && e.spec_origin() == Some(ORIGIN_DNG) && e.spec_kind() == (if m
                == MSG_UNKNOWN_PREDICTOR {
                ErrorKind::InvalidInput
            } else {
                ErrorKind::Unsupported
            }),
        },
{
    let c = match code {
        None => return Ok(Predictor::Null),
        Some(c) => c,
    };
    let found = if c <= 0xffff {
        Predictor::from_code(c as u16)
    } else {
        None
    };
    let predictor = match found {
        Some(p) => p,
        None => {
            proof {
                if c <= 0xffff {
                    assert(forall|p: Predictor| #[trigger] p.spec_code() != c);
                }
            }
            return Err(Error::invalid_input(ORIGIN_DNG, MSG_UNKNOWN_PREDICTOR));
        },
    };
    proof {
        let q = choose|p: Predictor| #[trigger] p.spec_code() == c;
        Predictor::law_code_is_injective(q, predictor);
        assert(predictor_of(c) == Some(predictor));
    }
    if predictor == Predictor::Null {
        return Ok(Predictor::Null);
    }
    if compression == Compression::LosslessJpeg || compression == Compression::JpegXl {
        return Ok(Predictor::Null);
    }
    if x_factor(predictor).is_none() {
        return Err(Error::unsupported(ORIGIN_DNG, MSG_FLOATING_PREDICTOR));
    }
    if bits != 8 && bits != 16 {
        return Err(Error::unsupported(ORIGIN_DNG, MSG_PREDICTOR_DEPTH));
    }
    Ok(predictor)
}

/// `a + b` at the container width `bits` selects: 8-bit data adds its low bytes modulo 256,
/// everything else adds modulo 2^16.
pub open spec fn wrap_add(a: nat, b: nat, bits: u16) -> nat {
    if bits <= 8 {
        (a % 256 + b % 256) % 256
    } else {
        (a + b) % 65536
    }
}

/// The reconstructed sample at offset `off` of the row starting at `base`: the first `channels`
/// samples stand as stored, every later one adds the reconstructed sample `channels` to its left.
pub open spec fn undone_sample(s: Seq<u16>, base: int, off: int, channels: int, bits: u16) -> nat
    decreases off,
{
    if off < channels || channels <= 0 {
        s[base + off] as nat
    } else {
        wrap_add(s[base + off] as nat, undone_sample(s, base, off - channels, channels, bits), bits)
    }
}

/// The row geometry `undo` works in: `(channels, row_step)`, or `None` when it leaves the buffer
/// untouched (a null or non-integer predictor, no channels, or fewer than two groups per row).
pub open spec fn undo_geometry(predictor: Predictor, cols: nat, spp: nat) -> Option<(nat, nat)> {
    match spec_x_factor(predictor) {
        None => None,
        Some(f) => {
            let ch: nat = spp * (f as nat);
            if f == 0 || ch == 0 || cols / (f as nat) < 2 {
                None
            } else {
                Some((ch, (cols / (f as nat)) * ch))
            }
        },
    }
}

/// Sample `i` after undoing the predictor over `rows` rows of `row_step` samples at `channels`
/// channels: a sample in a row that lies wholly inside the buffer is reconstructed, every other
/// sample is untouched.
pub open spec fn undone(
    s: Seq<u16>,
    i: int,
    rows: nat,
    channels: nat,
    row_step: nat,
    bits: u16,
) -> nat {
    let r = i / (row_step as int);
    if row_step > 0 && r < rows && (r + 1) * row_step <= s.len() {
        undone_sample(s, r * row_step, i - r * row_step, channels as int, bits)
    } else {
        s[i] as nat
    }
}

/// Adds at the sample's container width: 8-bit data wraps modulo 256, everything else modulo
/// 2^16.
fn wrapping_add(a: u16, b: u16, bits: u16) -> (r: u16)
    ensures
        r as nat == wrap_add(a as nat, b as nat, bits),
{
    if bits <= 8 {
        let x = (a % 256) as u8;
        let y = (b % 256) as u8;
        (x.wrapping_add(y)) as u16
    } else {
        a.wrapping_add(b)
    }
}

/// Index `i` at or past row `row` of `row_step`-sample rows lies in row `row` or later, and in
/// row `row` exactly when it is before the next row's start.
proof fn lemma_row_of(i: int, row: int, row_step: int)
    requires
        row_step > 0,
        row >= 0,
        i >= row * row_step,
    ensures
        i / row_step >= row,
        i < (row + 1) * row_step ==> i / row_step == row,
        (i / row_step) * row_step <= i < (i / row_step + 1) * row_step,
{
    vstd::arithmetic::div_mod::lemma_fundamental_div_mod(i, row_step);
    vstd::arithmetic::div_mod::lemma_mod_bound(i, row_step);
    let q = i / row_step;
    assert(q * row_step <= i < (q + 1) * row_step) by (nonlinear_arith)
        requires
            i == row_step * q + i % row_step,
            0 <= i % row_step < row_step,
    ;
    if q < row {
        assert((q + 1) * row_step <= row * row_step) by (nonlinear_arith)
            requires
                q < row,
                row_step > 0,
        ;
    }
    if i < (row + 1) * row_step && q > row {
        assert(q * row_step >= (row + 1) * row_step) by (nonlinear_arith)
            requires
                q > row,
                row_step > 0,
        ;
    }
}

/// When the row geometry does not fit in `usize`, no row fits in any buffer, so undoing the
/// predictor leaves every sample as stored.
proof fn lemma_no_row_fits(s: Seq<u16>, rows: nat, predictor: Predictor, spp: nat, cols: nat, bits: u16)
    requires
        s.len() <= usize::MAX,
        undo_geometry(predictor, cols, spp) matches Some((ch, rs)) ==> ch > usize::MAX || rs
            > usize::MAX,
    ensures
        undo_geometry(predictor, cols, spp) matches Some((ch, rs)) ==> forall|i: int|
            0 <= i < s.len() ==> #[trigger] undone(s, i, rows, ch, rs, bits) == s[i] as nat,
{
    if let Some((ch, rs)) = undo_geometry(predictor, cols, spp) {
        let f = spec_x_factor(predictor).unwrap();
        assert(rs >= ch) by (nonlinear_arith)
            requires
                rs == (cols / (f as nat)) * ch,
                cols / (f as nat) >= 2,
        ;
        assert forall|i: int| 0 <= i < s.len() implies #[trigger] undone(s, i, rows, ch, rs, bits)
            == s[i] as nat by {
            lemma_row_of(i, 0, rs as int);
            let r = i / (rs as int);
            assert((r + 1) * rs >= rs) by (nonlinear_arith)
                requires
                    r >= 0,
            ;
        }
    }
}

/// Undoes `predictor` over one chunk of `cols x rows` pixels at `spp` samples each, in place.
///
/// `samples` is the chunk's unpacked, interleaved sample buffer; `bits` selects the width the
/// addition wraps at. Rows are independent, so this is equally correct per strip, per tile, or per
/// sub-tile. Processing stops at the first row that does not fit in the buffer; a short buffer is
/// the caller's error to report.
pub fn undo(
    predictor: Predictor,
    samples: &mut [u16],
    cols: usize,
    rows: usize,
    spp: usize,
    bits: u16,
)
    ensures
        final(samples)@.len() == old(samples)@.len(),
        match undo_geometry(predictor, cols as nat, spp as nat) {
            None => final(samples)@ == old(samples)@,
            Some((channels, row_step)) => forall|i: int|
                0 <= i < old(samples)@.len() ==> #[trigger] final(samples)@[i] as nat == undone(
                    old(samples)@,
                    i,
                    rows as nat,
                    channels,
                    row_step,
                    bits,
                ),
        },
{
    let len = samples.len();
    let ghost old_s = samples@;
    let factor = match x_factor(predictor) {
        Some(f) => f,
        None => return,
    };
    if factor == 0 {
        return;
    }
    let channels = match spp.checked_mul(factor) {
        Some(c) => c,
        None => {
            proof {
                lemma_no_row_fits(old_s, rows as nat, predictor, spp as nat, cols as nat, bits);
            }
            return;
        },
    };
    let group_cols = cols / factor;
    if channels == 0 || group_cols < 2 {
        return;
    }
    let row_step = match group_cols.checked_mul(channels) {
        Some(n) => n,
        None => {
            proof {
                lemma_no_row_fits(old_s, rows as nat, predictor, spp as nat, cols as nat, bits);
            }
            return;
        },
    };
    proof {
        assert(row_step >= 2 * channels) by (nonlinear_arith)
            requires
                row_step == group_cols * channels,
                group_cols >= 2,
        ;
    }
    let mut row: usize = 0;
    let mut base: usize = 0;
    while row < rows
        invariant
            samples@.len() == len,
            old_s.len() == len,
            channels > 0,
            row_step >= 2 * channels,
            undo_geometry(predictor, cols as nat, spp as nat) == Some(
                (channels as nat, row_step as nat),
            ),
            old_s == old(samples)@,
            row <= rows,
            base == row * row_step,
            base <= len,
            forall|i: int|
                0 <= i < base ==> #[trigger] samples@[i] as nat == undone(
                    old_s,
                    i,
                    rows as nat,
                    channels as nat,
                    row_step as nat,
                    bits,
                ),
            forall|i: int| base <= i < len ==> #[trigger] samples@[i] == old_s[i],
        decreases rows - row,
    {
        if row_step > len - base {
            proof {
                assert forall|i: int| base <= i < len implies #[trigger] samples@[i] as nat
                    == undone(old_s, i, rows as nat, channels as nat, row_step as nat, bits) by {
                    lemma_row_of(i, row as int, row_step as int);
                    let r = i / (row_step as int);
                    assert((r + 1) * row_step > len) by (nonlinear_arith)
                        requires
                            r >= row,
                            base == row * row_step,
                            row_step > len - base,
                            row_step > 0,
                    ;
                }
            }
            return;
        }
        let ghost before = samples@;
        let mut i: usize = channels;
        while i < row_step
            invariant
                samples@.len() == len,
                old_s.len() == len,
                before.len() == len,
                channels > 0,
                row_step >= 2 * channels,
                channels <= i <= row_step,
                base + row_step <= len,
                forall|j: int|
                    0 <= j < i ==> #[trigger] samples@[base + j] as nat == undone_sample(
                        old_s,
                        base as int,
                        j,
                        channels as int,
                        bits,
                    ),
                forall|j: int|
                    i <= j < row_step ==> #[trigger] samples@[base + j] == old_s[base + j],
                forall|k: int|
                    0 <= k < len && !(base <= k < base + row_step) ==> #[trigger] samples@[k]
                        == before[k],
            decreases row_step - i,
        {
            let previous = samples[base + i - channels];
            let current = samples[base + i];
            let v = wrapping_add(current, previous, bits);
            proof {
                assert(samples@[base + (i - channels)] as nat == undone_sample(
                    old_s,
                    base as int,
                    i - channels,
                    channels as int,
                    bits,
                ));
                assert(samples@[base + i] == old_s[base + i]);
            }
            samples[base + i] = v;
            i = i + 1;
        }
        proof {
            assert forall|k: int| base <= k < base + row_step implies #[trigger] samples@[k] as nat
                == undone(old_s, k, rows as nat, channels as nat, row_step as nat, bits) by {
                lemma_row_of(k, row as int, row_step as int);
                assert(samples@[base + (k - base)] as nat == undone_sample(
                    old_s,
                    base as int,
                    k - base,
                    channels as int,
                    bits,
                ));
                assert((row + 1) * row_step == base + row_step) by (nonlinear_arith)
                    requires
                        base == row * row_step,
                ;
            }
        }
        row = row + 1;
        base = base + row_step;
        proof {
            assert(base == row * row_step) by (nonlinear_arith)
                requires
                    base == (row - 1) * row_step + row_step,
            ;
        }
    }
    proof {
        assert forall|i: int| base <= i < len implies #[trigger] samples@[i] as nat == undone(
            old_s,
            i,
            rows as nat,
            channels as nat,
            row_step as nat,
            bits,
        ) by {
            lemma_row_of(i, row as int, row_step as int);
        }
    }
}

} // verus!

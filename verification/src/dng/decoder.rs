//! The DNG decoder's layout helpers: the active-area extent, re-interleaving of field-stored
//! images, and resolving strip/tile offsets into byte ranges of the file.
use vstd::prelude::*;
use crate::error::{Dimensions, Error, ErrorKind, Result};
use crate::dng::levels::{LevelsModel, RawLevels, levels_refusal, MSG_ZERO_REPEAT, MSG_WHITE_LENGTH};

verus! {

/// The message for offset and byte-count arrays of different lengths.
pub const MSG_OFFSET_COUNT_MISMATCH: &'static str = "DNG: image-data offset/count length mismatch";

/// The message for a chunk that does not lie within the file.
pub const MSG_OUT_OF_BOUNDS: &'static str = "DNG: image data out of bounds";

/// The message for a chunk whose end overflows the address space.
pub const MSG_EXTENT_OVERFLOW: &'static str = "DNG: image-data extent overflow";

/// Decoder for DNG (Adobe Digital Negative) raw images.
#[non_exhaustive]
#[derive(Debug, Clone, Copy, Default, PartialEq, Eq, Structural)]
pub struct DngDecoder {}

impl DngDecoder {
    /// Creates a decoder.
    pub fn new() -> (r: Self)
        ensures
            r == (DngDecoder {}),
    {
        DngDecoder {}
    }
}

/// `b - a`, or zero when `a > b`.
pub open spec fn saturating_diff(b: u32, a: u32) -> nat {
    if a > b {
        0
    } else {
        (b - a) as nat
    }
}

/// The active-area `(width, height)` of `[top, left, bottom, right]`, defaulting to the full
/// image when the tag is absent; an inverted edge gives zero.
pub fn active_area_size(dims: Dimensions, active_area: Option<[u32; 4]>) -> (r: (usize, usize))
    ensures
        match active_area {
            Some(a) => r.0 as nat == saturating_diff(a@[3], a@[1]) && r.1 as nat == saturating_diff(
                a@[2],
                a@[0],
            ),
            None => r.0 as nat == dims.width as nat && r.1 as nat == dims.height as nat,
        },
{
    match active_area {
        Some(a) => {
            let top = a[0];
            let left = a[1];
            let bottom = a[2];
            let right = a[3];
            (right.saturating_sub(left) as usize, bottom.saturating_sub(top) as usize)
        },
        None => (dims.width as usize, dims.height as usize),
    }
}

/// The message for a `BlackLevelRepeatDim` without exactly two values.
pub const MSG_REPEAT_COUNT: &'static str = "DNG: BlackLevelRepeatDim needs two values (rows, cols)";

/// The message for a `BlackLevel` of a type that holds no unsigned levels.
pub const MSG_BLACK_TYPE: &'static str = "DNG: BlackLevel must be SHORT, LONG, or RATIONAL";

/// The message for a `BlackLevel` count that is neither one nor the whole pattern.
pub const MSG_BLACK_COUNT: &'static str =
    "DNG: BlackLevel count must be repeat rows * cols * samples per pixel";

/// The message for a `LinearizationTable` that is not SHORT.
pub const MSG_LINEARIZATION_TYPE: &'static str = "DNG: LinearizationTable must be SHORT";

/// The message for an empty `LinearizationTable`.
pub const MSG_LINEARIZATION_EMPTY: &'static str = "DNG: LinearizationTable must not be empty";

/// The message for black-level deltas that are not SRATIONAL.
pub const MSG_DELTA_TYPE: &'static str = "DNG: black-level deltas must be SRATIONAL";

/// The message for `BlackLevelDeltaH` not one per active-area column.
pub const MSG_DELTA_H: &'static str = "DNG: BlackLevelDeltaH needs one value per active-area column";

/// The message for `BlackLevelDeltaV` not one per active-area row.
pub const MSG_DELTA_V: &'static str = "DNG: BlackLevelDeltaV needs one value per active-area row";

/// The `BlackLevelRepeatDim` a tag gives: `1 x 1` when absent; refused without exactly two
/// values, or with a dimension that is zero or does not fit 16 bits.
pub open spec fn repeat_from(dim: Option<Seq<u32>>) -> std::result::Result<(u16, u16), &'static str> {
    match dim {
        None => Ok((1, 1)),
        Some(v) => {
            if v.len() != 2 {
                Err(MSG_REPEAT_COUNT)
            } else if v[0] == 0 || v[0] > 65535 || v[1] == 0 || v[1] > 65535 {
                Err(MSG_ZERO_REPEAT)
            } else {
                Ok((v[0] as u16, v[1] as u16))
            }
        },
    }
}

/// `n` values from `v`: `v` itself when it has `n`, its one value repeated when it has one.
pub open spec fn broadcast(v: Seq<u64>, n: nat) -> Option<Seq<u64>> {
    if v.len() == n {
        Some(v)
    } else if v.len() == 1 {
        Some(Seq::new(n, |i: int| v[0]))
    } else {
        None
    }
}

/// The active-area `(width, height)` as [`active_area_size`] gives it.
pub open spec fn active_size(dims: Dimensions, active_area: Option<[u32; 4]>) -> (nat, nat) {
    match active_area {
        Some(a) => (saturating_diff(a@[3], a@[1]), saturating_diff(a@[2], a@[0])),
        None => (dims.width as nat, dims.height as nat),
    }
}

/// Black-level deltas as a tag gives them: absent, of the wrong type (`Some(None)`), or the
/// values, which must number `expected`.
pub open spec fn deltas_from(
    deltas: Option<Option<Seq<u64>>>,
    expected: nat,
    count_msg: &'static str,
) -> std::result::Result<Option<Seq<u64>>, &'static str> {
    match deltas {
        None => Ok(None),
        Some(None) => Err(MSG_DELTA_TYPE),
        Some(Some(d)) => {
            if d.len() != expected {
                Err(count_msg)
            } else {
                Ok(Some(d))
            }
        },
    }
}

/// The level model the level tags give, or the first refusal: the repeat pattern; the black
/// levels (zeros when absent, refused when of the wrong type, one value broadcast to every cell,
/// else exactly one per cell); the white levels (`default_white` per plane when absent, one
/// value broadcast, else one per plane); the model's own checks; a `LinearizationTable`, which
/// must be SHORT and not empty; and the per-column, then per-row, black deltas, which must be
/// SRATIONAL and one per active-area column (row). Tag values are already converted to binary64
/// bit patterns; a type that holds none of them is `Some(None)`. A black pattern with more cells
/// than the address space holds is refused as a black count.
pub open spec fn tag_levels(
    spp: u16,
    default_white: u64,
    repeat_dim: Option<Seq<u32>>,
    black: Option<Option<Seq<u64>>>,
    white: Option<Seq<u64>>,
    linearization: Option<Option<Seq<u16>>>,
    delta_h: Option<Option<Seq<u64>>>,
    delta_v: Option<Option<Seq<u64>>>,
    active: (nat, nat),
) -> std::result::Result<LevelsModel, &'static str> {
    match repeat_from(repeat_dim) {
        Err(m) => Err(m),
        Ok(repeat) => {
            let cells = (repeat.0 as nat) * (repeat.1 as nat) * (spp as nat);
            let black_v: std::result::Result<Seq<u64>, &'static str> = if cells > usize::MAX {
                Err(MSG_BLACK_COUNT)
            } else {
                match black {
                    None => Ok(Seq::new(cells, |i: int| 0u64)),
                    Some(None) => Err(MSG_BLACK_TYPE),
                    Some(Some(v)) => match broadcast(v, cells) {
                        Some(b) => Ok(b),
                        None => Err(MSG_BLACK_COUNT),
                    },
                }
            };
            let white_v: std::result::Result<Seq<u64>, &'static str> = match white {
                None => Ok(Seq::new(spp as nat, |i: int| default_white)),
                Some(v) => match broadcast(v, spp as nat) {
                    Some(w) => Ok(w),
                    None => Err(MSG_WHITE_LENGTH),
                },
            };
            match (black_v, white_v) {
                (Err(m), _) => Err(m),
                (Ok(_), Err(m)) => Err(m),
                (Ok(b), Ok(w)) => match levels_refusal(spp, repeat, b, w) {
                    Some(m) => Err(m),
                    None => {
                        let table: std::result::Result<Option<Seq<u16>>, &'static str> = match linearization {
                            None => Ok(None),
                            Some(None) => Err(MSG_LINEARIZATION_TYPE),
                            Some(Some(t)) => if t.len() == 0 {
                                Err(MSG_LINEARIZATION_EMPTY)
                            } else {
                                Ok(Some(t))
                            },
                        };
                        match (
                            table,
                            deltas_from(delta_h, active.0, MSG_DELTA_H),
                            deltas_from(delta_v, active.1, MSG_DELTA_V),
                        ) {
                            (Err(m), _, _) => Err(m),
                            (Ok(_), Err(m), _) => Err(m),
                            (Ok(_), Ok(_), Err(m)) => Err(m),
                            (Ok(t), Ok(h), Ok(v)) => Ok(
                                LevelsModel {
                                    black_repeat: repeat,
                                    black: b,
                                    black_delta_h: h,
                                    black_delta_v: v,
                                    white: w,
                                    linearization_table: t,
                                },
                            ),
                        }
                    },
                },
            }
        },
    }
}

/// `n` copies of `v`.
fn filled(v: u64, n: usize) -> (r: Vec<u64>)
    ensures
        r@ == Seq::new(n as nat, |i: int| v),
{
    let mut out: Vec<u64> = Vec::new();
    let mut i: usize = 0;
    while i < n
        invariant
            i <= n,
            out@ == Seq::new(i as nat, |k: int| v),
        decreases n - i,
    {
        out.push(v);
        i = i + 1;
        proof {
            assert(out@ =~= Seq::new(i as nat, |k: int| v));
        }
    }
    out
}

/// `n` values from `values` as [`broadcast`] says, or `None`.
fn broadcast_values(values: Vec<u64>, n: usize) -> (r: Option<Vec<u64>>)
    ensures
        match r {
            Some(b) => broadcast(values@, n as nat) == Some(b@),
            None => broadcast(values@, n as nat) is None,
        },
{
    if values.len() == n {
        Some(values)
    } else if values.len() == 1 {
        Some(filled(values[0], n))
    } else {
        None
    }
}

/// The black-level deltas a tag gives, as [`deltas_from`] says.
fn check_deltas(deltas: Option<Option<Vec<u64>>>, expected: usize, count_msg: &'static str) -> (r:
    Result<Option<Vec<u64>>>)
    ensures
        match r {
            Ok(d) => deltas_from(opt_opt_view(deltas), expected as nat, count_msg) == Ok::<
                Option<Seq<u64>>,
                &'static str,
            >(opt_vec_view(d)),
            Err(e) => deltas_from(opt_opt_view(deltas), expected as nat, count_msg) == Err::<
                Option<Seq<u64>>,
                &'static str,
            >(e.spec_static_message().unwrap()) && e.spec_kind() == ErrorKind::InvalidInput
                && e.spec_static_message() is Some,
        },
{
    match deltas {
        None => Ok(None),
        Some(None) => Err(Error::InvalidInput(MSG_DELTA_TYPE)),
        Some(Some(d)) => {
            if d.len() != expected {
                Err(Error::InvalidInput(count_msg))
            } else {
                Ok(Some(d))
            }
        },
    }
}

/// The view of an optional vector.
pub open spec fn opt_vec_view<T>(v: Option<Vec<T>>) -> Option<Seq<T>> {
    match v {
        Some(x) => Some(x@),
        None => None,
    }
}

/// The view of an optional, possibly mistyped, vector.
pub open spec fn opt_opt_view<T>(v: Option<Option<Vec<T>>>) -> Option<Option<Seq<T>>> {
    match v {
        Some(Some(x)) => Some(Some(x@)),
        Some(None) => Some(None),
        None => None,
    }
}

/// Builds the level model from the level tags (DNG 1.7.1 `BlackLevelRepeatDim`, `BlackLevel`,
/// `WhiteLevel`, `LinearizationTable`, `BlackLevelDeltaH`/`V`), with their values already
/// converted to binary64 bit patterns (`Some(None)` for a tag of a type that holds none);
/// `default_white` is the white level of a plane without a `WhiteLevel` (`2^bits - 1`). The
/// deltas are checked against the active area of `dims`. Refused as [`tag_levels`] says.
pub fn decode_levels(
    spp: u16,
    default_white: u64,
    repeat_dim: Option<Vec<u32>>,
    black: Option<Option<Vec<u64>>>,
    white: Option<Vec<u64>>,
    linearization: Option<Option<Vec<u16>>>,
    delta_h: Option<Option<Vec<u64>>>,
    delta_v: Option<Option<Vec<u64>>>,
    dims: Dimensions,
    active_area: Option<[u32; 4]>,
) -> (r: Result<RawLevels>)
    ensures
        match r {
            Ok(l) => tag_levels(
                spp,
                default_white,
                opt_vec_view(repeat_dim),
                opt_opt_view(black),
                opt_vec_view(white),
                opt_opt_view(linearization),
                opt_opt_view(delta_h),
                opt_opt_view(delta_v),
                active_size(dims, active_area),
            ) == Ok::<LevelsModel, &'static str>(l@),
            Err(e) => e.spec_kind() == ErrorKind::InvalidInput && e.spec_static_message() is Some
                && tag_levels(
                spp,
                default_white,
                opt_vec_view(repeat_dim),
                opt_opt_view(black),
                opt_vec_view(white),
                opt_opt_view(linearization),
                opt_opt_view(delta_h),
                opt_opt_view(delta_v),
                active_size(dims, active_area),
            ) == Err::<LevelsModel, &'static str>(e.spec_static_message().unwrap()),
        },
{
    let repeat: (u16, u16) = match repeat_dim {
        None => (1, 1),
        Some(v) => {
            if v.len() != 2 {
                return Err(Error::InvalidInput(MSG_REPEAT_COUNT));
            }
            if v[0] == 0 || v[0] > 65535 || v[1] == 0 || v[1] > 65535 {
                return Err(Error::InvalidInput(MSG_ZERO_REPEAT));
            }
            (v[0] as u16, v[1] as u16)
        },
    };
    proof {
        assert(repeat.0 as nat * repeat.1 as nat <= 65535 * 65535) by (nonlinear_arith)
            requires
                repeat.0 <= 65535,
                repeat.1 <= 65535,
        ;
        assert(repeat.0 as nat * repeat.1 as nat * spp as nat <= 65535 * 65535 * 65535)
            by (nonlinear_arith)
            requires
                repeat.0 as nat * repeat.1 as nat <= 65535 * 65535,
                spp <= 65535,
        ;
    }
    let cells64: u64 = (repeat.0 as u64) * (repeat.1 as u64) * (spp as u64);
    if cells64 > usize::MAX as u64 {
        return Err(Error::InvalidInput(MSG_BLACK_COUNT));
    }
    let cells = cells64 as usize;
    let black_v = match black {
        None => filled(0, cells),
        Some(None) => return Err(Error::InvalidInput(MSG_BLACK_TYPE)),
        Some(Some(v)) => match broadcast_values(v, cells) {
            Some(b) => b,
            None => return Err(Error::InvalidInput(MSG_BLACK_COUNT)),
        },
    };
    let white_v = match white {
        None => filled(default_white, spp as usize),
        Some(v) => match broadcast_values(v, spp as usize) {
            Some(w) => w,
            None => return Err(Error::InvalidInput(MSG_WHITE_LENGTH)),
        },
    };
    let mut levels = RawLevels::new(spp, repeat, black_v, white_v)?;
    match linearization {
        None => {},
        Some(None) => return Err(Error::InvalidInput(MSG_LINEARIZATION_TYPE)),
        Some(Some(table)) => {
            if table.len() == 0 {
                return Err(Error::InvalidInput(MSG_LINEARIZATION_EMPTY));
            }
            levels = levels.with_linearization_table(table);
        },
    }
    let (aa_width, aa_height) = active_area_size(dims, active_area);
    if let Some(deltas) = check_deltas(delta_h, aa_width, MSG_DELTA_H)? {
        levels = levels.with_black_delta_h(deltas);
    }
    if let Some(deltas) = check_deltas(delta_v, aa_height, MSG_DELTA_V)? {
        levels = levels.with_black_delta_v(deltas);
    }
    Ok(levels)
}

/// Where field `index` of a `len`-line axis split into `factor` fields starts: each field holds
/// `len / factor` lines, the first `len % factor` fields one more.
pub open spec fn field_offset(index: nat, len: nat, factor: nat) -> nat {
    index * (len / factor) + if index < len % factor {
        index
    } else {
        len % factor
    }
}

/// The stored line of logical line `pos`: the start of its field, plus its rank in the field.
pub open spec fn stored_line(pos: nat, len: nat, factor: nat) -> nat {
    field_offset(pos % factor, len, factor) + pos / factor
}

/// The stored position of logical sample `k` of a `width × height` image with `spp` samples per
/// pixel, stored as `row_factor` row fields and `col_factor` column fields.
pub open spec fn stored_index(
    k: nat,
    width: nat,
    height: nat,
    spp: nat,
    row_factor: nat,
    col_factor: nat,
) -> nat {
    let p = k / spp;
    let r = p / width;
    let c = p % width;
    (stored_line(r, height, row_factor) * width + stored_line(c, width, col_factor)) * spp + k
        % spp
}

/// The logical image of field-stored `samples`: each of the `width * height * spp` leading
/// samples read from its stored position; any samples past those read as zero.
pub open spec fn deinterleaved(
    samples: Seq<u16>,
    width: nat,
    height: nat,
    spp: nat,
    row_factor: nat,
    col_factor: nat,
) -> Seq<u16> {
    Seq::new(
        samples.len(),
        |k: int|
            if k < width * height * spp {
                samples[stored_index(k as nat, width, height, spp, row_factor, col_factor) as int]
            } else {
                0u16
            },
    )
}

/// A stored line lies within its axis.
proof fn lemma_stored_line_bound(pos: nat, len: nat, factor: nat)
    requires
        factor >= 1,
        pos < len,
    ensures
        stored_line(pos, len, factor) < len,
{
    let i = pos % factor;
    let q = pos / factor;
    let d = len / factor;
    let m = len % factor;
    vstd::arithmetic::div_mod::lemma_fundamental_div_mod(pos as int, factor as int);
    vstd::arithmetic::div_mod::lemma_fundamental_div_mod(len as int, factor as int);
    vstd::arithmetic::div_mod::lemma_mod_bound(pos as int, factor as int);
    vstd::arithmetic::div_mod::lemma_mod_bound(len as int, factor as int);
    if i < m {
        assert(i * d + i + q < len) by (nonlinear_arith)
            requires
                pos == factor * q + i,
                len == factor * d + m,
                0 <= i < m < factor,
                pos < len,
                q >= 0,
                d >= 0,
        {
            assert(q <= d) by {
                if q > d {
                    assert(factor * q >= factor * (d + 1));
                }
            }
            assert((i + 1) * d <= factor * d);
        }
    } else {
        assert(i * d + m + q < len) by (nonlinear_arith)
            requires
                pos == factor * q + i,
                len == factor * d + m,
                0 <= m <= i < factor,
                pos < len,
                q >= 0,
                d >= 0,
        {
            assert(q < d) by {
                if q >= d {
                    assert(factor * q >= factor * d);
                }
            }
            assert((i + 1) * d <= factor * d);
        }
    }
}

/// Sample `s` of pixel `(r, c)` sits at `(r * width + c) * spp + s`.
proof fn lemma_cell(r: nat, c: nat, s: nat, width: nat, height: nat, spp: nat)
    requires
        r < height,
        c < width,
        s < spp,
    ensures
        ((r * width + c) * spp + s) / spp == r * width + c,
        ((r * width + c) * spp + s) % spp == s,
        (r * width + c) / width == r,
        (r * width + c) % width == c,
{
    vstd::arithmetic::div_mod::lemma_fundamental_div_mod_converse(
        ((r * width + c) * spp + s) as int,
        spp as int,
        (r * width + c) as int,
        s as int,
    );
    vstd::arithmetic::div_mod::lemma_fundamental_div_mod_converse(
        (r * width + c) as int,
        width as int,
        r as int,
        c as int,
    );
}

/// The samples of pixel `(r, c)` lie within the image.
proof fn lemma_cell_bound(r: nat, c: nat, width: nat, height: nat, spp: nat)
    requires
        r < height,
        c < width,
    ensures
        (r * width + c) * spp + spp <= width * height * spp,
{
    assert((r * width + c) * spp + spp <= width * height * spp) by (nonlinear_arith)
        requires
            r < height,
            c < width,
    {
        assert(r * width + c + 1 <= (r + 1) * width);
        assert((r + 1) * width <= height * width);
        assert((r * width + c + 1) * spp <= (height * width) * spp);
    }
}

/// Re-interleaves a stored field-concatenated image into logical pixel order (the decode
/// direction of the SDK's `Interleave2D`).
///
/// With factors `(rf, cf)`, the stored image stacks `rf` row fields (field `i` holds logical
/// rows `r` with `r % rf == i`) and, within each, `cf` column fields likewise; field `i` gets
/// `len / factor` rows/columns, with the first `len % factor` fields one longer.
pub fn deinterleave(
    samples: &[u16],
    width: usize,
    height: usize,
    spp: usize,
    row_factor: usize,
    col_factor: usize,
) -> (out: Vec<u16>)
    requires
        row_factor >= 1,
        col_factor >= 1,
        samples@.len() >= width * height * spp,
    ensures
        out@ == deinterleaved(
            samples@,
            width as nat,
            height as nat,
            spp as nat,
            row_factor as nat,
            col_factor as nat,
        ),
{
    let ghost target = deinterleaved(
        samples@,
        width as nat,
        height as nat,
        spp as nat,
        row_factor as nat,
        col_factor as nat,
    );
    let ghost total = width * height * spp;
    let n = samples.len();
    let mut out: Vec<u16> = Vec::new();
    while out.len() < n
        invariant
            out@.len() <= n,
            n == samples@.len(),
            forall|k: int| 0 <= k < out@.len() ==> #[trigger] out@[k] == 0u16,
        decreases n - out@.len(),
    {
        out.push(0u16);
    }
    if spp == 0 {
        proof {
            assert(out@ =~= target);
        }
        return out;
    }
    let mut r: usize = 0;
    proof {
        assert((0 * width) * spp == 0) by (nonlinear_arith);
    }
    while r < height
        invariant
            spp >= 1,
            r <= height,
            out@.len() == n,
            n == samples@.len(),
            samples@.len() >= total,
            total == width * height * spp,
            row_factor >= 1,
            col_factor >= 1,
            target == deinterleaved(
                samples@,
                width as nat,
                height as nat,
                spp as nat,
                row_factor as nat,
                col_factor as nat,
            ),
            forall|k: int| 0 <= k < (r * width) * spp ==> #[trigger] out@[k] == target[k],
            forall|k: int| total <= k < n ==> #[trigger] out@[k] == 0u16,
        decreases height - r,
    {
        let mut c: usize = 0;
        while c < width
            invariant
                spp >= 1,
                r < height,
                c <= width,
                out@.len() == n,
                n == samples@.len(),
                samples@.len() >= total,
                total == width * height * spp,
                row_factor >= 1,
                col_factor >= 1,
                target == deinterleaved(
                    samples@,
                    width as nat,
                    height as nat,
                    spp as nat,
                    row_factor as nat,
                    col_factor as nat,
                ),
                forall|k: int| 0 <= k < (r * width + c) * spp ==> #[trigger] out@[k] == target[k],
                forall|k: int| total <= k < n ==> #[trigger] out@[k] == 0u16,
            decreases width - c,
        {
            proof {
                lemma_stored_line_bound(r as nat, height as nat, row_factor as nat);
                lemma_stored_line_bound(c as nat, width as nat, col_factor as nat);
                lemma_cell_bound(r as nat, c as nat, width as nat, height as nat, spp as nat);
                lemma_cell_bound(
                    stored_line(r as nat, height as nat, row_factor as nat),
                    stored_line(c as nat, width as nat, col_factor as nat),
                    width as nat,
                    height as nat,
                    spp as nat,
                );
            }
            let field_r = r % row_factor;
            let rows_per = height / row_factor;
            let extra_r = height % row_factor;
            let src_r = field_r * rows_per + (if field_r < extra_r {
                field_r
            } else {
                extra_r
            }) + r / row_factor;
            let field_c = c % col_factor;
            let cols_per = width / col_factor;
            let extra_c = width % col_factor;
            let src_c = field_c * cols_per + (if field_c < extra_c {
                field_c
            } else {
                extra_c
            }) + c / col_factor;
            assert(src_r == stored_line(r as nat, height as nat, row_factor as nat));
            assert(src_c == stored_line(c as nat, width as nat, col_factor as nat));
            assert((src_r * width + src_c) * spp + spp <= total);
            assert(src_r * width + src_c <= (src_r * width + src_c) * spp) by (nonlinear_arith)
                requires
                    spp >= 1,
            ;
            assert(r * width + c <= (r * width + c) * spp) by (nonlinear_arith)
                requires
                    spp >= 1,
            ;
            let src = (src_r * width + src_c) * spp;
            let dst = (r * width + c) * spp;
            let mut s: usize = 0;
            while s < spp
                invariant
                    r < height,
                    c < width,
                    s <= spp,
                    out@.len() == n,
                    n == samples@.len(),
                    samples@.len() >= total,
                    total == width * height * spp,
                    row_factor >= 1,
                    col_factor >= 1,
                    src_r == stored_line(r as nat, height as nat, row_factor as nat),
                    src_c == stored_line(c as nat, width as nat, col_factor as nat),
                    src_r < height,
                    src_c < width,
                    src == (src_r * width + src_c) * spp,
                    dst == (r * width + c) * spp,
                    src + spp <= total,
                    dst + spp <= total,
                    target == deinterleaved(
                        samples@,
                        width as nat,
                        height as nat,
                        spp as nat,
                        row_factor as nat,
                        col_factor as nat,
                    ),
                    forall|k: int| 0 <= k < dst + s ==> #[trigger] out@[k] == target[k],
                    forall|k: int| total <= k < n ==> #[trigger] out@[k] == 0u16,
                decreases spp - s,
            {
                proof {
                    lemma_cell(r as nat, c as nat, s as nat, width as nat, height as nat, spp as nat);
                    assert(stored_index(
                        (dst + s) as nat,
                        width as nat,
                        height as nat,
                        spp as nat,
                        row_factor as nat,
                        col_factor as nat,
                    ) == src + s);
                }
                let v = samples[src + s];
                out.set(dst + s, v);
                s = s + 1;
            }
            c = c + 1;
            proof {
                assert((r * width + c) * spp == dst + spp) by (nonlinear_arith)
                    requires
                        dst == (r * width + (c - 1)) * spp,
                ;
            }
        }
        r = r + 1;
        proof {
            assert((r * width) * spp == ((r - 1) * width + width) * spp) by (nonlinear_arith);
        }
    }
    proof {
        assert((height * width) * spp == width * height * spp) by (nonlinear_arith);
        assert(out@ =~= target);
    }
    out
}

/// Why the chunk of `count` bytes at `offset` cannot be read from `len` bytes of file, if it
/// cannot: an offset past the address space or the file is out of bounds, an extent past the
/// address space overflows.
pub open spec fn chunk_fault(offset: u64, count: u64, len: nat) -> Option<&'static str> {
    if offset > usize::MAX {
        Some(MSG_OUT_OF_BOUNDS)
    } else if count > usize::MAX || offset + count > usize::MAX {
        Some(MSG_EXTENT_OVERFLOW)
    } else if offset + count > len {
        Some(MSG_OUT_OF_BOUNDS)
    } else {
        None
    }
}

/// Resolves parallel offset/byte-count arrays into in-bounds byte slices of `data`: all of them,
/// in order, when every chunk lies within the file; otherwise the fault of the first chunk that
/// does not (or a length mismatch of the two arrays).
pub fn byte_chunks<'a>(offsets: &[u64], counts: &[u64], data: &'a [u8]) -> (r: Result<
    Vec<&'a [u8]>,
>)
    ensures
        offsets@.len() != counts@.len() ==> (r matches Err(e) && e.spec_kind()
            == ErrorKind::InvalidInput && e.spec_static_message() == Some(
            MSG_OFFSET_COUNT_MISMATCH,
        )),
        offsets@.len() == counts@.len() ==> match r {
            Ok(v) => {
                &&& v@.len() == offsets@.len()
                &&& forall|i: int|
                    0 <= i < offsets@.len() ==> chunk_fault(
                        #[trigger] offsets@[i],
                        counts@[i],
                        data@.len(),
                    ) is None && v@[i]@ == data@.subrange(
                        offsets@[i] as int,
                        offsets@[i] + counts@[i],
                    )
            },
            Err(e) => exists|i: int|
                {
                    &&& 0 <= i < offsets@.len()
                    &&& forall|j: int|
                        0 <= j < i ==> chunk_fault(#[trigger] offsets@[j], counts@[j], data@.len())
                            is None
                    &&& chunk_fault(offsets@[i], counts@[i], data@.len()) == e.spec_static_message()
                    &&& e.spec_kind() == ErrorKind::InvalidInput
                },
        },
{
    if offsets.len() != counts.len() {
        return Err(Error::InvalidInput(MSG_OFFSET_COUNT_MISMATCH));
    }
    let mut chunks: Vec<&'a [u8]> = Vec::new();
    let mut i: usize = 0;
    while i < offsets.len()
        invariant
            i <= offsets@.len(),
            offsets@.len() == counts@.len(),
            chunks@.len() == i,
            forall|j: int|
                0 <= j < i ==> chunk_fault(#[trigger] offsets@[j], counts@[j], data@.len()) is None
                    && chunks@[j]@ == data@.subrange(offsets@[j] as int, offsets@[j] + counts@[j]),
        decreases offsets@.len() - i,
    {
        let offset = offsets[i];
        let count = counts[i];
        if offset > usize::MAX as u64 {
            return Err(Error::InvalidInput(MSG_OUT_OF_BOUNDS));
        }
        let start = offset as usize;
        if count > usize::MAX as u64 {
            return Err(Error::InvalidInput(MSG_EXTENT_OVERFLOW));
        }
        let end = match start.checked_add(count as usize) {
            Some(e) => e,
            None => {
                return Err(Error::InvalidInput(MSG_EXTENT_OVERFLOW));
            },
        };
        if end > data.len() {
            return Err(Error::InvalidInput(MSG_OUT_OF_BOUNDS));
        }
        chunks.push(&data[start..end]);
        i = i + 1;
    }
    Ok(chunks)
}

} // verus!

//! The DNG level model: the `BlackLevel` pattern with its optional per-column and per-row
//! deltas, the per-plane `WhiteLevel`, and the optional `LinearizationTable`.
//!
//! The black pattern is a `BlackLevelRepeatDim`-sized tile of per-cell, per-plane values,
//! anchored at the active area's top-left corner. Levels may be fractional, so they are binary64
//! values, held here as their IEEE 754 bit patterns.
use vstd::prelude::*;
use crate::error::{Error, Result};

verus! {

/// The message for levels without a sample plane.
pub const MSG_NO_PLANES: &'static str = "DNG: levels need at least one sample plane";

/// The message for a zero `BlackLevelRepeatDim` dimension.
pub const MSG_ZERO_REPEAT: &'static str = "DNG: BlackLevelRepeatDim dimensions must be non-zero";

/// The message for a black pattern of the wrong length.
pub const MSG_BLACK_LENGTH: &'static str =
    "DNG: BlackLevel length must be repeat rows * cols * samples per pixel";

/// The message for white levels not one per plane.
pub const MSG_WHITE_LENGTH: &'static str = "DNG: WhiteLevel needs one value per sample plane";

/// The message for a negative or non-finite black level.
pub const MSG_BLACK_RANGE: &'static str = "DNG: black levels must be finite and non-negative";

/// The message for a non-positive or non-finite white level.
pub const MSG_WHITE_RANGE: &'static str = "DNG: white levels must be finite and positive";

/// A binary64 bit pattern is finite: its exponent field is not all ones.
pub open spec fn f64_finite(bits: u64) -> bool {
    (bits / 0x10_0000_0000_0000) % 2048 != 2047
}

/// A black level is accepted: finite and not below zero (`-0.0` is not below zero).
pub open spec fn black_ok(bits: u64) -> bool {
    f64_finite(bits) && bits <= 0x8000_0000_0000_0000
}

/// A white level is accepted: finite and above zero (sign clear, not zero).
pub open spec fn white_ok(bits: u64) -> bool {
    f64_finite(bits) && 0 < bits < 0x8000_0000_0000_0000
}

/// Why levels with these shapes and values are refused, the first reason in the order they are
/// checked: no plane, a zero repeat dimension, a black pattern other than `rows * cols * spp`
/// long, white levels not one per plane, a black level negative or not finite, a white level
/// not above zero or not finite.
pub open spec fn levels_refusal(
    samples_per_pixel: u16,
    black_repeat: (u16, u16),
    black: Seq<u64>,
    white: Seq<u64>,
) -> Option<&'static str> {
    if samples_per_pixel == 0 {
        Some(MSG_NO_PLANES)
    } else if black_repeat.0 == 0 || black_repeat.1 == 0 {
        Some(MSG_ZERO_REPEAT)
    } else if black.len() != black_repeat.0 * black_repeat.1 * samples_per_pixel {
        Some(MSG_BLACK_LENGTH)
    } else if white.len() != samples_per_pixel {
        Some(MSG_WHITE_LENGTH)
    } else if exists|i: int| 0 <= i < black.len() && !black_ok(#[trigger] black[i]) {
        Some(MSG_BLACK_RANGE)
    } else if exists|i: int| 0 <= i < white.len() && !white_ok(#[trigger] white[i]) {
        Some(MSG_WHITE_RANGE)
    } else {
        None
    }
}

/// The level family, as spec values.
pub struct LevelsModel {
    pub black_repeat: (u16, u16),
    pub black: Seq<u64>,
    pub black_delta_h: Option<Seq<u64>>,
    pub black_delta_v: Option<Seq<u64>>,
    pub white: Seq<u64>,
    pub linearization_table: Option<Seq<u16>>,
}

/// The DNG level family for one raw image: the `BlackLevel` pattern (`rows * cols *
/// samples_per_pixel` values in row, column, sample order), optional per-column and per-row
/// black deltas, one `WhiteLevel` per plane, and an optional `LinearizationTable`. Levels are
/// binary64 bit patterns.
#[derive(Debug, PartialEq, Eq)]
pub struct RawLevels {
    repeat_rows: u16,
    repeat_cols: u16,
    black: Vec<u64>,
    black_delta_h: Option<Vec<u64>>,
    black_delta_v: Option<Vec<u64>>,
    white: Vec<u64>,
    linearization_table: Option<Vec<u16>>,
}

/// The view of optional values.
pub open spec fn opt_view<T>(v: Option<Vec<T>>) -> Option<Seq<T>> {
    match v {
        Some(x) => Some(x@),
        None => None,
    }
}

/// A copy of `v`.
pub(crate) fn copy_of<T: Copy>(v: &[T]) -> (r: Vec<T>)
    ensures
        r@ == v@,
{
    let mut out: Vec<T> = Vec::new();
    let mut i: usize = 0;
    while i < v.len()
        invariant
            i <= v@.len(),
            out@ == v@.take(i as int),
        decreases v@.len() - i,
    {
        out.push(v[i]);
        i = i + 1;
        assert(out@ =~= v@.take(i as int));
    }
    assert(v@.take(v@.len() as int) =~= v@);
    out
}

/// A copy of an optional vector.
fn copy_opt<T: Copy>(v: &Option<Vec<T>>) -> (r: Option<Vec<T>>)
    ensures
        opt_view(r) == opt_view(*v),
{
    match v {
        Some(x) => Some(copy_of(x.as_slice())),
        None => None,
    }
}

impl Clone for RawLevels {
    /// A copy with the same levels.
    fn clone(&self) -> (r: Self)
        ensures
            r@ == self@,
    {
        proof {
            use_type_invariant(self);
        }
        RawLevels {
            repeat_rows: self.repeat_rows,
            repeat_cols: self.repeat_cols,
            black: copy_of(self.black.as_slice()),
            black_delta_h: copy_opt(&self.black_delta_h),
            black_delta_v: copy_opt(&self.black_delta_v),
            white: copy_of(self.white.as_slice()),
            linearization_table: copy_opt(&self.linearization_table),
        }
    }
}

impl View for RawLevels {
    type V = LevelsModel;

    closed spec fn view(&self) -> LevelsModel {
        LevelsModel {
            black_repeat: (self.repeat_rows, self.repeat_cols),
            black: self.black@,
            black_delta_h: opt_view(self.black_delta_h),
            black_delta_v: opt_view(self.black_delta_v),
            white: self.white@,
            linearization_table: opt_view(self.linearization_table),
        }
    }
}

impl RawLevels {
    /// The pattern has non-zero dimensions, one to 65535 planes, and one black level per cell
    /// and plane.
    #[verifier::type_invariant]
    spec fn shaped(self) -> bool {
        &&& self.repeat_rows > 0
        &&& self.repeat_cols > 0
        &&& 0 < self.white@.len() <= 65535
        &&& self.black@.len() == self.repeat_rows * self.repeat_cols * self.white@.len()
    }

    /// Creates a full pattern model: `black_repeat` is the `BlackLevelRepeatDim` `(rows,
    /// cols)`, `black` holds `rows * cols * samples_per_pixel` values in row, column, sample
    /// order, and `white` one saturation value per plane.
    ///
    /// Fails with [`Error::InvalidInput`] as [`levels_refusal`] says.
    pub fn new(
        samples_per_pixel: u16,
        black_repeat: (u16, u16),
        black: Vec<u64>,
        white: Vec<u64>,
    ) -> (r: Result<Self>)
        ensures
            match levels_refusal(samples_per_pixel, black_repeat, black@, white@) {
                None => r matches Ok(l) && l@ == (LevelsModel {
                    black_repeat,
                    black: black@,
                    black_delta_h: None,
                    black_delta_v: None,
                    white: white@,
                    linearization_table: None,
                }),
                Some(msg) => r == Err::<Self, Error>(Error::InvalidInput(msg)),
            },
    {
        let (rows, cols) = black_repeat;
        if samples_per_pixel == 0 {
            return Err(Error::InvalidInput(MSG_NO_PLANES));
        }
        if rows == 0 || cols == 0 {
            return Err(Error::InvalidInput(MSG_ZERO_REPEAT));
        }
        proof {
            assert(rows as nat * cols as nat <= 65535 * 65535) by (nonlinear_arith)
                requires
                    rows <= 65535,
                    cols <= 65535,
            ;
            assert(rows as nat * cols as nat * samples_per_pixel as nat <= 65535 * 65535 * 65535)
                by (nonlinear_arith)
                requires
                    rows as nat * cols as nat <= 65535 * 65535,
                    samples_per_pixel <= 65535,
            ;
        }
        let cells = (rows as u64) * (cols as u64) * (samples_per_pixel as u64);
        if black.len() as u64 != cells {
            return Err(Error::InvalidInput(MSG_BLACK_LENGTH));
        }
        if white.len() != samples_per_pixel as usize {
            return Err(Error::InvalidInput(MSG_WHITE_LENGTH));
        }
        let mut i: usize = 0;
        while i < black.len()
            invariant
                i <= black@.len(),
                samples_per_pixel != 0,
                rows != 0 && cols != 0,
                black_repeat == (rows, cols),
                black@.len() == rows * cols * samples_per_pixel,
                white@.len() == samples_per_pixel,
                forall|k: int| 0 <= k < i ==> black_ok(#[trigger] black@[k]),
            decreases black@.len() - i,
        {
            let v = black[i];
            if v / 0x10_0000_0000_0000 % 2048 == 2047 || v > 0x8000_0000_0000_0000 {
                proof {
                    assert(!black_ok(black@[i as int]));
                }
                return Err(Error::InvalidInput(MSG_BLACK_RANGE));
            }
            i = i + 1;
        }
        let mut i: usize = 0;
        while i < white.len()
            invariant
                i <= white@.len(),
                samples_per_pixel != 0,
                rows != 0 && cols != 0,
                black_repeat == (rows, cols),
                black@.len() == rows * cols * samples_per_pixel,
                white@.len() == samples_per_pixel,
                forall|k: int| 0 <= k < black@.len() ==> black_ok(#[trigger] black@[k]),
                forall|k: int| 0 <= k < i ==> white_ok(#[trigger] white@[k]),
            decreases white@.len() - i,
        {
            let v = white[i];
            if v / 0x10_0000_0000_0000 % 2048 == 2047 || v == 0 || v >= 0x8000_0000_0000_0000 {
                proof {
                    assert(!white_ok(white@[i as int]));
                }
                return Err(Error::InvalidInput(MSG_WHITE_RANGE));
            }
            i = i + 1;
        }
        Ok(
            RawLevels {
                repeat_rows: rows,
                repeat_cols: cols,
                black,
                black_delta_h: None,
                black_delta_v: None,
                white,
                linearization_table: None,
            },
        )
    }

    /// Creates the common uniform model: one black and one white level shared by every plane
    /// (`BlackLevelRepeatDim = 1 x 1`).
    pub fn uniform(samples_per_pixel: u16, black: u64, white: u64) -> (r: Result<Self>)
        ensures
            match levels_refusal(
                samples_per_pixel,
                (1, 1),
                Seq::new(samples_per_pixel as nat, |i: int| black),
                Seq::new(samples_per_pixel as nat, |i: int| white),
            ) {
                None => r matches Ok(l) && l@ == (LevelsModel {
                    black_repeat: (1, 1),
                    black: Seq::new(samples_per_pixel as nat, |i: int| black),
                    black_delta_h: None,
                    black_delta_v: None,
                    white: Seq::new(samples_per_pixel as nat, |i: int| white),
                    linearization_table: None,
                }),
                Some(msg) => r == Err::<Self, Error>(Error::InvalidInput(msg)),
            },
    {
        let spp = samples_per_pixel as usize;
        let mut blacks: Vec<u64> = Vec::new();
        let mut whites: Vec<u64> = Vec::new();
        let mut i: usize = 0;
        while i < spp
            invariant
                i <= spp,
                spp == samples_per_pixel,
                blacks@ == Seq::new(i as nat, |k: int| black),
                whites@ == Seq::new(i as nat, |k: int| white),
            decreases spp - i,
        {
            blacks.push(black);
            whites.push(white);
            i = i + 1;
            assert(blacks@ =~= Seq::new(i as nat, |k: int| black));
            assert(whites@ =~= Seq::new(i as nat, |k: int| white));
        }
        Self::new(samples_per_pixel, (1, 1), blacks, whites)
    }

    /// Sets the per-column black deltas (`BlackLevelDeltaH`), one per active-area column.
    pub fn with_black_delta_h(self, deltas: Vec<u64>) -> (r: Self)
        ensures
            r@ == (LevelsModel { black_delta_h: Some(deltas@), ..self@ }),
    {
        proof {
            use_type_invariant(&self);
        }
        RawLevels { black_delta_h: Some(deltas), ..self }
    }

    /// Sets the per-row black deltas (`BlackLevelDeltaV`), one per active-area row.
    pub fn with_black_delta_v(self, deltas: Vec<u64>) -> (r: Self)
        ensures
            r@ == (LevelsModel { black_delta_v: Some(deltas@), ..self@ }),
    {
        proof {
            use_type_invariant(&self);
        }
        RawLevels { black_delta_v: Some(deltas), ..self }
    }

    /// Sets the `LinearizationTable`: stored values index into it before black subtraction.
    pub fn with_linearization_table(self, table: Vec<u16>) -> (r: Self)
        ensures
            r@ == (LevelsModel { linearization_table: Some(table@), ..self@ }),
    {
        proof {
            use_type_invariant(&self);
        }
        RawLevels { linearization_table: Some(table), ..self }
    }

    /// The `BlackLevelRepeatDim` `(rows, cols)`.
    pub fn black_repeat(&self) -> (r: (u16, u16))
        ensures
            r == self@.black_repeat,
    {
        (self.repeat_rows, self.repeat_cols)
    }

    /// The black pattern, in row, column, sample order.
    pub fn black(&self) -> (r: &[u64])
        ensures
            r@ == self@.black,
    {
        self.black.as_slice()
    }

    /// The pattern black level of `plane` at active-area-relative `(row, col)`: rows and
    /// columns wrap modulo the repeat pattern; a plane past the last is `None`.
    pub fn black_at(&self, row: usize, col: usize, plane: usize) -> (r: Option<u64>)
        ensures
            ({
                let m = self@;
                let spp = m.white.len();
                if plane >= spp {
                    r is None
                } else {
                    r == Some(
                        m.black[((row as nat % (m.black_repeat.0 as nat)) * m.black_repeat.1
                            + col as nat % (m.black_repeat.1 as nat)) * spp + plane],
                    )
                }
            }),
    {
        proof {
            use_type_invariant(self);
        }
        let rows = self.repeat_rows as usize;
        let cols = self.repeat_cols as usize;
        let spp = self.white.len();
        if plane >= spp {
            return None;
        }
        let n = self.black.len();
        let pr = row % rows;
        let pc = col % cols;
        proof {
            assert(pr * cols + pc < rows * cols) by (nonlinear_arith)
                requires
                    pr < rows,
                    pc < cols,
            ;
            assert((pr * cols + pc) * spp + plane < rows * cols * spp) by (nonlinear_arith)
                requires
                    pr * cols + pc < rows * cols,
                    plane < spp,
            ;
            assert(pr * cols <= pr * cols + pc && pr * cols + pc <= (pr * cols + pc) * spp)
                by (nonlinear_arith)
                requires
                    spp >= 1,
            ;
        }
        Some(self.black[(pr * cols + pc) * spp + plane])
    }

    /// The per-column black deltas, if set.
    pub fn black_delta_h(&self) -> (r: Option<&[u64]>)
        ensures
            match r {
                Some(v) => self@.black_delta_h == Some(v@),
                None => self@.black_delta_h is None,
            },
    {
        match &self.black_delta_h {
            Some(v) => Some(v.as_slice()),
            None => None,
        }
    }

    /// The per-row black deltas, if set.
    pub fn black_delta_v(&self) -> (r: Option<&[u64]>)
        ensures
            match r {
                Some(v) => self@.black_delta_v == Some(v@),
                None => self@.black_delta_v is None,
            },
    {
        match &self.black_delta_v {
            Some(v) => Some(v.as_slice()),
            None => None,
        }
    }

    /// The per-plane white (saturation) levels.
    pub fn white(&self) -> (r: &[u64])
        ensures
            r@ == self@.white,
    {
        self.white.as_slice()
    }

    /// The `LinearizationTable`, if set.
    pub fn linearization_table(&self) -> (r: Option<&[u16]>)
        ensures
            match r {
                Some(v) => self@.linearization_table == Some(v@),
                None => self@.linearization_table is None,
            },
    {
        match &self.linearization_table {
            Some(v) => Some(v.as_slice()),
            None => None,
        }
    }

    /// The number of sample planes.
    pub fn samples_per_pixel(&self) -> (r: u16)
        ensures
            r == self@.white.len(),
    {
        proof {
            use_type_invariant(self);
        }
        self.white.len() as u16
    }
}

} // verus!

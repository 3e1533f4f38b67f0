//! The raw sensor image an encoder consumes: the sample buffer plus the photometry (CFA mosaic or
//! demosaiced linear) and the black/white levels needed to interpret it.
use vstd::prelude::*;
use vstd::arithmetic::power2::{pow2, lemma_pow2_pos, lemma_pow2_adds, lemma_pow2_unfold};
use crate::dng::values::CfaLayout;
use crate::dng::levels::{LevelsModel, RawLevels, levels_refusal, white_ok, copy_of};
use crate::error::{Dimensions, Error, Result};

pub mod cfa_color;

verus! {

/// The message for a bit depth outside `1..=16`.
pub const MSG_BITS: &'static str = "DNG: bits_per_sample must be 1..=16";

/// The message for a sample count that overflows `usize`.
pub const MSG_DIMS_OVERFLOW: &'static str = "DNG: image dimensions overflow";

/// The message for a sample buffer of the wrong length.
pub const MSG_SAMPLE_COUNT: &'static str =
    "DNG: sample count must equal width * height * samples_per_pixel";

/// The message for a CFA pattern whose length is not `rows * cols` of a non-empty repeat.
pub const MSG_CFA_PATTERN: &'static str = "DNG: CFA pattern length must equal cfa_repeat rows * cols";

/// The message for a linear image without planes.
pub const MSG_NO_PLANE: &'static str = "DNG: LinearRaw needs at least one plane";

/// The message for levels with another plane count than the image.
pub const MSG_LEVELS_PLANES: &'static str =
    "DNG: levels plane count must match the image's samples per pixel";

/// How a raw image's samples map to colour.
#[derive(Debug, PartialEq, Eq)]
pub enum RawPhotometry {
    /// A colour-filter-array (mosaic) image: one sample per pixel, its colour given by the
    /// repeating pattern. Stored with `PhotometricInterpretation = CFA` and one sample per pixel.
    Cfa {
        /// The repeat-pattern dimensions `(rows, cols)` (e.g. `(2, 2)` for Bayer).
        repeat: (u16, u16),
        /// The pattern colours, row-major over the repeat tile (length `rows * cols`).
        pattern: Vec<u8>,
        /// The distinct CFA plane colours (e.g. `[R, G, B]`).
        plane_color: Vec<u8>,
        /// The physical CFA layout.
        layout: CfaLayout,
    },
    /// A demosaiced ("linear") image: `planes` interleaved samples per pixel. Stored with
    /// `PhotometricInterpretation = LinearRaw`.
    LinearRaw {
        /// Colour planes per pixel (e.g. 3 for RGB).
        planes: u16,
    },
}

impl Clone for RawPhotometry {
    fn clone(&self) -> (r: Self) {
        match self {
            RawPhotometry::Cfa { repeat, pattern, plane_color, layout } => RawPhotometry::Cfa {
                repeat: (repeat.0, repeat.1),
                pattern: pattern.clone(),
                plane_color: plane_color.clone(),
                layout: *layout,
            },
            RawPhotometry::LinearRaw { planes } => RawPhotometry::LinearRaw { planes: *planes },
        }
    }
}

/// Validates a bit depth is in the storable range `1..=16`.
pub fn check_bits(bits: u16) -> (r: Result<()>)
    ensures
        r is Ok <==> 1 <= bits <= 16,
        r matches Err(e) ==> e == Error::InvalidInput(MSG_BITS),
{
    if 1 <= bits && bits <= 16 {
        Ok(())
    } else {
        Err(Error::InvalidInput(MSG_BITS))
    }
}

/// Validates that `samples` holds exactly `width * height * spp` samples.
pub fn check_sample_count(dims: Dimensions, spp: u16, samples: &[u16]) -> (r: Result<()>)
    ensures
        match sample_count_refusal(dims, spp as nat, samples@.len()) {
            None => r is Ok,
            Some(msg) => r matches Err(e) && e == Error::InvalidInput(msg),
        },
{
    let expected = match dims.num_pixels() {
        Some(p) => match p.checked_mul(spp as usize) {
            Some(n) => n,
            None => {
                return Err(Error::InvalidInput(MSG_DIMS_OVERFLOW));
            },
        },
        None => {
            return Err(Error::InvalidInput(MSG_DIMS_OVERFLOW));
        },
    };
    if samples.len() == expected {
        Ok(())
    } else {
        Err(Error::InvalidInput(MSG_SAMPLE_COUNT))
    }
}

/// Why a sample buffer of `len` samples does not fit `dims` with `spp` samples per pixel: the
/// count overflows `usize`, or it differs.
pub open spec fn sample_count_refusal(dims: Dimensions, spp: nat, len: nat) -> Option<&'static str> {
    if dims.spec_pixels() > usize::MAX || dims.spec_samples(spp) > usize::MAX {
        Some(MSG_DIMS_OVERFLOW)
    } else if len != dims.spec_samples(spp) {
        Some(MSG_SAMPLE_COUNT)
    } else {
        None
    }
}

/// Why a CFA image is refused, the first reason in the order checked: the bit depth, the
/// pattern against its repeat, the sample count.
pub open spec fn cfa_refusal(
    dims: Dimensions,
    bits: u16,
    repeat: (u16, u16),
    pattern_len: nat,
    samples_len: nat,
) -> Option<&'static str> {
    if !(1 <= bits <= 16) {
        Some(MSG_BITS)
    } else if repeat.0 == 0 || repeat.1 == 0 || pattern_len != repeat.0 * repeat.1 {
        Some(MSG_CFA_PATTERN)
    } else {
        sample_count_refusal(dims, 1, samples_len)
    }
}

/// Why a linear image is refused, the first reason in the order checked: the bit depth, no
/// plane, the sample count.
pub open spec fn linear_refusal(dims: Dimensions, bits: u16, planes: u16, samples_len: nat) -> Option<
    &'static str,
> {
    if !(1 <= bits <= 16) {
        Some(MSG_BITS)
    } else if planes == 0 {
        Some(MSG_NO_PLANE)
    } else {
        sample_count_refusal(dims, planes as nat, samples_len)
    }
}

/// The binary64 bit pattern of the integer `v` with `2^e <= v < 2^(e + 1) <= 2^53`: the biased
/// exponent `1023 + e` above the bits of `v` below its leading one, left-aligned in the 52-bit
/// fraction.
pub open spec fn f64_bits_of_int(v: nat, e: nat) -> nat {
    ((1023 + e) * pow2(52) + (v - pow2(e)) * pow2((52 - e) as nat)) as nat
}

/// The default white level for `bits` bits per sample: `2^bits - 1`, as a binary64 bit pattern.
pub open spec fn white_default(bits: u16) -> u64 {
    f64_bits_of_int((pow2(bits as nat) - 1) as nat, (bits - 1) as nat) as u64
}

/// The level model of uniform levels: a 1 x 1 pattern of `black` and a `white` per plane.
pub open spec fn uniform_levels(spp: nat, black: u64, white: u64) -> LevelsModel {
    LevelsModel {
        black_repeat: (1, 1),
        black: Seq::new(spp, |i: int| black),
        black_delta_h: None,
        black_delta_v: None,
        white: Seq::new(spp, |i: int| white),
        linearization_table: None,
    }
}

/// The default white level for `bits` bits per sample: `2^bits - 1`, as a binary64 bit pattern
/// (an accepted white level).
fn white_level_default(bits: u16) -> (r: u64)
    requires
        1 <= bits <= 16,
    ensures
        r == white_default(bits),
        white_ok(r),
{
    let mut p: u64 = 1;
    let mut k: u16 = 0;
    proof {
        vstd::arithmetic::power2::lemma2_to64();
    }
    while k < bits - 1
        invariant
            1 <= bits <= 16,
            k <= bits - 1,
            p == pow2(k as nat),
        decreases bits - 1 - k,
    {
        proof {
            lemma_pow2_unfold((k + 1) as nat);
            vstd::arithmetic::power2::lemma_pow2_strictly_increases(k as nat, 15);
            vstd::arithmetic::power2::lemma2_to64();
        }
        p = p * 2;
        k = k + 1;
    }
    let mut q: u64 = 1;
    let mut j: u16 = 0;
    while j < 53 - bits
        invariant
            1 <= bits <= 16,
            j <= 53 - bits,
            q == pow2(j as nat),
        decreases 53 - bits - j,
    {
        proof {
            lemma_pow2_unfold((j + 1) as nat);
            vstd::arithmetic::power2::lemma_pow2_strictly_increases(j as nat, 52);
            vstd::arithmetic::power2::lemma2_to64();
            vstd::arithmetic::power2::lemma2_to64_rest();
        }
        q = q * 2;
        j = j + 1;
    }
    let ghost e = (bits - 1) as nat;
    proof {
        vstd::arithmetic::power2::lemma2_to64();
        vstd::arithmetic::power2::lemma2_to64_rest();
        lemma_pow2_adds(e, (52 - e) as nat);
        lemma_pow2_unfold(bits as nat);
        lemma_pow2_pos(e);
        assert(p * q == pow2(52));
        assert((p - 1) * q < pow2(52)) by (nonlinear_arith)
            requires
                p * q == pow2(52),
                q > 0,
                p >= 1,
        ;
    }
    let r = (1022 + bits as u64) * 0x10_0000_0000_0000 + (p - 1) * q;
    proof {
        let m = (p - 1) * q;
        assert(pow2(bits as nat) - 1 - pow2(e) == p - 1);
        assert(r == f64_bits_of_int((pow2(bits as nat) - 1) as nat, e));
        assert(r / 0x10_0000_0000_0000 == 1022 + bits) by {
            vstd::arithmetic::div_mod::lemma_fundamental_div_mod_converse(
                r as int,
                0x10_0000_0000_0000,
                1022 + bits as int,
                m as int,
            );
        }
    }
    r
}

/// A raw image, as spec values.
pub struct RawImageModel {
    pub dims: Dimensions,
    pub bits_per_sample: u16,
    pub samples_per_pixel: u16,
    pub levels: LevelsModel,
    pub masked_areas: Seq<[u32; 4]>,
    pub active_area: Option<[u32; 4]>,
    pub default_crop: Option<([u32; 2], [u32; 2])>,
    pub photometry: PhotometryModel,
    pub samples: Seq<u16>,
}

/// A raw image's photometry, as spec values.
pub enum PhotometryModel {
    Cfa { repeat: (u16, u16), pattern: Seq<u8>, plane_color: Seq<u8>, layout: CfaLayout },
    LinearRaw { planes: u16 },
}

impl View for RawPhotometry {
    type V = PhotometryModel;

    open spec fn view(&self) -> PhotometryModel {
        match self {
            RawPhotometry::Cfa { repeat, pattern, plane_color, layout } => PhotometryModel::Cfa {
                repeat: *repeat,
                pattern: pattern@,
                plane_color: plane_color@,
                layout: *layout,
            },
            RawPhotometry::LinearRaw { planes } => PhotometryModel::LinearRaw { planes: *planes },
        }
    }
}

/// A raw sensor image plus the metadata required to store it as a DNG raw sub-IFD.
///
/// Samples are unsigned integers, row-major, `width * height * samples_per_pixel` long — one per
/// pixel for a [`Cfa`](RawPhotometry::Cfa) mosaic, `planes` interleaved per pixel for
/// [`LinearRaw`](RawPhotometry::LinearRaw). The [`RawLevels`] model bounds the linear range
/// (black-level pattern + deltas, per-plane white, optional linearization table).
///
/// Built with [`RawImage::new_cfa`] or [`RawImage::new_linear_raw`] (which validate the buffer and
/// pattern) and refined with the `with_*` setters.
#[derive(Debug, PartialEq)]
pub struct RawImage {
    dims: Dimensions,
    bits_per_sample: u16,
    samples_per_pixel: u16,
    levels: RawLevels,
    masked_areas: Vec<[u32; 4]>,
    active_area: Option<[u32; 4]>,
    default_crop: Option<([u32; 2], [u32; 2])>,
    photometry: RawPhotometry,
    samples: Vec<u16>,
}

impl View for RawImage {
    type V = RawImageModel;

    closed spec fn view(&self) -> RawImageModel {
        RawImageModel {
            dims: self.dims,
            bits_per_sample: self.bits_per_sample,
            samples_per_pixel: self.samples_per_pixel,
            levels: self.levels@,
            masked_areas: self.masked_areas@,
            active_area: self.active_area,
            default_crop: self.default_crop,
            photometry: self.photometry@,
            samples: self.samples@,
        }
    }
}

impl Clone for RawImage {
    /// A copy of the image.
    fn clone(&self) -> (r: Self)
        ensures
            r@ == self@,
    {
        RawImage {
            dims: self.dims,
            bits_per_sample: self.bits_per_sample,
            samples_per_pixel: self.samples_per_pixel,
            levels: self.levels.clone(),
            masked_areas: copy_of(self.masked_areas.as_slice()),
            active_area: self.active_area,
            default_crop: self.default_crop,
            photometry: copy_photometry(&self.photometry),
            samples: copy_of(self.samples.as_slice()),
        }
    }
}

/// A copy of a photometry.
fn copy_photometry(p: &RawPhotometry) -> (r: RawPhotometry)
    ensures
        r@ == p@,
{
    match p {
        RawPhotometry::Cfa { repeat, pattern, plane_color, layout } => RawPhotometry::Cfa {
            repeat: (repeat.0, repeat.1),
            pattern: copy_of(pattern.as_slice()),
            plane_color: copy_of(plane_color.as_slice()),
            layout: *layout,
        },
        RawPhotometry::LinearRaw { planes } => RawPhotometry::LinearRaw { planes: *planes },
    }
}

impl RawImage {
    /// Creates a CFA (mosaic) raw image from a single-plane `samples` buffer.
    ///
    /// `cfa_repeat` is `(rows, cols)` of the repeating pattern tile and `cfa_pattern` lists its
    /// colours row-major (length `rows * cols`). Defaults: black `0`, white `2^bits - 1`, plane
    /// colours `[R, G, B]`, rectangular layout, full active area.
    ///
    /// Fails with [`Error::InvalidInput`] as [`cfa_refusal`] says.
    pub fn new_cfa(
        dims: Dimensions,
        bits_per_sample: u16,
        cfa_repeat: (u16, u16),
        cfa_pattern: Vec<u8>,
        samples: Vec<u16>,
    ) -> (r: Result<Self>)
        ensures
            match cfa_refusal(dims, bits_per_sample, cfa_repeat, cfa_pattern@.len(), samples@.len()) {
                None => r matches Ok(img) && img@ == (RawImageModel {
                    dims,
                    bits_per_sample,
                    samples_per_pixel: 1,
                    levels: uniform_levels(1, 0, white_default(bits_per_sample)),
                    masked_areas: Seq::empty(),
                    active_area: None,
                    default_crop: None,
                    photometry: PhotometryModel::Cfa {
                        repeat: cfa_repeat,
                        pattern: cfa_pattern@,
                        plane_color: seq![cfa_color::RED, cfa_color::GREEN, cfa_color::BLUE],
                        layout: CfaLayout::Rectangular,
                    },
                    samples: samples@,
                }),
                Some(msg) => r matches Err(e) && e == Error::InvalidInput(msg),
            },
    {
        match check_bits(bits_per_sample) {
            Ok(()) => {},
            Err(e) => {
                return Err(e);
            },
        }
        let (rr, rc) = cfa_repeat;
        proof {
            assert((rr as nat) * (rc as nat) <= 0xFFFE_0001) by (nonlinear_arith)
                requires
                    rr <= 0xFFFF,
                    rc <= 0xFFFF,
            ;
        }
        if rr == 0 || rc == 0 || cfa_pattern.len() != rr as usize * rc as usize {
            return Err(Error::InvalidInput(MSG_CFA_PATTERN));
        }
        match check_sample_count(dims, 1, samples.as_slice()) {
            Ok(()) => {},
            Err(e) => {
                return Err(e);
            },
        }
        let white = white_level_default(bits_per_sample);
        proof {
            let bl = Seq::new(1nat, |i: int| 0u64);
            let wl = Seq::new(1nat, |i: int| white);
            assert(bl.len() == 1);
            assert(crate::dng::levels::black_ok(bl[0]));
            assert(white_ok(wl[0]));
            assert(!(exists|i: int| 0 <= i < bl.len() && !crate::dng::levels::black_ok(#[trigger] bl[i])));
            assert(!(exists|i: int| 0 <= i < wl.len() && !white_ok(#[trigger] wl[i])));
            let rep: (u16, u16) = (1, 1);
            assert(rep.0 == 1 && rep.1 == 1);
            assert(bl.len() == rep.0 * rep.1 * 1u16);
            assert(wl.len() == 1u16);
            assert(levels_refusal(1, rep, bl, wl) is None);
        }
        let levels = match RawLevels::uniform(1, 0, white) {
            Ok(l) => l,
            Err(e) => {
                return Err(e);
            },
        };
        Ok(RawImage {
            dims,
            bits_per_sample,
            samples_per_pixel: 1,
            levels,
            masked_areas: Vec::new(),
            active_area: None,
            default_crop: None,
            photometry: RawPhotometry::Cfa {
                repeat: cfa_repeat,
                pattern: cfa_pattern,
                plane_color: vec![cfa_color::RED, cfa_color::GREEN, cfa_color::BLUE],
                layout: CfaLayout::Rectangular,
            },
            samples,
        })
    }

    /// Creates a demosaiced ("linear") raw image of `planes` interleaved samples per pixel.
    ///
    /// Defaults: black `0`, white `2^bits - 1`, full active area. Fails with
    /// [`Error::InvalidInput`] as [`linear_refusal`] says.
    pub fn new_linear_raw(dims: Dimensions, bits_per_sample: u16, planes: u16, samples: Vec<u16>) -> (r:
        Result<Self>)
        ensures
            match linear_refusal(dims, bits_per_sample, planes, samples@.len()) {
                None => r matches Ok(img) && img@ == (RawImageModel {
                    dims,
                    bits_per_sample,
                    samples_per_pixel: planes,
                    levels: uniform_levels(planes as nat, 0, white_default(bits_per_sample)),
                    masked_areas: Seq::empty(),
                    active_area: None,
                    default_crop: None,
                    photometry: PhotometryModel::LinearRaw { planes },
                    samples: samples@,
                }),
                Some(msg) => r matches Err(e) && e == Error::InvalidInput(msg),
            },
    {
        match check_bits(bits_per_sample) {
            Ok(()) => {},
            Err(e) => {
                return Err(e);
            },
        }
        if planes == 0 {
            return Err(Error::InvalidInput(MSG_NO_PLANE));
        }
        match check_sample_count(dims, planes, samples.as_slice()) {
            Ok(()) => {},
            Err(e) => {
                return Err(e);
            },
        }
        let white = white_level_default(bits_per_sample);
        proof {
            let bl = Seq::new(planes as nat, |i: int| 0u64);
            let wl = Seq::new(planes as nat, |i: int| white);
            let rep: (u16, u16) = (1, 1);
            assert(rep.0 == 1 && rep.1 == 1);
            assert(bl.len() == rep.0 * rep.1 * planes);
            assert(!(exists|i: int|
                0 <= i < bl.len() && !crate::dng::levels::black_ok(#[trigger] bl[i])));
            assert(!(exists|i: int| 0 <= i < wl.len() && !white_ok(#[trigger] wl[i])));
            assert(levels_refusal(planes, rep, bl, wl) is None);
        }
        let levels = match RawLevels::uniform(planes, 0, white) {
            Ok(l) => l,
            Err(e) => {
                return Err(e);
            },
        };
        Ok(RawImage {
            dims,
            bits_per_sample,
            samples_per_pixel: planes,
            levels,
            masked_areas: Vec::new(),
            active_area: None,
            default_crop: None,
            photometry: RawPhotometry::LinearRaw { planes },
            samples,
        })
    }

    /// Replaces the level model (black pattern + deltas, per-plane white, linearization table).
    ///
    /// Fails with [`Error::InvalidInput`] when `levels` describes a different number of sample
    /// planes than this image has.
    pub fn with_levels(self, levels: RawLevels) -> (r: Result<Self>)
        ensures
            if levels@.white.len() == self@.samples_per_pixel {
                r matches Ok(img) && img@ == (RawImageModel { levels: levels@, ..self@ })
            } else {
                r matches Err(e) && e == Error::InvalidInput(MSG_LEVELS_PLANES)
            },
    {
        if levels.samples_per_pixel() != self.samples_per_pixel {
            return Err(Error::InvalidInput(MSG_LEVELS_PLANES));
        }
        Ok(RawImage { levels, ..self })
    }

    /// Sets a uniform black level (a binary64 bit pattern) across every pattern cell and plane,
    /// resetting any black pattern or deltas but keeping the white levels and linearization
    /// table.
    ///
    /// Fails with [`Error::InvalidInput`] as [`levels_refusal`] says of the new levels (a black
    /// level negative or not finite).
    pub fn with_black_level(self, black_level: u64) -> (r: Result<Self>)
        ensures
            match levels_refusal(
                self@.samples_per_pixel,
                (1, 1),
                Seq::new(self@.samples_per_pixel as nat, |i: int| black_level),
                self@.levels.white,
            ) {
                None => r matches Ok(img) && img@ == (RawImageModel {
                    levels: LevelsModel {
                        black_repeat: (1, 1),
                        black: Seq::new(self@.samples_per_pixel as nat, |i: int| black_level),
                        black_delta_h: None,
                        black_delta_v: None,
                        white: self@.levels.white,
                        linearization_table: self@.levels.linearization_table,
                    },
                    ..self@
                }),
                Some(msg) => r matches Err(e) && e == Error::InvalidInput(msg),
            },
    {
        let spp = self.samples_per_pixel as usize;
        let mut blacks: Vec<u64> = Vec::new();
        let mut i: usize = 0;
        while i < spp
            invariant
                i <= spp,
                blacks@ == Seq::new(i as nat, |k: int| black_level),
            decreases spp - i,
        {
            blacks.push(black_level);
            i = i + 1;
            assert(blacks@ =~= Seq::new(i as nat, |k: int| black_level));
        }
        let whites = copy_of(self.levels.white());
        let levels = match RawLevels::new(self.samples_per_pixel, (1, 1), blacks, whites) {
            Ok(l) => l,
            Err(e) => {
                return Err(e);
            },
        };
        let levels = match self.levels.linearization_table() {
            Some(table) => levels.with_linearization_table(copy_of(table)),
            None => levels,
        };
        Ok(RawImage { levels, ..self })
    }

    /// Sets a uniform white level (a binary64 bit pattern) for every plane, keeping the rest of
    /// the level model.
    ///
    /// Fails with [`Error::InvalidInput`] as [`levels_refusal`] says of the new levels (a white
    /// level not positive or not finite).
    pub fn with_white_level(self, white_level: u64) -> (r: Result<Self>)
        ensures
            match levels_refusal(
                self@.samples_per_pixel,
                self@.levels.black_repeat,
                self@.levels.black,
                Seq::new(self@.samples_per_pixel as nat, |i: int| white_level),
            ) {
                None => r matches Ok(img) && img@ == (RawImageModel {
                    levels: LevelsModel {
                        white: Seq::new(self@.samples_per_pixel as nat, |i: int| white_level),
                        ..self@.levels
                    },
                    ..self@
                }),
                Some(msg) => r matches Err(e) && e == Error::InvalidInput(msg),
            },
    {
        let spp = self.samples_per_pixel as usize;
        let mut whites: Vec<u64> = Vec::new();
        let mut i: usize = 0;
        while i < spp
            invariant
                i <= spp,
                whites@ == Seq::new(i as nat, |k: int| white_level),
            decreases spp - i,
        {
            whites.push(white_level);
            i = i + 1;
            assert(whites@ =~= Seq::new(i as nat, |k: int| white_level));
        }
        let blacks = copy_of(self.levels.black());
        let mut levels = match RawLevels::new(
            self.samples_per_pixel,
            self.levels.black_repeat(),
            blacks,
            whites,
        ) {
            Ok(l) => l,
            Err(e) => {
                return Err(e);
            },
        };
        match self.levels.black_delta_h() {
            Some(dh) => {
                levels = levels.with_black_delta_h(copy_of(dh));
            },
            None => {},
        }
        match self.levels.black_delta_v() {
            Some(dv) => {
                levels = levels.with_black_delta_v(copy_of(dv));
            },
            None => {},
        }
        match self.levels.linearization_table() {
            Some(table) => {
                levels = levels.with_linearization_table(copy_of(table));
            },
            None => {},
        }
        Ok(RawImage { levels, ..self })
    }

    /// Sets the `MaskedAreas` rectangles `[top, left, bottom, right]` — fully-masked sensor
    /// regions a processor may use to estimate black levels.
    pub fn with_masked_areas(self, areas: Vec<[u32; 4]>) -> (r: Self)
        ensures
            r@ == (RawImageModel { masked_areas: areas@, ..self@ }),
    {
        RawImage { masked_areas: areas, ..self }
    }

    /// Sets the active-area rectangle `[top, left, bottom, right]` (the region holding image
    /// data, excluding masked/border pixels).
    pub fn with_active_area(self, active_area: [u32; 4]) -> (r: Self)
        ensures
            r@ == (RawImageModel { active_area: Some(active_area), ..self@ }),
    {
        RawImage { active_area: Some(active_area), ..self }
    }

    /// Sets the default-crop rectangle as `(origin, size)` in pixels relative to the active
    /// area (`DefaultCropOrigin` / `DefaultCropSize`).
    pub fn with_default_crop(self, origin: [u32; 2], size: [u32; 2]) -> (r: Self)
        ensures
            r@ == (RawImageModel { default_crop: Some((origin, size)), ..self@ }),
    {
        RawImage { default_crop: Some((origin, size)), ..self }
    }

    /// Sets the distinct CFA plane colours (no effect on a linear image).
    pub fn with_cfa_plane_color(self, colors: Vec<u8>) -> (r: Self)
        ensures
            r@ == (RawImageModel {
                photometry: match self@.photometry {
                    PhotometryModel::Cfa { repeat, pattern, layout, .. } => PhotometryModel::Cfa {
                        repeat,
                        pattern,
                        plane_color: colors@,
                        layout,
                    },
                    PhotometryModel::LinearRaw { planes } => PhotometryModel::LinearRaw { planes },
                },
                ..self@
            }),
    {
        let RawImage {
            dims,
            bits_per_sample,
            samples_per_pixel,
            levels,
            masked_areas,
            active_area,
            default_crop,
            photometry,
            samples,
        } = self;
        let photometry = match photometry {
            RawPhotometry::Cfa { repeat, pattern, plane_color, layout } => RawPhotometry::Cfa {
                repeat,
                pattern,
                plane_color: colors,
                layout,
            },
            RawPhotometry::LinearRaw { planes } => RawPhotometry::LinearRaw { planes },
        };
        RawImage {
            dims,
            bits_per_sample,
            samples_per_pixel,
            levels,
            masked_areas,
            active_area,
            default_crop,
            photometry,
            samples,
        }
    }

    /// Sets the CFA layout (no effect on a linear image).
    pub fn with_cfa_layout(self, cfa_layout: CfaLayout) -> (r: Self)
        ensures
            r@ == (RawImageModel {
                photometry: match self@.photometry {
                    PhotometryModel::Cfa { repeat, pattern, plane_color, .. } => PhotometryModel::Cfa {
                        repeat,
                        pattern,
                        plane_color,
                        layout: cfa_layout,
                    },
                    PhotometryModel::LinearRaw { planes } => PhotometryModel::LinearRaw { planes },
                },
                ..self@
            }),
    {
        let RawImage {
            dims,
            bits_per_sample,
            samples_per_pixel,
            levels,
            masked_areas,
            active_area,
            default_crop,
            photometry,
            samples,
        } = self;
        let photometry = match photometry {
            RawPhotometry::Cfa { repeat, pattern, plane_color, layout } => RawPhotometry::Cfa {
                repeat,
                pattern,
                plane_color,
                layout: cfa_layout,
            },
            RawPhotometry::LinearRaw { planes } => RawPhotometry::LinearRaw { planes },
        };
        RawImage {
            dims,
            bits_per_sample,
            samples_per_pixel,
            levels,
            masked_areas,
            active_area,
            default_crop,
            photometry,
            samples,
        }
    }

    /// The sensor sample dimensions.
    pub fn dimensions(&self) -> (r: Dimensions)
        ensures
            r == self@.dims,
    {
        self.dims
    }

    /// Bits per stored sample.
    pub fn bits_per_sample(&self) -> (r: u16)
        ensures
            r == self@.bits_per_sample,
    {
        self.bits_per_sample
    }

    /// Samples per pixel (1 for a CFA mosaic, the plane count for a linear image).
    pub fn samples_per_pixel(&self) -> (r: u16)
        ensures
            r == self@.samples_per_pixel,
    {
        self.samples_per_pixel
    }

    /// The level model: the black pattern (+ deltas), per-plane white, and linearization table.
    pub fn levels(&self) -> (r: &RawLevels)
        ensures
            r@ == self@.levels,
    {
        &self.levels
    }

    /// The `MaskedAreas` rectangles `[top, left, bottom, right]` (empty when none are declared).
    pub fn masked_areas(&self) -> (r: &[[u32; 4]])
        ensures
            r@ == self@.masked_areas,
    {
        self.masked_areas.as_slice()
    }

    /// The active-area rectangle `[top, left, bottom, right]`, if set.
    pub fn active_area(&self) -> (r: Option<[u32; 4]>)
        ensures
            r == self@.active_area,
    {
        self.active_area
    }

    /// The default-crop `(origin, size)` in pixels, if set.
    pub fn default_crop(&self) -> (r: Option<([u32; 2], [u32; 2])>)
        ensures
            r == self@.default_crop,
    {
        self.default_crop
    }

    /// The image's photometry (CFA mosaic or linear).
    pub fn photometry(&self) -> (r: &RawPhotometry)
        ensures
            r@ == self@.photometry,
    {
        &self.photometry
    }

    /// The samples, row-major, `width * height * samples_per_pixel` long.
    pub fn samples(&self) -> (r: &[u16])
        ensures
            r@ == self@.samples,
    {
        self.samples.as_slice()
    }
}

} // verus!

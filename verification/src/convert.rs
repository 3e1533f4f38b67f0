//! Format-agnostic conversion between interleaved pixel layouts, with every lossy decision made
//! explicit by the caller.
//!
//! Lossless widening (grey into RGB, an opaque alpha channel, 8-bit samples to 16) needs no
//! permission. Lossy narrowing (dropping alpha, 16-bit to 8, colour to luma, anything to bilevel)
//! is refused with [`Error::Unsupported`] unless the [`ConvertPolicy`] names the loss.
//! [`Indexed8`](crate::Indexed8) and [`Cmyk8`](crate::Cmyk8) convert only to themselves.
//!
//! The refusal rule is [`refusal`], and the value every accepted conversion writes is
//! [`converted_sample`]; both doors ([`convert_from_raw`] and [`convert_from_raw_into`]) and the
//! typed [`convert`] are stated against them.
use vstd::prelude::*;
use vstd::slice::*;
use vstd::arithmetic::div_mod::lemma_fundamental_div_mod_converse_div;
use vstd::arithmetic::div_mod::lemma_fundamental_div_mod_converse_mod;

use crate::error::{Dimensions, Error, ErrorKind, Result, ORIGIN_CORE};
use crate::image::{expected_len, expected_len_ok, fills, ImageBuf, ImageRef};
use crate::luminance::{
    lemma_luma_fits, lemma_neutral_grey_is_fixed, luma_of, BT2020_LUMA_WEIGHTS,
    BT601_LUMA_WEIGHTS, BT709_LUMA_WEIGHTS,
};
use crate::pixel::{
    lemma_narrow_widen_exact, narrow, storage_max, widen, ColorModel, Pixel, PixelFormat, Sample,
};

verus! {

/// What to do when the source carries an alpha channel the target layout cannot hold.
#[derive(Debug, Clone, Copy, PartialEq, Eq, Hash, Default, Structural)]
pub enum AlphaPolicy {
    /// Refuse the conversion with [`Error::Unsupported`]. The default.
    #[default]
    Reject,
    /// Discard the alpha channel, keeping the unassociated colour samples untouched.
    Drop,
    /// Composite the image over [`ConvertPolicy::background`] and keep the result.
    CompositeOver,
}

/// What to do when the target's samples are narrower than the source's.
#[derive(Debug, Clone, Copy, PartialEq, Eq, Hash, Default, Structural)]
pub enum DepthPolicy {
    /// Refuse the conversion with [`Error::Unsupported`]. The default.
    #[default]
    Reject,
    /// Rescale to the narrower range, rounding to nearest; a reduction to bilevel compares
    /// luma against [`ConvertPolicy::threshold`].
    Rescale,
}

/// Which luma coefficients to use when reducing colour to a single grey sample.
#[derive(Debug, Clone, Copy, PartialEq, Eq, Hash, Default, Structural)]
pub enum LumaPolicy {
    /// Refuse the conversion with [`Error::Unsupported`]. The default.
    #[default]
    Reject,
    /// BT.601 / SMPTE 170M weights.
    Bt601,
    /// BT.709 weights.
    Bt709,
    /// BT.2020 / BT.2100 weights.
    Bt2020,
}

/// The weight triple a luma policy selects; [`LumaPolicy::Reject`] and the grey-source path use
/// BT.709 (the triple only ever meets equal channels there, which any unit-sum triple preserves).
pub open spec fn luma_triple(policy: LumaPolicy) -> (nat, nat, nat) {
    match policy {
        LumaPolicy::Bt601 => (19595, 38470, 7471),
        LumaPolicy::Bt2020 => (17216, 44434, 3886),
        _ => (13933, 46871, 4732),
    }
}

impl LumaPolicy {
    /// The fixed-point weight triple this policy selects, or `None` for [`LumaPolicy::Reject`].
    pub fn weights(self) -> (r: Option<[u32; 3]>)
        ensures
            match r {
                Some(w) => self != LumaPolicy::Reject && w@.len() == 3 && (
                    w@[0] as nat,
                    w@[1] as nat,
                    w@[2] as nat,
                ) == luma_triple(self),
                None => self == LumaPolicy::Reject,
            },
    {
        match self {
            LumaPolicy::Reject => None,
            LumaPolicy::Bt601 => Some(BT601_LUMA_WEIGHTS),
            LumaPolicy::Bt709 => Some(BT709_LUMA_WEIGHTS),
            LumaPolicy::Bt2020 => Some(BT2020_LUMA_WEIGHTS),
        }
    }
}

/// The lossy decisions a conversion is permitted to make, plus the parameters those decisions
/// need.
#[derive(Debug, Clone, Copy, PartialEq, Eq, Hash)]
pub struct ConvertPolicy {
    alpha: AlphaPolicy,
    depth: DepthPolicy,
    luma: LumaPolicy,
    background: [u16; 3],
    threshold: u16,
}

/// The default midpoint for a reduction to bilevel: half of full scale.
pub const DEFAULT_THRESHOLD: u16 = 32768;

impl ConvertPolicy {
    /// The alpha policy, as a spec value.
    pub closed spec fn spec_alpha(self) -> AlphaPolicy {
        self.alpha
    }

    /// The depth policy, as a spec value.
    pub closed spec fn spec_depth(self) -> DepthPolicy {
        self.depth
    }

    /// The luma policy, as a spec value.
    pub closed spec fn spec_luma(self) -> LumaPolicy {
        self.luma
    }

    /// The background colour, as a spec value.
    pub closed spec fn spec_background(self) -> Seq<u16> {
        self.background@
    }

    /// The bilevel threshold, as a spec value.
    pub closed spec fn spec_threshold(self) -> u16 {
        self.threshold
    }

    /// The background colour holds exactly three channels.
    pub proof fn lemma_background_len(self)
        ensures
            self.spec_background().len() == 3,
    {
    }

    /// Permits no loss at all: every narrowing conversion is refused.
    pub fn lossless() -> (r: Self)
        ensures
            r.spec_alpha() == AlphaPolicy::Reject,
            r.spec_depth() == DepthPolicy::Reject,
            r.spec_luma() == LumaPolicy::Reject,
            r.spec_background() == seq![0u16, 0u16, 0u16],
            r.spec_threshold() == DEFAULT_THRESHOLD,
    {
        let r = Self {
            alpha: AlphaPolicy::Reject,
            depth: DepthPolicy::Reject,
            luma: LumaPolicy::Reject,
            background: [0, 0, 0],
            threshold: DEFAULT_THRESHOLD,
        };
        assert(r.background@ =~= seq![0u16, 0u16, 0u16]);
        r
    }

    /// Permits every loss this module can express: alpha is dropped, samples rescale, and colour
    /// reduces to luma with BT.709.
    pub fn permissive() -> (r: Self)
        ensures
            r.spec_alpha() == AlphaPolicy::Drop,
            r.spec_depth() == DepthPolicy::Rescale,
            r.spec_luma() == LumaPolicy::Bt709,
            r.spec_background() == seq![0u16, 0u16, 0u16],
            r.spec_threshold() == DEFAULT_THRESHOLD,
    {
        let r = Self {
            alpha: AlphaPolicy::Drop,
            depth: DepthPolicy::Rescale,
            luma: LumaPolicy::Bt709,
            background: [0, 0, 0],
            threshold: DEFAULT_THRESHOLD,
        };
        assert(r.background@ =~= seq![0u16, 0u16, 0u16]);
        r
    }

    /// Sets how an alpha channel the target cannot hold is handled.
    pub fn with_alpha(self, policy: AlphaPolicy) -> (r: Self)
        ensures
            r.spec_alpha() == policy,
            r.spec_depth() == self.spec_depth(),
            r.spec_luma() == self.spec_luma(),
            r.spec_background() == self.spec_background(),
            r.spec_threshold() == self.spec_threshold(),
    {
        let mut s = self;
        s.alpha = policy;
        s
    }

    /// Sets how samples narrower than the source's are produced.
    pub fn with_depth(self, policy: DepthPolicy) -> (r: Self)
        ensures
            r.spec_alpha() == self.spec_alpha(),
            r.spec_depth() == policy,
            r.spec_luma() == self.spec_luma(),
            r.spec_background() == self.spec_background(),
            r.spec_threshold() == self.spec_threshold(),
    {
        let mut s = self;
        s.depth = policy;
        s
    }

    /// Sets which luma coefficients reduce colour to grey.
    pub fn with_luma(self, policy: LumaPolicy) -> (r: Self)
        ensures
            r.spec_alpha() == self.spec_alpha(),
            r.spec_depth() == self.spec_depth(),
            r.spec_luma() == policy,
            r.spec_background() == self.spec_background(),
            r.spec_threshold() == self.spec_threshold(),
    {
        let mut s = self;
        s.luma = policy;
        s
    }

    /// Sets the full-range RGB background [`AlphaPolicy::CompositeOver`] composites against.
    pub fn with_background(self, rgb: [u16; 3]) -> (r: Self)
        ensures
            r.spec_alpha() == self.spec_alpha(),
            r.spec_depth() == self.spec_depth(),
            r.spec_luma() == self.spec_luma(),
            r.spec_background() == rgb@,
            r.spec_threshold() == self.spec_threshold(),
    {
        let mut s = self;
        s.background = rgb;
        s
    }

    /// Sets the full-range luma at or above which a bilevel target records white.
    pub fn with_threshold(self, threshold: u16) -> (r: Self)
        ensures
            r.spec_alpha() == self.spec_alpha(),
            r.spec_depth() == self.spec_depth(),
            r.spec_luma() == self.spec_luma(),
            r.spec_background() == self.spec_background(),
            r.spec_threshold() == threshold,
    {
        let mut s = self;
        s.threshold = threshold;
        s
    }

    /// How an alpha channel the target cannot hold is handled.
    pub fn alpha(self) -> (r: AlphaPolicy)
        ensures
            r == self.spec_alpha(),
    {
        self.alpha
    }

    /// How samples narrower than the source's are produced.
    pub fn depth(self) -> (r: DepthPolicy)
        ensures
            r == self.spec_depth(),
    {
        self.depth
    }

    /// Which luma coefficients reduce colour to grey.
    pub fn luma(self) -> (r: LumaPolicy)
        ensures
            r == self.spec_luma(),
    {
        self.luma
    }

    /// The full-range background colour [`AlphaPolicy::CompositeOver`] composites against.
    pub fn background(self) -> (r: [u16; 3])
        ensures
            r@ == self.spec_background(),
    {
        self.background
    }

    /// The full-range luma at or above which a bilevel target records white.
    pub fn threshold(self) -> (r: u16)
        ensures
            r == self.spec_threshold(),
    {
        self.threshold
    }
}

impl Default for ConvertPolicy {
    fn default() -> (r: Self)
        ensures
            r.spec_alpha() == AlphaPolicy::Reject,
            r.spec_depth() == DepthPolicy::Reject,
            r.spec_luma() == LumaPolicy::Reject,
            r.spec_background() == seq![0u16, 0u16, 0u16],
            r.spec_threshold() == DEFAULT_THRESHOLD,
    {
        Self::lossless()
    }
}

/// The refusal when the source's sample type disagrees with its declared layout.
pub const MSG_SAMPLE_WIDTH: &'static str =
    "convert: sample type does not match the pixel format's sample width";

/// The refusal of a zero-sized image.
pub const MSG_ZERO_SIZED: &'static str = "convert: zero-sized image";

/// The refusal of dimensions whose sample count overflows `usize`.
pub const MSG_OVERFLOW: &'static str = "convert: image dimensions overflow usize";

/// The refusal of a sample buffer whose length disagrees with its dimensions.
pub const MSG_SAMPLE_COUNT: &'static str = "convert: sample count does not match dimensions";

/// The refusal of a destination whose length disagrees with the target layout.
pub const MSG_DESTINATION: &'static str =
    "convert: destination length does not match dimensions";

/// The refusal of a palette layout paired with any other layout.
pub const MSG_PALETTE: &'static str =
    "convert: palette indices cannot be converted without the palette table";

/// The refusal of a CMYK layout paired with any other layout.
pub const MSG_CMYK: &'static str =
    "convert: CMYK conversion needs a colour-management transform, not a layout change";

/// The refusal when alpha would be lost without an [`AlphaPolicy`].
pub const MSG_ALPHA: &'static str =
    "convert: target layout cannot hold the source's alpha channel; set an AlphaPolicy";

/// The refusal when colour would be lost without a [`LumaPolicy`].
pub const MSG_LUMA: &'static str = "convert: target layout cannot hold colour; set a LumaPolicy";

/// The refusal when precision would be lost without a [`DepthPolicy`].
pub const MSG_DEPTH: &'static str =
    "convert: target layout is narrower than the source; set a DepthPolicy";

/// Colour (non-alpha) channels a model carries, or `None` for the models this module cannot
/// convert through (palette, CMYK).
pub open spec fn colour_of(model: ColorModel) -> Option<nat> {
    match model {
        ColorModel::Gray | ColorModel::GrayAlpha | ColorModel::Bilevel => Some(1),
        ColorModel::Rgb | ColorModel::Rgba => Some(3),
        ColorModel::Cmyk | ColorModel::Indexed => None,
    }
}

/// Whether a model carries an alpha channel after its colour channels.
pub open spec fn alpha_of(model: ColorModel) -> bool {
    model == ColorModel::GrayAlpha || model == ColorModel::Rgba
}

/// The message refusing a model with no colour-model-free interpretation.
pub open spec fn opaque_message(model: ColorModel) -> &'static str {
    if model == ColorModel::Indexed {
        MSG_PALETTE
    } else {
        MSG_CMYK
    }
}

/// Storage width in bits of a layout's samples.
pub open spec fn bits_of(format: PixelFormat) -> nat {
    8 * format.spec_bytes_per_sample()
}

/// Whether `src -> dst` drops an alpha channel the target has no slot for.
pub open spec fn drops_alpha(src: PixelFormat, dst: PixelFormat) -> bool {
    alpha_of(src.spec_color_model()) && !alpha_of(dst.spec_color_model())
}

/// Why `src -> dst` is refused under `policy`, or `None` when it is accepted. Identical layouts
/// are always accepted; otherwise the checks run in order: an opaque source, an opaque target, a
/// lost alpha channel, lost colour, lost precision.
pub open spec fn refusal(src: PixelFormat, dst: PixelFormat, policy: ConvertPolicy) -> Option<
    &'static str,
> {
    let sm = src.spec_color_model();
    let dm = dst.spec_color_model();
    if src == dst {
        None
    } else if colour_of(sm) is None {
        Some(opaque_message(sm))
    } else if colour_of(dm) is None {
        Some(opaque_message(dm))
    } else if drops_alpha(src, dst) && policy.spec_alpha() == AlphaPolicy::Reject {
        Some(MSG_ALPHA)
    } else if colour_of(sm) == Some(3nat) && colour_of(dm) == Some(1nat) && policy.spec_luma()
        == LumaPolicy::Reject {
        Some(MSG_LUMA)
    } else if (src.spec_bytes_per_sample() > dst.spec_bytes_per_sample() || (dm
        == ColorModel::Bilevel && sm != ColorModel::Bilevel)) && policy.spec_depth()
        == DepthPolicy::Reject {
        Some(MSG_DEPTH)
    } else {
        None
    }
}

/// A stored sample read onto the full 16-bit scale: bilevel maps zero to black and anything
/// else to white; other layouts widen.
pub open spec fn read_full(bits: nat, v: nat, bilevel: bool) -> nat {
    if bilevel {
        if v == 0 {
            0
        } else {
            65535
        }
    } else {
        widen(bits, v)
    }
}

/// A full-range value written into `bits`-bit storage: bilevel thresholds, other layouts
/// rescale to nearest.
pub open spec fn write_value(bits: nat, value: nat, bilevel: bool, threshold: nat) -> nat {
    if bilevel {
        if value >= threshold {
            storage_max(bits)
        } else {
            0
        }
    } else {
        narrow(bits, value)
    }
}

/// One unassociated colour channel composited over `background`, rounded to nearest.
pub open spec fn composite_value(value: nat, alpha: nat, background: nat) -> nat {
    ((value * alpha + background * ((65535 - alpha) as nat) + 32767) / 65535) as nat
}

/// The full-range `(r, g, b, alpha)` of one source pixel `px` on its way from `src` to `dst`:
/// grey replicated into all three colours, an absent alpha read as opaque, and the colours
/// composited over the background when alpha is dropped under [`AlphaPolicy::CompositeOver`].
pub open spec fn composited_rgba(
    src: PixelFormat,
    dst: PixelFormat,
    policy: ConvertPolicy,
    px: Seq<nat>,
) -> (nat, nat, nat, nat) {
    let sm = src.spec_color_model();
    let sc = colour_of(sm).unwrap();
    let sbits = bits_of(src);
    let sbil = sm == ColorModel::Bilevel;
    let r0 = read_full(sbits, px[0], sbil);
    let g0 = if sc == 1 {
        r0
    } else {
        read_full(sbits, px[1], sbil)
    };
    let b0 = if sc == 1 {
        r0
    } else {
        read_full(sbits, px[2], sbil)
    };
    let alpha = if alpha_of(sm) {
        read_full(sbits, px[sc as int], false)
    } else {
        65535
    };
    let comp = drops_alpha(src, dst) && policy.spec_alpha() == AlphaPolicy::CompositeOver;
    let bg = policy.spec_background();
    if comp {
        (
            composite_value(r0, alpha, bg[0] as nat),
            composite_value(g0, alpha, bg[1] as nat),
            composite_value(b0, alpha, bg[2] as nat),
            alpha,
        )
    } else {
        (r0, g0, b0, alpha)
    }
}

/// Target channel `k` written from a full-range `(r, g, b, alpha)`: a grey target takes the
/// luma, a colour target takes the matching colour, and the channel after the colours is alpha.
pub open spec fn channel_of(dst: PixelFormat, policy: ConvertPolicy, rgba: (nat, nat, nat, nat), k: nat) -> nat {
    let dm = dst.spec_color_model();
    let dc = colour_of(dm).unwrap();
    let dbits = bits_of(dst);
    let dbil = dm == ColorModel::Bilevel;
    let threshold = policy.spec_threshold() as nat;
    let (wr, wg, wb) = luma_triple(policy.spec_luma());
    let (r, g, b, alpha) = rgba;
    if k < dc {
        if dc == 1 {
            write_value(dbits, luma_of(r, g, b, wr, wg, wb), dbil, threshold)
        } else if k == 0 {
            write_value(dbits, r, dbil, threshold)
        } else if k == 1 {
            write_value(dbits, g, dbil, threshold)
        } else {
            write_value(dbits, b, dbil, threshold)
        }
    } else {
        write_value(dbits, alpha, false, threshold)
    }
}

/// Channel `k` of the pixel `src -> dst` produces from the source pixel's stored values `px`:
/// identical layouts copy, every other accepted pair goes through [`composited_rgba`] and
/// [`channel_of`].
pub open spec fn pixel_channel(
    src: PixelFormat,
    dst: PixelFormat,
    policy: ConvertPolicy,
    px: Seq<nat>,
    k: nat,
) -> nat {
    if src == dst {
        px[k as int]
    } else {
        channel_of(dst, policy, composited_rgba(src, dst, policy, px), k)
    }
}

/// The stored values of a sample sequence.
pub open spec fn values<S: Sample>(s: Seq<S>) -> Seq<nat> {
    s.map_values(|x: S| x.spec_value())
}

/// Sample `j` of the image `src -> dst` produces from the source's stored values `vals`: channel
/// `j % dst.channels` of pixel `j / dst.channels`.
pub open spec fn converted_sample(
    src: PixelFormat,
    dst: PixelFormat,
    policy: ConvertPolicy,
    vals: Seq<nat>,
    j: nat,
) -> nat {
    let sc = src.spec_channels();
    let dc = dst.spec_channels();
    let p = j / dc;
    pixel_channel(src, dst, policy, vals.subrange((p * sc) as int, (p * sc + sc) as int), j % dc)
}

/// Whether `out` is the converted image of the stored values `vals`.
pub open spec fn is_conversion<T: Sample>(
    src: PixelFormat,
    dst: PixelFormat,
    policy: ConvertPolicy,
    vals: Seq<nat>,
    out: Seq<T>,
) -> bool {
    forall|j: int|
        0 <= j < out.len() ==> (#[trigger] out[j]).spec_value() == converted_sample(
            src,
            dst,
            policy,
            vals,
            j as nat,
        )
}

/// A borrowed interleaved image whose layout is known only at runtime.
#[derive(Debug, Copy)]
pub struct RawImage<'a, S: Sample> {
    samples: &'a [S],
    format: PixelFormat,
    dims: Dimensions,
}

impl<'a, S: Sample> Clone for RawImage<'a, S> {
    fn clone(&self) -> (r: Self)
        ensures
            r == *self,
    {
        *self
    }
}

/// Whether `samples` of sample type `S` validly describe an image of `dims` in `format`.
pub open spec fn raw_valid<S: Sample>(format: PixelFormat, dims: Dimensions, len: nat) -> bool {
    &&& S::spec_bits() == bits_of(format)
    &&& fills(dims, format.spec_channels(), len)
}

impl<'a, S: Sample> RawImage<'a, S> {
    #[verifier::type_invariant]
    spec fn inv(self) -> bool {
        raw_valid::<S>(self.format, self.dims, self.samples@.len())
    }

    /// The samples, as a spec value.
    pub closed spec fn spec_samples(self) -> Seq<S> {
        self.samples@
    }

    /// The layout tag, as a spec value.
    pub closed spec fn spec_format(self) -> PixelFormat {
        self.format
    }

    /// The dimensions, as a spec value.
    pub closed spec fn spec_dims(self) -> Dimensions {
        self.dims
    }

    /// Describes `samples` as an image of `dims` in layout `format`, validating the sample width,
    /// the dimensions, and the sample count in that order.
    pub fn new(samples: &'a [S], format: PixelFormat, dims: Dimensions) -> (r: Result<Self>)
        ensures
            match r {
                Ok(img) => raw_valid::<S>(format, dims, samples@.len()) && img.spec_samples()
                    == samples@ && img.spec_format() == format && img.spec_dims() == dims,
                Err(e) => !raw_valid::<S>(format, dims, samples@.len()) && e.spec_kind()
                    == ErrorKind::InvalidInput && e.spec_origin() == Some(ORIGIN_CORE),
            },
    {
        let len = samples.len();
        proof {
            S::lemma_bits();
            lemma_samples_at_least_pixels(dims, format.spec_channels());
        }
        if format.bytes_per_sample() * 8 != S::storage_bits() {
            return Err(Error::invalid_input(ORIGIN_CORE, MSG_SAMPLE_WIDTH));
        }
        if dims.is_empty() {
            return Err(Error::invalid_input(ORIGIN_CORE, MSG_ZERO_SIZED));
        }
        let want = match dims.sample_count(format.channels()) {
            Some(n) => n,
            None => return Err(Error::invalid_input(ORIGIN_CORE, MSG_OVERFLOW)),
        };
        if samples.len() != want {
            return Err(Error::invalid_input(ORIGIN_CORE, MSG_SAMPLE_COUNT));
        }
        Ok(Self { samples, format, dims })
    }

    /// The raw interleaved samples, row-major.
    pub fn as_samples(self) -> (r: &'a [S])
        ensures
            r@ == self.spec_samples(),
            raw_valid::<S>(self.spec_format(), self.spec_dims(), r@.len()),
    {
        proof {
            use_type_invariant(self);
        }
        self.samples
    }

    /// The runtime layout tag.
    pub fn format(self) -> (r: PixelFormat)
        ensures
            r == self.spec_format(),
    {
        self.format
    }

    /// The image dimensions.
    pub fn dimensions(self) -> (r: Dimensions)
        ensures
            r == self.spec_dims(),
    {
        self.dims
    }
}

impl<'a, P: Pixel> ImageRef<'a, P> {
    /// This image as a runtime-tagged view (the brand has already established its invariants).
    pub fn as_raw(self) -> (r: RawImage<'a, P::Sample>)
        ensures
            r.spec_samples() == self.spec_samples(),
            r.spec_format() == P::FORMAT,
            r.spec_dims() == self.spec_dims(),
    {
        proof {
            P::lemma_layout();
        }
        let samples = self.as_samples();
        RawImage { samples, format: P::FORMAT, dims: self.dimensions() }
    }
}

/// With at least one channel, the sample count is at least the pixel count.
proof fn lemma_samples_at_least_pixels(dims: Dimensions, channels: nat)
    requires
        channels >= 1,
    ensures
        dims.spec_pixels() <= dims.spec_samples(channels),
{
    assert(dims.spec_pixels() <= dims.spec_pixels() * channels) by (nonlinear_arith)
        requires
            channels >= 1,
    ;
}

/// Colour (non-alpha) channels a model carries, or `None` for palette and CMYK.
pub fn colour_channels(model: ColorModel) -> (r: Option<usize>)
    ensures
        match r {
            Some(n) => colour_of(model) == Some(n as nat),
            None => colour_of(model) is None,
        },
{
    match model {
        ColorModel::Gray | ColorModel::GrayAlpha | ColorModel::Bilevel => Some(1),
        ColorModel::Rgb | ColorModel::Rgba => Some(3),
        ColorModel::Cmyk | ColorModel::Indexed => None,
    }
}

/// Whether a model carries an alpha channel after its colour channels.
pub fn has_alpha(model: ColorModel) -> (r: bool)
    ensures
        r == alpha_of(model),
{
    match model {
        ColorModel::GrayAlpha | ColorModel::Rgba => true,
        _ => false,
    }
}

/// The refusal for a layout this module deliberately does not convert.
fn opaque_model(model: ColorModel) -> (e: Error)
    ensures
        e.spec_kind() == ErrorKind::Unsupported,
        e.spec_static_message() == Some(opaque_message(model)),
        e.spec_origin() == Some(ORIGIN_CORE),
{
    let message = match model {
        ColorModel::Indexed => MSG_PALETTE,
        _ => MSG_CMYK,
    };
    Error::unsupported(ORIGIN_CORE, message)
}

/// A validated, per-image conversion recipe: every policy question is answered once, before a
/// single pixel is touched.
#[derive(Debug, Clone, Copy)]
struct Plan {
    src_channels: usize,
    dst_channels: usize,
    src_colour: usize,
    dst_colour: usize,
    src_alpha: bool,
    dst_alpha: bool,
    src_bilevel: bool,
    dst_bilevel: bool,
    identity: bool,
    composite: bool,
    weights: [u32; 3],
    background: [u16; 3],
    threshold: u16,
}

impl Plan {
    /// Whether this plan is the recipe for `src -> dst` under `policy`.
    spec fn describes(self, src: PixelFormat, dst: PixelFormat, policy: ConvertPolicy) -> bool {
        &&& self.src_channels == src.spec_channels()
        &&& self.dst_channels == dst.spec_channels()
        &&& self.identity == (src == dst)
        &&& !self.identity ==> {
            &&& colour_of(src.spec_color_model()) == Some(self.src_colour as nat)
            &&& colour_of(dst.spec_color_model()) == Some(self.dst_colour as nat)
            &&& self.src_alpha == alpha_of(src.spec_color_model())
            &&& self.dst_alpha == alpha_of(dst.spec_color_model())
            &&& self.src_bilevel == (src.spec_color_model() == ColorModel::Bilevel)
            &&& self.dst_bilevel == (dst.spec_color_model() == ColorModel::Bilevel)
            &&& self.composite == (drops_alpha(src, dst) && policy.spec_alpha()
                == AlphaPolicy::CompositeOver)
            &&& self.weights@.len() == 3
            &&& (self.weights@[0] as nat, self.weights@[1] as nat, self.weights@[2] as nat)
                == luma_triple(policy.spec_luma())
            &&& self.background@ == policy.spec_background()
            &&& self.threshold == policy.spec_threshold()
        }
    }

    /// A straight sample-for-sample copy between identical layouts.
    fn identity(format: PixelFormat) -> (p: Self)
        ensures
            forall|policy: ConvertPolicy| #[trigger] p.describes(format, format, policy),
    {
        Self {
            src_channels: format.channels(),
            dst_channels: format.channels(),
            src_colour: 0,
            dst_colour: 0,
            src_alpha: false,
            dst_alpha: false,
            src_bilevel: false,
            dst_bilevel: false,
            identity: true,
            composite: false,
            weights: BT709_LUMA_WEIGHTS,
            background: [0, 0, 0],
            threshold: 0,
        }
    }

    /// Derives the recipe for `src -> dst`, or the refusal explaining which policy is missing.
    fn derive(src: PixelFormat, dst: PixelFormat, policy: ConvertPolicy) -> (r: Result<Self>)
        ensures
            match r {
                Ok(p) => refusal(src, dst, policy) is None && p.describes(src, dst, policy),
                Err(e) => refusal(src, dst, policy) matches Some(m) && e.spec_kind()
                    == ErrorKind::Unsupported && e.spec_static_message() == Some(m)
                    && e.spec_origin() == Some(ORIGIN_CORE),
            },
    {
        if src == dst {
            return Ok(Self::identity(src));
        }
        let src_model = src.color_model();
        let dst_model = dst.color_model();
        let src_colour = match colour_channels(src_model) {
            Some(n) => n,
            None => return Err(opaque_model(src_model)),
        };
        let dst_colour = match colour_channels(dst_model) {
            Some(n) => n,
            None => return Err(opaque_model(dst_model)),
        };
        let src_alpha = has_alpha(src_model);
        let dst_alpha = has_alpha(dst_model);
        let src_bilevel = src_model == ColorModel::Bilevel;
        let dst_bilevel = dst_model == ColorModel::Bilevel;

        let drops = src_alpha && !dst_alpha;
        if drops && policy.alpha == AlphaPolicy::Reject {
            return Err(Error::unsupported(ORIGIN_CORE, MSG_ALPHA));
        }
        if src_colour == 3 && dst_colour == 1 && policy.luma == LumaPolicy::Reject {
            return Err(Error::unsupported(ORIGIN_CORE, MSG_LUMA));
        }
        let narrows_samples = src.bytes_per_sample() > dst.bytes_per_sample();
        let narrows_to_bilevel = dst_bilevel && !src_bilevel;
        if (narrows_samples || narrows_to_bilevel) && policy.depth == DepthPolicy::Reject {
            return Err(Error::unsupported(ORIGIN_CORE, MSG_DEPTH));
        }
        let weights = match policy.luma.weights() {
            Some(w) => w,
            None => BT709_LUMA_WEIGHTS,
        };
        Ok(Self {
            src_channels: src.channels(),
            dst_channels: dst.channels(),
            src_colour,
            dst_colour,
            src_alpha,
            dst_alpha,
            src_bilevel,
            dst_bilevel,
            identity: false,
            composite: drops && policy.alpha == AlphaPolicy::CompositeOver,
            weights,
            background: policy.background,
            threshold: policy.threshold,
        })
    }
}

/// Reads one source sample onto the canonical full-range scale.
fn read<S: Sample>(sample: S, bilevel: bool) -> (r: u16)
    ensures
        r as nat == read_full(S::spec_bits(), sample.spec_value(), bilevel),
{
    if bilevel {
        if sample.is_zero() {
            0
        } else {
            u16::MAX
        }
    } else {
        sample.to_full_range_u16()
    }
}

/// Writes one canonical full-range value into a target sample.
fn write<T: Sample>(value: u16, bilevel: bool, threshold: u16) -> (r: T)
    ensures
        r.spec_value() == write_value(T::spec_bits(), value as nat, bilevel, threshold as nat),
{
    if bilevel {
        if value >= threshold {
            T::max_value()
        } else {
            T::zero()
        }
    } else {
        T::from_full_range_u16(value)
    }
}

/// Composites one unassociated colour sample over `background`, rounding to nearest so a fully
/// opaque or fully transparent pixel is reproduced exactly.
fn composite(value: u16, alpha: u16, background: u16) -> (r: u16)
    ensures
        r as nat == composite_value(value as nat, alpha as nat, background as nat),
{
    let inverse = (u16::MAX - alpha) as u32;
    proof {
        assert((value as nat) * (alpha as nat) + (background as nat) * (inverse as nat) <= 65535
            * 65535) by (nonlinear_arith)
            requires
                value <= 65535,
                background <= 65535,
                alpha + inverse == 65535,
        ;
    }
    let blended = (value as u64) * (alpha as u64) + (background as u64) * (inverse as u64);
    proof {
        assert((blended + 32767) / 65535 <= 65535) by (nonlinear_arith)
            requires
                blended <= 65535 * 65535,
        ;
    }
    ((blended + 32767) / 65535) as u16
}

/// Reduces a full-range RGB triple to one luma sample with the plan's weights.
fn luma(r: u16, g: u16, b: u16, weights: [u32; 3]) -> (out: u16)
    requires
        weights@.len() == 3,
        weights@[0] + weights@[1] + weights@[2] == 65536,
    ensures
        out as nat == luma_of(
            r as nat,
            g as nat,
            b as nat,
            weights@[0] as nat,
            weights@[1] as nat,
            weights@[2] as nat,
        ),
{
    let (wr, wg, wb) = (weights[0], weights[1], weights[2]);
    proof {
        lemma_luma_fits(r as nat, g as nat, b as nat, wr as nat, wg as nat, wb as nat);
    }
    let sum = (wr as u64) * (r as u64) + (wg as u64) * (g as u64) + (wb as u64) * (b as u64);
    let rounded = sum + 32768;
    let shifted = rounded >> 16u64;
    proof {
        assert(rounded >> 16u64 == rounded / 65536) by (bit_vector);
    }
    shifted as u16
}

/// A non-opaque layout's channels are its colour channels followed by an optional alpha.
proof fn lemma_channels_split(f: PixelFormat)
    requires
        colour_of(f.spec_color_model()) is Some,
    ensures
        f.spec_channels() == colour_of(f.spec_color_model()).unwrap() + (if alpha_of(
            f.spec_color_model(),
        ) {
            1nat
        } else {
            0nat
        }),
        colour_of(f.spec_color_model()).unwrap() >= 1,
{
}

/// Index `j` inside pixel `p`'s run of `c` samples is channel `j - p * c` of pixel `p`.
proof fn lemma_index_split(j: nat, p: nat, c: nat)
    requires
        c > 0,
        p * c <= j < p * c + c,
    ensures
        j / c == p,
        j % c == j - p * c,
{
    lemma_fundamental_div_mod_converse_div(j as int, c as int, p as int, (j - p * c) as int);
    lemma_fundamental_div_mod_converse_mod(j as int, c as int, p as int, (j - p * c) as int);
}

/// Pixel `p` of an `n`-pixel image at `c` samples per pixel lies inside its buffer.
proof fn lemma_pixel_in_buffer(p: nat, n: nat, c: nat)
    requires
        p < n,
    ensures
        p * c + c <= n * c,
        p * c <= p * c + c,
{
    assert(p * c + c <= n * c) by (nonlinear_arith)
        requires
            p < n,
    ;
}

/// The full-range `(r, g, b, alpha)` of the source pixel starting at `base`.
fn pixel_rgba<S: Sample>(
    src: &[S],
    base: usize,
    plan: &Plan,
    Ghost(sf): Ghost<PixelFormat>,
    Ghost(df): Ghost<PixelFormat>,
    Ghost(policy): Ghost<ConvertPolicy>,
) -> (r: (u16, u16, u16, u16))
    requires
        plan.describes(sf, df, policy),
        refusal(sf, df, policy) is None,
        sf != df,
        S::spec_bits() == bits_of(sf),
        base + sf.spec_channels() <= src@.len(),
    ensures
        (r.0 as nat, r.1 as nat, r.2 as nat, r.3 as nat) == composited_rgba(
            sf,
            df,
            policy,
            values(src@).subrange(base as int, base + sf.spec_channels()),
        ),
{
    let ghost px = values(src@).subrange(base as int, base + sf.spec_channels());
    proof {
        lemma_channels_split(sf);
        assert(px[0] == src@[base as int].spec_value());
    }
    let red = read(src[base], plan.src_bilevel);
    let (green, blue) = if plan.src_colour == 1 {
        (red, red)
    } else {
        proof {
            assert(px[1] == src@[base + 1].spec_value());
            assert(px[2] == src@[base + 2].spec_value());
        }
        (read(src[base + 1], plan.src_bilevel), read(src[base + 2], plan.src_bilevel))
    };
    let alpha = if plan.src_alpha {
        proof {
            assert(px[plan.src_colour as int] == src@[base + plan.src_colour].spec_value());
        }
        read(src[base + plan.src_colour], false)
    } else {
        u16::MAX
    };
    if plan.composite {
        proof {
            policy.lemma_background_len();
        }
        (
            composite(red, alpha, plan.background[0]),
            composite(green, alpha, plan.background[1]),
            composite(blue, alpha, plan.background[2]),
            alpha,
        )
    } else {
        (red, green, blue, alpha)
    }
}

/// Target channel `k` written from a full-range `(r, g, b, alpha)`.
fn channel_from<T: Sample>(
    rgba: (u16, u16, u16, u16),
    plan: &Plan,
    k: usize,
    Ghost(sf): Ghost<PixelFormat>,
    Ghost(df): Ghost<PixelFormat>,
    Ghost(policy): Ghost<ConvertPolicy>,
) -> (r: T)
    requires
        plan.describes(sf, df, policy),
        refusal(sf, df, policy) is None,
        sf != df,
        T::spec_bits() == bits_of(df),
        k < df.spec_channels(),
    ensures
        r.spec_value() == channel_of(
            df,
            policy,
            (rgba.0 as nat, rgba.1 as nat, rgba.2 as nat, rgba.3 as nat),
            k as nat,
        ),
{
    proof {
        lemma_channels_split(df);
    }
    let (red, green, blue, alpha) = rgba;
    if k < plan.dst_colour {
        if plan.dst_colour == 1 {
            write(luma(red, green, blue, plan.weights), plan.dst_bilevel, plan.threshold)
        } else if k == 0 {
            write(red, plan.dst_bilevel, plan.threshold)
        } else if k == 1 {
            write(green, plan.dst_bilevel, plan.threshold)
        } else {
            write(blue, plan.dst_bilevel, plan.threshold)
        }
    } else {
        write(alpha, false, plan.threshold)
    }
}

/// Runs a derived plan over every pixel of `n`-pixel buffers.
fn run<S: Sample, T: Sample>(
    src: &[S],
    dst: &mut [T],
    plan: &Plan,
    Ghost(sf): Ghost<PixelFormat>,
    Ghost(df): Ghost<PixelFormat>,
    Ghost(policy): Ghost<ConvertPolicy>,
    Ghost(n): Ghost<nat>,
)
    requires
        plan.describes(sf, df, policy),
        refusal(sf, df, policy) is None,
        S::spec_bits() == bits_of(sf),
        T::spec_bits() == bits_of(df),
        src@.len() == n * sf.spec_channels(),
        old(dst)@.len() == n * df.spec_channels(),
    ensures
        final(dst)@.len() == old(dst)@.len(),
        is_conversion(sf, df, policy, values(src@), final(dst)@),
{
    let ghost vals = values(src@);
    if plan.identity {
        let mut i: usize = 0;
        while i < dst.len()
            invariant
                plan.describes(sf, df, policy),
                sf == df,
                S::spec_bits() == bits_of(sf),
                T::spec_bits() == bits_of(df),
                src@.len() == n * sf.spec_channels(),
                dst@.len() == n * df.spec_channels(),
                vals == values(src@),
                i <= dst@.len(),
                forall|j: int|
                    0 <= j < i ==> (#[trigger] dst@[j]).spec_value() == converted_sample(
                        sf,
                        df,
                        policy,
                        vals,
                        j as nat,
                    ),
            decreases dst@.len() - i,
        {
            let v = T::from_full_range_u16(src[i].to_full_range_u16());
            proof {
                S::lemma_range(src@[i as int]);
                lemma_narrow_widen_exact(S::spec_bits(), src@[i as int].spec_value());
                let c = sf.spec_channels();
                let p = (i as nat) / c;
                assert(c > 0);
                vstd::arithmetic::div_mod::lemma_fundamental_div_mod(i as int, c as int);
                assert(p * c + (i as nat) % c == i) by (nonlinear_arith)
                    requires
                        i as int == c * (i as int / c as int) + (i as int % c as int),
                        p == (i as nat) / c,
                ;
                vstd::arithmetic::div_mod::lemma_mod_bound(i as int, c as int);
                assert(p < n) by (nonlinear_arith)
                    requires
                        p * c + (i as nat) % c == i,
                        i < n * c,
                        c > 0,
                ;
                lemma_pixel_in_buffer(p, n, c);
                lemma_pixel_in_buffer(p, n, c);
            }
            dst[i] = v;
            i = i + 1;
        }
        return;
    }
    proof {
        lemma_channels_split(sf);
        lemma_channels_split(df);
    }
    let sc = plan.src_channels;
    let dc = plan.dst_channels;
    let slen = src.len();
    let dlen = dst.len();
    let mut p: usize = 0;
    let mut sbase: usize = 0;
    let mut dbase: usize = 0;
    while sbase < slen
        invariant
            plan.describes(sf, df, policy),
            refusal(sf, df, policy) is None,
            sf != df,
            S::spec_bits() == bits_of(sf),
            T::spec_bits() == bits_of(df),
            sc == sf.spec_channels(),
            dc == df.spec_channels(),
            sc >= 1,
            dc >= 1,
            slen == src@.len(),
            dlen == dst@.len(),
            src@.len() == n * sc,
            dst@.len() == n * dc,
            vals == values(src@),
            p <= n,
            sbase == p * sc,
            dbase == p * dc,
            forall|j: int|
                0 <= j < dbase ==> (#[trigger] dst@[j]).spec_value() == converted_sample(
                    sf,
                    df,
                    policy,
                    vals,
                    j as nat,
                ),
        decreases n - p,
    {
        proof {
            if p >= n {
                assert(p * sc >= n * sc) by (nonlinear_arith)
                    requires
                        p >= n,
                ;
            }
            lemma_pixel_in_buffer(p as nat, n, sc as nat);
            lemma_pixel_in_buffer(p as nat, n, dc as nat);
        }
        let rgba = pixel_rgba(src, sbase, plan, Ghost(sf), Ghost(df), Ghost(policy));
        let mut k: usize = 0;
        while k < dc
            invariant
                plan.describes(sf, df, policy),
                refusal(sf, df, policy) is None,
                sf != df,
                T::spec_bits() == bits_of(df),
                sc == sf.spec_channels(),
                dc == df.spec_channels(),
                dc >= 1,
                dlen == dst@.len(),
                dst@.len() == n * dc,
                p < n,
                sbase == p * sc,
                dbase == p * dc,
                dbase + dc <= dst@.len(),
                k <= dc,
                (rgba.0 as nat, rgba.1 as nat, rgba.2 as nat, rgba.3 as nat) == composited_rgba(
                    sf,
                    df,
                    policy,
                    vals.subrange(sbase as int, sbase + sf.spec_channels()),
                ),
                forall|j: int|
                    0 <= j < dbase + k ==> (#[trigger] dst@[j]).spec_value() == converted_sample(
                        sf,
                        df,
                        policy,
                        vals,
                        j as nat,
                    ),
            decreases dc - k,
        {
            let v: T = channel_from(rgba, plan, k, Ghost(sf), Ghost(df), Ghost(policy));
            proof {
                lemma_index_split((dbase + k) as nat, p as nat, dc as nat);
                assert(v.spec_value() == converted_sample(sf, df, policy, vals, (dbase + k) as nat));
            }
            dst[dbase + k] = v;
            k = k + 1;
        }
        p = p + 1;
        sbase = sbase + sc;
        dbase = dbase + dc;
        proof {
            assert(sbase == p * sc) by (nonlinear_arith)
                requires
                    sbase == (p - 1) * sc + sc,
            ;
            assert(dbase == p * dc) by (nonlinear_arith)
                requires
                    dbase == (p - 1) * dc + dc,
            ;
        }
    }
    proof {
        if p < n {
            lemma_pixel_in_buffer(p as nat, n, sc as nat);
        }
        assert(p == n) by (nonlinear_arith)
            requires
                p * sc >= n * sc,
                p <= n,
                sc >= 1,
        ;
    }
}

/// An all-zero sample vector of length `len`.
fn zeros<T: Sample>(len: usize) -> (r: Vec<T>)
    ensures
        r@.len() == len,
{
    let mut data: Vec<T> = Vec::new();
    let mut i: usize = 0;
    while i < len
        invariant
            i <= len,
            data@.len() == i,
        decreases len - i,
    {
        data.push(T::zero());
        i = i + 1;
    }
    data
}

/// Whether `src`, converted to `dst` under `policy`, has a sample count that fits in `usize`.
pub open spec fn output_fits(dims: Dimensions, dst: PixelFormat) -> bool {
    dims.spec_samples(dst.spec_channels()) <= usize::MAX
}

/// Converts a runtime-tagged raw image into the branded layout `Q`.
///
/// The conversion is refused exactly when [`refusal`] names a reason, with that reason as the
/// [`Error::Unsupported`] message; it fails with [`Error::InvalidInput`] when the target's sample
/// count overflows `usize`; otherwise every output sample is [`converted_sample`].
pub fn convert_from_raw<S: Sample, Q: Pixel>(src: RawImage<'_, S>, policy: ConvertPolicy) -> (r:
    Result<ImageBuf<Q>>)
    ensures
        match r {
            Ok(img) => {
                &&& refusal(src.spec_format(), Q::FORMAT, policy) is None
                &&& output_fits(src.spec_dims(), Q::FORMAT)
                &&& img.spec_dims() == src.spec_dims()
                &&& img.spec_samples().len() == src.spec_dims().spec_samples(
                    Q::FORMAT.spec_channels(),
                )
                &&& is_conversion(
                    src.spec_format(),
                    Q::FORMAT,
                    policy,
                    values(src.spec_samples()),
                    img.spec_samples(),
                )
            },
            Err(e) => match refusal(src.spec_format(), Q::FORMAT, policy) {
                Some(m) => e.spec_kind() == ErrorKind::Unsupported && e.spec_static_message()
                    == Some(m) && e.spec_origin() == Some(ORIGIN_CORE),
                None => !output_fits(src.spec_dims(), Q::FORMAT) && e.spec_kind()
                    == ErrorKind::InvalidInput,
            },
        },
{
    proof {
        use_type_invariant(src);
        Q::lemma_layout();
    }
    let plan = Plan::derive(src.format, Q::FORMAT, policy)?;
    let dims = src.dims;
    let slen = src.samples.len();
    proof {
        lemma_samples_at_least_pixels(dims, src.format.spec_channels());
    }
    let want = match expected_len::<Q>(dims) {
        Ok(n) => n,
        Err(e) => return Err(e),
    };
    let mut data: Vec<Q::Sample> = zeros(want);
    run(
        src.samples,
        data.as_mut_slice(),
        &plan,
        Ghost(src.format),
        Ghost(Q::FORMAT),
        Ghost(policy),
        Ghost(dims.spec_pixels()),
    );
    Ok(ImageBuf::from_parts(data, dims))
}

/// Converts a runtime-tagged raw image into caller-provided storage for layout `Q`.
///
/// Refuses as [`convert_from_raw`] does, then with [`Error::InvalidInput`] when `dst` is not
/// exactly `width * height * Q::CHANNELS` samples. `dst` is left untouched unless the conversion
/// succeeds.
pub fn convert_from_raw_into<S: Sample, Q: Pixel>(
    src: RawImage<'_, S>,
    policy: ConvertPolicy,
    dst: &mut [Q::Sample],
) -> (r: Result<()>)
    ensures
        match r {
            Ok(()) => {
                &&& refusal(src.spec_format(), Q::FORMAT, policy) is None
                &&& old(dst)@.len() == src.spec_dims().spec_samples(Q::FORMAT.spec_channels())
                &&& final(dst)@.len() == old(dst)@.len()
                &&& is_conversion(
                    src.spec_format(),
                    Q::FORMAT,
                    policy,
                    values(src.spec_samples()),
                    final(dst)@,
                )
            },
            Err(e) => {
                &&& final(dst)@ == old(dst)@
                &&& e.spec_origin() == Some(ORIGIN_CORE)
                &&& match refusal(src.spec_format(), Q::FORMAT, policy) {
                    Some(m) => e.spec_kind() == ErrorKind::Unsupported && e.spec_static_message()
                        == Some(m),
                    None => e.spec_kind() == ErrorKind::InvalidInput && e.spec_static_message()
                        == Some(
                        if !output_fits(src.spec_dims(), Q::FORMAT) {
                            MSG_OVERFLOW
                        } else {
                            MSG_DESTINATION
                        },
                    ) && old(dst)@.len() != src.spec_dims().spec_samples(
                        Q::FORMAT.spec_channels(),
                    ),
                }
            },
        },
{
    proof {
        use_type_invariant(src);
        Q::lemma_layout();
    }
    let plan = Plan::derive(src.format, Q::FORMAT, policy)?;
    let slen = src.samples.len();
    let dlen = dst.len();
    proof {
        lemma_samples_at_least_pixels(src.dims, src.format.spec_channels());
    }
    let want = match src.dims.sample_count(Q::CHANNELS) {
        Some(n) => n,
        None => return Err(Error::invalid_input(ORIGIN_CORE, MSG_OVERFLOW)),
    };
    if dst.len() != want {
        return Err(Error::invalid_input(ORIGIN_CORE, MSG_DESTINATION));
    }
    run(
        src.samples,
        dst,
        &plan,
        Ghost(src.format),
        Ghost(Q::FORMAT),
        Ghost(policy),
        Ghost(src.dims.spec_pixels()),
    );
    Ok(())
}

/// Converts a branded image from layout `P` to layout `Q`: the typed door onto the same engine
/// [`convert_from_raw`] drives, with the same contract.
pub fn convert<P: Pixel, Q: Pixel>(src: ImageRef<'_, P>, policy: ConvertPolicy) -> (r: Result<
    ImageBuf<Q>,
>)
    ensures
        match r {
            Ok(img) => {
                &&& refusal(P::FORMAT, Q::FORMAT, policy) is None
                &&& output_fits(src.spec_dims(), Q::FORMAT)
                &&& img.spec_dims() == src.spec_dims()
                &&& img.spec_samples().len() == src.spec_dims().spec_samples(
                    Q::FORMAT.spec_channels(),
                )
                &&& is_conversion(
                    P::FORMAT,
                    Q::FORMAT,
                    policy,
                    values(src.spec_samples()),
                    img.spec_samples(),
                )
            },
            Err(e) => match refusal(P::FORMAT, Q::FORMAT, policy) {
                Some(m) => e.spec_kind() == ErrorKind::Unsupported && e.spec_static_message()
                    == Some(m) && e.spec_origin() == Some(ORIGIN_CORE),
                None => !output_fits(src.spec_dims(), Q::FORMAT) && e.spec_kind()
                    == ErrorKind::InvalidInput,
            },
        },
{
    convert_from_raw(src.as_raw(), policy)
}

/// Whether `format` is a colour layout (red, green, blue at positions 0, 1, 2).
pub open spec fn is_colour_layout(format: PixelFormat) -> bool {
    format.spec_color_model() == ColorModel::Rgb || format.spec_color_model() == ColorModel::Rgba
}

/// Whether `format` is a one-colour layout (grey, grey with alpha, or bilevel).
pub open spec fn is_grey_layout(format: PixelFormat) -> bool {
    format.spec_color_model() == ColorModel::Gray || format.spec_color_model()
        == ColorModel::GrayAlpha || format.spec_color_model() == ColorModel::Bilevel
}

/// The published luma coefficients `(KR, KG, KB)` a policy names, scaled to `65536`: BT.601
/// `(0.299, 0.587, 0.114)`, BT.2020 `(0.2627, 0.6780, 0.0593)`, and BT.709 `(0.2126, 0.7152,
/// 0.0722)` otherwise.
pub open spec fn published_luma(policy: LumaPolicy) -> (nat, nat, nat) {
    match policy {
        LumaPolicy::Bt601 => (19595nat, 38470nat, 7471nat),
        LumaPolicy::Bt2020 => (17216nat, 44434nat, 3886nat),
        _ => (13933nat, 46871nat, 4732nat),
    }
}

/// A colour sample at source position `k` on the full 16-bit scale, laid over background
/// channel `k` at `alpha` when `over`.
pub open spec fn laid(v: nat, alpha: nat, background: u16, over: bool) -> nat {
    if over {
        ((v * alpha + background as nat * ((65535 - alpha) as nat) + 32767) / 65535) as nat
    } else {
        v
    }
}

/// Converting a colour pixel `px` to a grey layout writes its luma into the grey channel: the
/// samples at source positions 0 (red), 1 (green) and 2 (blue), each widened to 16 bits (and
/// laid over the background when alpha is composited away), weighed by the policy's published
/// `KR`, `KG` and `KB` respectively, summed, scaled down by `65536` rounding to nearest, and
/// stored at the target depth (at or above the threshold is white for bilevel).
pub proof fn law_grey_is_the_weighted_red_green_blue(
    src: PixelFormat,
    dst: PixelFormat,
    policy: ConvertPolicy,
    px: Seq<nat>,
)
    requires
        is_colour_layout(src),
        is_grey_layout(dst),
        px.len() == src.spec_channels(),
    ensures
        ({
            let sbits = 8 * src.spec_bytes_per_sample();
            let dbits = 8 * dst.spec_bytes_per_sample();
            let (kr, kg, kb) = published_luma(policy.spec_luma());
            let alpha = if src.spec_color_model() == ColorModel::Rgba {
                widen(sbits, px[3])
            } else {
                65535
            };
            let over = src.spec_color_model() == ColorModel::Rgba && dst.spec_color_model()
                != ColorModel::GrayAlpha && policy.spec_alpha() == AlphaPolicy::CompositeOver;
            let bg = policy.spec_background();
            let red = laid(widen(sbits, px[0]), alpha, bg[0], over);
            let green = laid(widen(sbits, px[1]), alpha, bg[1], over);
            let blue = laid(widen(sbits, px[2]), alpha, bg[2], over);
            let luma = (kr * red + kg * green + kb * blue + 32768) / 65536;
            pixel_channel(src, dst, policy, px, 0) == if dst.spec_color_model()
                == ColorModel::Bilevel {
                if luma >= policy.spec_threshold() as nat {
                    storage_max(dbits)
                } else {
                    0
                }
            } else {
                narrow(dbits, luma)
            }
        }),
{
}

/// A stored sample of `format` on the full 16-bit scale: bilevel zero is black and any other
/// value white; other layouts widen.
pub open spec fn full_scale(format: PixelFormat, v: nat) -> nat {
    if format.spec_color_model() == ColorModel::Bilevel {
        if v == 0 {
            0
        } else {
            65535
        }
    } else {
        widen(8 * format.spec_bytes_per_sample(), v)
    }
}

/// Whether `format` has an alpha channel after its colours.
pub open spec fn carries_alpha(format: PixelFormat) -> bool {
    format.spec_color_model() == ColorModel::Rgba || format.spec_color_model()
        == ColorModel::GrayAlpha
}

/// The number of colour channels of a colour or one-colour layout.
pub open spec fn colours(format: PixelFormat) -> nat {
    if is_colour_layout(format) {
        3
    } else {
        1
    }
}

/// The opacity of a source pixel on the full scale: its alpha sample widened, or fully opaque
/// without one.
pub open spec fn opacity(src: PixelFormat, px: Seq<nat>) -> nat {
    if carries_alpha(src) {
        widen(8 * src.spec_bytes_per_sample(), px[colours(src) as int])
    } else {
        65535
    }
}

/// Whether converting `src -> dst` under `policy` lays the colours over the background: the
/// source has alpha, the target has none, and the policy composites.
pub open spec fn lays_over(src: PixelFormat, dst: PixelFormat, policy: ConvertPolicy) -> bool {
    carries_alpha(src) && !carries_alpha(dst) && policy.spec_alpha() == AlphaPolicy::CompositeOver
}

/// Converting to a colour layout keeps each colour in its place: colour channel `k` of the
/// target is source colour `k` (a one-colour source gives its single colour to all three), on
/// the full scale, laid over background channel `k` when alpha is composited away, and stored
/// at the target depth.
pub proof fn law_colour_channels_keep_their_places(
    src: PixelFormat,
    dst: PixelFormat,
    policy: ConvertPolicy,
    px: Seq<nat>,
    k: nat,
)
    requires
        is_colour_layout(src) || is_grey_layout(src),
        is_colour_layout(dst),
        src != dst,
        k < 3,
        px.len() == src.spec_channels(),
    ensures
        pixel_channel(src, dst, policy, px, k) == narrow(
            8 * dst.spec_bytes_per_sample(),
            laid(
                full_scale(
                    src,
                    px[if is_colour_layout(src) {
                        k as int
                    } else {
                        0
                    }],
                ),
                opacity(src, px),
                policy.spec_background()[k as int],
                lays_over(src, dst, policy),
            ),
        ),
{
}

/// Converting to a layout with alpha carries the source's opacity into the target's alpha
/// channel (fully opaque for a source without alpha), stored at the target depth.
pub proof fn law_alpha_carries_opacity(
    src: PixelFormat,
    dst: PixelFormat,
    policy: ConvertPolicy,
    px: Seq<nat>,
)
    requires
        is_colour_layout(src) || is_grey_layout(src),
        is_colour_layout(dst) || is_grey_layout(dst),
        carries_alpha(dst),
        src != dst,
        px.len() == src.spec_channels(),
    ensures
        pixel_channel(src, dst, policy, px, colours(dst)) == narrow(
            8 * dst.spec_bytes_per_sample(),
            opacity(src, px),
        ),
{
}

/// Converting a one-colour pixel to another one-colour layout keeps its level: the grey channel
/// is the source level on the full scale, stored at the target depth (at or above the threshold
/// is white for bilevel), whatever the luma policy, when no alpha is composited away.
pub proof fn law_grey_to_grey_keeps_the_level(
    src: PixelFormat,
    dst: PixelFormat,
    policy: ConvertPolicy,
    px: Seq<nat>,
)
    requires
        is_grey_layout(src),
        is_grey_layout(dst),
        src != dst,
        px.len() == src.spec_channels(),
        !lays_over(src, dst, policy),
    ensures
        pixel_channel(src, dst, policy, px, 0) == if dst.spec_color_model() == ColorModel::Bilevel {
            if full_scale(src, px[0]) >= policy.spec_threshold() as nat {
                storage_max(8 * dst.spec_bytes_per_sample())
            } else {
                0
            }
        } else {
            narrow(8 * dst.spec_bytes_per_sample(), full_scale(src, px[0]))
        },
{
    let (wr, wg, wb) = luma_triple(policy.spec_luma());
    lemma_luma_triple_unit(policy.spec_luma());
    lemma_neutral_grey_is_fixed(full_scale(src, px[0]), wr, wg, wb);
}

/// Storing a full-range value never reverses order: a larger value is stored at least as large,
/// at either depth and when thresholded.
proof fn lemma_write_value_monotone(bits: nat, a: nat, b: nat, bilevel: bool, threshold: nat)
    requires
        a <= b,
    ensures
        write_value(bits, a, bilevel, threshold) <= write_value(bits, b, bilevel, threshold),
{
    if !bilevel && bits == 8 {
        vstd::arithmetic::div_mod::lemma_div_is_ordered((a + 128) as int, (b + 128) as int, 257);
    }
}

/// Under every luma policy green weighs most and blue least: converted to a grey layout, a pixel
/// that is pure green at some level is at least as light as one that is pure red at that level,
/// which is at least as light as one that is pure blue (source positions 1, 0 and 2; no alpha
/// composited away).
pub proof fn law_green_outweighs_red_outweighs_blue(
    src: PixelFormat,
    dst: PixelFormat,
    policy: ConvertPolicy,
    red_px: Seq<nat>,
    green_px: Seq<nat>,
    blue_px: Seq<nat>,
    v: nat,
)
    requires
        is_colour_layout(src),
        is_grey_layout(dst),
        red_px.len() == src.spec_channels(),
        green_px.len() == src.spec_channels(),
        blue_px.len() == src.spec_channels(),
        red_px[0] == v && red_px[1] == 0 && red_px[2] == 0,
        green_px[0] == 0 && green_px[1] == v && green_px[2] == 0,
        blue_px[0] == 0 && blue_px[1] == 0 && blue_px[2] == v,
        !(drops_alpha(src, dst) && policy.spec_alpha() == AlphaPolicy::CompositeOver),
    ensures
        pixel_channel(src, dst, policy, green_px, 0) >= pixel_channel(src, dst, policy, red_px, 0),
        pixel_channel(src, dst, policy, red_px, 0) >= pixel_channel(src, dst, policy, blue_px, 0),
{
    let (kr, kg, kb) = published_luma(policy.spec_luma());
    let w = widen(8 * src.spec_bytes_per_sample(), v);
    law_grey_is_the_weighted_red_green_blue(src, dst, policy, red_px);
    law_grey_is_the_weighted_red_green_blue(src, dst, policy, green_px);
    law_grey_is_the_weighted_red_green_blue(src, dst, policy, blue_px);
    assert(widen(8 * src.spec_bytes_per_sample(), 0) == 0);
    vstd::arithmetic::mul::lemma_mul_inequality(kr as int, kg as int, w as int);
    vstd::arithmetic::mul::lemma_mul_inequality(kb as int, kr as int, w as int);
    assert(kr * w + kg * 0 + kb * 0 == kr * w);
    assert(kr * 0 + kg * w + kb * 0 == kg * w);
    assert(kr * 0 + kg * 0 + kb * w == kb * w);
    vstd::arithmetic::div_mod::lemma_div_is_ordered(
        (kr * w + 32768) as int,
        (kg * w + 32768) as int,
        65536,
    );
    vstd::arithmetic::div_mod::lemma_div_is_ordered(
        (kb * w + 32768) as int,
        (kr * w + 32768) as int,
        65536,
    );
    let dbits = 8 * dst.spec_bytes_per_sample();
    let dbil = dst.spec_color_model() == ColorModel::Bilevel;
    let t = policy.spec_threshold() as nat;
    lemma_write_value_monotone(dbits, (kr * w + 32768) / 65536, (kg * w + 32768) / 65536, dbil, t);
    lemma_write_value_monotone(dbits, (kb * w + 32768) / 65536, (kr * w + 32768) / 65536, dbil, t);
}

/// Every luma weight triple sums to [`LUMA_ONE`](crate::luminance::LUMA_ONE).
proof fn lemma_luma_triple_unit(policy: LumaPolicy)
    ensures
        luma_triple(policy).0 + luma_triple(policy).1 + luma_triple(policy).2 == 65536,
{
}

/// Compositing over any background at full opacity reproduces the colour.
proof fn lemma_composite_opaque(v: nat, background: nat)
    requires
        v <= 65535,
    ensures
        composite_value(v, 65535, background) == v,
{
    assert((v * 65535 + background * 0 + 32767) / 65535 == v) by (nonlinear_arith)
        requires
            v <= 65535,
    ;
}

/// Index `p * c + k` of a buffer of `n` pixels at `c` channels is sample `k` of pixel `p`.
proof fn lemma_pixel_index(p: nat, k: nat, n: nat, c: nat)
    requires
        p < n,
        k < c,
    ensures
        p * c + k < n * c,
        (p * c + k) / c == p,
        (p * c + k) % c == k,
        p * c + c <= n * c,
{
    lemma_pixel_in_buffer(p, n, c);
    lemma_index_split(p * c + k, p, c);
}

/// Index `j < n * c` lies in pixel `j / c`, at channel `j % c`, inside the buffer.
proof fn lemma_index_in_pixel(j: nat, n: nat, c: nat)
    requires
        c > 0,
        j < n * c,
    ensures
        j / c < n,
        j % c < c,
        (j / c) * c + j % c == j,
        (j / c) * c + c <= n * c,
{
    vstd::arithmetic::div_mod::lemma_fundamental_div_mod(j as int, c as int);
    vstd::arithmetic::div_mod::lemma_mod_bound(j as int, c as int);
    assert((j / c) * c + j % c == j) by (nonlinear_arith)
        requires
            j as int == c * (j as int / c as int) + (j as int % c as int),
    ;
    assert(j / c < n) by (nonlinear_arith)
        requires
            (j / c) * c + j % c == j,
            j < n * c,
            c > 0,
    ;
    lemma_pixel_in_buffer(j / c, n, c);
}

/// A layout converted to itself is accepted under every policy, and each output sample is the
/// input sample at the same index.
pub proof fn law_a_layout_converts_to_itself_unchanged(
    format: PixelFormat,
    policy: ConvertPolicy,
    vals: Seq<nat>,
    pixels: nat,
)
    requires
        vals.len() == pixels * format.spec_channels(),
    ensures
        refusal(format, format, policy) is None,
        forall|j: int|
            0 <= j < vals.len() ==> #[trigger] converted_sample(format, format, policy, vals, j as nat)
                == vals[j],
{
    let c = format.spec_channels();
    assert forall|j: int| 0 <= j < vals.len() implies #[trigger] converted_sample(
        format,
        format,
        policy,
        vals,
        j as nat,
    ) == vals[j] by {
        lemma_index_in_pixel(j as nat, pixels, c);
    }
}

/// The in-place door and the allocating door agree: given a destination of the output's sample
/// count, the in-place door's count check passes exactly when the allocating door's size check
/// does, and two outputs of one conversion hold the same values, position by position.
pub proof fn law_in_place_matches_allocating<T: Sample>(
    src: PixelFormat,
    dst: PixelFormat,
    policy: ConvertPolicy,
    dims: Dimensions,
    vals: Seq<nat>,
    allocated: Seq<T>,
    in_place: Seq<T>,
    dst_len: usize,
)
    requires
        dst_len == dims.spec_samples(dst.spec_channels()),
        allocated.len() == in_place.len(),
        is_conversion(src, dst, policy, vals, allocated),
        is_conversion(src, dst, policy, vals, in_place),
    ensures
        output_fits(dims, dst),
        values(allocated) == values(in_place),
{
    assert(values(allocated) =~= values(in_place)) by {
        assert forall|j: int| 0 <= j < allocated.len() implies values(allocated)[j] == values(
            in_place,
        )[j] by {
            assert(allocated[j].spec_value() == converted_sample(src, dst, policy, vals, j as nat));
            assert(in_place[j].spec_value() == converted_sample(src, dst, policy, vals, j as nat));
        }
    }
}

/// A palette or CMYK layout converts only to itself: every pair that pairs one with a different
/// layout is refused, whatever the policy permits, with the opaque layout's message.
pub proof fn law_palette_and_cmyk_convert_only_to_themselves(
    src: PixelFormat,
    dst: PixelFormat,
    policy: ConvertPolicy,
)
    requires
        src != dst,
        colour_of(src.spec_color_model()) is None || colour_of(dst.spec_color_model()) is None,
    ensures
        refusal(src, dst, policy) == Some(
            if colour_of(src.spec_color_model()) is None {
                opaque_message(src.spec_color_model())
            } else {
                opaque_message(dst.spec_color_model())
            },
        ),
{
}

/// Whether `hi` holds everything `lo` holds at twice the sample width: the same or more
/// colour channels, an alpha slot wherever `lo` has one, and `lo` a continuous-tone
/// (not bilevel, palette or CMYK) 8-bit layout.
pub open spec fn widening_pair(lo: PixelFormat, hi: PixelFormat) -> bool {
    let nm = lo.spec_color_model();
    let wm = hi.spec_color_model();
    &&& bits_of(lo) == 8
    &&& bits_of(hi) == 16
    &&& nm != ColorModel::Bilevel
    &&& colour_of(nm) is Some
    &&& colour_of(wm) is Some
    &&& colour_of(nm).unwrap() <= colour_of(wm).unwrap()
    &&& alpha_of(nm) ==> alpha_of(wm)
}

/// The full-range image `lo -> hi` produces from the stored values `vals` of `pixels`
/// pixels.
pub open spec fn widened(
    lo: PixelFormat,
    hi: PixelFormat,
    policy: ConvertPolicy,
    vals: Seq<nat>,
    pixels: nat,
) -> Seq<nat> {
    Seq::new(
        pixels * hi.spec_channels(),
        |j: int| converted_sample(lo, hi, policy, vals, j as nat),
    )
}

/// One pixel of a widening pair survives the widening and the narrowing back.
proof fn lemma_pixel_round_trip(
    lo: PixelFormat,
    hi: PixelFormat,
    policy: ConvertPolicy,
    px: Seq<nat>,
    q: Seq<nat>,
    k: nat,
)
    requires
        widening_pair(lo, hi),
        px.len() == lo.spec_channels(),
        forall|i: int| 0 <= i < px.len() ==> #[trigger] px[i] <= 255,
        q.len() == hi.spec_channels(),
        forall|m: int|
            0 <= m < q.len() ==> #[trigger] q[m] == pixel_channel(lo, hi, policy, px, m as nat),
        k < lo.spec_channels(),
    ensures
        pixel_channel(hi, lo, policy, q, k) == px[k as int],
{
    lemma_channels_split(lo);
    lemma_channels_split(hi);
    lemma_luma_triple_unit(policy.spec_luma());
    policy.lemma_background_len();
    let nm = lo.spec_color_model();
    let wm = hi.spec_color_model();
    let cn = colour_of(nm).unwrap();
    let cw = colour_of(wm).unwrap();
    let (wr, wg, wb) = luma_triple(policy.spec_luma());
    assert(lo != hi);
    assert forall|i: int| 0 <= i < px.len() implies narrow(8, widen(8, #[trigger] px[i])) == px[i]
        && widen(8, px[i]) <= 65535 by {
        lemma_narrow_widen_exact(8, px[i]);
    }
    // The widened pixel: colours (grey replicated), then alpha (opaque when absent).
    let r0 = widen(8, px[0]);
    let g0 = if cn == 1 {
        r0
    } else {
        widen(8, px[1])
    };
    let b0 = if cn == 1 {
        r0
    } else {
        widen(8, px[2])
    };
    let a0 = if alpha_of(nm) {
        widen(8, px[cn as int])
    } else {
        65535
    };
    assert(composited_rgba(lo, hi, policy, px) == (r0, g0, b0, a0));
    if cw == 1 {
        lemma_neutral_grey_is_fixed(r0, wr, wg, wb);
        assert(q[0] == r0);
    } else {
        assert(q[0] == r0);
        assert(q[1] == g0);
        assert(q[2] == b0);
    }
    if alpha_of(wm) {
        assert(q[cw as int] == a0);
    }
    // The narrowed pixel reads the widened one back.
    let back = composited_rgba(hi, lo, policy, q);
    let comp = drops_alpha(hi, lo) && policy.spec_alpha() == AlphaPolicy::CompositeOver;
    if comp {
        let bg = policy.spec_background();
        lemma_composite_opaque(r0, bg[0] as nat);
        lemma_composite_opaque(g0, bg[1] as nat);
        lemma_composite_opaque(b0, bg[2] as nat);
    }
    assert(back.0 == r0 && back.1 == g0 && back.2 == b0);
    if alpha_of(nm) {
        assert(back.3 == a0);
    }
    if k < cn && cn == 1 {
        lemma_neutral_grey_is_fixed(r0, wr, wg, wb);
    }
}

/// Widening a continuous-tone 8-bit image to its 16-bit twin and narrowing it back recovers every
/// sample exactly: the narrowing is the exact inverse of the widening, not a truncating shift.
/// Widening needs no permission; the narrowing back is refused unless the policy permits it.
#[verifier::spinoff_prover]
#[verifier::rlimit(40)]
pub proof fn law_widening_then_narrowing_is_exact(
    lo: PixelFormat,
    hi: PixelFormat,
    policy: ConvertPolicy,
    vals: Seq<nat>,
    pixels: nat,
)
    requires
        widening_pair(lo, hi),
        vals.len() == pixels * lo.spec_channels(),
        forall|i: int| 0 <= i < vals.len() ==> #[trigger] vals[i] <= 255,
    ensures
        refusal(lo, hi, policy) is None,
        forall|j: int|
            0 <= j < vals.len() ==> #[trigger] converted_sample(
                hi,
                lo,
                policy,
                widened(lo, hi, policy, vals, pixels),
                j as nat,
            ) == vals[j],
{
    lemma_channels_split(lo);
    lemma_channels_split(hi);
    let sn = lo.spec_channels();
    let sw = hi.spec_channels();
    let wv = widened(lo, hi, policy, vals, pixels);
    assert forall|j: int| 0 <= j < vals.len() implies #[trigger] converted_sample(
        hi,
        lo,
        policy,
        wv,
        j as nat,
    ) == vals[j] by {
        lemma_index_in_pixel(j as nat, pixels, sn);
        let p = (j as nat) / sn;
        let k = (j as nat) % sn;
        let px = vals.subrange((p * sn) as int, (p * sn + sn) as int);
        let q = wv.subrange((p * sw) as int, (p * sw + sw) as int);
        lemma_pixel_in_buffer(p, pixels, sw);
        assert forall|i: int| 0 <= i < px.len() implies #[trigger] px[i] <= 255 by {
            assert(px[i] == vals[p * sn + i]);
        }
        assert forall|m: int| 0 <= m < q.len() implies #[trigger] q[m] == pixel_channel(
            lo,
            hi,
            policy,
            px,
            m as nat,
        ) by {
            lemma_pixel_index(p, m as nat, pixels, sw);
        }
        lemma_pixel_round_trip(lo, hi, policy, px, q, k);
        assert(px[k as int] == vals[j]);
    }
}

} // verus!

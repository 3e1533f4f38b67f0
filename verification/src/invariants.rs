//! Executable laws for the layout-conversion engine.
//!
//! Each function takes plain data, runs the conversion engine on it, and checks one law, returning
//! a [`Violation`] naming what broke it. Every law is also proved: each function's contract says
//! it returns `Ok`, so the violation branches are dead code that a fuzz driver can still exercise.
//!
//! The laws are stated over [`convert_from_raw`], not [`convert`](crate::convert::convert): the
//! typed door delegates to the raw one with the same contract.
use vstd::prelude::*;

use crate::convert::{
    colour_of, convert_from_raw, convert_from_raw_into, is_conversion, law_a_layout_converts_to_itself_unchanged,
    law_palette_and_cmyk_convert_only_to_themselves, law_widening_then_narrowing_is_exact,
    values, widened, widening_pair, ConvertPolicy, RawImage,
};
use crate::error::{Dimensions, ErrorKind};
use crate::pixel::{ColorModel, Pixel, PixelFormat, Sample};

verus! {

/// The largest edge a normalised dimension can take.
pub const MAX_EDGE: u32 = 32;

/// Maps arbitrary bits to a dimension pair inside [`MAX_EDGE`], never zero.
pub fn normalise_dims(width: u32, height: u32) -> (r: (u32, u32))
    ensures
        r.0 == width % MAX_EDGE + 1,
        r.1 == height % MAX_EDGE + 1,
        1 <= r.0 <= MAX_EDGE,
        1 <= r.1 <= MAX_EDGE,
{
    (width % MAX_EDGE + 1, height % MAX_EDGE + 1)
}

/// A law that did not hold.
#[derive(Debug, Clone, PartialEq, Eq)]
pub struct Violation {
    law: &'static str,
    detail: String,
}

impl Violation {
    /// The law's name, as a spec value.
    pub closed spec fn spec_law(self) -> &'static str {
        self.law
    }

    /// The description, as a spec value.
    pub closed spec fn spec_detail(self) -> Seq<char> {
        self.detail@
    }

    /// Builds a violation of `law`.
    fn new(law: &'static str, detail: String) -> (r: Self)
        ensures
            r.spec_law() == law,
            r.spec_detail() == detail@,
    {
        Self { law, detail }
    }

    /// The name of the law that was broken.
    pub fn law(&self) -> (r: &'static str)
        ensures
            r == self.spec_law(),
    {
        self.law
    }

    /// What broke it, in terms the failing case can be read from.
    pub fn detail(&self) -> (r: &str)
        ensures
            r@ == self.spec_detail(),
    {
        self.detail.as_str()
    }

    /// The rendered violation: `"law: detail"`.
    pub fn to_text(&self) -> (r: String)
        ensures
            r@ == self.spec_law()@ + ": "@ + self.spec_detail(),
    {
        let mut out = String::from_str(self.law);
        out.append(": ");
        out.append(self.detail.as_str());
        proof {
            reveal_strlit(": ");
        }
        out
    }
}

/// The variant name of a layout, as it appears in a violation's description.
pub open spec fn spec_format_name(format: PixelFormat) -> Seq<char> {
    match format {
        PixelFormat::Gray8 => "Gray8"@,
        PixelFormat::Bilevel => "Bilevel"@,
        PixelFormat::Indexed8 => "Indexed8"@,
        PixelFormat::Rgb8 => "Rgb8"@,
        PixelFormat::Rgba8 => "Rgba8"@,
        PixelFormat::Cmyk8 => "Cmyk8"@,
        PixelFormat::GrayAlpha8 => "GrayAlpha8"@,
        PixelFormat::Gray16 => "Gray16"@,
        PixelFormat::Rgb16 => "Rgb16"@,
        PixelFormat::Rgba16 => "Rgba16"@,
        PixelFormat::GrayAlpha16 => "GrayAlpha16"@,
    }
}

/// The variant name of a layout, as it appears in a violation's description.
fn format_name(format: PixelFormat) -> (r: &'static str)
    ensures
        r@ == spec_format_name(format),
{
    match format {
        PixelFormat::Gray8 => {
            proof {
                reveal_strlit("Gray8");
            }
            "Gray8"
        },
        PixelFormat::Bilevel => {
            proof {
                reveal_strlit("Bilevel");
            }
            "Bilevel"
        },
        PixelFormat::Indexed8 => {
            proof {
                reveal_strlit("Indexed8");
            }
            "Indexed8"
        },
        PixelFormat::Rgb8 => {
            proof {
                reveal_strlit("Rgb8");
            }
            "Rgb8"
        },
        PixelFormat::Rgba8 => {
            proof {
                reveal_strlit("Rgba8");
            }
            "Rgba8"
        },
        PixelFormat::Cmyk8 => {
            proof {
                reveal_strlit("Cmyk8");
            }
            "Cmyk8"
        },
        PixelFormat::GrayAlpha8 => {
            proof {
                reveal_strlit("GrayAlpha8");
            }
            "GrayAlpha8"
        },
        PixelFormat::Gray16 => {
            proof {
                reveal_strlit("Gray16");
            }
            "Gray16"
        },
        PixelFormat::Rgb16 => {
            proof {
                reveal_strlit("Rgb16");
            }
            "Rgb16"
        },
        PixelFormat::Rgba16 => {
            proof {
                reveal_strlit("Rgba16");
            }
            "Rgba16"
        },
        PixelFormat::GrayAlpha16 => {
            proof {
                reveal_strlit("GrayAlpha16");
            }
            "GrayAlpha16"
        },
    }
}

/// `"<from> -> <to>: <what>"`, the shape of every violation's description.
fn describe(from: PixelFormat, to: PixelFormat, what: &str) -> (r: String)
    ensures
        r@ == spec_format_name(from) + " -> "@ + spec_format_name(to) + ": "@ + what@,
{
    let mut out = String::from_str(format_name(from));
    out.append(" -> ");
    out.append(format_name(to));
    out.append(": ");
    out.append(what);
    out
}

/// Law: whether a conversion is accepted depends on the layouts and the policy, never on the
/// sample values.
///
/// Two sample buffers of one layout and length are either both accepted or both refused.
pub fn acceptance_is_independent_of_the_samples<S: Sample, Q: Pixel>(
    format: PixelFormat,
    dims: Dimensions,
    first: &[S],
    second: &[S],
    policy: ConvertPolicy,
) -> (r: Result<(), Violation>)
    ensures
        r is Ok,
{
    let a = match RawImage::<S>::new(first, format, dims) {
        Ok(a) => a,
        Err(_) => return Ok(()),
    };
    let b = match RawImage::<S>::new(second, format, dims) {
        Ok(b) => b,
        Err(_) => return Ok(()),
    };
    let first_ok = convert_from_raw::<S, Q>(a, policy).is_ok();
    let second_ok = convert_from_raw::<S, Q>(b, policy).is_ok();
    if first_ok == second_ok {
        Ok(())
    } else {
        Err(
            Violation::new(
                "acceptance_is_independent_of_the_samples",
                describe(format, Q::FORMAT, "one sample buffer was accepted and another refused"),
            ),
        )
    }
}

/// Law: an accepted conversion produces exactly `width * height * Q::CHANNELS` samples and keeps
/// the source's dimensions.
pub fn output_shape_matches_the_target_layout<S: Sample, Q: Pixel>(
    format: PixelFormat,
    dims: Dimensions,
    samples: &[S],
    policy: ConvertPolicy,
) -> (r: Result<(), Violation>)
    ensures
        r is Ok,
{
    let law = "output_shape_matches_the_target_layout";
    let src = match RawImage::<S>::new(samples, format, dims) {
        Ok(src) => src,
        Err(_) => return Ok(()),
    };
    let out = match convert_from_raw::<S, Q>(src, policy) {
        Ok(out) => out,
        Err(_) => return Ok(()),
    };
    proof {
        Q::lemma_layout();
        assert(dims.spec_pixels() <= dims.spec_samples(Q::CHANNELS as nat)) by (nonlinear_arith)
            requires
                Q::CHANNELS >= 1,
        ;
    }
    if out.dimensions() != dims {
        return Err(Violation::new(law, describe(format, Q::FORMAT, "the dimensions changed")));
    }
    let want = match dims.sample_count(Q::CHANNELS) {
        Some(n) => n,
        None => {
            return Err(
                Violation::new(law, describe(format, Q::FORMAT, "the output size overflows")),
            )
        },
    };
    if out.as_samples().len() != want {
        return Err(
            Violation::new(law, describe(format, Q::FORMAT, "the sample count is wrong")),
        );
    }
    Ok(())
}

/// Law: converting a layout to itself is accepted under any policy and changes nothing.
pub fn converting_a_layout_to_itself_changes_nothing<P: Pixel>(
    dims: Dimensions,
    samples: &[P::Sample],
    policy: ConvertPolicy,
) -> (r: Result<(), Violation>)
    ensures
        r is Ok,
{
    let law = "converting_a_layout_to_itself_changes_nothing";
    let len = samples.len();
    let src = match RawImage::<P::Sample>::new(samples, P::FORMAT, dims) {
        Ok(src) => src,
        Err(_) => return Ok(()),
    };
    proof {
        P::lemma_layout();
        law_a_layout_converts_to_itself_unchanged(
            P::FORMAT,
            policy,
            values(samples@),
            dims.spec_pixels(),
        );
    }
    let out = match convert_from_raw::<P::Sample, P>(src, policy) {
        Ok(out) => out,
        Err(_) => {
            return Err(Violation::new(law, describe(P::FORMAT, P::FORMAT, "it was refused")));
        },
    };
    let got = out.as_samples();
    if got.len() != samples.len() {
        return Err(Violation::new(law, describe(P::FORMAT, P::FORMAT, "the length changed")));
    }
    let mut i: usize = 0;
    while i < got.len()
        invariant
            got@.len() == samples@.len(),
            i <= got@.len(),
            forall|j: int|
                0 <= j < samples@.len() ==> (#[trigger] got@[j]).spec_value()
                    == samples@[j].spec_value(),
        decreases got@.len() - i,
    {
        if !got[i].same_value(samples[i]) {
            return Err(
                Violation::new(law, describe(P::FORMAT, P::FORMAT, "a sample was altered")),
            );
        }
        i = i + 1;
    }
    Ok(())
}

/// Whether a layout is one of the two that convert only to themselves.
fn closed(format: PixelFormat) -> (r: bool)
    ensures
        r == (colour_of(format.spec_color_model()) is None),
{
    match format.color_model() {
        ColorModel::Indexed | ColorModel::Cmyk => true,
        _ => false,
    }
}

/// Law: a conversion into or out of `Indexed8` or `Cmyk8` is refused as
/// [`ErrorKind::Unsupported`], whatever the policy permits.
pub fn palette_and_cmyk_convert_only_to_themselves<S: Sample, Q: Pixel>(
    format: PixelFormat,
    dims: Dimensions,
    samples: &[S],
    policy: ConvertPolicy,
) -> (r: Result<(), Violation>)
    ensures
        r is Ok,
{
    let law = "palette_and_cmyk_convert_only_to_themselves";
    if !(closed(format) || closed(Q::FORMAT)) || format == Q::FORMAT {
        return Ok(());
    }
    let src = match RawImage::<S>::new(samples, format, dims) {
        Ok(src) => src,
        Err(_) => return Ok(()),
    };
    proof {
        law_palette_and_cmyk_convert_only_to_themselves(format, Q::FORMAT, policy);
    }
    match convert_from_raw::<S, Q>(src, policy) {
        Ok(_) => Err(Violation::new(law, describe(format, Q::FORMAT, "it was accepted"))),
        Err(error) => {
            if error.kind() == ErrorKind::Unsupported {
                Ok(())
            } else {
                Err(
                    Violation::new(
                        law,
                        describe(format, Q::FORMAT, "it was refused with a kind other than Unsupported"),
                    ),
                )
            }
        },
    }
}

/// Law: [`convert_from_raw_into`] writes exactly what [`convert_from_raw`] allocates, and the two
/// agree on acceptance.
pub fn the_in_place_door_matches_the_allocating_door<S: Sample, Q: Pixel>(
    format: PixelFormat,
    dims: Dimensions,
    samples: &[S],
    policy: ConvertPolicy,
) -> (r: Result<(), Violation>)
    ensures
        r is Ok,
{
    let law = "the_in_place_door_matches_the_allocating_door";
    let a = match RawImage::<S>::new(samples, format, dims) {
        Ok(a) => a,
        Err(_) => return Ok(()),
    };
    let b = a;
    proof {
        Q::lemma_layout();
    }
    let allocated = convert_from_raw::<S, Q>(a, policy);
    let want = match dims.sample_count(Q::CHANNELS) {
        Some(n) => n,
        None => return Ok(()),
    };
    let mut storage: Vec<Q::Sample> = Vec::new();
    let mut i: usize = 0;
    while i < want
        invariant
            i <= want,
            storage@.len() == i,
        decreases want - i,
    {
        storage.push(Q::Sample::zero());
        i = i + 1;
    }
    let in_place = convert_from_raw_into::<S, Q>(b, policy, storage.as_mut_slice());
    match (allocated, in_place) {
        (Ok(out), Ok(())) => {
            let got = out.as_samples();
            if got.len() != storage.len() {
                return Err(
                    Violation::new(law, describe(format, Q::FORMAT, "the two doors wrote different lengths")),
                );
            }
            let mut k: usize = 0;
            while k < got.len()
                invariant
                    got@.len() == storage@.len(),
                    k <= got@.len(),
                    is_conversion(format, Q::FORMAT, policy, values(samples@), got@),
                    is_conversion(format, Q::FORMAT, policy, values(samples@), storage@),
                decreases got@.len() - k,
            {
                if !got[k].same_value(storage[k]) {
                    return Err(
                        Violation::new(
                            law,
                            describe(format, Q::FORMAT, "the two doors wrote different samples"),
                        ),
                    );
                }
                k = k + 1;
            }
            Ok(())
        },
        (Err(_), Err(_)) => Ok(()),
        (Ok(_), Err(_)) => Err(
            Violation::new(
                law,
                describe(format, Q::FORMAT, "the allocating door accepted, the in-place one refused"),
            ),
        ),
        (Err(_), Ok(())) => Err(
            Violation::new(
                law,
                describe(format, Q::FORMAT, "the in-place door accepted, the allocating one refused"),
            ),
        ),
    }
}

/// Law: widening 8-bit samples to a 16-bit layout that holds everything the 8-bit one holds, and
/// rescaling them back, recovers the original exactly.
///
/// The pair must be a [`widening_pair`]: a wider layout that drops colour or alpha on the way
/// (`Rgb8` through `Gray16`, say) cannot give back what it never kept.
pub fn widening_to_16_bit_and_back_is_exact<N: Pixel<Sample = u8>, W: Pixel<Sample = u16>>(
    dims: Dimensions,
    samples: &[u8],
    policy: ConvertPolicy,
) -> (r: Result<(), Violation>)
    requires
        widening_pair(N::FORMAT, W::FORMAT),
    ensures
        r is Ok,
{
    let law = "widening_to_16_bit_and_back_is_exact";
    let src = match RawImage::<u8>::new(samples, N::FORMAT, dims) {
        Ok(src) => src,
        Err(_) => return Ok(()),
    };
    proof {
        N::lemma_layout();
        W::lemma_layout();
        law_widening_then_narrowing_is_exact(
            N::FORMAT,
            W::FORMAT,
            policy,
            values(samples@),
            dims.spec_pixels(),
        );
    }
    let wide = match convert_from_raw::<u8, W>(src, policy) {
        Ok(wide) => wide,
        Err(_) => return Ok(()),
    };
    let back = match RawImage::<u16>::new(wide.as_samples(), W::FORMAT, dims) {
        Ok(back) => back,
        Err(_) => return Ok(()),
    };
    proof {
        assert(values(wide.spec_samples()) =~= widened(
            N::FORMAT,
            W::FORMAT,
            policy,
            values(samples@),
            dims.spec_pixels(),
        ));
    }
    let narrow = match convert_from_raw::<u16, N>(back, policy) {
        Ok(narrow) => narrow,
        Err(_) => return Ok(()),
    };
    let got = narrow.as_samples();
    let mut i: usize = 0;
    while i < got.len() && i < samples.len()
        invariant
            got@.len() == samples@.len(),
            i <= got@.len(),
            forall|j: int| 0 <= j < samples@.len() ==> #[trigger] got@[j] == samples@[j],
        decreases got@.len() - i,
    {
        if got[i] != samples[i] {
            return Err(
                Violation::new(
                    law,
                    describe(N::FORMAT, W::FORMAT, "a sample did not survive the round trip"),
                ),
            );
        }
        i = i + 1;
    }
    Ok(())
}

} // verus!

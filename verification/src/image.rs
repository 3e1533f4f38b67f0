//! Branded, length-validated interleaved image buffers: [`ImageRef`] (borrowed) and [`ImageBuf`]
//! (owned).
//!
//! Both wrap a flat sample sequence plus [`Dimensions`], branded with a [`Pixel`] marker `P`. The
//! invariant — non-zero dimensions and `len == width * height * P::CHANNELS` — is checked once,
//! at construction, and is a type invariant afterwards.
use vstd::prelude::*;

use crate::error::{Dimensions, Error, ErrorKind, Result};
use crate::pixel::{Pixel, Sample};

verus! {

/// Whether `len` samples exactly fill an image of `dims` at `channels` samples per pixel, with
/// non-zero dimensions.
pub open spec fn fills(dims: Dimensions, channels: nat, len: nat) -> bool {
    &&& !dims.spec_is_empty()
    &&& len == dims.spec_samples(channels)
}

/// The outcome [`expected_len`] reports for `dims` at `channels`: the zero-size check first,
/// then the overflow check.
pub open spec fn expected_len_ok(dims: Dimensions, channels: nat) -> bool {
    !dims.spec_is_empty() && dims.spec_pixels() <= usize::MAX && dims.spec_samples(channels)
        <= usize::MAX
}

/// The required sample count for `dims` at `P`'s channel count, rejecting empty or overflowing
/// dimensions.
pub fn expected_len<P: Pixel>(dims: Dimensions) -> (r: Result<usize>)
    ensures
        match r {
            Ok(n) => expected_len_ok(dims, P::CHANNELS as nat) && n as nat == dims.spec_samples(
                P::CHANNELS as nat,
            ),
            Err(e) => !expected_len_ok(dims, P::CHANNELS as nat) && e.spec_kind()
                == ErrorKind::InvalidInput && e.spec_static_message() == Some(
                if dims.spec_is_empty() {
                    "zero-sized image"
                } else {
                    "image dimensions overflow usize"
                },
            ),
        },
{
    if dims.is_empty() {
        return Err(Error::InvalidInput("zero-sized image"));
    }
    match dims.sample_count(P::CHANNELS) {
        Some(n) => Ok(n),
        None => Err(Error::InvalidInput("image dimensions overflow usize")),
    }
}

/// A borrowed, length-validated view of an interleaved image of pixel type `P`.
#[derive(Debug, Copy)]
pub struct ImageRef<'a, P: Pixel> {
    data: &'a [P::Sample],
    dims: Dimensions,
}

impl<'a, P: Pixel> ImageRef<'a, P> {
    #[verifier::type_invariant]
    spec fn inv(self) -> bool {
        fills(self.dims, P::CHANNELS as nat, self.data@.len())
    }

    /// The samples, as a spec value.
    pub closed spec fn spec_samples(self) -> Seq<P::Sample> {
        self.data@
    }

    /// The dimensions, as a spec value.
    pub closed spec fn spec_dims(self) -> Dimensions {
        self.dims
    }

    /// Brands `data` as an image of `dims`, validating that its length is exactly
    /// `width * height * P::CHANNELS`.
    pub fn new(data: &'a [P::Sample], dims: Dimensions) -> (r: Result<Self>)
        ensures
            match r {
                Ok(img) => fills(dims, P::CHANNELS as nat, data@.len()) && img.spec_samples()
                    == data@ && img.spec_dims() == dims,
                Err(e) => !fills(dims, P::CHANNELS as nat, data@.len()) && e.spec_kind()
                    == ErrorKind::InvalidInput,
            },
    {
        let len = data.len();
        proof {
            P::lemma_layout();
            lemma_samples_cover_pixels(dims, P::CHANNELS as nat);
        }
        let want = match expected_len::<P>(dims) {
            Ok(n) => n,
            Err(e) => return Err(e),
        };
        if data.len() != want {
            return Err(Error::InvalidInput("image buffer length does not match dimensions"));
        }
        Ok(Self { data, dims })
    }

    /// The image dimensions.
    pub fn dimensions(self) -> (r: Dimensions)
        ensures
            r == self.spec_dims(),
    {
        self.dims
    }

    /// Image width in pixels.
    pub fn width(self) -> (r: u32)
        ensures
            r == self.spec_dims().width,
    {
        self.dims.width
    }

    /// Image height in pixels.
    pub fn height(self) -> (r: u32)
        ensures
            r == self.spec_dims().height,
    {
        self.dims.height
    }

    /// The raw interleaved samples (`width * height * P::CHANNELS` of them, row-major).
    pub fn as_samples(self) -> (r: &'a [P::Sample])
        ensures
            r@ == self.spec_samples(),
            fills(self.spec_dims(), P::CHANNELS as nat, r@.len()),
    {
        proof {
            use_type_invariant(self);
        }
        self.data
    }

    /// Row `y` as a `width * P::CHANNELS`-sample slice.
    pub fn row(self, y: u32) -> (r: &'a [P::Sample])
        requires
            y < self.spec_dims().height,
        ensures
            r@ == self.spec_samples().subrange(
                y * self.spec_dims().width * P::CHANNELS,
                (y + 1) * self.spec_dims().width * P::CHANNELS,
            ),
    {
        proof {
            use_type_invariant(self);
            lemma_row_bounds(self.dims, P::CHANNELS as nat, y as nat);
        }
        let total = self.data.len();
        assert(total == self.dims.spec_samples(P::CHANNELS as nat));
        let row_len = self.dims.width as usize * P::CHANNELS;
        proof {
            let (w, h, c) = (self.dims.width as int, self.dims.height as int, P::CHANNELS as int);
            assert(y * row_len == y * w * c && y * row_len + row_len == (y + 1) * w * c
                && y * row_len + row_len <= total) by (nonlinear_arith)
                requires
                    row_len == w * c,
                    total == w * h * c,
                    0 <= y < h,
                    c >= 0,
            ;
        }
        let start = y as usize * row_len;
        &self.data[start..start + row_len]
    }

    /// The rows top to bottom, each a `width * P::CHANNELS`-sample slice.
    pub fn rows(self) -> (r: Vec<&'a [P::Sample]>)
        ensures
            r@.len() == self.spec_dims().height,
            forall|i: int|
                0 <= i < r@.len() ==> (#[trigger] r@[i])@ == self.spec_samples().subrange(
                    i * self.spec_dims().width * P::CHANNELS,
                    (i + 1) * self.spec_dims().width * P::CHANNELS,
                ),
    {
        let mut out: Vec<&'a [P::Sample]> = Vec::new();
        let mut y: u32 = 0;
        while y < self.dims.height
            invariant
                y <= self.spec_dims().height,
                out@.len() == y,
                forall|i: int|
                    0 <= i < out@.len() ==> (#[trigger] out@[i])@ == self.spec_samples().subrange(
                        i * self.spec_dims().width * P::CHANNELS,
                        (i + 1) * self.spec_dims().width * P::CHANNELS,
                    ),
            decreases self.spec_dims().height - y,
        {
            let r = self.row(y);
            out.push(r);
            y = y + 1;
        }
        out
    }

    /// The `P::CHANNELS` samples of the pixel at `(x, y)`.
    pub fn pixel(self, x: u32, y: u32) -> (r: &'a [P::Sample])
        requires
            x < self.spec_dims().width,
            y < self.spec_dims().height,
        ensures
            r@ == self.spec_samples().subrange(
                (y * self.spec_dims().width + x) * P::CHANNELS,
                (y * self.spec_dims().width + x + 1) * P::CHANNELS,
            ),
    {
        proof {
            use_type_invariant(self);
            lemma_pixel_bounds(self.dims, P::CHANNELS as nat, x as nat, y as nat);
            P::lemma_layout();
            lemma_samples_cover_pixels(self.dims, P::CHANNELS as nat);
        }
        let total = self.data.len();
        assert(total == self.dims.spec_samples(P::CHANNELS as nat));
        let i = (y as usize * self.dims.width as usize + x as usize) * P::CHANNELS;
        proof {
            assert(i + P::CHANNELS == (y * self.dims.width + x + 1) * P::CHANNELS)
                by (nonlinear_arith)
                requires
                    i == (y * self.dims.width + x) * P::CHANNELS,
            ;
        }
        &self.data[i..i + P::CHANNELS]
    }
}

impl<'a, P: Pixel> Clone for ImageRef<'a, P> {
    fn clone(&self) -> (r: Self)
        ensures
            r == *self,
    {
        *self
    }
}

/// With at least one channel, the sample count is at least the pixel count.
proof fn lemma_samples_cover_pixels(dims: Dimensions, channels: nat)
    requires
        channels >= 1,
    ensures
        dims.spec_pixels() <= dims.spec_samples(channels),
{
    assert(dims.spec_pixels() <= dims.spec_pixels() * channels) by (nonlinear_arith)
        requires
            channels >= 1,
    ;
}

/// Row `y` of an image lies inside its sample buffer.
proof fn lemma_row_bounds(dims: Dimensions, channels: nat, y: nat)
    requires
        y < dims.height,
    ensures
        (y + 1) * dims.width * channels <= dims.spec_samples(channels),
        y * dims.width * channels <= (y + 1) * dims.width * channels,
        dims.width * channels <= dims.spec_samples(channels),
{
    assert((y + 1) * dims.width * channels <= (dims.height as nat) * (dims.width as nat)
        * channels) by (nonlinear_arith)
        requires
            y < dims.height,
    ;
    assert(dims.spec_samples(channels) == (dims.height as nat) * (dims.width as nat) * channels)
        by (nonlinear_arith);
    assert(y * dims.width * channels <= (y + 1) * dims.width * channels) by (nonlinear_arith);
    assert(dims.width * channels <= (y + 1) * dims.width * channels) by (nonlinear_arith);
}

/// Pixel `(x, y)` of an image lies inside its sample buffer.
proof fn lemma_pixel_bounds(dims: Dimensions, channels: nat, x: nat, y: nat)
    requires
        x < dims.width,
        y < dims.height,
    ensures
        (y * dims.width + x + 1) * channels <= dims.spec_samples(channels),
        (y * dims.width + x) * channels <= (y * dims.width + x + 1) * channels,
        y * dims.width + x < dims.spec_pixels(),
{
    assert(y * dims.width + x + 1 <= dims.spec_pixels()) by (nonlinear_arith)
        requires
            x < dims.width,
            y < dims.height,
    ;
    assert((y * dims.width + x + 1) * channels <= dims.spec_pixels() * channels)
        by (nonlinear_arith)
        requires
            y * dims.width + x + 1 <= dims.spec_pixels(),
    ;
    assert((y * dims.width + x) * channels <= (y * dims.width + x + 1) * channels)
        by (nonlinear_arith);
}

/// An owned, length-validated interleaved image of pixel type `P`.
#[derive(Debug, PartialEq, Eq)]
pub struct ImageBuf<P: Pixel> {
    data: Vec<P::Sample>,
    dims: Dimensions,
}

impl<P: Pixel> ImageBuf<P> {
    #[verifier::type_invariant]
    spec fn inv(self) -> bool {
        fills(self.dims, P::CHANNELS as nat, self.data@.len())
    }

    /// The samples, as a spec value.
    pub closed spec fn spec_samples(self) -> Seq<P::Sample> {
        self.data@
    }

    /// The dimensions, as a spec value.
    pub closed spec fn spec_dims(self) -> Dimensions {
        self.dims
    }

    /// Takes ownership of `data` as an image of `dims`, validating its length the same way as
    /// [`ImageRef::new`].
    pub fn new(data: Vec<P::Sample>, dims: Dimensions) -> (r: Result<Self>)
        ensures
            match r {
                Ok(img) => fills(dims, P::CHANNELS as nat, data@.len()) && img.spec_samples()
                    == data@ && img.spec_dims() == dims,
                Err(e) => !fills(dims, P::CHANNELS as nat, data@.len()) && e.spec_kind()
                    == ErrorKind::InvalidInput,
            },
    {
        ImageRef::<P>::new(data.as_slice(), dims)?;
        Ok(Self { data, dims })
    }

    /// An image built from samples the caller has already sized for `dims`.
    pub(crate) fn from_parts(data: Vec<P::Sample>, dims: Dimensions) -> (r: Self)
        requires
            fills(dims, P::CHANNELS as nat, data@.len()),
        ensures
            r.spec_samples() == data@,
            r.spec_dims() == dims,
    {
        Self { data, dims }
    }

    /// An all-zero image of `dims`.
    pub fn zeroed(dims: Dimensions) -> (r: Result<Self>)
        ensures
            match r {
                Ok(img) => expected_len_ok(dims, P::CHANNELS as nat) && img.spec_dims() == dims
                    && img.spec_samples().len() == dims.spec_samples(P::CHANNELS as nat)
                    && forall|i: int|
                    0 <= i < img.spec_samples().len() ==> (#[trigger] img.spec_samples()[i]).spec_value()
                        == 0,
                Err(e) => !expected_len_ok(dims, P::CHANNELS as nat) && e.spec_kind()
                    == ErrorKind::InvalidInput,
            },
    {
        let want = expected_len::<P>(dims)?;
        let mut data: Vec<P::Sample> = Vec::new();
        let mut i: usize = 0;
        while i < want
            invariant
                i <= want,
                data@.len() == i,
                forall|k: int| 0 <= k < data@.len() ==> (#[trigger] data@[k]).spec_value() == 0,
            decreases want - i,
        {
            data.push(P::Sample::zero());
            i = i + 1;
        }
        Ok(Self { data, dims })
    }

    /// Borrows this image as an [`ImageRef`].
    pub fn as_ref(&self) -> (r: ImageRef<'_, P>)
        ensures
            r.spec_samples() == self.spec_samples(),
            r.spec_dims() == self.spec_dims(),
    {
        proof {
            use_type_invariant(self);
        }
        ImageRef { data: self.data.as_slice(), dims: self.dims }
    }

    /// The image dimensions.
    pub fn dimensions(&self) -> (r: Dimensions)
        ensures
            r == self.spec_dims(),
    {
        self.dims
    }

    /// The raw interleaved samples, row-major.
    pub fn as_samples(&self) -> (r: &[P::Sample])
        ensures
            r@ == self.spec_samples(),
            fills(self.spec_dims(), P::CHANNELS as nat, r@.len()),
    {
        proof {
            use_type_invariant(self);
        }
        self.data.as_slice()
    }

    /// Consumes the image, returning its backing sample vector.
    pub fn into_samples(self) -> (r: Vec<P::Sample>)
        ensures
            r@ == self.spec_samples(),
    {
        self.data
    }
}

impl<P: Pixel> Clone for ImageBuf<P> {
    fn clone(&self) -> (r: Self)
        ensures
            r.spec_dims() == self.spec_dims(),
            r.spec_samples().len() == self.spec_samples().len(),
    {
        proof {
            use_type_invariant(self);
        }
        let mut data: Vec<P::Sample> = Vec::new();
        let mut i: usize = 0;
        while i < self.data.len()
            invariant
                i <= self.data@.len(),
                data@.len() == i,
            decreases self.data@.len() - i,
        {
            data.push(self.data[i]);
            i = i + 1;
        }
        ImageBuf { data, dims: self.dims }
    }
}

} // verus!

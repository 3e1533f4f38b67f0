//! The error surface shared by every codec in the crate: a stable [`ErrorKind`] classification,
//! the allocation-free legacy variants, transport failures, and optional structured context
//! (origin, byte offset, owned detail) wrapped around any of them.
//!
//! Also home to [`Dimensions`], the plain width/height value type every buffer is sized by.
use vstd::prelude::*;
use vstd::string::*;

verus! {

/// The producing layer reported by errors raised in the pixel and conversion core.
pub const ORIGIN_CORE: &'static str = "gamut-core";

/// The producing layer reported by errors raised in the DNG codec.
pub const ORIGIN_DNG: &'static str = "gamut-dng";

/// Stable classification of an error, independent of any diagnostic context around it.
#[derive(Debug, Clone, Copy, PartialEq, Eq, Hash, Structural)]
pub enum ErrorKind {
    /// The input data was malformed, truncated, or otherwise invalid.
    InvalidInput,
    /// The requested format, profile, or feature is unsupported.
    Unsupported,
    /// An underlying I/O operation failed.
    Io,
}

/// Makes `std::io::Error` usable as a field of [`Error::Io`]; the value is carried opaquely.
#[verifier::external_type_specification]
#[verifier::external_body]
pub struct ExIoError(std::io::Error);

/// Structured diagnostic information attached to an [`Error`].
#[derive(Debug)]
pub struct Diagnostic {
    source: Error,
    origin: Option<&'static str>,
    byte_offset: Option<u64>,
    detail: Option<String>,
}

/// Errors produced by the encoders, decoders, and the conversion engine.
#[derive(Debug)]
pub enum Error {
    /// The input data was malformed, truncated, or otherwise not valid for the format.
    InvalidInput(&'static str),
    /// The requested format, profile, or feature is not yet supported.
    Unsupported(&'static str),
    /// An underlying I/O operation failed while reading from a stream-backed source.
    Io(std::io::Error),
    /// An existing error enriched with optional structured diagnostic context.
    Context(Box<Diagnostic>),
}

/// Convenience result type.
pub type Result<T> = core::result::Result<T, Error>;

impl Diagnostic {
    /// The wrapped error, as a spec value.
    pub closed spec fn spec_source(self) -> Error {
        self.source
    }

    /// The recorded origin, as a spec value.
    pub closed spec fn spec_origin(self) -> Option<&'static str> {
        self.origin
    }

    /// The recorded byte offset, as a spec value.
    pub closed spec fn spec_byte_offset(self) -> Option<u64> {
        self.byte_offset
    }

    /// The recorded detail text, as a spec value.
    pub closed spec fn spec_detail(self) -> Option<Seq<char>> {
        match self.detail {
            Some(d) => Some(d@),
            None => None,
        }
    }

    /// The underlying classified error.
    pub fn source_error(&self) -> (r: &Error)
        ensures
            *r == self.spec_source(),
    {
        &self.source
    }

    /// The error this diagnostic wraps, as the next link of a source chain (always present).
    pub fn source(&self) -> (r: Option<&Error>)
        ensures
            r == Some(&self.spec_source()),
    {
        Some(&self.source)
    }

    /// The package or format layer that produced the error, when known.
    pub fn origin(&self) -> (r: Option<&'static str>)
        ensures
            r == self.spec_origin(),
    {
        self.origin
    }

    /// The byte offset relative to the producing parser's immediate input, when known.
    pub fn byte_offset(&self) -> (r: Option<u64>)
        ensures
            r == self.spec_byte_offset(),
    {
        self.byte_offset
    }

    /// Dynamic diagnostic detail retained from an underlying parser or backend, when available.
    pub fn detail(&self) -> (r: Option<&str>)
        ensures
            match r {
                Some(s) => self.spec_detail() == Some(s@),
                None => self.spec_detail() is None,
            },
    {
        match &self.detail {
            Some(d) => Some(d.as_str()),
            None => None,
        }
    }

    /// The rendered message: the wrapped error's message, then the bracketed origin/offset
    /// context when any is present, then `": detail"` when a detail is present.
    pub fn to_text(&self) -> (r: String)
        ensures
            self.spec_text() matches Some(t) ==> r@ == t,
        decreases self, 0nat,
    {
        let mut out = self.source.to_text();
        if self.origin.is_some() || self.byte_offset.is_some() {
            out.append(" [");
            if let Some(origin) = self.origin {
                out.append("origin: ");
                out.append(origin);
                if self.byte_offset.is_some() {
                    out.append(", ");
                }
            }
            if let Some(offset) = self.byte_offset {
                out.append("byte offset: ");
                append_decimal(&mut out, offset);
            }
            out.append("]");
        }
        if let Some(detail) = &self.detail {
            out.append(": ");
            out.append(detail.as_str());
        }
        proof {
            reveal_strlit(" [");
            reveal_strlit("origin: ");
            reveal_strlit(", ");
            reveal_strlit("byte offset: ");
            reveal_strlit("]");
            reveal_strlit(": ");
        }
        out
    }

    /// The rendered message as a spec value; `None` when the chain holds an I/O error, whose
    /// text is the transport error's own.
    pub closed spec fn spec_text(self) -> Option<Seq<char>>
        decreases self, 0nat,
    {
        match self.source.spec_text() {
            None => None,
            Some(base) => Some(
                render_context(base, self.origin, self.byte_offset, self.spec_detail()),
            ),
        }
    }

    /// A diagnostic never wraps another: repeated context updates the one diagnostic.
    #[verifier::type_invariant]
    spec fn unnested(self) -> bool {
        !(self.source is Context)
    }
}

/// A message with its context rendered: the bracketed origin and byte offset when either is
/// present (`" [origin: o, byte offset: n]"`, either part alone without the separator), then
/// `": detail"` when a detail is present.
pub open spec fn render_context(
    base: Seq<char>,
    origin: Option<&'static str>,
    byte_offset: Option<u64>,
    detail: Option<Seq<char>>,
) -> Seq<char> {
    let bracket = if origin is Some || byte_offset is Some {
        let o = match origin {
            Some(origin) => "origin: "@ + origin@ + (if byte_offset is Some {
                ", "@
            } else {
                Seq::empty()
            }),
            None => Seq::empty(),
        };
        let b = match byte_offset {
            Some(offset) => "byte offset: "@ + decimal(offset as nat),
            None => Seq::empty(),
        };
        " ["@ + o + b + "]"@
    } else {
        Seq::empty()
    };
    let d = match detail {
        Some(detail) => ": "@ + detail,
        None => Seq::empty(),
    };
    base + bracket + d
}

/// The text of an error with context over `base`: `base`'s own text with the context rendered;
/// `None` when `base` is an I/O error.
pub open spec fn rendered(
    base: Error,
    origin: Option<&'static str>,
    byte_offset: Option<u64>,
    detail: Option<Seq<char>>,
) -> Option<Seq<char>> {
    match base.spec_text() {
        Some(text) => Some(render_context(text, origin, byte_offset, detail)),
        None => None,
    }
}

/// The decimal digit character for `d` (`0..=9`).
pub open spec fn digit_char(d: nat) -> char {
    if d == 0 {
        '0'
    } else if d == 1 {
        '1'
    } else if d == 2 {
        '2'
    } else if d == 3 {
        '3'
    } else if d == 4 {
        '4'
    } else if d == 5 {
        '5'
    } else if d == 6 {
        '6'
    } else if d == 7 {
        '7'
    } else if d == 8 {
        '8'
    } else {
        '9'
    }
}

/// The base-ten rendering of `n`, most significant digit first, without leading zeros.
pub open spec fn decimal(n: nat) -> Seq<char>
    decreases n,
{
    if n < 10 {
        seq![digit_char(n)]
    } else {
        decimal(n / 10) + seq![digit_char(n % 10)]
    }
}

fn digit_str(d: u64) -> (s: &'static str)
    requires
        d < 10,
    ensures
        s@ == seq![digit_char(d as nat)],
{
    proof {
        reveal_strlit("0");
        reveal_strlit("1");
        reveal_strlit("2");
        reveal_strlit("3");
        reveal_strlit("4");
        reveal_strlit("5");
        reveal_strlit("6");
        reveal_strlit("7");
        reveal_strlit("8");
        reveal_strlit("9");
    }
    if d == 0 {
        "0"
    } else if d == 1 {
        "1"
    } else if d == 2 {
        "2"
    } else if d == 3 {
        "3"
    } else if d == 4 {
        "4"
    } else if d == 5 {
        "5"
    } else if d == 6 {
        "6"
    } else if d == 7 {
        "7"
    } else if d == 8 {
        "8"
    } else {
        "9"
    }
}

/// Appends the decimal rendering of `n` to `out`.
pub fn append_decimal(out: &mut String, n: u64)
    ensures
        final(out)@ == old(out)@ + decimal(n as nat),
    decreases n,
{
    if n >= 10 {
        append_decimal(out, n / 10);
    }
    out.append(digit_str(n % 10));
}

/// Renders `e` through its `Display` implementation.
#[verifier::external_body]
fn io_error_display(e: &std::io::Error) -> String {
    e.to_string()
}

impl Error {
    /// The classification, as a spec value.
    pub open spec fn spec_kind(self) -> ErrorKind
        decreases self,
    {
        match self {
            Error::InvalidInput(_) => ErrorKind::InvalidInput,
            Error::Unsupported(_) => ErrorKind::Unsupported,
            Error::Io(_) => ErrorKind::Io,
            Error::Context(d) => d.spec_source().spec_kind(),
        }
    }

    /// The allocation-free static message, as a spec value.
    pub open spec fn spec_static_message(self) -> Option<&'static str>
        decreases self,
    {
        match self {
            Error::InvalidInput(m) => Some(m),
            Error::Unsupported(m) => Some(m),
            Error::Io(_) => None,
            Error::Context(d) => d.spec_source().spec_static_message(),
        }
    }

    /// The attached origin, as a spec value.
    pub open spec fn spec_origin(self) -> Option<&'static str> {
        match self {
            Error::Context(d) => d.spec_origin(),
            _ => None,
        }
    }

    /// The attached byte offset, as a spec value.
    pub open spec fn spec_byte_offset(self) -> Option<u64> {
        match self {
            Error::Context(d) => d.spec_byte_offset(),
            _ => None,
        }
    }

    /// The attached detail, as a spec value.
    pub open spec fn spec_detail(self) -> Option<Seq<char>> {
        match self {
            Error::Context(d) => d.spec_detail(),
            _ => None,
        }
    }

    /// The rendered message as a spec value; `None` when an I/O error is in the chain.
    pub open spec fn spec_text(self) -> Option<Seq<char>>
        decreases self, 1nat,
    {
        match self {
            Error::InvalidInput(m) => Some("invalid input: "@ + m@),
            Error::Unsupported(m) => Some("unsupported: "@ + m@),
            Error::Io(_) => None,
            Error::Context(d) => d.spec_text(),
        }
    }

    /// The error beneath any context: the diagnostic's wrapped error, or the error itself.
    pub open spec fn spec_base(self) -> Error {
        match self {
            Error::Context(d) => d.spec_source(),
            _ => self,
        }
    }

    /// Whether `next` is `self` with the context fields updated as the `with_*` builders do:
    /// one diagnostic over the same error beneath (never a diagnostic over a diagnostic), so the
    /// same classification and static message.
    pub open spec fn same_classification(self, next: Error) -> bool {
        &&& next.spec_kind() == self.spec_kind()
        &&& next.spec_static_message() == self.spec_static_message()
        &&& next is Context
        &&& next.spec_base() == self.spec_base()
        &&& !(next.spec_base() is Context)
    }

    /// The text of a contextual error is its base's text with the context rendered.
    pub open spec fn text_rendered(self) -> bool {
        self.spec_text() == rendered(
            self.spec_base(),
            self.spec_origin(),
            self.spec_byte_offset(),
            self.spec_detail(),
        )
    }

    /// Constructs an invalid-input error attributed to `origin`.
    pub fn invalid_input(origin: &'static str, message: &'static str) -> (r: Self)
        ensures
            r.spec_kind() == ErrorKind::InvalidInput,
            r.spec_static_message() == Some(message),
            r.spec_origin() == Some(origin),
            r.spec_byte_offset() is None,
            r.spec_detail() is None,
            r.spec_base() == Error::InvalidInput(message),
            r.spec_text() == Some("invalid input: "@ + message@ + " [origin: "@ + origin@ + "]"@),
    {
        let r = Self::InvalidInput(message).with_origin(origin);
        proof {
            reveal_strlit(" [");
            reveal_strlit("origin: ");
            reveal_strlit(" [origin: ");
            reveal_strlit("]");
            assert(" ["@ + ("origin: "@ + origin@ + Seq::<char>::empty()) + Seq::<char>::empty()
                + "]"@ =~= " [origin: "@ + origin@ + "]"@);
            assert(("invalid input: "@ + message@) + (" [origin: "@ + origin@ + "]"@)
                + Seq::<char>::empty() =~= "invalid input: "@ + message@ + " [origin: "@ + origin@
                + "]"@);
        }
        r
    }

    /// Constructs an unsupported error attributed to `origin`.
    pub fn unsupported(origin: &'static str, message: &'static str) -> (r: Self)
        ensures
            r.spec_kind() == ErrorKind::Unsupported,
            r.spec_static_message() == Some(message),
            r.spec_origin() == Some(origin),
            r.spec_byte_offset() is None,
            r.spec_detail() is None,
            r.spec_base() == Error::Unsupported(message),
            r.spec_text() == Some("unsupported: "@ + message@ + " [origin: "@ + origin@ + "]"@),
    {
        let r = Self::Unsupported(message).with_origin(origin);
        proof {
            reveal_strlit(" [");
            reveal_strlit("origin: ");
            reveal_strlit(" [origin: ");
            reveal_strlit("]");
            assert(" ["@ + ("origin: "@ + origin@ + Seq::<char>::empty()) + Seq::<char>::empty()
                + "]"@ =~= " [origin: "@ + origin@ + "]"@);
            assert(("unsupported: "@ + message@) + (" [origin: "@ + origin@ + "]"@)
                + Seq::<char>::empty() =~= "unsupported: "@ + message@ + " [origin: "@ + origin@
                + "]"@);
        }
        r
    }

    /// The stable classification of this error, looking through any attached context.
    pub fn kind(&self) -> (r: ErrorKind)
        ensures
            r == self.spec_kind(),
        decreases self,
    {
        match self {
            Self::InvalidInput(_) => ErrorKind::InvalidInput,
            Self::Unsupported(_) => ErrorKind::Unsupported,
            Self::Io(_) => ErrorKind::Io,
            Self::Context(diagnostic) => diagnostic.source.kind(),
        }
    }

    /// The static message of an invalid-input or unsupported error, looking through context.
    pub fn static_message(&self) -> (r: Option<&'static str>)
        ensures
            r == self.spec_static_message(),
        decreases self,
    {
        match self {
            Self::InvalidInput(m) | Self::Unsupported(m) => Some(*m),
            Self::Io(_) => None,
            Self::Context(diagnostic) => diagnostic.source.static_message(),
        }
    }

    /// The origin attached by [`Error::with_origin`], if any.
    pub fn origin(&self) -> (r: Option<&'static str>)
        ensures
            r == self.spec_origin(),
    {
        match self {
            Self::Context(diagnostic) => diagnostic.origin,
            _ => None,
        }
    }

    /// The byte offset attached by [`Error::with_byte_offset`], if any.
    pub fn byte_offset(&self) -> (r: Option<u64>)
        ensures
            r == self.spec_byte_offset(),
    {
        match self {
            Self::Context(diagnostic) => diagnostic.byte_offset,
            _ => None,
        }
    }

    /// The owned detail attached by [`Error::with_detail`], if any.
    pub fn detail(&self) -> (r: Option<&str>)
        ensures
            match r {
                Some(s) => self.spec_detail() == Some(s@),
                None => self.spec_detail() is None,
            },
    {
        match self {
            Self::Context(diagnostic) => diagnostic.detail(),
            _ => None,
        }
    }

    /// The diagnostic this error carries as its source, when it is a contextual error.
    pub fn source(&self) -> (r: Option<&Diagnostic>)
        ensures
            match self {
                Error::Context(d) => r matches Some(x) && *x == *d,
                _ => r is None,
            },
    {
        match self {
            Self::Context(diagnostic) => Some(&**diagnostic),
            _ => None,
        }
    }

    /// Attaches an origin if no origin is already present (the first write wins).
    pub fn with_origin(self, origin: &'static str) -> (r: Self)
        ensures
            self.same_classification(r),
            r.spec_origin() == (if self.spec_origin() is Some {
                self.spec_origin()
            } else {
                Some(origin)
            }),
            r.spec_byte_offset() == self.spec_byte_offset(),
            r.spec_detail() == self.spec_detail(),
            r.text_rendered(),
    {
        let mut diagnostic = self.with_diagnostic();
        proof {
            use_type_invariant(&diagnostic);
        }
        if diagnostic.origin.is_none() {
            diagnostic.origin = Some(origin);
        }
        Self::Context(Box::new(diagnostic))
    }

    /// Attaches a byte offset if no offset is already present (the first write wins).
    pub fn with_byte_offset(self, byte_offset: u64) -> (r: Self)
        ensures
            self.same_classification(r),
            r.spec_origin() == self.spec_origin(),
            r.spec_byte_offset() == (if self.spec_byte_offset() is Some {
                self.spec_byte_offset()
            } else {
                Some(byte_offset)
            }),
            r.spec_detail() == self.spec_detail(),
            r.text_rendered(),
    {
        let mut diagnostic = self.with_diagnostic();
        proof {
            use_type_invariant(&diagnostic);
        }
        if diagnostic.byte_offset.is_none() {
            diagnostic.byte_offset = Some(byte_offset);
        }
        Self::Context(Box::new(diagnostic))
    }

    /// Attaches owned detail text if no detail is already present (the first write wins).
    pub fn with_detail(self, detail: &str) -> (r: Self)
        ensures
            self.same_classification(r),
            r.spec_origin() == self.spec_origin(),
            r.spec_byte_offset() == self.spec_byte_offset(),
            r.spec_detail() == (if self.spec_detail() is Some {
                self.spec_detail()
            } else {
                Some(detail@)
            }),
            r.text_rendered(),
    {
        let mut diagnostic = self.with_diagnostic();
        proof {
            use_type_invariant(&diagnostic);
        }
        if diagnostic.detail.is_none() {
            diagnostic.detail = Some(String::from_str(detail));
        }
        Self::Context(Box::new(diagnostic))
    }

    /// The diagnostic a `with_*` builder updates: the existing one for a contextual error, or a
    /// fresh, empty one wrapping any other error.
    fn with_diagnostic(self) -> (d: Diagnostic)
        ensures
            d.source.spec_kind() == self.spec_kind(),
            d.source.spec_static_message() == self.spec_static_message(),
            d.origin == self.spec_origin(),
            d.byte_offset == self.spec_byte_offset(),
            d.spec_detail() == self.spec_detail(),
            d.source == self.spec_base(),
    {
        match self {
            Self::Context(diagnostic) => {
                proof {
                    use_type_invariant(&*diagnostic);
                }
                *diagnostic
            },
            source => Diagnostic { source, origin: None, byte_offset: None, detail: None },
        }
    }

    /// The rendered message (what the error displays as).
    pub fn to_text(&self) -> (r: String)
        ensures
            self.spec_text() matches Some(t) ==> r@ == t,
        decreases self, 1nat,
    {
        proof {
            reveal_strlit("invalid input: ");
            reveal_strlit("unsupported: ");
        }
        match self {
            Self::InvalidInput(m) => String::from_str("invalid input: ").concat(m),
            Self::Unsupported(m) => String::from_str("unsupported: ").concat(m),
            Self::Io(e) => String::from_str("i/o error: ").concat(io_error_display(e).as_str()),
            Self::Context(diagnostic) => diagnostic.to_text(),
        }
    }
}

/// Width and height of an image, in pixels.
#[derive(Debug, Clone, Copy, PartialEq, Eq, Hash, Structural)]
pub struct Dimensions {
    /// Image width in pixels.
    pub width: u32,
    /// Image height in pixels.
    pub height: u32,
}

impl Dimensions {
    /// The pixel count `width * height` as a mathematical integer.
    pub open spec fn spec_pixels(self) -> nat {
        (self.width as nat) * (self.height as nat)
    }

    /// The interleaved sample count `width * height * channels` as a mathematical integer.
    pub open spec fn spec_samples(self, channels: nat) -> nat {
        self.spec_pixels() * channels
    }

    /// Whether either edge is zero.
    pub open spec fn spec_is_empty(self) -> bool {
        self.width == 0 || self.height == 0
    }

    /// Creates dimensions, rejecting a zero width or height.
    pub fn new(width: u32, height: u32) -> (r: Result<Self>)
        ensures
            match r {
                Ok(d) => width != 0 && height != 0 && d == (Dimensions { width, height }),
                Err(e) => (width == 0 || height == 0) && e.spec_kind() == ErrorKind::InvalidInput
                    && e.spec_static_message() == Some("zero-sized image")
                    && e.spec_origin() == Some(ORIGIN_CORE),
            },
    {
        if width == 0 || height == 0 {
            return Err(Error::InvalidInput("zero-sized image").with_origin(ORIGIN_CORE));
        }
        Ok(Self { width, height })
    }

    /// The pixel count `width * height`, or `None` if it overflows `usize`.
    pub fn num_pixels(self) -> (r: Option<usize>)
        ensures
            match r {
                Some(n) => n as nat == self.spec_pixels(),
                None => self.spec_pixels() > usize::MAX,
            },
    {
        (self.width as usize).checked_mul(self.height as usize)
    }

    /// The sample count for `channels` interleaved samples per pixel, or `None` on overflow.
    pub fn sample_count(self, channels: usize) -> (r: Option<usize>)
        ensures
            match r {
                Some(n) => n as nat == self.spec_samples(channels as nat) && self.spec_pixels()
                    <= usize::MAX,
                None => self.spec_pixels() > usize::MAX || self.spec_samples(channels as nat)
                    > usize::MAX,
            },
    {
        match self.num_pixels() {
            Some(p) => p.checked_mul(channels),
            None => None,
        }
    }

    /// Whether either dimension is zero.
    pub fn is_empty(self) -> (r: bool)
        ensures
            r == self.spec_is_empty(),
    {
        self.width == 0 || self.height == 0
    }
}

/// Wraps a transport failure as an [`Error::Io`].
impl From<std::io::Error> for Error {
    fn from(e: std::io::Error) -> (r: Self) {
        Error::Io(e)
    }
}

impl vstd::std_specs::convert::FromSpecImpl<std::io::Error> for Error {
    open spec fn obeys_from_spec() -> bool {
        true
    }

    open spec fn from_spec(e: std::io::Error) -> Self {
        Error::Io(e)
    }
}

} // verus!

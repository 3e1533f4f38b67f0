//! The pixel and conversion core, driven through the public API.

use gamut::convert::{
    AlphaPolicy, ConvertPolicy, DepthPolicy, LumaPolicy, RawImage, convert, convert_from_raw,
    convert_from_raw_into,
};
use gamut::invariants::{normalise_dims, MAX_EDGE};
use gamut::luminance::{
    BT2020_LUMA_WEIGHTS, BT601_LUMA_WEIGHTS, BT709_LUMA_WEIGHTS, LUMA_FIX, LUMA_ONE,
};
use gamut::{
    Bilevel, Cmyk8, ColorModel, DecodeImage, Dimensions, EncodeImage, Error, ErrorKind, Gray16,
    Gray8, GrayAlpha16, GrayAlpha8, ImageBuf, ImageRef, Indexed8, Pixel, PixelFormat, Result,
    Rgb16, Rgb8, Rgba16, Rgba8, Sample,
};

fn dims(w: u32, h: u32) -> Dimensions {
    Dimensions { width: w, height: h }
}

fn raw<S: Sample>(samples: &[S], format: PixelFormat) -> RawImage<'_, S> {
    RawImage::new(samples, format, dims(1, 1)).unwrap()
}

// ---- errors and dimensions ---------------------------------------------------------------

#[test]
fn error_displays_and_dimensions_fields() {
    assert!(!Error::Unsupported("x").to_text().is_empty());
    assert!(!Error::InvalidInput("y").to_text().is_empty());
    let d = Dimensions { width: 1920, height: 1080 };
    assert_eq!(d.width, 1920);
    assert_eq!(d.height, 1080);
}

#[test]
fn io_error_converts_and_displays() {
    let io = std::io::Error::new(std::io::ErrorKind::UnexpectedEof, "short read");
    let err: Error = io.into();
    assert!(matches!(err, Error::Io(_)));
    assert!(err.to_text().contains("short read"));
}

#[test]
fn legacy_error_variants_keep_their_public_shape() {
    let invalid = Error::InvalidInput("bad bytes");
    let unsupported = Error::Unsupported("future profile");
    assert!(matches!(invalid, Error::InvalidInput("bad bytes")));
    assert!(matches!(unsupported, Error::Unsupported("future profile")));
    assert_eq!(invalid.kind(), ErrorKind::InvalidInput);
    assert_eq!(unsupported.kind(), ErrorKind::Unsupported);
    assert_eq!(invalid.static_message(), Some("bad bytes"));
    assert_eq!(unsupported.static_message(), Some("future profile"));
    assert_eq!(invalid.origin(), None);
}

#[test]
fn context_is_structured_first_write_wins_and_keeps_the_source() {
    let err = Error::InvalidInput("bad box")
        .with_origin("gamut-isobmff")
        .with_origin("gamut-avif")
        .with_byte_offset(17)
        .with_byte_offset(99)
        .with_detail("declared size exceeds input")
        .with_detail("replacement");

    assert_eq!(err.kind(), ErrorKind::InvalidInput);
    assert_eq!(err.static_message(), Some("bad box"));
    assert_eq!(err.origin(), Some("gamut-isobmff"));
    assert_eq!(err.byte_offset(), Some(17));
    assert_eq!(err.detail(), Some("declared size exceeds input"));
    assert_eq!(
        err.to_text(),
        "invalid input: bad box [origin: gamut-isobmff, byte offset: 17]: declared size exceeds input"
    );

    let diagnostic = match &err {
        Error::Context(diagnostic) => diagnostic,
        other => panic!("expected contextual error, got {other:?}"),
    };
    assert!(matches!(diagnostic.source_error(), Error::InvalidInput("bad box")));
    assert!(err.source().is_some());
}

#[test]
fn partial_context_displays_without_empty_separators() {
    assert_eq!(
        Error::Unsupported("future profile").with_byte_offset(3).to_text(),
        "unsupported: future profile [byte offset: 3]"
    );
    assert_eq!(
        Error::InvalidInput("bad bytes").with_detail("decoder rejected marker").to_text(),
        "invalid input: bad bytes: decoder rejected marker"
    );
    assert_eq!(
        Error::unsupported("gamut-test", "future profile").to_text(),
        "unsupported: future profile [origin: gamut-test]"
    );
}

#[test]
fn contextual_io_keeps_its_kind_and_source_chain() {
    let err = Error::Io(std::io::Error::other("disk on fire"))
        .with_origin("gamut-ifd")
        .with_byte_offset(4096);
    assert_eq!(err.kind(), ErrorKind::Io);
    assert_eq!(err.static_message(), None);
    assert_eq!(err.origin(), Some("gamut-ifd"));
    assert_eq!(err.byte_offset(), Some(4096));
    let diagnostic = err.source().expect("diagnostic source");
    let io = diagnostic.source().expect("io source");
    assert_eq!(io.to_text(), "i/o error: disk on fire");
}

#[test]
fn errors_remain_send_and_sync() {
    fn assert_send_sync<T: Send + Sync>() {}
    assert_send_sync::<Error>();
}

#[test]
fn dimensions_new_rejects_zero() {
    assert!(Dimensions::new(0, 4).is_err());
    assert!(Dimensions::new(4, 0).is_err());
    assert!(Dimensions::new(0, 0).is_err());
    let d = Dimensions::new(4, 3).unwrap();
    assert_eq!((d.width, d.height), (4, 3));
}

#[test]
fn dimensions_pixel_and_sample_counts() {
    let d = Dimensions { width: 4, height: 3 };
    assert_eq!(d.num_pixels(), Some(12));
    assert_eq!(d.sample_count(3), Some(36));
    assert_eq!(d.sample_count(1), Some(12));
    assert!(!d.is_empty());
}

#[test]
fn dimensions_is_empty() {
    assert!(Dimensions { width: 0, height: 5 }.is_empty());
    assert!(Dimensions { width: 5, height: 0 }.is_empty());
    assert!(!Dimensions { width: 5, height: 5 }.is_empty());
}

#[test]
fn dimensions_sample_count_overflow_is_none() {
    let d = Dimensions { width: 0xFFFF, height: 0xFFFF };
    assert_eq!(d.num_pixels(), Some(0xFFFF * 0xFFFF));
    assert_eq!(d.sample_count(usize::MAX), None);
}

#[test]
fn zero_sized_dimensions_carry_the_core_origin() {
    let err = Dimensions::new(0, 1).unwrap_err();
    assert_eq!(err.kind(), ErrorKind::InvalidInput);
    assert_eq!(err.static_message(), Some("zero-sized image"));
    assert_eq!(err.origin(), Some("gamut-core"));
}

// ---- codec traits -------------------------------------------------------------------------

struct Trivial;

impl EncodeImage<Gray8> for Trivial {
    fn encode_image(&self, image: ImageRef<'_, Gray8>, out: &mut Vec<u8>) -> Result<usize> {
        out.extend_from_slice(image.as_samples());
        Ok(image.as_samples().len())
    }
}

impl DecodeImage<Gray8> for Trivial {
    fn decode_image(&self, _data: &[u8]) -> Result<ImageBuf<Gray8>> {
        ImageBuf::<Gray8>::new(vec![42u8], Dimensions::new(1, 1)?)
    }
}

struct Failing;

impl EncodeImage<Gray8> for Failing {
    fn encode_image(&self, _image: ImageRef<'_, Gray8>, _out: &mut Vec<u8>) -> Result<usize> {
        Err(Error::Unsupported("nope"))
    }
}

impl DecodeImage<Gray8> for Failing {
    fn decode_image(&self, _data: &[u8]) -> Result<ImageBuf<Gray8>> {
        Err(Error::InvalidInput("nope"))
    }
}

#[test]
fn encode_image_appends_and_counts() {
    let img = ImageBuf::<Gray8>::new(vec![1, 2, 3, 4], Dimensions::new(2, 2).unwrap()).unwrap();
    let mut out = vec![0xFF];
    let n = Trivial.encode_image(img.as_ref(), &mut out).unwrap();
    assert_eq!(n, 4);
    assert_eq!(out, vec![0xFF, 1, 2, 3, 4]);
}

#[test]
fn encode_to_vec_returns_fresh_exact_bytes() {
    let img = ImageBuf::<Gray8>::new(vec![1, 2, 3, 4], Dimensions::new(2, 2).unwrap()).unwrap();
    assert_eq!(Trivial.encode_to_vec(img.as_ref()).unwrap(), vec![1, 2, 3, 4]);
}

#[test]
fn encode_to_vec_propagates_errors() {
    let img = ImageBuf::<Gray8>::new(vec![0], Dimensions::new(1, 1).unwrap()).unwrap();
    assert!(Failing.encode_to_vec(img.as_ref()).is_err());
}

#[test]
fn decode_image_into_default_forwards() {
    let mut dst = ImageBuf::<Gray8>::zeroed(Dimensions::new(1, 1).unwrap()).unwrap();
    Trivial.decode_image_into(&[], &mut dst).unwrap();
    assert_eq!(dst.as_samples(), &[42]);
}

#[test]
fn decode_image_into_keeps_the_destination_on_failure() {
    let mut dst = ImageBuf::<Gray8>::new(vec![9u8], Dimensions::new(1, 1).unwrap()).unwrap();
    assert!(Failing.decode_image_into(&[], &mut dst).is_err());
    assert_eq!(dst.as_samples(), &[9]);
}

#[test]
fn traits_are_object_safe() {
    let enc: &dyn EncodeImage<Gray8> = &Trivial;
    let dec: &dyn DecodeImage<Gray8> = &Trivial;
    let img = ImageBuf::<Gray8>::new(vec![7u8], Dimensions::new(1, 1).unwrap()).unwrap();
    let mut out = Vec::new();
    assert_eq!(enc.encode_image(img.as_ref(), &mut out).unwrap(), 1);
    assert_eq!(dec.decode_image(&[]).unwrap().as_samples(), &[42]);
}

struct RawCodec;

impl EncodeImage<Rgb8> for RawCodec {
    fn encode_image(&self, image: ImageRef<'_, Rgb8>, out: &mut Vec<u8>) -> Result<usize> {
        let start = out.len();
        out.extend_from_slice(&image.width().to_be_bytes());
        out.extend_from_slice(&image.height().to_be_bytes());
        out.extend_from_slice(image.as_samples());
        Ok(out.len() - start)
    }
}

impl DecodeImage<Rgb8> for RawCodec {
    fn decode_image(&self, data: &[u8]) -> Result<ImageBuf<Rgb8>> {
        let header = data.get(..8).ok_or(Error::InvalidInput("raw: truncated header"))?;
        let width = u32::from_be_bytes(header[0..4].try_into().expect("8-byte header"));
        let height = u32::from_be_bytes(header[4..8].try_into().expect("8-byte header"));
        let dims = Dimensions::new(width, height)?;
        ImageBuf::new(data[8..].to_vec(), dims)
    }
}

#[test]
fn round_trips_through_the_public_api() {
    let dims = Dimensions::new(3, 2).unwrap();
    let samples: Vec<u8> = (0..dims.sample_count(Rgb8::CHANNELS).unwrap() as u8).collect();
    let original = ImageBuf::<Rgb8>::new(samples, dims).unwrap();
    let bytes = RawCodec.encode_to_vec(original.as_ref()).unwrap();
    let decoded = RawCodec.decode_image(&bytes).unwrap();
    assert_eq!(decoded, original);
    assert_eq!(decoded.dimensions(), dims);
}

#[test]
fn decode_rejects_a_truncated_stream() {
    let full = RawCodec
        .encode_to_vec(
            ImageBuf::<Rgb8>::new(vec![0u8; 18], Dimensions::new(3, 2).unwrap()).unwrap().as_ref(),
        )
        .unwrap();
    let truncated = &full[..8 + 2];
    assert!(matches!(RawCodec.decode_image(truncated), Err(Error::InvalidInput(_))));
}

// ---- image buffers -------------------------------------------------------------------------

#[test]
fn new_validates_length() {
    let rgb = vec![0u8; 2 * 2 * 3];
    let img = ImageRef::<Rgb8>::new(&rgb, dims(2, 2)).unwrap();
    assert_eq!(img.dimensions(), dims(2, 2));
    assert_eq!((img.width(), img.height()), (2, 2));
    assert_eq!(img.as_samples().len(), 12);
    assert!(ImageRef::<Rgb8>::new(&rgb[..11], dims(2, 2)).is_err());
    let long = vec![0u8; 13];
    assert!(ImageRef::<Rgb8>::new(&long, dims(2, 2)).is_err());
}

#[test]
fn new_rejects_zero_sized() {
    let empty: [u8; 0] = [];
    assert!(ImageRef::<Rgb8>::new(&empty, dims(0, 4)).is_err());
    assert!(ImageRef::<Rgb8>::new(&empty, dims(4, 0)).is_err());
}

#[test]
fn rejects_overflowing_dimensions() {
    let big = dims(u32::MAX, u32::MAX);
    assert!(ImageRef::<Rgb8>::new(&[], big).is_err());
    assert!(ImageBuf::<Rgb8>::zeroed(big).is_err());
}

#[test]
fn row_and_pixel_access() {
    let mut rgb = vec![0u8; 3 * 2 * 3];
    for y in 0..2u32 {
        for x in 0..3u32 {
            let i = (y as usize * 3 + x as usize) * 3;
            rgb[i] = x as u8;
            rgb[i + 1] = y as u8;
            rgb[i + 2] = 0xAA;
        }
    }
    let img = ImageRef::<Rgb8>::new(&rgb, dims(3, 2)).unwrap();
    assert_eq!(img.row(1).len(), 9);
    assert_eq!(img.pixel(2, 1), &[2, 1, 0xAA]);
    assert_eq!(img.pixel(0, 0), &[0, 0, 0xAA]);
    let rows: Vec<_> = img.rows();
    assert_eq!(rows.len(), 2);
    assert!(rows.iter().all(|r| r.len() == 9));
}

#[test]
fn high_bit_depth_samples() {
    let rgb16 = vec![1000u16; 6];
    let img = ImageRef::<Rgb16>::new(&rgb16, dims(2, 1)).unwrap();
    assert_eq!(img.as_samples().len(), 6);
    assert_eq!(img.pixel(1, 0), &[1000, 1000, 1000]);
    assert!(ImageRef::<Rgb16>::new(&[0u16; 5], dims(2, 1)).is_err());
}

#[test]
fn owned_buffer_roundtrips() {
    let buf = ImageBuf::<Rgb8>::new(vec![7u8; 12], dims(2, 2)).unwrap();
    assert_eq!(buf.dimensions(), dims(2, 2));
    assert_eq!(buf.as_samples().len(), 12);
    assert_eq!(buf.as_ref().pixel(0, 0), &[7, 7, 7]);
    assert_eq!(buf.into_samples(), vec![7u8; 12]);
    assert!(ImageBuf::<Rgb8>::new(vec![0u8; 11], dims(2, 2)).is_err());
}

#[test]
fn zeroed_is_all_default_and_correct_length() {
    let buf = ImageBuf::<Rgb8>::zeroed(dims(4, 3)).unwrap();
    assert_eq!(buf.as_samples().len(), 4 * 3 * 3);
    assert!(buf.as_samples().iter().all(|&s| s == 0));
    assert!(ImageBuf::<Rgb8>::zeroed(dims(0, 3)).is_err());
}

// ---- pixel layouts --------------------------------------------------------------------------

#[test]
fn pixel_layout_constants() {
    assert_eq!((Gray8::CHANNELS, Gray8::BYTES_PER_PIXEL), (1, 1));
    assert_eq!(Gray8::MODEL, ColorModel::Gray);
    assert_eq!((Bilevel::CHANNELS, Bilevel::BYTES_PER_PIXEL), (1, 1));
    assert_eq!(Bilevel::MODEL, ColorModel::Bilevel);
    assert_eq!((Indexed8::CHANNELS, Indexed8::BYTES_PER_PIXEL), (1, 1));
    assert_eq!(Indexed8::MODEL, ColorModel::Indexed);
    assert_eq!((Rgb8::CHANNELS, Rgb8::BYTES_PER_PIXEL), (3, 3));
    assert_eq!(Rgb8::MODEL, ColorModel::Rgb);
    assert_eq!((Rgba8::CHANNELS, Rgba8::BYTES_PER_PIXEL), (4, 4));
    assert_eq!(Rgba8::MODEL, ColorModel::Rgba);
    assert_eq!((Cmyk8::CHANNELS, Cmyk8::BYTES_PER_PIXEL), (4, 4));
    assert_eq!(Cmyk8::MODEL, ColorModel::Cmyk);
    assert_eq!((GrayAlpha8::CHANNELS, GrayAlpha8::BYTES_PER_PIXEL), (2, 2));
    assert_eq!(GrayAlpha8::MODEL, ColorModel::GrayAlpha);
    assert_eq!((Gray16::CHANNELS, Gray16::BYTES_PER_PIXEL), (1, 2));
    assert_eq!((Rgb16::CHANNELS, Rgb16::BYTES_PER_PIXEL), (3, 6));
    assert_eq!((Rgba16::CHANNELS, Rgba16::BYTES_PER_PIXEL), (4, 8));
    assert_eq!((GrayAlpha16::CHANNELS, GrayAlpha16::BYTES_PER_PIXEL), (2, 4));
    assert_eq!(GrayAlpha16::MODEL, ColorModel::GrayAlpha);
}

fn assert_format_matches<P: Pixel>() {
    assert_eq!(P::FORMAT.channels(), P::CHANNELS);
    assert_eq!(P::FORMAT.color_model(), P::MODEL);
    assert_eq!(P::FORMAT.bytes_per_pixel(), P::BYTES_PER_PIXEL);
    assert_eq!(P::FORMAT.bytes_per_sample(), core::mem::size_of::<P::Sample>());
}

#[test]
fn pixel_format_mirrors_marker_constants() {
    assert_format_matches::<Gray8>();
    assert_format_matches::<Bilevel>();
    assert_format_matches::<Indexed8>();
    assert_format_matches::<Rgb8>();
    assert_format_matches::<Rgba8>();
    assert_format_matches::<Cmyk8>();
    assert_format_matches::<GrayAlpha8>();
    assert_format_matches::<Gray16>();
    assert_format_matches::<Rgb16>();
    assert_format_matches::<Rgba16>();
    assert_format_matches::<GrayAlpha16>();
}

#[test]
fn pixel_format_all_is_the_distinct_marker_set() {
    let formats = [
        Gray8::FORMAT,
        Bilevel::FORMAT,
        Indexed8::FORMAT,
        Rgb8::FORMAT,
        Rgba8::FORMAT,
        Cmyk8::FORMAT,
        GrayAlpha8::FORMAT,
        Gray16::FORMAT,
        Rgb16::FORMAT,
        Rgba16::FORMAT,
        GrayAlpha16::FORMAT,
    ];
    assert_eq!(PixelFormat::ALL, formats);
    for (i, a) in PixelFormat::ALL.iter().enumerate() {
        for b in &PixelFormat::ALL[i + 1..] {
            assert_ne!(a, b);
        }
    }
}

#[test]
fn distinct_models_share_channel_count() {
    assert_eq!(Rgba8::CHANNELS, Cmyk8::CHANNELS);
    assert_ne!(Rgba8::MODEL, Cmyk8::MODEL);
    assert_eq!(Gray8::CHANNELS, Indexed8::CHANNELS);
    assert_ne!(Gray8::MODEL, Indexed8::MODEL);
    assert_ne!(Gray8::MODEL, Bilevel::MODEL);
}

// ---- luminance --------------------------------------------------------------------------------

#[test]
fn luma_weights_sum_to_unity() {
    for weights in [BT601_LUMA_WEIGHTS, BT709_LUMA_WEIGHTS, BT2020_LUMA_WEIGHTS] {
        assert_eq!(weights.iter().sum::<u32>(), LUMA_ONE);
    }
    assert_eq!(LUMA_ONE, 65_536);
    assert_eq!(LUMA_FIX, 16);
}

#[test]
fn luma_weights_match_their_standard_coefficients() {
    let cases: [([u32; 3], [f64; 3]); 3] = [
        (BT601_LUMA_WEIGHTS, [0.299, 0.587, 0.114]),
        (BT709_LUMA_WEIGHTS, [0.2126, 0.7152, 0.0722]),
        (BT2020_LUMA_WEIGHTS, [0.2627, 0.6780, 0.0593]),
    ];
    for (fixed, real) in cases {
        for (got, want) in fixed.iter().zip(real) {
            let exact = want * f64::from(LUMA_ONE);
            assert!(
                (f64::from(*got) - exact).abs() <= 1.0,
                "{got} is not {want} at {LUMA_FIX} fractional bits (exact {exact})"
            );
        }
    }
    assert_eq!(BT601_LUMA_WEIGHTS, [19_595, 38_470, 7_471]);
    assert_eq!(BT709_LUMA_WEIGHTS, [13_933, 46_871, 4_732]);
}

#[test]
fn a_neutral_grey_maps_to_itself() {
    for weights in [BT601_LUMA_WEIGHTS, BT709_LUMA_WEIGHTS, BT2020_LUMA_WEIGHTS] {
        for grey in [0u16, 1, 127, 128, 32_768, 65_534, u16::MAX] {
            let value = u64::from(grey);
            let sum: u64 = weights.iter().map(|&w| u64::from(w) * value).sum();
            let luma = (sum + u64::from(LUMA_ONE / 2)) >> LUMA_FIX;
            assert_eq!(luma, value, "{weights:?} drifted on grey {grey}");
        }
    }
}

#[test]
fn distinct_standards_have_distinct_weights() {
    assert_ne!(BT601_LUMA_WEIGHTS, BT709_LUMA_WEIGHTS);
    assert_ne!(BT709_LUMA_WEIGHTS, BT2020_LUMA_WEIGHTS);
    assert_ne!(BT601_LUMA_WEIGHTS, BT2020_LUMA_WEIGHTS);
}

// ---- invariant guards -----------------------------------------------------------------------

const NARROW_FORMATS: [PixelFormat; 7] = [
    PixelFormat::Gray8,
    PixelFormat::Bilevel,
    PixelFormat::Indexed8,
    PixelFormat::Rgb8,
    PixelFormat::Rgba8,
    PixelFormat::Cmyk8,
    PixelFormat::GrayAlpha8,
];

const WIDE_FORMATS: [PixelFormat; 4] =
    [PixelFormat::Gray16, PixelFormat::Rgb16, PixelFormat::Rgba16, PixelFormat::GrayAlpha16];

#[test]
fn the_closure_law_does_not_govern_an_open_pair() {
    let dims = Dimensions::new(2, 2).expect("non-zero");
    let samples = [1u8, 2, 3, 4];
    assert!(
        gamut::invariants::palette_and_cmyk_convert_only_to_themselves::<u8, Rgb8>(
            PixelFormat::Gray8,
            dims,
            &samples,
            ConvertPolicy::permissive(),
        )
        .is_ok()
    );
}

#[test]
fn the_closure_law_governs_a_closed_pair_and_the_engine_refuses_it() {
    let dims = Dimensions::new(2, 2).expect("non-zero");
    let samples = [1u8, 2, 3, 4];
    let src = RawImage::<u8>::new(&samples, PixelFormat::Indexed8, dims)
        .expect("4 samples is one channel at 2x2");
    assert!(
        convert_from_raw::<u8, Rgb8>(src, ConvertPolicy::permissive()).is_err(),
        "Indexed8 -> Rgb8 must be refused whatever the policy permits"
    );
}

#[test]
fn sample_count_multiplies_the_pixel_count_by_the_channel_count() {
    let dims = Dimensions::new(2, 2).expect("non-zero");
    assert_eq!(dims.sample_count(1), Some(4));
    assert_eq!(dims.sample_count(3), Some(12));
    assert_eq!(dims.sample_count(4), Some(16));
}

#[test]
fn normalise_dims_always_yields_a_usable_edge() {
    for (w, h) in [(0u32, 0u32), (1, 1), (u32::MAX, u32::MAX), (MAX_EDGE, MAX_EDGE)] {
        let (width, height) = normalise_dims(w, h);
        assert!((1..=MAX_EDGE).contains(&width), "{w} gave {width}");
        assert!((1..=MAX_EDGE).contains(&height), "{h} gave {height}");
        assert!(Dimensions::new(width, height).is_ok());
    }
}

#[test]
fn the_format_tables_cover_the_whole_pixel_matrix() {
    let eight_bit: Vec<PixelFormat> =
        PixelFormat::ALL.into_iter().filter(|f| f.bytes_per_sample() == 1).collect();
    let sixteen_bit: Vec<PixelFormat> =
        PixelFormat::ALL.into_iter().filter(|f| f.bytes_per_sample() == 2).collect();
    assert_eq!(eight_bit, NARROW_FORMATS);
    assert_eq!(sixteen_bit, WIDE_FORMATS);
    assert_eq!(eight_bit.len() + sixteen_bit.len(), PixelFormat::ALL.len());
}

// ---- conversion -----------------------------------------------------------------------------

#[test]
fn lossless_widening_needs_no_policy() {
    let strict = ConvertPolicy::lossless();
    let grey = raw(&[7u8], PixelFormat::Gray8);
    let rgb = convert_from_raw::<_, Rgb8>(grey, strict).unwrap();
    assert_eq!(rgb.as_samples(), &[7, 7, 7]);
    let rgba = convert_from_raw::<_, Rgba8>(grey, strict).unwrap();
    assert_eq!(rgba.as_samples(), &[7, 7, 7, 255]);
    let white = raw(&[255u8, 128, 0], PixelFormat::Rgb8);
    let wide = convert_from_raw::<_, Rgb16>(white, strict).unwrap();
    assert_eq!(wide.as_samples(), &[0xFFFF, 0x8080, 0]);
}

#[test]
fn dropping_alpha_needs_an_alpha_policy() {
    let src = raw(&[10u8, 20, 30, 128], PixelFormat::Rgba8);
    let refused = convert_from_raw::<_, Rgb8>(src, ConvertPolicy::lossless()).unwrap_err();
    assert_eq!(refused.kind(), ErrorKind::Unsupported);
    assert_eq!(refused.origin(), Some("gamut-core"));
    let dropped =
        convert_from_raw::<_, Rgb8>(src, ConvertPolicy::lossless().with_alpha(AlphaPolicy::Drop))
            .unwrap();
    assert_eq!(dropped.as_samples(), &[10, 20, 30]);
}

#[test]
fn compositing_blends_against_the_background() {
    let src = raw(&[128u8, 128, 128, 128], PixelFormat::Rgba8);
    let over_black =
        ConvertPolicy::lossless().with_alpha(AlphaPolicy::CompositeOver).with_background([0; 3]);
    let over_white = ConvertPolicy::lossless()
        .with_alpha(AlphaPolicy::CompositeOver)
        .with_background([u16::MAX; 3]);
    let dark = convert_from_raw::<_, Rgb8>(src, over_black).unwrap();
    let light = convert_from_raw::<_, Rgb8>(src, over_white).unwrap();
    assert!(dark.as_samples()[0] < 128, "{:?}", dark.as_samples());
    assert!(light.as_samples()[0] > 128, "{:?}", light.as_samples());
    let opaque = raw(&[200u8, 100, 50, 255], PixelFormat::Rgba8);
    assert_eq!(
        convert_from_raw::<_, Rgb8>(opaque, over_white).unwrap().as_samples(),
        &[200, 100, 50]
    );
    let clear = raw(&[200u8, 100, 50, 0], PixelFormat::Rgba8);
    assert_eq!(
        convert_from_raw::<_, Rgb8>(clear, over_white).unwrap().as_samples(),
        &[255, 255, 255]
    );
}

#[test]
fn reducing_colour_needs_a_luma_policy_and_honours_the_standard() {
    let src = raw(&[255u8, 0, 0], PixelFormat::Rgb8);
    assert_eq!(
        convert_from_raw::<_, Gray8>(src, ConvertPolicy::lossless()).unwrap_err().kind(),
        ErrorKind::Unsupported
    );
    let bt601 =
        convert_from_raw::<_, Gray8>(src, ConvertPolicy::lossless().with_luma(LumaPolicy::Bt601))
            .unwrap();
    let bt709 =
        convert_from_raw::<_, Gray8>(src, ConvertPolicy::lossless().with_luma(LumaPolicy::Bt709))
            .unwrap();
    assert_eq!(bt601.as_samples(), &[76]);
    assert_eq!(bt709.as_samples(), &[54]);
    assert_ne!(bt601.as_samples(), bt709.as_samples());
}

#[test]
fn a_grey_source_reaches_a_grey_target_unchanged() {
    let policy = ConvertPolicy::lossless().with_alpha(AlphaPolicy::Drop);
    for value in 0..=u8::MAX {
        let samples = [value, 255];
        let src = raw(&samples, PixelFormat::GrayAlpha8);
        let out = convert_from_raw::<_, Gray8>(src, policy).unwrap();
        assert_eq!(out.as_samples(), &[value]);
    }
}

#[test]
fn narrowing_samples_needs_a_depth_policy() {
    let src = raw(&[0xFFFFu16, 0x8080, 0], PixelFormat::Rgb16);
    assert_eq!(
        convert_from_raw::<_, Rgb8>(src, ConvertPolicy::lossless()).unwrap_err().kind(),
        ErrorKind::Unsupported
    );
    let narrowed =
        convert_from_raw::<_, Rgb8>(src, ConvertPolicy::lossless().with_depth(DepthPolicy::Rescale))
            .unwrap();
    assert_eq!(narrowed.as_samples(), &[255, 128, 0]);
}

#[test]
fn bilevel_expands_losslessly_and_thresholds_on_the_way_back() {
    for white in [1u8, 255] {
        let samples = [white];
        let src = raw(&samples, PixelFormat::Bilevel);
        let grey = convert_from_raw::<_, Gray8>(src, ConvertPolicy::lossless()).unwrap();
        assert_eq!(grey.as_samples(), &[255]);
    }
    let black = raw(&[0u8], PixelFormat::Bilevel);
    assert_eq!(
        convert_from_raw::<_, Gray8>(black, ConvertPolicy::lossless()).unwrap().as_samples(),
        &[0]
    );
    let mid = raw(&[128u8], PixelFormat::Gray8);
    assert_eq!(
        convert_from_raw::<_, Bilevel>(mid, ConvertPolicy::lossless()).unwrap_err().kind(),
        ErrorKind::Unsupported
    );
    let rescale = ConvertPolicy::lossless().with_depth(DepthPolicy::Rescale);
    assert_eq!(convert_from_raw::<_, Bilevel>(mid, rescale).unwrap().as_samples(), &[255]);
    assert_eq!(
        convert_from_raw::<_, Bilevel>(mid, rescale.with_threshold(0x8081)).unwrap().as_samples(),
        &[0]
    );
}

#[test]
fn palette_and_cmyk_convert_only_to_themselves() {
    let strict = ConvertPolicy::lossless();
    let permissive = ConvertPolicy::permissive();
    let indexed = raw(&[5u8], PixelFormat::Indexed8);
    let cmyk = raw(&[1u8, 2, 3, 4], PixelFormat::Cmyk8);
    for policy in [strict, permissive] {
        assert_eq!(
            convert_from_raw::<_, Rgb8>(indexed, policy).unwrap_err().kind(),
            ErrorKind::Unsupported
        );
        assert_eq!(
            convert_from_raw::<_, Rgb8>(cmyk, policy).unwrap_err().kind(),
            ErrorKind::Unsupported
        );
        let rgb = raw(&[1u8, 2, 3], PixelFormat::Rgb8);
        assert_eq!(
            convert_from_raw::<_, Cmyk8>(rgb, policy).unwrap_err().kind(),
            ErrorKind::Unsupported
        );
        assert_eq!(
            convert_from_raw::<_, Indexed8>(rgb, policy).unwrap_err().kind(),
            ErrorKind::Unsupported
        );
    }
    assert_eq!(convert_from_raw::<_, Indexed8>(indexed, strict).unwrap().as_samples(), &[5]);
    assert_eq!(convert_from_raw::<_, Cmyk8>(cmyk, strict).unwrap().as_samples(), &[1, 2, 3, 4]);
}

#[test]
fn typed_convert_matches_the_raw_engine() {
    let dimensions = dims(2, 1);
    let rgba = [10u8, 20, 30, 255, 40, 50, 60, 255];
    let image = ImageRef::<Rgba8>::new(&rgba, dimensions).unwrap();
    let policy = ConvertPolicy::lossless().with_alpha(AlphaPolicy::Drop);
    let typed = convert::<Rgba8, Rgb8>(image, policy).unwrap();
    let via_raw = convert_from_raw::<_, Rgb8>(
        RawImage::new(&rgba, PixelFormat::Rgba8, dimensions).unwrap(),
        policy,
    )
    .unwrap();
    assert_eq!(typed, via_raw);
    assert_eq!(typed.as_samples(), &[10, 20, 30, 40, 50, 60]);
    assert_eq!(typed.dimensions(), dimensions);
}

#[test]
fn convert_into_reuses_storage_and_validates_length() {
    let dimensions = dims(2, 1);
    let grey = [1u8, 2];
    let src = RawImage::new(&grey, PixelFormat::Gray8, dimensions).unwrap();
    let mut dst = vec![0u8; 6];
    convert_from_raw_into::<_, Rgb8>(src, ConvertPolicy::lossless(), &mut dst).unwrap();
    assert_eq!(dst, vec![1, 1, 1, 2, 2, 2]);
    let mut short = [0u8; 5];
    let err =
        convert_from_raw_into::<_, Rgb8>(src, ConvertPolicy::lossless(), &mut short).unwrap_err();
    assert_eq!(err.kind(), ErrorKind::InvalidInput);
    assert_eq!(short, [0; 5]);
    let alpha_src = RawImage::new(&[1u8, 2, 3, 4], PixelFormat::Rgba8, dims(1, 1)).unwrap();
    let mut target = [9u8; 3];
    assert!(
        convert_from_raw_into::<_, Rgb8>(alpha_src, ConvertPolicy::lossless(), &mut target)
            .is_err()
    );
    assert_eq!(target, [9; 3]);
}

#[test]
fn raw_image_validates_its_description() {
    let samples = [0u8; 6];
    assert!(RawImage::new(&samples, PixelFormat::Rgb8, dims(2, 1)).is_ok());
    assert!(RawImage::new(&samples, PixelFormat::Rgb8, dims(3, 1)).is_err());
    assert!(RawImage::new(&[] as &[u8], PixelFormat::Rgb8, dims(0, 1)).is_err());
    assert!(RawImage::new(&samples, PixelFormat::Rgb16, dims(2, 1)).is_err());
    assert!(RawImage::new(&[0u16; 6], PixelFormat::Rgb8, dims(2, 1)).is_err());
    let image = RawImage::new(&samples, PixelFormat::Rgb8, dims(2, 1)).unwrap();
    assert_eq!(image.format(), PixelFormat::Rgb8);
    assert_eq!(image.dimensions(), dims(2, 1));
    assert_eq!(image.as_samples().len(), 6);
}

fn sample_pixel(format: PixelFormat) -> Vec<u8> {
    (0..format.channels()).map(|i| (i as u8 + 1) * 17).collect()
}

fn expected_supported(src: PixelFormat, dst: PixelFormat) -> bool {
    let opaque = |f: PixelFormat| matches!(f.color_model(), ColorModel::Cmyk | ColorModel::Indexed);
    if opaque(src) || opaque(dst) {
        return src == dst;
    }
    true
}

fn run_pair<S: Sample>(src: RawImage<'_, S>, dst: PixelFormat) -> Result<usize> {
    let policy = ConvertPolicy::permissive();
    match dst {
        PixelFormat::Gray8 => convert_from_raw::<S, Gray8>(src, policy).map(|b| b.as_samples().len()),
        PixelFormat::Bilevel => {
            convert_from_raw::<S, Bilevel>(src, policy).map(|b| b.as_samples().len())
        }
        PixelFormat::Indexed8 => {
            convert_from_raw::<S, Indexed8>(src, policy).map(|b| b.as_samples().len())
        }
        PixelFormat::Rgb8 => convert_from_raw::<S, Rgb8>(src, policy).map(|b| b.as_samples().len()),
        PixelFormat::Rgba8 => convert_from_raw::<S, Rgba8>(src, policy).map(|b| b.as_samples().len()),
        PixelFormat::Cmyk8 => convert_from_raw::<S, Cmyk8>(src, policy).map(|b| b.as_samples().len()),
        PixelFormat::GrayAlpha8 => {
            convert_from_raw::<S, GrayAlpha8>(src, policy).map(|b| b.as_samples().len())
        }
        PixelFormat::Gray16 => {
            convert_from_raw::<S, Gray16>(src, policy).map(|b| b.as_samples().len())
        }
        PixelFormat::Rgb16 => convert_from_raw::<S, Rgb16>(src, policy).map(|b| b.as_samples().len()),
        PixelFormat::Rgba16 => {
            convert_from_raw::<S, Rgba16>(src, policy).map(|b| b.as_samples().len())
        }
        PixelFormat::GrayAlpha16 => {
            convert_from_raw::<S, GrayAlpha16>(src, policy).map(|b| b.as_samples().len())
        }
    }
}

#[test]
fn every_layout_pair_is_either_supported_or_refused() {
    for src in PixelFormat::ALL {
        for dst in PixelFormat::ALL {
            let bytes = sample_pixel(src);
            let result = if src.bytes_per_sample() == 1 {
                run_pair(RawImage::new(&bytes, src, dims(1, 1)).unwrap(), dst)
            } else {
                let widened: Vec<u16> = bytes.iter().map(|&b| u16::from(b) * 257).collect();
                run_pair(RawImage::new(&widened, src, dims(1, 1)).unwrap(), dst)
            };
            assert_eq!(
                result.is_ok(),
                expected_supported(src, dst),
                "{src:?} -> {dst:?} disagreed with the documented contract"
            );
            if let Ok(len) = result {
                assert_eq!(len, dst.channels(), "{src:?} -> {dst:?} wrote a short pixel");
            }
        }
    }
}

#[test]
fn policy_defaults_and_setters_are_independent() {
    assert_eq!(ConvertPolicy::default(), ConvertPolicy::lossless());
    assert_ne!(ConvertPolicy::lossless(), ConvertPolicy::permissive());
    let base = ConvertPolicy::lossless();
    assert_eq!(base.with_alpha(AlphaPolicy::Drop).depth(), DepthPolicy::Reject);
    assert_eq!(base.with_depth(DepthPolicy::Rescale).alpha(), AlphaPolicy::Reject);
    assert_eq!(base.with_luma(LumaPolicy::Bt601).luma(), LumaPolicy::Bt601);
    assert_eq!(base.with_background([1, 2, 3]).background(), [1, 2, 3]);
    assert_eq!(base.with_threshold(7).threshold(), 7);
    assert_eq!(base.with_threshold(7).background(), [0; 3]);
}

#[test]
fn luma_policies_select_distinct_weights() {
    assert_eq!(LumaPolicy::Reject.weights(), None);
    assert_eq!(LumaPolicy::Bt601.weights(), Some(BT601_LUMA_WEIGHTS));
    assert_eq!(LumaPolicy::Bt709.weights(), Some(BT709_LUMA_WEIGHTS));
    assert_eq!(LumaPolicy::Bt2020.weights(), Some(BT2020_LUMA_WEIGHTS));
}

// ---- the public conversion surface ------------------------------------------------------------

#[test]
fn widening_needs_no_policy() {
    let d = dims(2, 1);
    let grey = [10u8, 200];
    let rgba: ImageBuf<Rgba8> =
        convert(ImageRef::<Gray8>::new(&grey, d).unwrap(), ConvertPolicy::lossless()).unwrap();
    assert_eq!(rgba.as_samples(), &[10, 10, 10, 255, 200, 200, 200, 255]);
    let wide: ImageBuf<Rgb16> =
        convert(ImageRef::<Gray8>::new(&grey, d).unwrap(), ConvertPolicy::lossless()).unwrap();
    assert_eq!(wide.as_samples(), &[0x0A0A, 0x0A0A, 0x0A0A, 0xC8C8, 0xC8C8, 0xC8C8]);
}

#[test]
fn each_lossy_axis_needs_its_own_policy() {
    let d = dims(1, 1);
    let strict = ConvertPolicy::lossless();
    let rgba = [1u8, 2, 3, 128];
    let src = || ImageRef::<Rgba8>::new(&rgba, d).unwrap();
    assert_eq!(convert::<Rgba8, Rgb8>(src(), strict).unwrap_err().kind(), ErrorKind::Unsupported);
    assert_eq!(
        convert::<Rgba8, Rgb8>(src(), strict.with_depth(DepthPolicy::Rescale))
            .unwrap_err()
            .kind(),
        ErrorKind::Unsupported
    );
    assert_eq!(
        convert::<Rgba8, Rgb8>(src(), strict.with_alpha(AlphaPolicy::Drop)).unwrap().as_samples(),
        &[1, 2, 3]
    );
    let wide = [0xFFFFu16];
    let src16 = || ImageRef::<Gray16>::new(&wide, d).unwrap();
    assert_eq!(
        convert::<Gray16, Gray8>(src16(), strict).unwrap_err().kind(),
        ErrorKind::Unsupported
    );
    assert_eq!(
        convert::<Gray16, Gray8>(src16(), strict.with_depth(DepthPolicy::Rescale))
            .unwrap()
            .as_samples(),
        &[255]
    );
    let rgb = [255u8, 0, 0];
    let src_rgb = || ImageRef::<Rgb8>::new(&rgb, d).unwrap();
    assert_eq!(convert::<Rgb8, Gray8>(src_rgb(), strict).unwrap_err().kind(), ErrorKind::Unsupported);
    assert_eq!(
        convert::<Rgb8, Gray8>(src_rgb(), strict.with_luma(LumaPolicy::Bt709)).unwrap().as_samples(),
        &[54]
    );
}

#[test]
fn the_raw_door_matches_the_typed_door() {
    let d = dims(2, 2);
    let grey: Vec<u8> = (0..4).map(|i| i * 40).collect();
    let policy = ConvertPolicy::lossless();
    let raw = RawImage::new(&grey, PixelFormat::Gray8, d).unwrap();
    assert_eq!(raw.format(), PixelFormat::Gray8);
    assert_eq!(raw.dimensions(), d);
    let via_raw: ImageBuf<Rgb8> = convert_from_raw(raw, policy).unwrap();
    let via_typed: ImageBuf<Rgb8> =
        convert(ImageRef::<Gray8>::new(&grey, d).unwrap(), policy).unwrap();
    assert_eq!(via_raw, via_typed);
    let mut dst = vec![0u8; 12];
    convert_from_raw_into::<_, Rgb8>(
        RawImage::new(&grey, PixelFormat::Gray8, d).unwrap(),
        policy,
        &mut dst,
    )
    .unwrap();
    assert_eq!(dst.as_slice(), via_typed.as_samples());
}

#[test]
fn compositing_over_a_background_is_exact_at_the_endpoints() {
    let d = dims(3, 1);
    let rgba = [10u8, 20, 30, 255, 10, 20, 30, 128, 10, 20, 30, 0];
    let over_white = ConvertPolicy::lossless()
        .with_alpha(AlphaPolicy::CompositeOver)
        .with_background([u16::MAX; 3]);
    let out: ImageBuf<Rgb8> = convert(ImageRef::<Rgba8>::new(&rgba, d).unwrap(), over_white).unwrap();
    let samples = out.as_samples();
    assert_eq!(&samples[0..3], &[10, 20, 30], "opaque must be untouched");
    assert_eq!(&samples[6..9], &[255, 255, 255], "clear must be the background");
    assert!(samples[3] > 10 && samples[3] < 255, "got {}", samples[3]);
}

#[test]
fn palette_and_cmyk_are_refused_under_every_policy() {
    let d = dims(1, 1);
    let indices = [7u8];
    for policy in [ConvertPolicy::lossless(), ConvertPolicy::permissive()] {
        let err = convert_from_raw::<_, Rgb8>(
            RawImage::new(&indices, PixelFormat::Indexed8, d).unwrap(),
            policy,
        )
        .unwrap_err();
        assert_eq!(err.kind(), ErrorKind::Unsupported);
        assert_eq!(err.origin(), Some("gamut-core"));
        let inks = [1u8, 2, 3, 4];
        let err =
            convert_from_raw::<_, Rgb8>(RawImage::new(&inks, PixelFormat::Cmyk8, d).unwrap(), policy)
                .unwrap_err();
        assert_eq!(err.kind(), ErrorKind::Unsupported);
    }
}

#[test]
fn a_refused_conversion_leaves_the_destination_untouched() {
    let d = dims(1, 1);
    let rgba = [1u8, 2, 3, 128];
    let mut dst = [9u8; 3];
    let err = convert_from_raw_into::<_, Rgb8>(
        RawImage::new(&rgba, PixelFormat::Rgba8, d).unwrap(),
        ConvertPolicy::lossless(),
        &mut dst,
    )
    .unwrap_err();
    assert_eq!(err.kind(), ErrorKind::Unsupported);
    assert_eq!(dst, [9; 3]);
}

#[test]
fn raw_image_rejects_a_description_that_does_not_match_its_samples() {
    let samples = [0u8; 6];
    assert!(RawImage::new(&samples, PixelFormat::Rgb8, dims(2, 1)).is_ok());
    assert!(RawImage::new(&samples, PixelFormat::Rgb8, dims(3, 1)).is_err());
    assert!(RawImage::new(&samples, PixelFormat::Rgb16, dims(2, 1)).is_err());
    assert!(RawImage::new(&[0u16; 6], PixelFormat::Rgb8, dims(2, 1)).is_err());
}

#[test]
fn policy_round_trips_through_its_accessors() {
    let policy = ConvertPolicy::lossless()
        .with_alpha(AlphaPolicy::CompositeOver)
        .with_depth(DepthPolicy::Rescale)
        .with_luma(LumaPolicy::Bt2020)
        .with_background([1, 2, 3])
        .with_threshold(4);
    assert_eq!(policy.alpha(), AlphaPolicy::CompositeOver);
    assert_eq!(policy.depth(), DepthPolicy::Rescale);
    assert_eq!(policy.luma(), LumaPolicy::Bt2020);
    assert_eq!(policy.background(), [1, 2, 3]);
    assert_eq!(policy.threshold(), 4);
    assert_eq!(ConvertPolicy::default(), ConvertPolicy::lossless());
    assert_eq!(ConvertPolicy::lossless().alpha(), AlphaPolicy::Reject);
    assert_eq!(ConvertPolicy::lossless().depth(), DepthPolicy::Reject);
    assert_eq!(ConvertPolicy::lossless().luma(), LumaPolicy::Reject);
    assert_eq!(ConvertPolicy::permissive().alpha(), AlphaPolicy::Drop);
    assert_eq!(ConvertPolicy::permissive().depth(), DepthPolicy::Rescale);
    assert_eq!(ConvertPolicy::permissive().luma(), LumaPolicy::Bt709);
}

#[test]
fn gray_alpha_widens_and_narrows_on_the_axes_it_should() {
    let d = dims(2, 1);
    let ga = [10u8, 255, 200, 128];
    let src = || ImageRef::<GrayAlpha8>::new(&ga, d).unwrap();
    let rgba: ImageBuf<Rgba8> = convert(src(), ConvertPolicy::lossless()).unwrap();
    assert_eq!(rgba.as_samples(), &[10, 10, 10, 255, 200, 200, 200, 128]);
    assert_eq!(
        convert::<GrayAlpha8, Gray8>(src(), ConvertPolicy::lossless()).unwrap_err().kind(),
        ErrorKind::Unsupported
    );
    assert_eq!(
        convert::<GrayAlpha8, Gray8>(src(), ConvertPolicy::lossless().with_alpha(AlphaPolicy::Drop))
            .unwrap()
            .as_samples(),
        &[10, 200]
    );
}

#[test]
fn widening_then_narrowing_recovers_every_byte() {
    let d = dims(256, 1);
    let grey: Vec<u8> = (0..=255u8).collect();
    let wide: ImageBuf<Gray16> =
        convert(ImageRef::<Gray8>::new(&grey, d).unwrap(), ConvertPolicy::lossless()).unwrap();
    let back: ImageBuf<Gray8> = convert(
        wide.as_ref(),
        ConvertPolicy::lossless().with_depth(DepthPolicy::Rescale),
    )
    .unwrap();
    assert_eq!(back.as_samples(), grey.as_slice());
}

#[test]
fn in_place_door_matches_allocating_door() {
    let dimensions = dims(2, 2);
    let rgba = [10u8, 20, 30, 255, 40, 50, 60, 0, 70, 80, 90, 128, 1, 2, 3, 4];
    let src = RawImage::new(&rgba, PixelFormat::Rgba8, dimensions).unwrap();
    for drop_alpha in [false, true] {
        let policy = || {
            if drop_alpha {
                ConvertPolicy::lossless().with_alpha(AlphaPolicy::Drop)
            } else {
                ConvertPolicy::lossless()
            }
        };
        let allocated = convert_from_raw::<_, Rgb8>(src, policy());
        let mut buf = vec![0u8; 12];
        let in_place = convert_from_raw_into::<_, Rgb8>(src, policy(), &mut buf);
        assert_eq!(allocated.is_ok(), in_place.is_ok());
        if let Ok(out) = allocated {
            assert_eq!(buf.as_slice(), out.as_samples());
        }
    }
}

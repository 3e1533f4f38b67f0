//! The DNG building blocks: tag values, sub-image roles, metadata, opcode lists, the predictor,
//! the lossless-JPEG codec, strip compression, and the decoder's layout helpers.

use gamut::dng::chunks::{
    image_layout, MSG_NO_TILE_WIDTH, MSG_UNKNOWN_COMPRESSION,
};
use gamut::dng::chunks::{
    assemble_tiles, check_sample_formats, checked_product, chunk_grid, fit_chunk,
    interleave_factor, lossless_chunk, tile_count, ChunkGrid, StripAssembly, MSG_DIMS_OVERFLOW,
    MSG_EXTRA_STRIPS, MSG_NO_TILE_LENGTH, MSG_TRUNCATED_DATA, MSG_ZERO_ROWS_PER_STRIP,
    MSG_ZERO_TILE,
};
use gamut::dng::compression::{
    compress, decompress, MSG_CORRUPT_DEFLATE, MSG_INFLATES_PAST, MSG_NOT_DECODABLE,
    MSG_NOT_ENCODABLE,
};
use gamut::dng::decoder::{
    active_area_size, byte_chunks, decode_levels, deinterleave, DngDecoder, MSG_BLACK_COUNT,
    MSG_BLACK_TYPE, MSG_DELTA_H, MSG_DELTA_TYPE, MSG_DELTA_V, MSG_EXTENT_OVERFLOW,
    MSG_LINEARIZATION_EMPTY, MSG_LINEARIZATION_TYPE, MSG_OFFSET_COUNT_MISMATCH,
    MSG_OUT_OF_BOUNDS, MSG_REPEAT_COUNT,
};
use gamut::dng::byte_order::ByteOrder;
use gamut::dng::gain_map::{
    table_count, GainValues, ProfileGainTableMap, MSG_DATA_TYPE, MSG_GAIN_OVERFLOW,
    MSG_GAIN_TRUNCATED, MSG_GAIN_ZERO, MSG_GAMMA, MSG_V1_GAINS, MSG_V1_LENGTH, MSG_V2_GAINS,
};
use gamut::dng::levels::{
    RawLevels, MSG_BLACK_LENGTH, MSG_BLACK_RANGE, MSG_NO_PLANES, MSG_WHITE_LENGTH,
    MSG_WHITE_RANGE, MSG_ZERO_REPEAT,
};
use gamut::dng::lossless_jpeg::{
    decode, encode, extend, magnitude, reduce, BitReader, BitWriter, EOI, MARKER, SOI,
};
use gamut::dng::metadata::{DngMetadata, ExifMetadata};
use gamut::dng::opcode::{
    Opcode, OpcodeList, FLAG_OPTIONAL, GAIN_MAP, TRIM_BOUNDS, WARP_RECTILINEAR_2,
};
use gamut::dng::predictor::{undo, validate};
use gamut::dng::profile::{CameraProfile, MSG_EMPTY_MODEL, MSG_NEUTRAL};
use gamut::dng::raw::{
    cfa_color, check_bits, check_sample_count, RawImage, RawPhotometry, MSG_BITS, MSG_CFA_PATTERN,
    MSG_LEVELS_PLANES, MSG_NO_PLANE, MSG_SAMPLE_COUNT,
};
use gamut::dng::subimage::SubImageKind;
use gamut::dng::values::{
    CalibrationIlluminant, CfaLayout, Compression, PhotometricInterpretation, Predictor,
    PreviewColorSpace, ProfileEmbedPolicy, SampleFormat,
};
use gamut::dng::writer::even;
use gamut::{Dimensions, Error, ErrorKind};

// ---- tag values -------------------------------------------------------------------------------

#[test]
fn compression_codes_round_trip() {
    for c in [
        Compression::Uncompressed,
        Compression::LosslessJpeg,
        Compression::Deflate,
        Compression::LossyJpeg,
        Compression::JpegXl,
    ] {
        assert_eq!(Compression::from_code(c.code()), Some(c));
    }
    assert_eq!(Compression::from_code(2), None);
    assert!(Compression::default().is_supported());
    assert!(Compression::LosslessJpeg.is_supported());
    assert!(!Compression::JpegXl.is_supported());
    assert!(!Compression::LossyJpeg.is_supported());
}

#[test]
fn photometric_codes_round_trip() {
    for p in [
        PhotometricInterpretation::BlackIsZero,
        PhotometricInterpretation::Rgb,
        PhotometricInterpretation::TransparencyMask,
        PhotometricInterpretation::Cfa,
        PhotometricInterpretation::LinearRaw,
        PhotometricInterpretation::Depth,
        PhotometricInterpretation::PhotometricMask,
    ] {
        assert_eq!(PhotometricInterpretation::from_code(p.code()), Some(p));
    }
    assert_eq!(PhotometricInterpretation::from_code(3), None);
}

#[test]
fn illuminant_codes_round_trip() {
    for code in [0u16, 1, 4, 9, 17, 21, 23, 24, 255] {
        let i = CalibrationIlluminant::from_code(code).expect("known illuminant");
        assert_eq!(i.code(), code);
    }
    assert_eq!(CalibrationIlluminant::from_code(5), None);
    assert_eq!(CalibrationIlluminant::D65.code(), 21);
    assert_eq!(CalibrationIlluminant::D50.code(), 23);
}

#[test]
fn cfa_layout_codes_round_trip() {
    for code in 1..=9u16 {
        let l = CfaLayout::from_code(code).expect("known layout");
        assert_eq!(l.code(), code);
    }
    assert_eq!(CfaLayout::from_code(0), None);
    assert_eq!(CfaLayout::from_code(10), None);
    assert_eq!(CfaLayout::default(), CfaLayout::Rectangular);
}

#[test]
fn predictor_codes_round_trip() {
    for p in [
        Predictor::Null,
        Predictor::HorizontalDifference,
        Predictor::FloatingPoint,
        Predictor::HorizontalDifferenceX2,
        Predictor::HorizontalDifferenceX4,
        Predictor::FloatingPointX2,
        Predictor::FloatingPointX4,
    ] {
        assert_eq!(Predictor::from_code(p.code()), Some(p));
    }
    assert_eq!(Predictor::default(), Predictor::Null);
    assert_eq!(Predictor::from_code(0), None);
}

#[test]
fn other_enums_round_trip() {
    for s in [
        SampleFormat::UnsignedInteger,
        SampleFormat::SignedInteger,
        SampleFormat::FloatingPoint,
        SampleFormat::Undefined,
    ] {
        assert_eq!(SampleFormat::from_code(s.code()), Some(s));
    }
    assert_eq!(SampleFormat::default(), SampleFormat::UnsignedInteger);
    assert_eq!(SampleFormat::from_code(0), None);
    for p in [
        ProfileEmbedPolicy::AllowCopying,
        ProfileEmbedPolicy::EmbedIfUsed,
        ProfileEmbedPolicy::EmbedNever,
        ProfileEmbedPolicy::NoRestrictions,
    ] {
        assert_eq!(ProfileEmbedPolicy::from_code(p.code()), Some(p));
    }
    assert_eq!(ProfileEmbedPolicy::from_code(4), None);
    for c in [
        PreviewColorSpace::Unknown,
        PreviewColorSpace::GrayGamma22,
        PreviewColorSpace::Srgb,
        PreviewColorSpace::AdobeRgb,
        PreviewColorSpace::ProPhotoRgb,
    ] {
        assert_eq!(PreviewColorSpace::from_code(c.code()), Some(c));
    }
    assert_eq!(PreviewColorSpace::from_code(5), None);
}

#[test]
fn kind_codes_roundtrip_exhaustively() {
    for (kind, code) in [
        (SubImageKind::MainImage, 0u32),
        (SubImageKind::Preview, 1),
        (SubImageKind::TransparencyMask, 4),
        (SubImageKind::TransparencyMaskReduced, 5),
        (SubImageKind::DepthMap, 8),
        (SubImageKind::DepthMapReduced, 9),
        (SubImageKind::EnhancedImage, 16),
        (SubImageKind::GainMap, 32),
        (SubImageKind::AltPreview, 0x0001_0001),
        (SubImageKind::SemanticMask, 0x0001_0004),
        (SubImageKind::Other(0xDEAD), 0xDEAD),
    ] {
        assert_eq!(SubImageKind::from_code(code), kind, "{code:#x}");
        assert_eq!(kind.code(), code, "{kind:?}");
    }
}

// ---- metadata ---------------------------------------------------------------------------------

#[test]
fn exif_is_empty_only_when_every_field_is_unset() {
    assert!(ExifMetadata::default().is_empty());
    let singles = [
        ExifMetadata { exposure_time: Some((1, 250)), ..Default::default() },
        ExifMetadata { f_number: Some((28, 10)), ..Default::default() },
        ExifMetadata { iso_speed: Some(100), ..Default::default() },
        ExifMetadata { date_time_original: Some("2026:06:14 00:00:00".to_owned()), ..Default::default() },
        ExifMetadata { focal_length: Some((50, 1)), ..Default::default() },
    ];
    for (i, exif) in singles.iter().enumerate() {
        assert!(!exif.is_empty(), "field {i} alone must be non-empty");
    }
}

#[test]
fn dng_is_empty_only_when_every_block_is_unset() {
    assert!(DngMetadata::default().is_empty());
    let singles = [
        DngMetadata {
            exif: ExifMetadata { iso_speed: Some(100), ..Default::default() },
            ..Default::default()
        },
        DngMetadata { xmp: Some(vec![1]), ..Default::default() },
        DngMetadata { iptc: Some(vec![1]), ..Default::default() },
        DngMetadata { icc: Some(vec![1]), ..Default::default() },
    ];
    for (i, meta) in singles.iter().enumerate() {
        assert!(!meta.is_empty(), "block {i} alone must be non-empty");
    }
}

// ---- opcode lists -----------------------------------------------------------------------------

fn sample_bytes() -> Vec<u8> {
    let mut bytes = Vec::new();
    bytes.extend_from_slice(&2u32.to_be_bytes());
    bytes.extend_from_slice(&9u32.to_be_bytes());
    bytes.extend_from_slice(&[1, 3, 0, 0]);
    bytes.extend_from_slice(&1u32.to_be_bytes());
    bytes.extend_from_slice(&3u32.to_be_bytes());
    bytes.extend_from_slice(&[0xAA, 0xBB, 0xCC]);
    bytes.extend_from_slice(&14u32.to_be_bytes());
    bytes.extend_from_slice(&[1, 6, 0, 0]);
    bytes.extend_from_slice(&2u32.to_be_bytes());
    bytes.extend_from_slice(&0u32.to_be_bytes());
    bytes
}

#[test]
fn parse_reads_every_field() {
    let list = OpcodeList::parse(&sample_bytes()).expect("parse");
    assert_eq!(list.len(), 2);
    assert!(!list.is_empty());
    let first = &list.opcodes()[0];
    assert_eq!(first.id, GAIN_MAP);
    assert_eq!(first.spec_version, [1, 3, 0, 0]);
    assert_eq!(first.flags, FLAG_OPTIONAL);
    assert!(first.is_optional());
    assert!(!first.skip_for_preview());
    assert_eq!(first.parameters, vec![0xAA, 0xBB, 0xCC]);
    let second = &list.opcodes()[1];
    assert_eq!(second.id, WARP_RECTILINEAR_2);
    assert_eq!(second.spec_version, [1, 6, 0, 0]);
    assert!(!second.is_optional());
    assert!(second.skip_for_preview());
    assert!(second.parameters.is_empty());
}

#[test]
fn to_bytes_is_parse_inverse() {
    let bytes = sample_bytes();
    let list = OpcodeList::parse(&bytes).expect("parse");
    assert_eq!(list.to_bytes(), bytes);
    assert_eq!(OpcodeList::new().to_bytes(), vec![0, 0, 0, 0]);
    assert_eq!(OpcodeList::parse(&[0, 0, 0, 0]).expect("empty"), OpcodeList::new());
}

#[test]
fn push_appends_in_order() {
    let mut list = OpcodeList::new();
    list.push(Opcode { id: TRIM_BOUNDS, spec_version: [1, 3, 0, 0], flags: 0, parameters: vec![1, 2] });
    assert_eq!(list.len(), 1);
    assert_eq!(list.opcodes()[0].id, TRIM_BOUNDS);
    let reparsed = OpcodeList::parse(&list.to_bytes()).expect("reparse");
    assert_eq!(reparsed, list);
}

#[test]
fn parse_rejects_malformed_containers() {
    assert!(OpcodeList::parse(&[]).is_err());
    assert!(OpcodeList::parse(&[0, 0, 0]).is_err());
    assert!(OpcodeList::parse(&[0, 0, 0, 5, 0, 0]).is_err());
    let mut bytes = 1u32.to_be_bytes().to_vec();
    bytes.extend_from_slice(&[0u8; 12]);
    assert!(OpcodeList::parse(&bytes).is_err());
    let mut bytes = sample_bytes();
    let len = bytes.len();
    bytes[len - 4..].copy_from_slice(&100u32.to_be_bytes());
    assert!(OpcodeList::parse(&bytes).is_err());
    let mut bytes = sample_bytes();
    bytes.push(0);
    assert!(OpcodeList::parse(&bytes).is_err());
}

// ---- the horizontal-difference predictor --------------------------------------------------------

#[test]
fn horizontal_difference_accumulates_along_a_row() {
    let mut samples = [10u16, 1, 2, 3];
    undo(Predictor::HorizontalDifference, &mut samples, 4, 1, 1, 16);
    assert_eq!(samples, [10, 11, 13, 16]);
}

#[test]
fn rows_do_not_carry_into_each_other() {
    let mut samples = [1u16, 1, 100, 1];
    undo(Predictor::HorizontalDifference, &mut samples, 2, 2, 1, 16);
    assert_eq!(samples, [1, 2, 100, 101], "row 1 must not see row 0's tail");
}

#[test]
fn planes_are_differenced_independently() {
    let mut samples = [10u16, 20, 30, 1, 2, 3];
    undo(Predictor::HorizontalDifference, &mut samples, 2, 1, 3, 16);
    assert_eq!(samples, [10, 20, 30, 11, 22, 33]);
}

#[test]
fn x2_differences_against_two_pixels_left() {
    let mut samples = [5u16, 7, 1, 2, 3, 4];
    undo(Predictor::HorizontalDifferenceX2, &mut samples, 6, 1, 1, 16);
    assert_eq!(samples, [5, 7, 6, 9, 9, 13]);
}

#[test]
fn x4_differences_against_four_pixels_left() {
    let mut samples = [1u16, 2, 3, 4, 10, 20, 30, 40];
    undo(Predictor::HorizontalDifferenceX4, &mut samples, 8, 1, 1, 16);
    assert_eq!(samples, [1, 2, 3, 4, 11, 22, 33, 44]);
}

#[test]
fn eight_bit_addition_wraps_at_the_byte() {
    let mut samples = [200u16, 100];
    undo(Predictor::HorizontalDifference, &mut samples, 2, 1, 1, 8);
    assert_eq!(samples, [200, 44], "300 mod 256");
    let mut wide = [200u16, 100];
    undo(Predictor::HorizontalDifference, &mut wide, 2, 1, 1, 16);
    assert_eq!(wide, [200, 300], "16-bit data must not wrap at the byte");
}

#[test]
fn null_predictor_is_a_no_op() {
    let mut samples = [1u16, 2, 3];
    undo(Predictor::Null, &mut samples, 3, 1, 1, 16);
    assert_eq!(samples, [1, 2, 3]);
}

#[test]
fn single_column_is_a_no_op() {
    let mut samples = [7u16, 9];
    undo(Predictor::HorizontalDifference, &mut samples, 1, 2, 1, 16);
    assert_eq!(samples, [7, 9]);
}

#[test]
fn absent_tag_means_no_predictor() {
    assert_eq!(validate(None, Compression::Deflate, 16).expect("absent"), Predictor::Null);
}

#[test]
fn integer_predictors_are_accepted_for_deflate_and_uncompressed() {
    for compression in [Compression::Deflate, Compression::Uncompressed] {
        for (code, want) in [
            (2u32, Predictor::HorizontalDifference),
            (34892, Predictor::HorizontalDifferenceX2),
            (34893, Predictor::HorizontalDifferenceX4),
        ] {
            assert_eq!(
                validate(Some(code), compression, 16).expect("accepted"),
                want,
                "{compression:?} {code}"
            );
        }
    }
}

#[test]
fn self_predicting_schemes_ignore_the_tag() {
    for compression in [Compression::LosslessJpeg, Compression::JpegXl] {
        assert_eq!(
            validate(Some(2), compression, 16).expect("ignored"),
            Predictor::Null,
            "{compression:?}"
        );
    }
}

#[test]
fn floating_point_predictors_are_rejected() {
    for code in [3u32, 34894, 34895] {
        let error = validate(Some(code), Compression::Deflate, 16).expect_err("rejected");
        assert_eq!(error.kind(), ErrorKind::Unsupported, "{code}");
    }
}

#[test]
fn predictors_need_a_whole_container_width() {
    for bits in [10u16, 12, 14] {
        let error = validate(Some(2), Compression::Deflate, bits).expect_err("rejected");
        assert_eq!(error.kind(), ErrorKind::Unsupported, "{bits}");
    }
    assert!(validate(Some(2), Compression::Deflate, 8).is_ok());
}

#[test]
fn unknown_predictor_codes_are_invalid_input() {
    let error = validate(Some(9999), Compression::Deflate, 16).expect_err("rejected");
    assert_eq!(error.kind(), ErrorKind::InvalidInput);
}

// ---- lossless JPEG ----------------------------------------------------------------------------

fn roundtrip(width: usize, height: usize, components: usize, precision: u16) {
    let max = (1u32 << precision) - 1;
    let samples: Vec<u16> = (0..width * height * components)
        .map(|i| ((i as u32).wrapping_mul(2654435761) % (max + 1)) as u16)
        .collect();
    let encoded = encode(&samples, width, height, components, precision);
    let decoded = decode(&encoded).expect("decode");
    assert_eq!((decoded.width, decoded.height, decoded.components), (width, height, components));
    assert_eq!(decoded.samples, samples, "{width}x{height}x{components} @ {precision}-bit");
}

#[test]
fn roundtrips_varied_shapes_and_depths() {
    for &precision in &[8u16, 12, 14, 16] {
        roundtrip(17, 9, 1, precision);
        roundtrip(8, 8, 3, precision);
        roundtrip(1, 1, 1, precision);
    }
}

fn roundtrip_samples(samples: &[u16], width: usize, height: usize, components: usize) {
    let encoded = encode(samples, width, height, components, 16);
    let decoded = decode(&encoded).expect("decode");
    assert_eq!(decoded.width, width);
    assert_eq!(decoded.height, height);
    assert_eq!(decoded.components, components);
    assert_eq!(decoded.samples, samples);
}

#[test]
fn roundtrips_extreme_dc_differences() {
    let row: Vec<u16> = vec![0, 65535, 0, 1, 0, 32768, 32767, 0, 2, 4, 8, 16, 256, 65280, 65535, 0];
    let len = row.len();
    roundtrip_samples(&row, len, 1, 1);
    roundtrip_samples(&row, 1, len, 1);
    let mut two = Vec::new();
    for &v in &row {
        two.push(v);
        two.push(v ^ 0x8000);
    }
    roundtrip_samples(&two, len, 1, 2);
}

#[test]
fn round_trip_holds_up_to_seventeen_bit_precision_for_any_samples() {
    let samples: Vec<u16> = vec![0, 65535, 32768, 1, 40000, 7, 65535, 0, 12345];
    for &precision in &[1u16, 2, 9, 16, 17] {
        let encoded = encode(&samples, 3, 3, 1, precision);
        let decoded = decode(&encoded).expect("decode");
        assert_eq!((decoded.width, decoded.height, decoded.components), (3, 3, 1));
        assert_eq!(decoded.samples, samples, "precision {precision}");
    }
}

#[test]
fn round_trip_returns_only_the_image_samples() {
    let samples: Vec<u16> = vec![5, 6, 7, 8, 9, 10, 11];
    let encoded = encode(&samples, 2, 1, 3, 12);
    let decoded = decode(&encoded).expect("decode");
    assert_eq!(decoded.samples, samples[..6].to_vec());
}

#[test]
fn reduce_wraps_at_exact_boundaries() {
    assert_eq!(reduce(-32768), -32768);
    assert_eq!(reduce(32767), 32767);
    assert_eq!(reduce(32768), -32768);
    assert_eq!(reduce(-32769), 32767);
    assert_eq!(reduce(40000), 40000 - 65536);
    assert_eq!(reduce(-40000), -40000 + 65536);
}

#[test]
fn magnitude_categories_are_exact() {
    assert_eq!(magnitude(0), (0, 0));
    assert_eq!(magnitude(-32768), (16, 0));
    assert_eq!(magnitude(1), (1, 1));
    assert_eq!(magnitude(-1), (1, 0));
    assert_eq!(magnitude(2), (2, 0b10));
    assert_eq!(magnitude(-2), (2, 0b01));
    assert_eq!(magnitude(32767), (15, 0x7fff));
}

#[test]
fn extend_reconstructs_category_16_as_min() {
    let mut reader = BitReader::new(&[]);
    assert_eq!(extend(&mut reader, 16), -32768);
    let mut reader = BitReader::new(&[]);
    assert_eq!(extend(&mut reader, 0), 0);
}

#[test]
fn extend_reads_the_mantissa_bits() {
    // Category 2 with mantissa bits 01 is -2; with 10 it is +2.
    let mut reader = BitReader::new(&[0b0100_0000]);
    assert_eq!(extend(&mut reader, 2), -2);
    let mut reader = BitReader::new(&[0b1000_0000]);
    assert_eq!(extend(&mut reader, 2), 2);
}

#[test]
fn bit_writer_pads_only_a_partial_final_byte() {
    let mut w = BitWriter::new();
    w.put(0b1010_1010, 8);
    assert_eq!(w.finish(), vec![0b1010_1010]);
    let mut w = BitWriter::new();
    w.put(0b101, 3);
    assert_eq!(w.finish(), vec![0b1011_1111]);
    assert_eq!(BitWriter::new().finish(), Vec::<u8>::new());
}

#[test]
fn bit_writer_stuffs_a_full_marker_byte() {
    let mut w = BitWriter::new();
    w.put(0xFF, 8);
    assert_eq!(w.finish(), vec![0xFF, 0x00]);
}

#[test]
fn bit_reader_holds_position_at_a_real_marker() {
    let mut reader = BitReader::new(&[0xFF, 0xD9]);
    for _ in 0..24 {
        assert_eq!(reader.next_bit(), 1);
    }
    let mut reader = BitReader::new(&[0xFF, 0x00, 0x00]);
    for _ in 0..8 {
        assert_eq!(reader.next_bit(), 1);
    }
    for _ in 0..8 {
        assert_eq!(reader.next_bit(), 0);
    }
}

fn valid_stream() -> Vec<u8> {
    encode(&[12345u16], 1, 1, 1, 16)
}

#[test]
fn decode_rejects_bad_header() {
    assert!(decode(&[]).is_err());
    assert!(decode(&[MARKER, 0x00]).is_err());
    assert!(decode(&[MARKER]).is_err());
    match decode(&[MARKER, SOI]) {
        Err(Error::InvalidInput(m)) => assert!(m.contains("missing SOS"), "got {m:?}"),
        Err(other) => panic!("expected missing-SOS error, got {other:?}"),
        Ok(_) => panic!("expected missing-SOS error, got Ok"),
    }
    let mut s = valid_stream();
    s[0] = 0x00;
    assert!(decode(&s).is_err());
}

#[test]
fn decode_skips_stray_bytes_and_unknown_segments() {
    let s = valid_stream();
    let mut spliced = s[..2].to_vec();
    spliced.push(0xAA);
    spliced.extend_from_slice(&s[2..]);
    let decoded = decode(&spliced).expect("decode past stray byte");
    assert_eq!(decoded.samples, vec![12345u16]);
    let mut spliced = s[..2].to_vec();
    spliced.extend_from_slice(&[MARKER, 0xE0, 0x00, 0x04, 0x00, 0x00]);
    spliced.extend_from_slice(&s[2..]);
    let decoded = decode(&spliced).expect("decode past unknown segment");
    assert_eq!(decoded.samples, vec![12345u16]);
}

#[test]
fn decode_rejects_eoi_before_sos() {
    let s = valid_stream();
    let mut spliced = s[..2].to_vec();
    spliced.extend_from_slice(&[MARKER, EOI, 0x00, 0x04, 0x00, 0x00]);
    spliced.extend_from_slice(&s[2..]);
    assert!(decode(&spliced).is_err());
}

#[test]
fn decode_rejects_zero_dimensions() {
    let mut s = valid_stream();
    s[9] = 0;
    s[10] = 0;
    assert!(decode(&s).is_err());
    let mut s = valid_stream();
    s[7] = 0;
    s[8] = 0;
    assert!(decode(&s).is_err());
}

#[test]
fn decode_rejects_a_segment_running_past_the_data() {
    // SOI, then an APP0 segment claiming 0x1000 bytes in a 10-byte stream.
    let s = [MARKER, SOI, MARKER, 0xE0, 0x10, 0x00, 0, 0, 0, 0];
    assert!(decode(&s).is_err());
}

#[test]
fn decode_rejects_a_precision_the_predictor_cannot_seed() {
    let mut s = valid_stream();
    s[6] = 0;
    assert!(decode(&s).is_err());
}

#[test]
fn encoded_header_lays_out_the_frame() {
    let s = encode(&[1u16, 2, 3, 4, 5, 6], 3, 2, 1, 12);
    assert_eq!(&s[0..4], &[MARKER, SOI, MARKER, 0xC3]);
    assert_eq!(s[6], 12, "precision");
    assert_eq!(&s[7..9], &[0, 2], "height");
    assert_eq!(&s[9..11], &[0, 3], "width");
    assert_eq!(s[11], 1, "components");
    assert_eq!(&s[s.len() - 2..], &[MARKER, EOI]);
}

// ---- strip compression ----------------------------------------------------------------------------

#[test]
fn deflate_roundtrips() {
    let data: Vec<u8> = (0..4096).map(|i| (i * 7 % 251) as u8).collect();
    let packed = compress(Compression::Deflate, &data).unwrap();
    assert!(packed.len() < data.len(), "structured data should shrink");
    assert_eq!(decompress(Compression::Deflate, &packed, data.len()).unwrap(), data);
}

#[test]
fn inflation_is_capped_at_max_out() {
    let data: Vec<u8> = (0..4096).map(|i| (i * 7 % 251) as u8).collect();
    let packed = compress(Compression::Deflate, &data).unwrap();
    assert!(decompress(Compression::Deflate, &packed, data.len()).is_ok());
    let over = decompress(Compression::Deflate, &packed, data.len() - 1).unwrap_err();
    assert_eq!(over.static_message(), Some("DNG: Deflate stream inflates past the expected size"));
    assert_eq!(over.static_message(), Some(MSG_INFLATES_PAST));
    assert!(over.detail().is_some());
}

#[test]
fn corrupt_and_truncated_streams_are_rejected() {
    assert_eq!(
        decompress(Compression::Deflate, &[], 1).unwrap_err().static_message(),
        Some("DNG: corrupt Deflate stream")
    );
    let mut packed = compress(Compression::Deflate, &[1, 2, 3, 4]).unwrap();
    packed.pop();
    assert_eq!(
        decompress(Compression::Deflate, &packed, 4).unwrap_err().static_message(),
        Some(MSG_CORRUPT_DEFLATE)
    );
}

#[test]
fn uncompressed_is_passthrough() {
    assert_eq!(compress(Compression::Uncompressed, &[1, 2, 3]).unwrap(), vec![1, 2, 3]);
    assert_eq!(decompress(Compression::Uncompressed, &[1, 2, 3], 3).unwrap(), vec![1, 2, 3]);
}

#[test]
fn lossless_jpeg_not_yet_encodable() {
    assert!(compress(Compression::LosslessJpeg, &[0; 16]).is_err());
}

#[test]
fn unsupported_schemes_name_their_direction() {
    let enc = compress(Compression::JpegXl, &[0; 4]).unwrap_err();
    assert_eq!(enc.kind(), ErrorKind::Unsupported);
    assert_eq!(enc.static_message(), Some(MSG_NOT_ENCODABLE));
    assert_eq!(enc.origin(), Some("gamut-dng"));
    let dec = decompress(Compression::LossyJpeg, &[0; 4], 4).unwrap_err();
    assert_eq!(dec.kind(), ErrorKind::Unsupported);
    assert_eq!(dec.static_message(), Some(MSG_NOT_DECODABLE));
}

#[test]
fn deflate_strips_are_zlib_streams_of_the_default_encoder() {
    let data = b"abcabcabc";
    let packed = compress(Compression::Deflate, data).unwrap();
    let mut expected = Vec::new();
    gamut::deflate::encoder::DeflateEncoder::new().zlib_compress(data, &mut expected);
    assert_eq!(packed, expected);
}

// ---- decoder layout helpers ----------------------------------------------------------------------

#[test]
fn deinterleave_reassembles_fields_row_major() {
    let stored = [0u16, 2, 1, 3, 8, 10, 9, 11, 4, 6, 5, 7, 12, 14, 13, 15];
    let logical: Vec<u16> = (0..16).collect();
    assert_eq!(deinterleave(&stored, 4, 4, 1, 2, 2), logical);
    assert_eq!(deinterleave(&[10, 30, 20], 3, 1, 1, 1, 2), vec![10, 20, 30]);
    assert_eq!(deinterleave(&[1, 2, 3, 4], 2, 2, 1, 1, 1), vec![1, 2, 3, 4]);
}

#[test]
fn deinterleave_keeps_samples_of_a_pixel_together() {
    // Two pixels of two samples each, stored as column fields of one column each.
    assert_eq!(deinterleave(&[1, 2, 3, 4], 2, 1, 2, 1, 2), vec![1, 2, 3, 4]);
    // Three rows in two row fields: rows 0 and 2 first, then row 1.
    assert_eq!(deinterleave(&[10, 30, 20], 1, 3, 1, 2, 1), vec![10, 20, 30]);
}

#[test]
fn active_area_defaults_to_the_full_image() {
    let dims = Dimensions { width: 40, height: 30 };
    assert_eq!(active_area_size(dims, None), (40, 30));
    assert_eq!(active_area_size(dims, Some([2, 4, 22, 36])), (32, 20));
    assert_eq!(active_area_size(dims, Some([10, 10, 5, 5])), (0, 0));
}

#[test]
fn byte_chunks_resolve_in_bounds_ranges() {
    let data = [0u8, 1, 2, 3, 4, 5, 6, 7];
    let chunks = byte_chunks(&[1, 4], &[2, 4], &data).unwrap();
    assert_eq!(chunks, vec![&data[1..3], &data[4..8]]);
    let err = byte_chunks(&[1], &[2, 3], &data).unwrap_err();
    assert_eq!(err.static_message(), Some(MSG_OFFSET_COUNT_MISMATCH));
    let err = byte_chunks(&[6], &[4], &data).unwrap_err();
    assert_eq!(err.static_message(), Some(MSG_OUT_OF_BOUNDS));
    let err = byte_chunks(&[4], &[u64::MAX], &data).unwrap_err();
    assert_eq!(err.static_message(), Some(MSG_EXTENT_OVERFLOW));
}

#[test]
fn the_decoder_is_a_plain_value() {
    assert_eq!(DngDecoder::new(), DngDecoder::default());
}

// ---- raw images, layout and gain maps -------------------------------------------------------------

#[test]
fn bit_depths_must_be_storable() {
    assert!(check_bits(1).is_ok());
    assert!(check_bits(16).is_ok());
    assert_eq!(check_bits(0).unwrap_err().static_message(), Some(MSG_BITS));
    assert!(check_bits(17).is_err());
}

#[test]
fn sample_counts_must_match_the_geometry() {
    let dims = Dimensions { width: 2, height: 3 };
    assert!(check_sample_count(dims, 2, &[0u16; 12]).is_ok());
    let err = check_sample_count(dims, 2, &[0u16; 11]).unwrap_err();
    assert_eq!(err.kind(), ErrorKind::InvalidInput);
    assert_eq!(err.static_message(), Some(MSG_SAMPLE_COUNT));
}

#[test]
fn photometry_clones_keep_their_pattern() {
    let cfa = RawPhotometry::Cfa {
        repeat: (2, 2),
        pattern: vec![0, 1, 1, 2],
        plane_color: vec![0, 1, 2],
        layout: CfaLayout::Rectangular,
    };
    assert_eq!(cfa.clone(), cfa);
    let linear = RawPhotometry::LinearRaw { planes: 3 };
    assert_eq!(linear.clone(), linear);
}

#[test]
fn blocks_start_on_even_offsets() {
    assert_eq!(even(0), 0);
    assert_eq!(even(7), 8);
    assert_eq!(even(8), 8);
}

#[test]
fn gain_table_counts_multiply_and_reject_empty_axes() {
    assert_eq!(table_count(2, 3, 4).unwrap(), 24);
    assert_eq!(table_count(0, 3, 4).unwrap_err().static_message(), Some(MSG_GAIN_ZERO));
    if usize::BITS == 32 {
        assert_eq!(
            table_count(u32::MAX, u32::MAX, 2).unwrap_err().static_message(),
            Some(MSG_GAIN_OVERFLOW)
        );
    } else {
        assert_eq!(
            table_count(u32::MAX, u32::MAX, u32::MAX).unwrap_err().static_message(),
            Some(MSG_GAIN_OVERFLOW)
        );
    }
}

// ---- chunk layout and assembly -----------------------------------------------------------------

#[test]
fn interleave_factor_validates_range() {
    assert_eq!(interleave_factor(None, 8).unwrap(), 1);
    assert_eq!(interleave_factor(Some(2), 8).unwrap(), 2);
    assert!(interleave_factor(Some(0), 8).is_err());
    assert!(interleave_factor(Some(9), 8).is_err());
}

#[test]
fn decode_image_data_assembles_tiles_with_edge_crop() {
    // A 3x3 image from a 2x2 grid of 2x2 zero-padded tiles (8-bit, uncompressed).
    let grid = chunk_grid(true, Some(2), Some(2), None, 3, 3).expect("grid");
    let (tile_width, tile_height, across, down) = match grid {
        ChunkGrid::Tiles { tile_width, tile_height, across, down } => {
            (tile_width, tile_height, across, down)
        }
        other => panic!("expected tiles, got {other:?}"),
    };
    assert_eq!((tile_width, tile_height, across, down), (2, 2, 2, 2));
    let tiles: Vec<Vec<u16>> =
        vec![vec![1, 2, 4, 5], vec![3, 0, 6, 0], vec![7, 8, 0, 0], vec![9, 0, 0, 0]];
    assert_eq!(tile_count(across, down, tiles.len()).ok(), Some(4));
    let samples = assemble_tiles(&tiles, 3, 3, 1, tile_width, tile_height, across);
    assert_eq!(samples, (1..=9).collect::<Vec<u16>>());

    // A tile list that does not cover the grid is rejected.
    let err = tile_count(across, down, 3).unwrap_err();
    assert!(
        matches!(err, Error::InvalidInput(m) if m.contains("tile count")),
        "expected a tile-count error, got {err:?}"
    );

    // A tiled IFD missing its geometry is rejected.
    assert!(chunk_grid(true, None, Some(2), None, 3, 3).is_err());
}

#[test]
fn decode_raw_image_rejects_non_unsigned_sample_formats() {
    // Float data is a distinct, named rejection...
    let err = check_sample_formats(&[3]).unwrap_err();
    assert!(
        matches!(err, Error::Unsupported(m) if m.contains("floating-point")),
        "expected a floating-point rejection, got {err:?}"
    );
    // ...signed and unrecognised formats fail generically...
    assert!(check_sample_formats(&[2]).is_err());
    assert!(check_sample_formats(&[9]).is_err());
    // ...and the explicit unsigned default is accepted.
    assert!(check_sample_formats(&[1]).is_ok());
}

#[test]
fn decode_raw_image_rejects_lossless_jpeg_sample_count_mismatch() {
    // A 4x2, single-component lossless-JPEG strip (8 samples) for a chunk of 2x2 samples.
    let samples: Vec<u16> = (0..8).map(|i| i as u16).collect();
    let jpeg = encode(&samples, 4, 2, 1, 12);
    let want = checked_product(2, 2, 1).expect("count");
    let err = lossless_chunk(&jpeg, want).unwrap_err();
    assert!(
        matches!(err, Error::InvalidInput(m) if m.contains("sample count")),
        "expected a sample-count mismatch error, got {err:?}"
    );
}

#[test]
fn decode_raw_image_accepts_reshaped_lossless_jpeg_stream() {
    // 8 samples encoded as a 2-wide, 2-component, 2-row stream for a 4x2 one-plane chunk.
    let samples: Vec<u16> = (0..8).map(|i| i as u16).collect();
    let jpeg = encode(&samples, 2, 2, 2, 12);
    let want = checked_product(4, 2, 1).expect("count");
    let decoded = lossless_chunk(&jpeg, want).expect("decode");
    assert_eq!(decoded, samples);
}

#[test]
fn chunk_grids_default_to_one_strip_and_round_tiles_up() {
    assert_eq!(
        chunk_grid(false, None, None, None, 10, 7).ok(),
        Some(ChunkGrid::Strips { rows_per_strip: 7 })
    );
    assert_eq!(
        chunk_grid(false, None, None, Some(3), 10, 7).ok(),
        Some(ChunkGrid::Strips { rows_per_strip: 3 })
    );
    assert!(matches!(
        chunk_grid(false, None, None, Some(0), 10, 7),
        Err(Error::InvalidInput(m)) if m == MSG_ZERO_ROWS_PER_STRIP
    ));
    assert_eq!(
        chunk_grid(true, Some(4), Some(3), None, 10, 7).ok(),
        Some(ChunkGrid::Tiles { tile_width: 4, tile_height: 3, across: 3, down: 3 })
    );
    assert!(matches!(
        chunk_grid(true, Some(4), None, None, 10, 7),
        Err(Error::InvalidInput(m)) if m == MSG_NO_TILE_LENGTH
    ));
    assert!(matches!(
        chunk_grid(true, Some(0), Some(3), None, 10, 7),
        Err(Error::InvalidInput(m)) if m == MSG_ZERO_TILE
    ));
}

#[test]
fn strips_cover_the_rows_in_order_and_refuse_extras() {
    // 5 rows in strips of 2: 2, 2, 1, then nothing is left.
    let mut strips = StripAssembly::new(5);
    let mut next = 0u16;
    for expected_rows in [2usize, 2, 1] {
        let rows = strips.next_rows(2).expect("rows");
        assert_eq!(rows, expected_rows);
        let decoded: Vec<u16> = (0..rows as u16 * 3).map(|k| next + k).collect();
        next += rows as u16 * 3;
        strips.push(rows, &decoded);
    }
    assert!(matches!(
        strips.next_rows(2),
        Err(Error::InvalidInput(m)) if m == MSG_EXTRA_STRIPS
    ));
    assert_eq!(strips.finish(15).expect("image"), (0..15).collect::<Vec<u16>>());

    let short = StripAssembly::new(2);
    assert!(matches!(
        short.finish(6),
        Err(Error::InvalidInput(m)) if m == MSG_TRUNCATED_DATA
    ));
}

#[test]
fn unpacked_chunks_are_cut_to_size_or_refused() {
    assert_eq!(fit_chunk(vec![1, 2, 3, 4, 5], 3).ok(), Some(vec![1, 2, 3]));
    assert!(matches!(
        fit_chunk(vec![1, 2], 3),
        Err(Error::InvalidInput(m)) if m == MSG_TRUNCATED_DATA
    ));
    assert!(matches!(
        checked_product(usize::MAX, 2, 0),
        Err(Error::InvalidInput(m)) if m == MSG_DIMS_OVERFLOW
    ));
    assert_eq!(checked_product(3, 4, 5).ok(), Some(60));
    assert!(matches!(
        tile_count(usize::MAX, 2, 0),
        Err(Error::InvalidInput(m)) if m == MSG_DIMS_OVERFLOW
    ));
}

#[test]
fn assembled_tiles_crop_multi_sample_padding() {
    // A 3x1 image of two samples per pixel from 2x1 tiles: the second tile's padding pixel
    // is dropped.
    let tiles: Vec<Vec<u16>> = vec![vec![1, 2, 3, 4], vec![5, 6, 90, 91]];
    assert_eq!(assemble_tiles(&tiles, 3, 1, 2, 2, 1, 2), vec![1, 2, 3, 4, 5, 6]);
}

// ---- profile gain-table maps -------------------------------------------------------------------

fn sample_map(gains: GainValues) -> ProfileGainTableMap {
    let third = (1.0f32 / 3.0).to_bits();
    ProfileGainTableMap {
        points_v: 1,
        points_h: 2,
        spacing_v: 0.5f64.to_bits(),
        spacing_h: 1.0f64.to_bits(),
        origin_v: 0.0f64.to_bits(),
        origin_h: (-0.25f64).to_bits(),
        points_n: 2,
        input_weights: [third, third, third, 0.0f32.to_bits(), 0.0f32.to_bits()],
        gamma: 1.0f32.to_bits(),
        gain_min: 0.0f32.to_bits(),
        gain_max: 0.0f32.to_bits(),
        gains,
    }
}

fn f32_bits(values: &[f32]) -> Vec<u32> {
    values.iter().map(|v| v.to_bits()).collect()
}

#[test]
fn v1_layout_matches_the_spec_bytes() {
    let map = sample_map(GainValues::F32(f32_bits(&[1.0, 1.5, 2.0, 0.5])));
    let bytes = map.to_bytes_v1(ByteOrder::LittleEndian).expect("serialise");
    assert_eq!(bytes.len(), 64 + 4 * 4);
    let mut expected = Vec::new();
    expected.extend_from_slice(&1u32.to_le_bytes()); // MapPointsV
    expected.extend_from_slice(&2u32.to_le_bytes()); // MapPointsH
    expected.extend_from_slice(&0.5f64.to_le_bytes()); // MapSpacingV
    expected.extend_from_slice(&1.0f64.to_le_bytes()); // MapSpacingH
    expected.extend_from_slice(&0.0f64.to_le_bytes()); // MapOriginV
    expected.extend_from_slice(&(-0.25f64).to_le_bytes()); // MapOriginH
    expected.extend_from_slice(&2u32.to_le_bytes()); // MapPointsN
    for w in [1.0f32 / 3.0, 1.0 / 3.0, 1.0 / 3.0, 0.0, 0.0] {
        expected.extend_from_slice(&w.to_le_bytes());
    }
    for g in [1.0f32, 1.5, 2.0, 0.5] {
        expected.extend_from_slice(&g.to_le_bytes());
    }
    assert_eq!(bytes, expected);

    let parsed = ProfileGainTableMap::parse_v1(&bytes, ByteOrder::LittleEndian).unwrap();
    assert_eq!(parsed, map);
}

#[test]
fn v2_roundtrips_every_data_type_in_both_orders() {
    for order in [ByteOrder::LittleEndian, ByteOrder::BigEndian] {
        for gains in [
            GainValues::U8(vec![0, 128, 255, 64]),
            GainValues::U16(vec![0, 30000, 65535, 42]),
            GainValues::F16(vec![0x3C00, 0x4000, 0x3800, 0]),
            GainValues::F32(f32_bits(&[1.0, 0.5, 2.0, 1.25])),
        ] {
            let mut map = sample_map(gains);
            map.gamma = 2.2f32.to_bits();
            map.gain_min = 0.7f32.to_bits();
            map.gain_max = 2.3f32.to_bits();
            let bytes = map.to_bytes_v2(order).expect("serialise");
            let parsed = ProfileGainTableMap::parse_v2(&bytes, order).expect("parse");
            assert_eq!(parsed, map, "{order:?}");
            // Byte-exact re-serialisation.
            assert_eq!(parsed.to_bytes_v2(order).unwrap(), bytes);
        }
    }
}

#[test]
fn v2_extension_fields_sit_after_the_shared_header() {
    let mut map = sample_map(GainValues::U8(vec![10, 20, 30, 40]));
    map.gamma = 0.5f32.to_bits();
    map.gain_min = 0.7f32.to_bits();
    map.gain_max = 2.3f32.to_bits();
    let bytes = map.to_bytes_v2(ByteOrder::LittleEndian).unwrap();
    assert_eq!(bytes.len(), 80 + 4);
    assert_eq!(&bytes[64..68], &0u32.to_le_bytes()); // DataType 0 = U8
    assert_eq!(&bytes[68..72], &0.5f32.to_le_bytes()); // Gamma
    assert_eq!(&bytes[72..76], &0.7f32.to_le_bytes()); // GainMin
    assert_eq!(&bytes[76..80], &2.3f32.to_le_bytes()); // GainMax
    assert_eq!(&bytes[80..], &[10, 20, 30, 40]);
}

#[test]
fn parse_rejects_malformed_payloads() {
    let map = sample_map(GainValues::F32(f32_bits(&[1.0, 1.5, 2.0, 0.5])));
    let v1 = map.to_bytes_v1(ByteOrder::LittleEndian).unwrap();
    // Truncated.
    assert!(
        ProfileGainTableMap::parse_v1(&v1[..v1.len() - 1], ByteOrder::LittleEndian).is_err()
    );
    // Wrong-order parse mangles the count check rather than panicking.
    assert!(ProfileGainTableMap::parse_v1(&v1, ByteOrder::BigEndian).is_err());
    // Negative gain.
    let mut bad = v1.clone();
    bad[64..68].copy_from_slice(&(-1.0f32).to_le_bytes());
    assert!(ProfileGainTableMap::parse_v1(&bad, ByteOrder::LittleEndian).is_err());

    let mut map2 = map.clone();
    map2.gain_min = 0.5f32.to_bits();
    map2.gain_max = 2.0f32.to_bits();
    let v2 = map2.to_bytes_v2(ByteOrder::LittleEndian).unwrap();
    // Unknown DataType.
    let mut bad = v2.clone();
    bad[64..68].copy_from_slice(&9u32.to_le_bytes());
    assert!(ProfileGainTableMap::parse_v2(&bad, ByteOrder::LittleEndian).is_err());
    // Gamma out of range.
    let mut bad = v2.clone();
    bad[68..72].copy_from_slice(&8.0f32.to_le_bytes());
    assert!(ProfileGainTableMap::parse_v2(&bad, ByteOrder::LittleEndian).is_err());
    // Zero dimensions.
    let mut bad = v2;
    bad[0..4].copy_from_slice(&0u32.to_le_bytes());
    assert!(ProfileGainTableMap::parse_v2(&bad, ByteOrder::LittleEndian).is_err());
}

#[test]
fn v1_serialisation_rejects_v2_only_content() {
    // Integer gains have no v1 form.
    let map = sample_map(GainValues::U8(vec![1, 2, 3, 4]));
    assert!(map.to_bytes_v1(ByteOrder::LittleEndian).is_err());
    // A non-identity gamma cannot be stored in v1.
    let mut map = sample_map(GainValues::F32(f32_bits(&[1.0; 4])));
    map.gamma = 2.0f32.to_bits();
    assert!(map.to_bytes_v1(ByteOrder::LittleEndian).is_err());
    // A count mismatch is rejected in both directions.
    let mut map = sample_map(GainValues::F32(f32_bits(&[1.0; 3])));
    map.gain_min = 0.0f32.to_bits();
    map.gain_max = 1.0f32.to_bits();
    assert!(map.to_bytes_v1(ByteOrder::LittleEndian).is_err());
    map.gamma = 1.0f32.to_bits();
    assert!(map.to_bytes_v2(ByteOrder::LittleEndian).is_err());
}

#[test]
fn gain_map_refusals_name_their_reason() {
    let map = sample_map(GainValues::F32(f32_bits(&[1.0, 1.5, 2.0, 0.5])));
    let v1 = map.to_bytes_v1(ByteOrder::BigEndian).unwrap();
    let message = |r: Result<ProfileGainTableMap, Error>| r.unwrap_err().static_message();
    assert_eq!(
        message(ProfileGainTableMap::parse_v1(&v1[..63], ByteOrder::BigEndian)),
        Some(MSG_GAIN_TRUNCATED)
    );
    assert_eq!(
        message(ProfileGainTableMap::parse_v1(&v1[..70], ByteOrder::BigEndian)),
        Some(MSG_V1_LENGTH)
    );
    // Infinity and NaN are refused in v1, as is a negative gain; -0.0 is not below zero.
    for (bits, ok) in [
        (f32::INFINITY.to_bits(), false),
        (f32::NAN.to_bits(), false),
        ((-2.0f32).to_bits(), false),
        ((-0.0f32).to_bits(), true),
    ] {
        let mut bytes = v1.clone();
        bytes[64..68].copy_from_slice(&bits.to_be_bytes());
        let parsed = ProfileGainTableMap::parse_v1(&bytes, ByteOrder::BigEndian);
        assert_eq!(parsed.is_ok(), ok, "{bits:#x}");
        if !ok {
            assert_eq!(message(parsed), Some(MSG_V1_GAINS));
        }
    }
    let mut v2map = map.clone();
    v2map.gamma = 4.0f32.to_bits();
    let v2 = v2map.to_bytes_v2(ByteOrder::BigEndian).expect("gamma 4.0 is in range");
    let mut bad = v2.clone();
    bad[80..84].copy_from_slice(&f32::NEG_INFINITY.to_bits().to_be_bytes());
    assert_eq!(message(ProfileGainTableMap::parse_v2(&bad, ByteOrder::BigEndian)), Some(MSG_V2_GAINS));
    let mut bad = v2.clone();
    bad[68..72].copy_from_slice(&0.2499f32.to_bits().to_be_bytes());
    assert_eq!(message(ProfileGainTableMap::parse_v2(&bad, ByteOrder::BigEndian)), Some(MSG_GAMMA));
    let mut bad = v2;
    bad[64..68].copy_from_slice(&4u32.to_be_bytes());
    assert_eq!(message(ProfileGainTableMap::parse_v2(&bad, ByteOrder::BigEndian)), Some(MSG_DATA_TYPE));
}

// ---- raw levels --------------------------------------------------------------------------------

fn f64_bits(values: &[f64]) -> Vec<u64> {
    values.iter().map(|v| v.to_bits()).collect()
}

#[test]
fn uniform_builds_one_cell_per_plane() {
    let levels = RawLevels::uniform(3, 64.0f64.to_bits(), 4095.0f64.to_bits()).expect("valid");
    assert_eq!(levels.black_repeat(), (1, 1));
    assert_eq!(levels.black(), &f64_bits(&[64.0, 64.0, 64.0])[..]);
    assert_eq!(levels.white(), &f64_bits(&[4095.0, 4095.0, 4095.0])[..]);
    assert_eq!(levels.samples_per_pixel(), 3);
    assert_eq!(levels.black_delta_h(), None);
    assert_eq!(levels.black_delta_v(), None);
    assert_eq!(levels.linearization_table(), None);
}

#[test]
fn new_validates_lengths_and_ranges() {
    let new = |spp: u16, repeat: (u16, u16), black: &[f64], white: &[f64]| {
        RawLevels::new(spp, repeat, f64_bits(black), f64_bits(white))
    };
    // Wrong black length (needs 2*2*1 = 4).
    assert!(new(1, (2, 2), &[0.0; 3], &[255.0]).is_err());
    // Wrong white length (needs one per plane).
    assert!(new(2, (1, 1), &[0.0; 2], &[255.0]).is_err());
    // Zero repeat dims / zero planes.
    assert!(new(1, (0, 2), &[], &[255.0]).is_err());
    assert!(new(1, (2, 0), &[], &[255.0]).is_err());
    assert!(new(0, (1, 1), &[], &[]).is_err());
    // Negative / non-finite black, non-positive / non-finite white.
    assert!(new(1, (1, 1), &[-1.0], &[255.0]).is_err());
    assert!(new(1, (1, 1), &[f64::NAN], &[255.0]).is_err());
    assert!(new(1, (1, 1), &[0.0], &[0.0]).is_err());
    assert!(new(1, (1, 1), &[0.0], &[f64::INFINITY]).is_err());
    // The valid boundary: black 0, white 1.
    assert!(new(1, (1, 1), &[0.0], &[1.0]).is_ok());
}

#[test]
fn black_at_indexes_the_pattern_by_phase() {
    // 2x2 pattern, 1 plane, distinct values per cell: value = row-major cell index.
    let levels =
        RawLevels::new(1, (2, 2), f64_bits(&[10.0, 20.0, 30.0, 40.0]), f64_bits(&[255.0]))
            .unwrap();
    let at = |r, c, p| levels.black_at(r, c, p).map(f64::from_bits);
    // Phase wraps modulo the repeat dims — (2, 3) has phase (0, 1).
    assert_eq!(at(0, 0, 0), Some(10.0));
    assert_eq!(at(0, 1, 0), Some(20.0));
    assert_eq!(at(1, 0, 0), Some(30.0));
    assert_eq!(at(1, 1, 0), Some(40.0));
    assert_eq!(at(2, 3, 0), Some(20.0));
    assert_eq!(at(3, 2, 0), Some(30.0));
    // A plane past `samples_per_pixel` is a miss, not a panic.
    assert_eq!(at(0, 0, 1), None);
}

#[test]
fn black_at_indexes_planes_within_a_cell() {
    // 1x2 pattern, 2 planes: cells are [c0p0, c0p1, c1p0, c1p1].
    let levels =
        RawLevels::new(2, (1, 2), f64_bits(&[1.0, 2.0, 3.0, 4.0]), f64_bits(&[255.0, 255.0]))
            .unwrap();
    let at = |r, c, p| levels.black_at(r, c, p).map(f64::from_bits);
    assert_eq!(at(0, 0, 0), Some(1.0));
    assert_eq!(at(0, 0, 1), Some(2.0));
    assert_eq!(at(0, 1, 0), Some(3.0));
    assert_eq!(at(0, 1, 1), Some(4.0));
    // Rows all share the single pattern row.
    assert_eq!(at(5, 0, 1), Some(2.0));
}

#[test]
fn builders_attach_deltas_and_table() {
    let levels = RawLevels::uniform(1, 0.0f64.to_bits(), 255.0f64.to_bits())
        .unwrap()
        .with_black_delta_h(f64_bits(&[0.5, -0.5]))
        .with_black_delta_v(f64_bits(&[1.0]))
        .with_linearization_table(vec![0, 1, 4, 9]);
    assert_eq!(levels.black_delta_h(), Some(&f64_bits(&[0.5, -0.5])[..]));
    assert_eq!(levels.black_delta_v(), Some(&f64_bits(&[1.0])[..]));
    assert_eq!(levels.linearization_table(), Some(&[0, 1, 4, 9][..]));
    assert_eq!(levels.clone(), levels);
}

#[test]
fn level_refusals_follow_the_check_order() {
    let msg = |r: Result<RawLevels, Error>| r.unwrap_err().static_message();
    assert_eq!(msg(RawLevels::new(0, (0, 0), vec![], vec![])), Some(MSG_NO_PLANES));
    assert_eq!(msg(RawLevels::new(1, (0, 1), vec![], vec![])), Some(MSG_ZERO_REPEAT));
    assert_eq!(msg(RawLevels::new(1, (1, 1), vec![], vec![])), Some(MSG_BLACK_LENGTH));
    assert_eq!(msg(RawLevels::new(1, (1, 1), vec![0], vec![])), Some(MSG_WHITE_LENGTH));
    // -0.0 is an accepted black level; a white level of -1.0 is not.
    assert!(RawLevels::new(1, (1, 1), f64_bits(&[-0.0]), f64_bits(&[1.0])).is_ok());
    assert_eq!(
        msg(RawLevels::new(1, (1, 1), f64_bits(&[-0.0]), f64_bits(&[-1.0]))),
        Some(MSG_WHITE_RANGE)
    );
    assert_eq!(
        msg(RawLevels::new(1, (1, 1), f64_bits(&[f64::INFINITY]), f64_bits(&[f64::NAN]))),
        Some(MSG_BLACK_RANGE)
    );
}

// ---- camera profile ----------------------------------------------------------------------------

fn matrix(values: [f64; 9]) -> [u64; 9] {
    values.map(f64::to_bits)
}

fn triple(values: [f64; 3]) -> [u64; 3] {
    values.map(f64::to_bits)
}

const IDENTITY: [f64; 9] = [1.0, 0.0, 0.0, 0.0, 1.0, 0.0, 0.0, 0.0, 1.0];

#[test]
fn new_validates() {
    let m = matrix(IDENTITY);
    let neutral = triple([0.5, 1.0, 0.6]);
    assert!(CameraProfile::new("Cam", m, CalibrationIlluminant::D65, neutral).is_ok());
    assert!(CameraProfile::new("", m, CalibrationIlluminant::D65, neutral).is_err());
    assert!(
        CameraProfile::new("Cam", m, CalibrationIlluminant::D65, triple([0.0, 1.0, 0.6])).is_err()
    );
}

#[test]
fn optional_fields_set() {
    let m = matrix(IDENTITY);
    let p = CameraProfile::new(
        "Cam",
        m,
        CalibrationIlluminant::StandardLightA,
        triple([0.5, 1.0, 0.6]),
    )
    .unwrap()
    .with_second_illuminant(m, CalibrationIlluminant::D65)
    .with_camera_calibration(m, Some(m))
    .with_forward_matrices(m, None)
    .with_analog_balance(triple([1.0, 1.0, 1.0]))
    .with_baseline_exposure(0.25f64.to_bits())
    .with_profile_name("gamut Standard")
    .with_profile_embed_policy(ProfileEmbedPolicy::NoRestrictions);
    assert_eq!(p.second_illuminant().unwrap().1, CalibrationIlluminant::D65);
    assert!(p.camera_calibration().1.is_some());
    assert!(p.forward_matrices().1.is_none());
    assert_eq!(p.baseline_exposure().map(f64::from_bits), Some(0.25));
    assert_eq!(p.profile_name(), Some("gamut Standard"));
    assert_eq!(p.profile_embed_policy(), Some(ProfileEmbedPolicy::NoRestrictions));
}

#[test]
fn getters_return_the_stored_values() {
    let m = matrix(IDENTITY);
    // Distinctive, non-`[1, 1, 1]` values so a getter that returned a constant is caught.
    let base =
        CameraProfile::new("Cam", m, CalibrationIlluminant::D65, triple([0.5, 1.0, 0.6])).unwrap();
    assert_eq!(base.as_shot_neutral(), &triple([0.5, 1.0, 0.6]));
    assert_eq!(base.analog_balance(), None);

    let balanced = base.with_analog_balance(triple([0.4, 0.5, 0.6]));
    assert_eq!(balanced.analog_balance(), Some(&triple([0.4, 0.5, 0.6])));
}

#[test]
fn profile_refusals_and_copies() {
    let m = matrix(IDENTITY);
    let err = CameraProfile::new("", m, CalibrationIlluminant::D65, triple([f64::NAN; 3]))
        .unwrap_err();
    assert_eq!(err.static_message(), Some(MSG_EMPTY_MODEL));
    for bad in [f64::NAN, f64::INFINITY, -1.0, -0.0] {
        let err = CameraProfile::new("Cam", m, CalibrationIlluminant::D65, triple([1.0, 1.0, bad]))
            .unwrap_err();
        assert_eq!(err.static_message(), Some(MSG_NEUTRAL));
    }
    let p = CameraProfile::new("Cam", m, CalibrationIlluminant::D50, triple([0.5, 1.0, 0.6]))
        .unwrap()
        .with_profile_name("Look");
    let q = p.clone();
    assert_eq!(q.unique_camera_model(), "Cam");
    assert_eq!(q.profile_name(), Some("Look"));
    assert_eq!(q.calibration_illuminant1(), CalibrationIlluminant::D50);
    assert_eq!(q.color_matrix1(), &m);
    assert!(q.second_illuminant().is_none());
}

fn raw_dims(w: u32, h: u32) -> Dimensions {
    Dimensions::new(w, h).unwrap()
}

#[test]
fn new_cfa_validates_and_defaults() {
    let raw = RawImage::new_cfa(
        raw_dims(4, 4),
        16,
        (2, 2),
        vec![cfa_color::RED, cfa_color::GREEN, cfa_color::GREEN, cfa_color::BLUE],
        vec![0u16; 16],
    )
    .expect("valid");
    assert_eq!(raw.levels().white(), &f64_bits(&[65535.0])[..]);
    assert_eq!(raw.levels().black(), &f64_bits(&[0.0])[..]);
    assert_eq!(raw.samples_per_pixel(), 1);
    assert!(matches!(raw.photometry(), RawPhotometry::Cfa { .. }));
    assert!(raw.masked_areas().is_empty());
}

#[test]
fn new_linear_raw_validates() {
    let raw = RawImage::new_linear_raw(raw_dims(2, 2), 16, 3, vec![0u16; 12]).expect("valid");
    assert_eq!(raw.samples_per_pixel(), 3);
    assert_eq!(raw.photometry(), &RawPhotometry::LinearRaw { planes: 3 });
    assert!(RawImage::new_linear_raw(raw_dims(2, 2), 16, 3, vec![0; 11]).is_err());
    assert!(RawImage::new_linear_raw(raw_dims(2, 2), 16, 0, vec![]).is_err());
}

#[test]
fn new_cfa_rejects_bad_sizes() {
    assert!(RawImage::new_cfa(raw_dims(4, 4), 16, (2, 2), vec![0, 1, 1, 2], vec![0; 15]).is_err());
    assert!(RawImage::new_cfa(raw_dims(4, 4), 16, (2, 2), vec![0, 1, 1], vec![0; 16]).is_err());
    assert!(RawImage::new_cfa(raw_dims(4, 4), 17, (2, 2), vec![0, 1, 1, 2], vec![0; 16]).is_err());
}

#[test]
fn setters_chain() {
    let raw = RawImage::new_cfa(raw_dims(2, 2), 12, (2, 2), vec![0, 1, 1, 2], vec![0; 4])
        .unwrap()
        .with_black_level(64.0f64.to_bits())
        .unwrap()
        .with_white_level(4095.0f64.to_bits())
        .unwrap()
        .with_active_area([0, 0, 2, 2])
        .with_masked_areas(vec![[0, 0, 2, 1]])
        .with_cfa_layout(CfaLayout::Rectangular);
    assert_eq!(raw.levels().black(), &f64_bits(&[64.0])[..]);
    assert_eq!(raw.levels().white(), &f64_bits(&[4095.0])[..]);
    assert_eq!(raw.active_area(), Some([0, 0, 2, 2]));
    assert_eq!(raw.masked_areas(), &[[0, 0, 2, 1]]);
    assert!(raw.clone().with_black_level((-1.0f64).to_bits()).is_err());
    assert!(raw.clone().with_white_level(0.0f64.to_bits()).is_err());
}

#[test]
fn with_levels_validates_plane_count_and_keeps_model_pieces() {
    let raw = RawImage::new_linear_raw(raw_dims(2, 2), 12, 3, vec![0; 12]).unwrap();
    let two_plane = RawLevels::uniform(2, 0.0f64.to_bits(), 4095.0f64.to_bits()).unwrap();
    assert!(raw.clone().with_levels(two_plane).is_err());
    let levels = RawLevels::new(3, (1, 1), f64_bits(&[1.0, 2.0, 3.0]), f64_bits(&[100.0, 200.0, 300.0]))
        .unwrap()
        .with_black_delta_v(f64_bits(&[0.5, -0.5]))
        .with_linearization_table(vec![0, 2, 4]);
    let raw = raw.with_levels(levels.clone()).unwrap();
    assert_eq!(raw.levels(), &levels);
    let raw = raw.with_white_level(4000.0f64.to_bits()).unwrap();
    assert_eq!(raw.levels().black(), &f64_bits(&[1.0, 2.0, 3.0])[..]);
    assert_eq!(raw.levels().black_delta_v(), Some(&f64_bits(&[0.5, -0.5])[..]));
    assert_eq!(raw.levels().linearization_table(), Some(&[0, 2, 4][..]));
    assert_eq!(raw.levels().white(), &f64_bits(&[4000.0, 4000.0, 4000.0])[..]);
    let raw = raw.with_black_level(8.0f64.to_bits()).unwrap();
    assert_eq!(raw.levels().black_repeat(), (1, 1));
    assert_eq!(raw.levels().black(), &f64_bits(&[8.0, 8.0, 8.0])[..]);
    assert_eq!(raw.levels().black_delta_v(), None);
    assert_eq!(raw.levels().linearization_table(), Some(&[0, 2, 4][..]));
}

#[test]
fn new_cfa_validates_repeat_dimensions() {
    assert!(RawImage::new_cfa(raw_dims(2, 2), 8, (0, 2), vec![], vec![0; 4]).is_err());
    assert!(RawImage::new_cfa(raw_dims(2, 2), 8, (2, 0), vec![], vec![0; 4]).is_err());
    let pattern = vec![0u8, 1, 1, 2, 0, 1];
    assert!(RawImage::new_cfa(raw_dims(3, 2), 8, (2, 3), pattern, vec![0; 6]).is_ok());
    assert!(RawImage::new_cfa(raw_dims(3, 2), 8, (2, 3), vec![0; 5], vec![0; 6]).is_err());
}

#[test]
fn raw_image_refusals_name_their_reason() {
    let msg = |r: Result<RawImage, Error>| r.unwrap_err().static_message();
    assert_eq!(msg(RawImage::new_cfa(raw_dims(2, 2), 0, (1, 1), vec![0], vec![0; 4])), Some(MSG_BITS));
    assert_eq!(msg(RawImage::new_cfa(raw_dims(2, 2), 8, (1, 2), vec![0], vec![0; 4])), Some(MSG_CFA_PATTERN));
    assert_eq!(msg(RawImage::new_cfa(raw_dims(2, 2), 8, (1, 1), vec![0], vec![0; 3])), Some(MSG_SAMPLE_COUNT));
    assert_eq!(msg(RawImage::new_linear_raw(raw_dims(2, 2), 8, 0, vec![])), Some(MSG_NO_PLANE));
    let raw = RawImage::new_linear_raw(raw_dims(1, 1), 1, 2, vec![0, 1]).unwrap();
    assert_eq!(raw.levels().white(), &f64_bits(&[1.0, 1.0])[..]);
    let one = RawLevels::uniform(1, 0, 1.0f64.to_bits()).unwrap();
    assert_eq!(msg(raw.clone().with_levels(one)), Some(MSG_LEVELS_PLANES));
    let raw = raw.with_default_crop([0, 0], [1, 1]);
    assert_eq!(raw.default_crop(), Some(([0, 0], [1, 1])));
    assert_eq!(raw.bits_per_sample(), 1);
    assert_eq!(raw.samples(), &[0, 1]);
}

/// A 2x1, single-component, 8-bit lossless JPEG whose DHT gives category 0 the code `0` and
/// category 2 the code `1`, with the samples 128 and 131.
fn custom_table_stream() -> Vec<u8> {
    let mut s = vec![MARKER, SOI];
    s.extend_from_slice(&[MARKER, 0xC3, 0x00, 0x0B, 8, 0x00, 0x01, 0x00, 0x02, 1, 1, 0x11, 0]);
    s.extend_from_slice(&[MARKER, 0xC4, 0x00, 0x15, 0x00]);
    let mut bits = [0u8; 16];
    bits[0] = 2;
    s.extend_from_slice(&bits);
    s.extend_from_slice(&[0, 2]);
    s.extend_from_slice(&[MARKER, 0xDA, 0x00, 0x08, 1, 1, 0x00, 1, 0, 0]);
    // `0` (category 0), `1` (category 2) then the mantissa `11`, padded with ones.
    s.push(0x7F);
    s.extend_from_slice(&[MARKER, EOI]);
    s
}

#[test]
fn decode_uses_the_streams_own_table() {
    let decoded = decode(&custom_table_stream()).expect("decode");
    assert_eq!((decoded.width, decoded.height, decoded.components), (2, 1, 1));
    assert_eq!(decoded.samples, vec![128u16, 131]);
}

#[test]
fn decode_rejects_a_code_missing_from_the_table() {
    let mut s = custom_table_stream();
    // Only category 0 keeps a code: the second sample's `1` names no entry.
    let dht = s.iter().position(|&b| b == 0xC4).unwrap();
    s[dht + 4] = 1;
    s.remove(dht + 4 + 16 + 1);
    s[dht + 1] = 0x00;
    s[dht + 2] = 0x14;
    assert!(decode(&s).is_err());
}

fn level_message(r: Result<RawLevels, Error>) -> &'static str {
    match r {
        Err(e) => e.static_message().expect("a static message"),
        Ok(_) => panic!("expected a refusal"),
    }
}

#[test]
fn decode_levels_defaults_without_tags() {
    let white = 4095f64.to_bits();
    let dims = Dimensions { width: 4, height: 3 };
    let l = decode_levels(1, white, None, None, None, None, None, None, dims, None).expect("levels");
    assert_eq!(l.black_repeat(), (1, 1));
    assert_eq!(l.black(), &[0u64][..]);
    assert_eq!(l.white(), &[white][..]);
    assert!(l.linearization_table().is_none());
    assert!(l.black_delta_h().is_none());
    assert!(l.black_delta_v().is_none());
}

#[test]
fn decode_levels_broadcasts_single_values() {
    let black = 64f64.to_bits();
    let white = 1000f64.to_bits();
    let dims = Dimensions { width: 4, height: 3 };
    let l = decode_levels(
        3,
        4095f64.to_bits(),
        Some(vec![2, 2]),
        Some(Some(vec![black])),
        Some(vec![white]),
        Some(Some(vec![0, 1, 2])),
        Some(Some(vec![0; 2])),
        Some(Some(vec![0; 1])),
        dims,
        Some([1, 1, 2, 3]),
    )
    .expect("levels");
    assert_eq!(l.black_repeat(), (2, 2));
    assert_eq!(l.black(), &vec![black; 12][..]);
    assert_eq!(l.white(), &vec![white; 3][..]);
    assert_eq!(l.linearization_table(), Some(&[0u16, 1, 2][..]));
    assert_eq!(l.black_delta_h().map(|d| d.len()), Some(2));
    assert_eq!(l.black_delta_v().map(|d| d.len()), Some(1));
}

#[test]
fn decode_levels_refusals() {
    let w = 4095f64.to_bits();
    let dims = Dimensions { width: 4, height: 3 };
    let run = |repeat: Option<Vec<u32>>,
               black: Option<Option<Vec<u64>>>,
               white: Option<Vec<u64>>,
               table: Option<Option<Vec<u16>>>,
               dh: Option<Option<Vec<u64>>>,
               dv: Option<Option<Vec<u64>>>| {
        level_message(decode_levels(2, w, repeat, black, white, table, dh, dv, dims, None))
    };
    assert_eq!(run(Some(vec![1]), None, None, None, None, None), MSG_REPEAT_COUNT);
    assert_eq!(run(Some(vec![0, 2]), None, None, None, None, None), MSG_ZERO_REPEAT);
    assert_eq!(run(Some(vec![1, 70000]), None, None, None, None, None), MSG_ZERO_REPEAT);
    assert_eq!(run(None, Some(None), None, None, None, None), MSG_BLACK_TYPE);
    assert_eq!(run(None, Some(Some(vec![0; 3])), None, None, None, None), MSG_BLACK_COUNT);
    assert_eq!(run(None, None, Some(vec![w; 3]), None, None, None), MSG_WHITE_LENGTH);
    assert_eq!(run(None, None, Some(vec![0]), None, None, None), MSG_WHITE_RANGE);
    assert_eq!(run(None, None, None, Some(None), None, None), MSG_LINEARIZATION_TYPE);
    assert_eq!(run(None, None, None, Some(Some(vec![])), None, None), MSG_LINEARIZATION_EMPTY);
    assert_eq!(run(None, None, None, None, Some(None), None), MSG_DELTA_TYPE);
    assert_eq!(run(None, None, None, None, Some(Some(vec![0; 3])), None), MSG_DELTA_H);
    assert_eq!(run(None, None, None, None, None, Some(Some(vec![0; 4]))), MSG_DELTA_V);
}

#[test]
fn to_bytes_length_is_header_plus_parameters() {
    let mut list = OpcodeList::new();
    list.push(Opcode { id: TRIM_BOUNDS, spec_version: [1, 3, 0, 0], flags: 0, parameters: vec![1, 2] });
    list.push(Opcode { id: GAIN_MAP, spec_version: [1, 3, 0, 0], flags: 1, parameters: vec![0; 7] });
    list.push(Opcode { id: WARP_RECTILINEAR_2, spec_version: [1, 6, 0, 0], flags: 0, parameters: vec![] });
    assert_eq!(list.to_bytes().len(), 4 + (16 + 2) + (16 + 7) + 16);
}

#[test]
fn image_layout_of_a_tiled_image() {
    let l = image_layout(None, None, 3, 3, 1, None, None, true, Some(2), Some(2), None).expect("layout");
    assert_eq!(l.compression, Compression::Uncompressed);
    assert_eq!(l.expected, 9);
    assert_eq!((l.row_factor, l.col_factor), (1, 1));
    assert_eq!(l.grid, ChunkGrid::Tiles { tile_width: 2, tile_height: 2, across: 2, down: 2 });
    let l = image_layout(Some(7), Some(vec![1]), 4, 6, 2, Some(2), None, false, None, None, Some(4))
        .expect("layout");
    assert_eq!(l.compression, Compression::LosslessJpeg);
    assert_eq!(l.expected, 48);
    assert_eq!((l.row_factor, l.col_factor), (2, 1));
    assert_eq!(l.grid, ChunkGrid::Strips { rows_per_strip: 4 });
}

#[test]
fn image_layout_refusals() {
    let msg = |r: Result<gamut::dng::chunks::ImageLayout, Error>| match r {
        Err(e) => e.static_message().expect("a static message"),
        Ok(_) => panic!("expected a refusal"),
    };
    assert_eq!(
        msg(image_layout(Some(2), None, 3, 3, 1, None, None, false, None, None, None)),
        MSG_UNKNOWN_COMPRESSION
    );
    assert_eq!(
        msg(image_layout(Some(34892), None, 3, 3, 1, None, None, false, None, None, None)),
        MSG_NOT_DECODABLE
    );
    assert!(msg(image_layout(Some(8), Some(vec![1, 3]), 3, 3, 1, None, None, false, None, None, None))
        .contains("floating-point"));
    assert_eq!(
        msg(image_layout(None, None, u32::MAX, u32::MAX, usize::MAX, None, None, false, None, None, None)),
        MSG_DIMS_OVERFLOW
    );
    assert!(msg(image_layout(None, None, 3, 3, 1, Some(4), None, false, None, None, None))
        .contains("interleave"));
    assert_eq!(
        msg(image_layout(None, None, 3, 3, 1, None, None, true, None, Some(2), None)),
        MSG_NO_TILE_WIDTH
    );
}

//! The DEFLATE/zlib encoder: checksum, bit writer, symbol tables, Huffman codes, LZ77 parsing,
//! block writers and the encoder, with `miniz_oxide` inflating the output as the reference.

use gamut::deflate::adler32::adler32;
use gamut::deflate::bitwriter::BitWriter;
use gamut::deflate::block::{fixed, stored, MAX_STORED};
use gamut::deflate::dynamic::{ensure_two, rle, trimmed_len, ClItem};
use gamut::deflate::encoder::{DeflateEncoder, Level};
use gamut::deflate::huffman::{
    build_lengths, canonical_codes, fixed_distance, fixed_litlen, reverse_bits, CanonicalCode,
};
use gamut::deflate::lz77::{parse, Token};
use gamut::deflate::symbols::{
    distance_code, length_code, DIST_BASE, LENGTH_BASE, MAX_DISTANCE, MAX_MATCH, MIN_MATCH,
};
use gamut::deflate::zlib::header;

const LEVELS: &[Level] = &[Level::Store, Level::Fast, Level::Default, Level::Best];

fn inflate_raw(bytes: &[u8]) -> Vec<u8> {
    miniz_oxide::inflate::decompress_to_vec(bytes).expect("raw stream inflates")
}

fn inflate_zlib(bytes: &[u8]) -> Vec<u8> {
    miniz_oxide::inflate::decompress_to_vec_zlib(bytes).expect("zlib stream inflates")
}

// ---- Adler-32 ---------------------------------------------------------------------------------

/// The Adler-32 a reference zlib encoder writes as its trailer.
fn reference_adler32(data: &[u8]) -> u32 {
    let stream = miniz_oxide::deflate::compress_to_vec_zlib(data, 6);
    let t = &stream[stream.len() - 4..];
    u32::from_be_bytes([t[0], t[1], t[2], t[3]])
}

#[test]
fn empty_is_one() {
    assert_eq!(adler32(1, b""), 1);
}

#[test]
fn known_vector() {
    assert_eq!(adler32(1, b"Wikipedia"), 0x11E6_0398);
}

#[test]
fn matches_zlib_over_many_inputs() {
    for len in [0usize, 1, 55, 256, 5551, 5552, 5553, 20_000, 70_000] {
        let data: Vec<u8> = (0..len).map(|i| (i.wrapping_mul(31) ^ (i >> 3)) as u8).collect();
        assert_eq!(
            adler32(1, &data),
            reference_adler32(&data),
            "mismatch at len {len}"
        );
    }
}

#[test]
fn seed_resumes_a_running_checksum() {
    let data = b"split this input across two adler32 calls";
    let (a, b) = data.split_at(17);
    let one_pass = adler32(1, data);
    let two_pass = adler32(adler32(1, a), b);
    assert_eq!(one_pass, two_pass);
}

// ---- bit writer -------------------------------------------------------------------------------

#[test]
fn single_bit_is_zero_padded() {
    let mut w = BitWriter::new();
    w.write_bits(0b1, 1);
    assert_eq!(w.finish(), vec![0b0000_0001]);
}

#[test]
fn packs_lsb_first_across_a_byte() {
    let mut w = BitWriter::new();
    w.write_bits(0b101, 3);
    w.write_bits(0b11010, 5);
    assert_eq!(w.finish(), vec![0b1101_0101]);
}

#[test]
fn ignores_out_of_range_widths() {
    let mut w = BitWriter::new();
    w.write_bits(0xFF, 0);
    w.write_bits(0xFF, 33);
    assert_eq!(w.finish(), Vec::<u8>::new());
}

#[test]
fn align_then_write_bytes() {
    let mut w = BitWriter::new();
    w.write_bits(0b1, 1);
    w.write_bits(0b00, 2);
    w.align_to_byte();
    w.write_bytes(&[0xAA, 0xBB]);
    assert_eq!(w.finish(), vec![0b0000_0001, 0xAA, 0xBB]);
}

#[test]
fn align_is_noop_when_aligned() {
    let mut w = BitWriter::new();
    w.write_bits(0xCD, 8);
    w.align_to_byte();
    w.align_to_byte();
    w.write_bytes(&[0x01]);
    assert_eq!(w.finish(), vec![0xCD, 0x01]);
}

#[test]
fn wide_values_round_trip_through_bytes() {
    let mut w = BitWriter::new();
    w.write_bits(0xDEAD_BEEF, 32);
    assert_eq!(w.finish(), 0xDEAD_BEEFu32.to_le_bytes());
}

// ---- stored and fixed blocks ----------------------------------------------------------------------

#[test]
fn tiny_stored_block_layout() {
    assert_eq!(stored(&[0x11, 0x22, 0x33]), vec![0x01, 0x03, 0x00, 0xFC, 0xFF, 0x11, 0x22, 0x33]);
}

#[test]
fn empty_emits_one_final_stored_block() {
    assert_eq!(stored(&[]), vec![0x01, 0x00, 0x00, 0xFF, 0xFF]);
}

#[test]
fn stored_splits_past_64k() {
    let bytes = stored(&vec![0u8; MAX_STORED + 10]);
    assert_eq!(bytes.len(), 5 + MAX_STORED + 5 + 10);
    assert_eq!(bytes[0], 0x00, "first block must not be final");
    assert_eq!(bytes[5 + MAX_STORED], 0x01, "second block must be final");
}

#[test]
fn empty_fixed_block_is_header_plus_eob() {
    assert_eq!(fixed(&[]), vec![0x03, 0x00]);
}

#[test]
fn fixed_block_of_tokens_inflates_to_their_expansion() {
    let tokens = [
        Token::Literal(b'a'),
        Token::Literal(b'b'),
        Token::Literal(b'c'),
        Token::Match { len: 6, dist: 3 },
        Token::Literal(0xF0),
    ];
    assert_eq!(inflate_raw(&fixed(&tokens)), b"abcabcabc\xF0".to_vec());
}

// ---- dynamic blocks -------------------------------------------------------------------------------

fn expand(items: &[ClItem]) -> Vec<u8> {
    let mut out = Vec::new();
    let mut prev = 0u8;
    for item in items {
        match item.sym {
            0..=15 => {
                out.push(item.sym as u8);
                prev = item.sym as u8;
            }
            16 => out.resize(out.len() + (3 + item.extra_val) as usize, prev),
            17 => out.resize(out.len() + (3 + item.extra_val) as usize, 0),
            18 => out.resize(out.len() + (11 + item.extra_val) as usize, 0),
            _ => panic!("unexpected code-length symbol {}", item.sym),
        }
    }
    out
}

#[test]
fn rle_round_trips_various_runs() {
    let cases: &[Vec<u8>] = &[
        vec![],
        vec![5],
        vec![0; 200],
        vec![7; 100],
        vec![0, 0, 0, 8, 8, 8, 8, 0],
        vec![3, 0, 0, 0, 0, 0, 6, 6],
        (0..40u8).map(|i| i % 16).collect(),
    ];
    for case in cases {
        assert_eq!(&expand(&rle(case)), case, "RLE failed for {case:?}");
    }
}

#[test]
fn rle_uses_the_longest_repeat_codes() {
    let items = rle(&[0; 200]);
    assert_eq!(
        items,
        vec![
            ClItem { sym: 18, extra_bits: 7, extra_val: 127 },
            ClItem { sym: 18, extra_bits: 7, extra_val: 51 },
        ]
    );
    let items = rle(&[7; 8]);
    assert_eq!(
        items,
        vec![
            ClItem { sym: 7, extra_bits: 0, extra_val: 0 },
            ClItem { sym: 16, extra_bits: 2, extra_val: 3 },
            ClItem { sym: 7, extra_bits: 0, extra_val: 0 },
        ]
    );
}

#[test]
fn trimmed_len_keeps_minimum() {
    assert_eq!(trimmed_len(&[1, 1, 0, 0], 1), 2);
    assert_eq!(trimmed_len(&[0, 0, 0, 0], 1), 1);
    assert_eq!(trimmed_len(&[1, 0, 1, 0], 1), 3);
}

#[test]
fn ensure_two_adds_symbols() {
    let mut none = [0u32; 5];
    ensure_two(&mut none);
    assert_eq!(none.iter().filter(|&&h| h > 0).count(), 2);
    let mut one = [0u32, 9, 0];
    ensure_two(&mut one);
    assert_eq!(one.iter().filter(|&&h| h > 0).count(), 2);
}

#[test]
fn ensure_two_picks_the_slots_it_documents() {
    let mut none = [0u32; 4];
    ensure_two(&mut none);
    assert_eq!(none, [1, 1, 0, 0]);
    let mut first_used = [5u32, 0, 0];
    ensure_two(&mut first_used);
    assert_eq!(first_used, [5, 1, 0]);
    let mut later_used = [0u32, 0, 9];
    ensure_two(&mut later_used);
    assert_eq!(later_used, [1, 0, 9]);
    let mut two = [0u32, 3, 0, 4];
    ensure_two(&mut two);
    assert_eq!(two, [0, 3, 0, 4]);
}

// ---- Huffman codes ------------------------------------------------------------------------------

#[test]
fn reverse_bits_examples() {
    assert_eq!(reverse_bits(0b001, 3), 0b100);
    assert_eq!(reverse_bits(0b1011, 4), 0b1101);
    assert_eq!(reverse_bits(0, 7), 0);
    assert_eq!(reverse_bits(0b1, 1), 0b1);
    assert_eq!(reverse_bits(0b1_0000_0001, 1), 0b1);
}

#[test]
fn fixed_litlen_boundaries() {
    assert_eq!(fixed_litlen(0), (0x30, 8));
    assert_eq!(fixed_litlen(143), (0xBF, 8));
    assert_eq!(fixed_litlen(144), (0x190, 9));
    assert_eq!(fixed_litlen(255), (0x1FF, 9));
    assert_eq!(fixed_litlen(256), (0, 7));
    assert_eq!(fixed_litlen(279), (23, 7));
    assert_eq!(fixed_litlen(280), (0xC0, 8));
    assert_eq!(fixed_litlen(285), (0xC5, 8));
}

#[test]
fn fixed_distance_is_five_bit_identity() {
    assert_eq!(fixed_distance(0), (0, 5));
    assert_eq!(fixed_distance(29), (29, 5));
}

#[test]
fn build_lengths_caps_at_limit() {
    let mut hist = vec![0u32; 64];
    let (mut a, mut b) = (1u32, 1u32);
    for h in hist.iter_mut() {
        *h = a;
        let next = a.saturating_add(b);
        a = b;
        b = next;
    }
    let lengths = build_lengths(&hist, 15);
    assert!(lengths.iter().all(|&l| l <= 15));
    let kraft: u64 = lengths.iter().filter(|&&l| l > 0).map(|&l| 1u64 << (15 - l)).sum();
    assert_eq!(kraft, 1u64 << 15);
}

#[test]
fn single_symbol_gets_length_one() {
    let mut hist = vec![0u32; 30];
    hist[7] = 42;
    let lengths = build_lengths(&hist, 15);
    assert_eq!(lengths[7], 1);
    assert!(lengths.iter().enumerate().all(|(i, &l)| (i == 7) == (l > 0)));
}

#[test]
fn canonical_codes_are_prefix_free_lengths() {
    let codes = canonical_codes(&[1, 1]);
    assert_ne!(codes[0], codes[1]);
}

#[test]
fn canonical_codes_follow_rfc_1951_example() {
    // RFC 1951 §3.2.2: lengths (3, 3, 3, 3, 3, 2, 4, 4) give codes 010, 011, 100, 101, 110, 00,
    // 1110, 1111 — stored bit-reversed for LSB-first emission.
    let codes = canonical_codes(&[3, 3, 3, 3, 3, 2, 4, 4]);
    let msb_first = [0b010u32, 0b011, 0b100, 0b101, 0b110, 0b00, 0b1110, 0b1111];
    let lens = [3u32, 3, 3, 3, 3, 2, 4, 4];
    for i in 0..8 {
        assert_eq!(u32::from(codes[i]), reverse_bits(msb_first[i], lens[i]), "symbol {i}");
    }
}

#[test]
fn from_histogram_builds_usable_code() {
    let hist = [3u32, 0, 5];
    let code = CanonicalCode::from_histogram(&hist, 15);
    assert_eq!(code.lengths(), &[1, 0, 1]);
}

// ---- LZ77 ---------------------------------------------------------------------------------------

fn expand_tokens(tokens: &[Token]) -> Vec<u8> {
    let mut out: Vec<u8> = Vec::new();
    for t in tokens {
        match *t {
            Token::Literal(b) => out.push(b),
            Token::Match { len, dist } => {
                for _ in 0..len {
                    let b = out[out.len() - dist as usize];
                    out.push(b);
                }
            }
        }
    }
    out
}

#[test]
fn all_literals_when_no_repeats() {
    let data = [1u8, 2, 3, 4, 5];
    let tokens = parse(&data, 128, false);
    assert_eq!(tokens.len(), 5);
    assert!(tokens.iter().all(|t| matches!(t, Token::Literal(_))));
}

#[test]
fn finds_a_repeated_block() {
    let data = b"abcabc";
    let tokens = parse(data, 128, false);
    assert_eq!(tokens[0], Token::Literal(b'a'));
    assert_eq!(tokens[1], Token::Literal(b'b'));
    assert_eq!(tokens[2], Token::Literal(b'c'));
    assert_eq!(tokens[3], Token::Match { len: 3, dist: 3 });
}

#[test]
fn long_run_uses_overlapping_match() {
    let data = vec![0x5Au8; 300];
    let tokens = parse(&data, 128, false);
    assert_eq!(tokens[0], Token::Literal(0x5A));
    assert_eq!(tokens[1], Token::Match { len: 258, dist: 1 });
}

#[test]
fn respects_minimum_match_length() {
    let data = b"abxxab";
    let tokens = parse(data, 128, false);
    assert!(tokens.iter().all(|t| matches!(t, Token::Literal(_))));
}

#[test]
fn parse_expands_back_to_its_input() {
    let mut data = b"header header header ".repeat(20);
    data.extend((0..3000u32).map(|i| (i.wrapping_mul(48_271) >> 20) as u8));
    for lazy in [false, true] {
        for chain in [0usize, 1, 16, 1024] {
            let tokens = parse(&data, chain, lazy);
            assert_eq!(expand_tokens(&tokens), data, "lazy {lazy}, chain {chain}");
        }
    }
}

// ---- symbol tables ------------------------------------------------------------------------------

#[test]
fn length_codes_are_self_consistent() {
    for length in MIN_MATCH as u16..=MAX_MATCH as u16 {
        let (sym, extra_bits, extra_val) = length_code(length);
        assert!((257..=285).contains(&sym), "length {length} -> sym {sym}");
        assert!(extra_bits <= 5);
        assert!(extra_val < (1u32 << extra_bits), "extra value out of range");
        assert_eq!(u32::from(LENGTH_BASE[(sym - 257) as usize]) + extra_val, u32::from(length));
    }
}

#[test]
fn distance_codes_are_self_consistent() {
    for distance in 1..=MAX_DISTANCE as u32 {
        let d = distance as u16;
        let (sym, extra_bits, extra_val) = distance_code(d);
        assert!(sym <= 29, "distance {distance} -> sym {sym}");
        assert!(extra_bits <= 13);
        assert!(extra_val < (1u32 << extra_bits), "extra value out of range");
        assert_eq!(u32::from(DIST_BASE[sym as usize]) + extra_val, distance, "distance {distance}");
    }
}

#[test]
fn spec_boundary_examples() {
    assert_eq!(length_code(3), (257, 0, 0));
    assert_eq!(length_code(258), (285, 0, 0));
    assert_eq!(length_code(257), (284, 5, 30));
    assert_eq!(length_code(11), (265, 1, 0));
    assert_eq!(distance_code(1), (0, 0, 0));
    assert_eq!(distance_code(32768), (29, 13, 32768 - 24577));
    assert_eq!(distance_code(5), (4, 1, 0));
}

// ---- zlib framing ---------------------------------------------------------------------------------

#[test]
fn matches_canonical_headers() {
    assert_eq!(header(Level::Fast), [0x78, 0x01]);
    assert_eq!(header(Level::Store), [0x78, 0x01]);
    assert_eq!(header(Level::Default), [0x78, 0x9C]);
    assert_eq!(header(Level::Best), [0x78, 0xDA]);
}

#[test]
fn always_divisible_by_31() {
    for level in [Level::Store, Level::Fast, Level::Default, Level::Best] {
        let h = header(level);
        let value = u16::from_be_bytes(h);
        assert_eq!(value % 31, 0, "{level:?} -> {h:02X?}");
        assert_eq!(h[0], 0x78, "CMF must be 0x78");
    }
}

// ---- the encoder -----------------------------------------------------------------------------------

#[test]
fn compress_appends_and_reports_length() {
    let mut out = vec![0xEE];
    let n = DeflateEncoder::new().compress(b"abc", &mut out);
    assert_eq!(n, out.len() - 1);
    assert_eq!(out[0], 0xEE, "existing bytes are preserved");
}

#[test]
fn zlib_compress_has_header_and_trailer() {
    let data = b"abcabcabc";
    let mut out = Vec::new();
    let n = DeflateEncoder::new().zlib_compress(data, &mut out);
    assert_eq!(n, out.len());
    assert_eq!(out[0], 0x78, "zlib CMF byte");
    let trailer = &out[out.len() - 4..];
    assert_eq!(trailer, adler32(1, data).to_be_bytes());
}

#[test]
fn default_optimal_parse_limit_is_one_mebibyte() {
    assert_eq!(DeflateEncoder::DEFAULT_OPTIMAL_PARSE_LIMIT, 1_048_576);
}

#[test]
fn fixed_huffman_beats_stored_on_ascii_text() {
    let data = b"the quick brown fox jumps over the lazy dog. ".repeat(40);
    let mut fixed = Vec::new();
    DeflateEncoder::new().with_level(Level::Fast).zlib_compress(&data, &mut fixed);
    let mut store = Vec::new();
    DeflateEncoder::new().with_level(Level::Store).zlib_compress(&data, &mut store);
    assert!(fixed.len() < store.len(), "fixed {} should beat stored {}", fixed.len(), store.len());
}

#[test]
fn store_level_emits_exactly_the_stored_blocks() {
    let data = b"abc";
    let mut out = Vec::new();
    DeflateEncoder::new().with_level(Level::Store).compress(data, &mut out);
    assert_eq!(out, stored(data));
}

// ---- round trips through a reference inflater ------------------------------------------------------

fn corpus() -> Vec<Vec<u8>> {
    vec![
        Vec::new(),
        vec![0x00],
        vec![0xAB; 1000],
        (0..4096u32).map(|i| i as u8).collect(),
        (0..5000u32).map(|i| (i.wrapping_mul(2_654_435_761) >> 24) as u8).collect(),
        b"the quick brown fox jumps over the lazy dog. ".repeat(50),
        vec![0u8; 70_000],
    ]
}

#[test]
fn raw_deflate_round_trips_via_zlib() {
    for data in corpus() {
        for &level in LEVELS {
            let mut out = Vec::new();
            DeflateEncoder::new().with_level(level).compress(&data, &mut out);
            let back = inflate_raw(&out);
            assert_eq!(back, data, "raw round-trip mismatch at level {level:?}, {} bytes", data.len());
        }
    }
}

#[test]
fn back_references_compress_and_round_trip() {
    let data = b"the quick brown fox jumps over the lazy dog. ".repeat(200);
    for &level in &[Level::Fast, Level::Default, Level::Best] {
        let mut out = Vec::new();
        DeflateEncoder::new().with_level(level).zlib_compress(&data, &mut out);
        assert_eq!(inflate_zlib(&out), data);
        assert!(
            out.len() < data.len() / 4,
            "level {level:?}: {} should be far smaller than {}",
            out.len(),
            data.len()
        );
    }
}

#[test]
fn zlib_stream_round_trips_via_zlib() {
    for data in corpus() {
        for &level in LEVELS {
            let mut out = Vec::new();
            DeflateEncoder::new().with_level(level).zlib_compress(&data, &mut out);
            let back = inflate_zlib(&out);
            assert_eq!(back, data, "zlib round-trip mismatch at level {level:?}, {} bytes", data.len());
        }
    }
}

#[test]
fn effort_budgets_round_trip() {
    for data in corpus() {
        for &effort in &[0u8, 1, 6, 15] {
            let mut out = Vec::new();
            DeflateEncoder::new()
                .with_level(Level::Best)
                .with_effort(effort)
                .zlib_compress(&data, &mut out);
            assert_eq!(inflate_zlib(&out), data, "effort {effort}, {} bytes", data.len());
        }
    }
}

struct Rng(u64);

impl Rng {
    fn next_u64(&mut self) -> u64 {
        let mut x = self.0;
        x ^= x >> 12;
        x ^= x << 25;
        x ^= x >> 27;
        self.0 = x;
        x.wrapping_mul(0x2545_F491_4F6C_DD1D)
    }

    fn range(&mut self, n: usize) -> usize {
        if n == 0 {
            0
        } else {
            (self.next_u64() % n as u64) as usize
        }
    }
}

fn generate(rng: &mut Rng, size: usize) -> Vec<u8> {
    let alphabet = [1usize, 2, 4, 16, 64, 256][rng.range(6)];
    let mut v = Vec::with_capacity(size);
    while v.len() < size {
        if alphabet > 1 && rng.range(4) == 0 {
            let run = 1 + rng.range(64);
            let b = rng.range(alphabet) as u8;
            for _ in 0..run {
                if v.len() >= size {
                    break;
                }
                v.push(b);
            }
        } else {
            v.push(rng.range(alphabet) as u8);
        }
    }
    v
}

#[test]
fn randomized_round_trip() {
    let mut rng = Rng(0x1234_5678_9ABC_DEF0);
    let boundaries = [0usize, 1, 2, 3, 4, 257, 258, 259];
    for case in 0..130usize {
        let size = if case < boundaries.len() { boundaries[case] } else { rng.range(1500) };
        let data = generate(&mut rng, size);
        for &level in LEVELS {
            let enc = DeflateEncoder::new().with_level(level);
            let mut raw = Vec::new();
            enc.compress(&data, &mut raw);
            assert_eq!(inflate_raw(&raw), data, "raw case {case} {level:?} size {size}");
            let mut zl = Vec::new();
            enc.zlib_compress(&data, &mut zl);
            assert_eq!(inflate_zlib(&zl), data, "zlib case {case} {level:?} size {size}");
        }
    }
}

#[test]
fn large_and_boundary_round_trip() {
    let mut rng = Rng(0xDEAD_BEEF_CAFE_0001);
    for &size in &[65_535usize, 65_536, 70_000] {
        let data = generate(&mut rng, size);
        for &level in &[Level::Store, Level::Fast, Level::Default] {
            let mut zl = Vec::new();
            DeflateEncoder::new().with_level(level).zlib_compress(&data, &mut zl);
            assert_eq!(inflate_zlib(&zl), data, "{level:?} size {size}");
        }
    }
    let big = generate(&mut rng, (1 << 20) + 1);
    for &level in &[Level::Default, Level::Best] {
        let mut zl = Vec::new();
        DeflateEncoder::new().with_level(level).zlib_compress(&big, &mut zl);
        assert_eq!(inflate_zlib(&zl), big, "{level:?} size {}", big.len());
    }
}

fn kraft_sum(lengths: &[u8], top: u32) -> u64 {
    lengths.iter().filter(|&&l| l > 0).map(|&l| 1u64 << (top - u32::from(l))).sum()
}

#[test]
fn built_lengths_form_a_complete_prefix_code() {
    // Skewed counts force deep codes; the limiter must keep the code complete.
    let mut hist = vec![0u32; 40];
    for (i, h) in hist.iter_mut().enumerate() {
        *h = if i % 3 == 0 { 0 } else { 1u32 << (i % 20) };
    }
    for max_len in [7u8, 9, 15] {
        let lengths = build_lengths(&hist, max_len);
        assert_eq!(kraft_sum(&lengths, u32::from(max_len)), 1u64 << max_len, "limit {max_len}");
        // Cut to the shorter length, no code equals another (MSB-first codes).
        let codes = canonical_codes(&lengths);
        let msb: Vec<(u32, u32)> = lengths
            .iter()
            .zip(&codes)
            .filter(|(&l, _)| l > 0)
            .map(|(&l, &c)| (reverse_bits(u32::from(c), u32::from(l)), u32::from(l)))
            .collect();
        for (i, &(ci, li)) in msb.iter().enumerate() {
            assert!(ci < 1 << li);
            for (j, &(cj, lj)) in msb.iter().enumerate() {
                if i != j && li <= lj {
                    assert_ne!(cj >> (lj - li), ci, "code {i} prefixes code {j}");
                }
            }
        }
    }
    // A lone symbol gets one bit: half the code space.
    let mut one = vec![0u32; 5];
    one[3] = 9;
    assert_eq!(kraft_sum(&build_lengths(&one, 15), 15), 1 << 14);
}

#[test]
fn output_depends_on_level_alone() {
    for data in corpus() {
        for &level in &[Level::Store, Level::Fast, Level::Default, Level::Best] {
            let mut first = Vec::new();
            DeflateEncoder::new().with_level(level).compress(&data, &mut first);
            for &effort in &[0u8, 1, 6, 15] {
                let mut out = Vec::new();
                DeflateEncoder::new()
                    .with_level(level)
                    .with_effort(effort)
                    .with_optimal_parse_limit(16)
                    .compress(&data, &mut out);
                assert_eq!(out, first, "level {level:?}, effort {effort}, {} bytes", data.len());
            }
        }
    }
}

#[test]
fn compress_keeps_the_smallest_block() {
    for data in corpus() {
        for &level in &[Level::Fast, Level::Default, Level::Best] {
            let mut out = Vec::new();
            DeflateEncoder::new().with_level(level).compress(&data, &mut out);
            let stored_len = stored(&data).len();
            assert!(out.len() <= stored_len, "level {level:?}, {} bytes", data.len());
            let chain = match level {
                Level::Fast => 16,
                Level::Default => 128,
                _ => 1024,
            };
            let tokens = parse(&data, chain, level != Level::Fast);
            assert!(out.len() <= fixed(&tokens).len(), "level {level:?}, {} bytes", data.len());
            assert!(out.len() <= gamut::deflate::dynamic::body(&tokens).len());
        }
    }
}

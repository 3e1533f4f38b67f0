//! The public DEFLATE encoder: a [`DeflateEncoder`] builder with a [`Level`] knob and the
//! `compress` (raw RFC 1951) / `zlib_compress` (RFC 1950) entry points.
use vstd::prelude::*;
use crate::deflate::adler32::{adler32, spec_adler32};
use crate::deflate::block::{self, stored_blocks, fixed_block_bits, packed};
use crate::deflate::dynamic::{
    self, usable_codes, dynamic_body_bits, dynamic_lit_lengths, dynamic_dist_lengths,
    dynamic_cl_lengths,
};
use crate::deflate::lz77::{self, Token, expand, tokens_valid, expands_within, parse_from};
use crate::deflate::zlib::{self, header_value, inflate_zlib};
use crate::deflate::inflate::{inflate, inflate_blocks, lemma_inflate_stored, lemma_inflate_fixed};
use crate::deflate::round_trip::lemma_inflate_dynamic;

verus! {

/// Compression effort, trading encode time for output size. Every level produces a correct
/// stream; they differ only in ratio. The variants are numbered 0 to 3 in declaration order.
#[derive(Debug, Clone, Copy, PartialEq, Eq, Default, Structural)]
pub enum Level {
    /// Stored (uncompressed) blocks only — the always-correct floor and an upper bound on size.
    Store,
    /// Fast: greedy matching, keeping the smallest of stored, fixed- and dynamic-Huffman blocks.
    Fast,
    /// Balanced default: lazy matching over 128 candidates, keeping the smallest of stored,
    /// fixed- and dynamic-Huffman blocks.
    #[default]
    Default,
    /// The most thorough search: the deepest match chain (1024 candidates) with lazy matching,
    /// keeping the smallest of stored, fixed- and dynamic-Huffman blocks.
    Best,
}

/// The match-search depth of a level.
pub open spec fn level_chain(level: Level) -> nat {
    match level {
        Level::Store => 0,
        Level::Fast => 16,
        Level::Default => 128,
        Level::Best => 1024,
    }
}

/// Whether a level matches lazily: all but `Fast`, which matches greedily.
pub open spec fn level_lazy(level: Level) -> bool {
    level != Level::Fast
}

/// The token stream a level parses `data` into.
pub open spec fn level_tokens(data: Seq<u8>, level: Level) -> Seq<Token> {
    parse_from(data, level_chain(level), level_lazy(level), 0)
}

/// The body a level emits for `data`: stored blocks at `Store`; otherwise the smallest of the
/// stored blocks, the fixed-Huffman block and the dynamic-Huffman block of the level's token
/// stream, an earlier one kept on a tie (stored, then fixed, then dynamic). It is a function of
/// the data and the level alone: the effort and parse-limit settings play no part.
pub open spec fn level_body(data: Seq<u8>, level: Level) -> Seq<u8> {
    let stored = stored_blocks(data);
    if level == Level::Store {
        stored
    } else {
        let tokens = level_tokens(data, level);
        let fixed = packed(fixed_block_bits(tokens));
        let dynamic = packed(dynamic_body_bits(tokens));
        let first = if fixed.len() < stored.len() {
            fixed
        } else {
            stored
        };
        if dynamic.len() < first.len() {
            dynamic
        } else {
            first
        }
    }
}

/// `body` is what a level emits for `data` ([`level_body`]), and below `Store` the level's token
/// stream is lossless, codable and reaches back only into bytes already produced, and the dynamic
/// block's codes are usable for it.
pub open spec fn encodes(data: Seq<u8>, level: Level, body: Seq<u8>) -> bool {
    &&& body == level_body(data, level)
    &&& level != Level::Store ==> {
        let tokens = level_tokens(data, level);
        &&& expand(tokens) == data
        &&& tokens_valid(tokens)
        &&& expands_within(tokens)
        &&& usable_codes(
            tokens,
            dynamic_lit_lengths(tokens),
            dynamic_dist_lengths(tokens),
            dynamic_cl_lengths(tokens),
        )
    }
}

/// Every body an encoder may emit decodes back to its input, whatever bytes follow it: the
/// blocks end in the body's last byte, with the input as their output.
pub proof fn lemma_body_decodes(data: Seq<u8>, level: Level, body: Seq<u8>, rest: Seq<u8>)
    requires
        encodes(data, level, body),
    ensures
        inflate_blocks(body + rest, 0, Seq::empty()) matches Some((out, e)) && out == data && (e
            + 7) / 8 == body.len(),
{
    if level == Level::Store {
        lemma_inflate_stored(data, rest);
    } else {
        let tokens = level_tokens(data, level);
        if body == stored_blocks(data) {
            lemma_inflate_stored(data, rest);
        } else if body == packed(fixed_block_bits(tokens)) {
            lemma_inflate_fixed(tokens, rest);
        } else {
            lemma_inflate_dynamic(
                tokens,
                dynamic_lit_lengths(tokens),
                dynamic_dist_lengths(tokens),
                dynamic_cl_lengths(tokens),
                rest,
            );
        }
    }
}

/// Every body an encoder may emit decodes back to its input: at every level, the raw DEFLATE
/// stream inflates to exactly the data it was made from, whichever of the stored, fixed- or
/// dynamic-Huffman encodings was chosen.
pub proof fn law_compress_round_trips(data: Seq<u8>, level: Level, body: Seq<u8>)
    requires
        encodes(data, level, body),
    ensures
        inflate(body) == Some(data),
{
    lemma_body_decodes(data, level, body, Seq::empty());
    assert(body + Seq::<u8>::empty() =~= body);
}

/// The zlib header of every level is one a decoder accepts: DEFLATE with a 32 KiB window, no
/// preset dictionary, and a check value that makes the header a multiple of 31.
proof fn lemma_zlib_header_accepted(level: Level)
    ensures
        zlib_header_bytes(level)[0] as nat % 16 == 8,
        zlib_header_bytes(level)[0] as nat / 16 <= 7,
        (zlib_header_bytes(level)[0] as nat * 256 + zlib_header_bytes(level)[1] as nat) % 31 == 0,
        (zlib_header_bytes(level)[1] as nat / 32) % 2 == 0,
{
    match level {
        Level::Store | Level::Fast => assert(header_value(level) == 0x7801),
        Level::Default => assert(header_value(level) == 0x789C),
        Level::Best => assert(header_value(level) == 0x78DA),
    }
}

/// A zlib stream an encoder may emit decodes back to its input: the header is one a decoder
/// accepts, the DEFLATE body inflates to the input, and the trailer is the input's Adler-32.
#[verifier::spinoff_prover]
pub proof fn law_zlib_compress_round_trips(data: Seq<u8>, level: Level, body: Seq<u8>)
    requires
        encodes(data, level, body),
    ensures
        inflate_zlib(zlib_header_bytes(level) + body + be32_bytes(spec_adler32(1, data))) == Some(
            data,
        ),
{
    let h = zlib_header_bytes(level);
    let t = be32_bytes(spec_adler32(1, data));
    let stream = h + body + t;
    assert(stream.skip(2) =~= body + t);
    lemma_body_decodes(data, level, body, t);
    assert(stream.subrange(2 + body.len() as int, 6 + body.len() as int) =~= t);
    assert(stream[0] == h[0] && stream[1] == h[1]);
    lemma_zlib_header_accepted(level);
}

/// `v` as four big-endian bytes.
pub open spec fn be32_bytes(v: u32) -> Seq<u8> {
    seq![
        (v / 0x100_0000) as u8,
        ((v / 0x1_0000) % 256) as u8,
        ((v / 256) % 256) as u8,
        (v % 256) as u8,
    ]
}

/// The zlib header bytes for a level.
pub open spec fn zlib_header_bytes(level: Level) -> Seq<u8> {
    seq![(header_value(level) / 256) as u8, (header_value(level) % 256) as u8]
}

/// A reusable DEFLATE / zlib encoder configured by a [`Level`].
#[derive(Debug, Clone)]
pub struct DeflateEncoder {
    level: Level,
    effort: u8,
    optimal_parse_limit: usize,
}

impl DeflateEncoder {
    /// The default [`Level::Best`] effort setting.
    pub const DEFAULT_EFFORT: u8 = 6;

    /// The default [`Level::Best`] optimal-parse limit: 1 MiB.
    pub const DEFAULT_OPTIMAL_PARSE_LIMIT: usize = 1 << 20;

    /// The configured level.
    pub closed spec fn spec_level(&self) -> Level {
        self.level
    }

    /// The configured effort.
    pub closed spec fn spec_effort(&self) -> u8 {
        self.effort
    }

    /// The configured optimal-parse limit.
    pub closed spec fn spec_optimal_parse_limit(&self) -> usize {
        self.optimal_parse_limit
    }

    /// Creates an encoder at [`Level::Default`], with the default effort and parse limit.
    pub fn new() -> (r: Self)
        ensures
            r.spec_level() == Level::Default,
            r.spec_effort() == Self::DEFAULT_EFFORT,
            r.spec_optimal_parse_limit() == Self::DEFAULT_OPTIMAL_PARSE_LIMIT,
    {
        Self {
            level: Level::Default,
            effort: Self::DEFAULT_EFFORT,
            optimal_parse_limit: Self::DEFAULT_OPTIMAL_PARSE_LIMIT,
        }
    }

    /// Sets the compression [`Level`].
    pub fn with_level(self, level: Level) -> (r: Self)
        ensures
            r.spec_level() == level,
            r.spec_effort() == self.spec_effort(),
            r.spec_optimal_parse_limit() == self.spec_optimal_parse_limit(),
    {
        let mut e = self;
        e.level = level;
        e
    }

    /// Sets the [`Level::Best`] effort. The setting is kept, but this encoder's `Best` parses
    /// lazily with a deep match search rather than by iterated optimal parsing, so no level's
    /// output depends on it (see [`level_body`]).
    pub fn with_effort(self, effort: u8) -> (r: Self)
        ensures
            r.spec_level() == self.spec_level(),
            r.spec_effort() == effort,
            r.spec_optimal_parse_limit() == self.spec_optimal_parse_limit(),
    {
        let mut e = self;
        e.effort = effort;
        e
    }

    /// Sets the [`Level::Best`] optimal-parse limit. The setting is kept, but no level's output
    /// depends on it (see [`level_body`]).
    pub fn with_optimal_parse_limit(self, limit: usize) -> (r: Self)
        ensures
            r.spec_level() == self.spec_level(),
            r.spec_effort() == self.spec_effort(),
            r.spec_optimal_parse_limit() == limit,
    {
        let mut e = self;
        e.optimal_parse_limit = limit;
        e
    }

    /// Encodes `data` as a raw DEFLATE stream (RFC 1951), appending to `out` and returning the
    /// number of bytes written. Any input — including empty — produces a valid stream.
    pub fn compress(&self, data: &[u8], out: &mut Vec<u8>) -> (r: usize)
        ensures
            encodes(data@, self.spec_level(), level_body(data@, self.spec_level())),
            final(out)@ == old(out)@ + level_body(data@, self.spec_level()),
            r == level_body(data@, self.spec_level()).len(),
            inflate(final(out)@.skip(old(out)@.len() as int)) == Some(data@),
    {
        let body = self.deflate_body(data);
        let ghost old_out = out@;
        out.extend_from_slice(body.as_slice());
        proof {
            assert(out@ =~= old_out + body@);
            assert(out@.skip(old_out.len() as int) =~= body@);
            law_compress_round_trips(data@, self.level, body@);
        }
        body.len()
    }

    /// Encodes `data` as a zlib stream (RFC 1950): a 2-byte header, the DEFLATE body, and a
    /// big-endian Adler-32 trailer. Appends to `out` and returns the number of bytes written.
    pub fn zlib_compress(&self, data: &[u8], out: &mut Vec<u8>) -> (r: usize)
        ensures
            encodes(data@, self.spec_level(), level_body(data@, self.spec_level())),
            final(out)@ == old(out)@ + zlib_header_bytes(self.spec_level()) + level_body(
                data@,
                self.spec_level(),
            ) + be32_bytes(spec_adler32(1, data@)),
            r == 6 + level_body(data@, self.spec_level()).len(),
            inflate_zlib(final(out)@.skip(old(out)@.len() as int)) == Some(data@),
    {
        let start = out.len();
        let ghost old_out = out@;
        let h = zlib::header(self.level);
        out.push(h[0]);
        out.push(h[1]);
        let body = self.deflate_body(data);
        out.extend_from_slice(body.as_slice());
        let a = adler32(1, data);
        out.push((a / 0x100_0000) as u8);
        out.push(((a / 0x1_0000) % 256) as u8);
        out.push(((a / 256) % 256) as u8);
        out.push((a % 256) as u8);
        proof {
            assert(h@[0] == (header_value(self.level) / 256) as u8);
            assert(out@ =~= old_out + zlib_header_bytes(self.level) + body@ + be32_bytes(
                spec_adler32(1, data@),
            ));
            assert(out@.skip(old_out.len() as int) =~= zlib_header_bytes(self.level) + body@
                + be32_bytes(spec_adler32(1, data@)));
            law_zlib_compress_round_trips(data@, self.level, body@);
        }
        out.len() - start
    }

    /// Builds the DEFLATE body for `data`, choosing the smallest block encoding the level offers.
    fn deflate_body(&self, data: &[u8]) -> (r: Vec<u8>)
        ensures
            encodes(data@, self.spec_level(), r@),
    {
        match self.level {
            Level::Store => block::stored(data),
            _ => {
                let chain = self.max_chain();
                // Fast = greedy; Default and Best match lazily.
                let lazy = match self.level {
                    Level::Fast => false,
                    _ => true,
                };
                let tokens = lz77::parse(data, chain, lazy);
                let stored = block::stored(data);
                let fixed = block::fixed(tokens.as_slice());
                let dynamic = dynamic::body(tokens.as_slice());
                let mut best = stored;
                if fixed.len() < best.len() {
                    best = fixed;
                }
                if dynamic.len() < best.len() {
                    best = dynamic;
                }
                best
            },
        }
    }

    /// LZ77 match-finder search depth for this level — the time/ratio knob.
    fn max_chain(&self) -> (r: usize)
        ensures
            r == match self.spec_level() {
                Level::Store => 0usize,
                Level::Fast => 16usize,
                Level::Default => 128usize,
                Level::Best => 1024usize,
            },
    {
        match self.level {
            Level::Store => 0,
            Level::Fast => 16,
            Level::Default => 128,
            Level::Best => 1024,
        }
    }
}

impl Default for DeflateEncoder {
    fn default() -> (r: Self)
        ensures
            r.spec_level() == Level::Default,
            r.spec_effort() == Self::DEFAULT_EFFORT,
            r.spec_optimal_parse_limit() == Self::DEFAULT_OPTIMAL_PARSE_LIMIT,
    {
        Self::new()
    }
}

} // verus!

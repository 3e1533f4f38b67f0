//! The DNG opcode-list container (DNG 1.7.1 Chapter 7): typed parsing and serialization of the
//! `OpcodeList1`/`OpcodeList2`/`OpcodeList3` tags.
//!
//! An opcode list is a processing chain a reader applies to the raw image. The container is
//! always big-endian, regardless of the file's byte order: a `u32` opcode count, then per opcode
//! a `u32` ID, the four DNG-spec-version octets, a `u32` flags word, a `u32` parameter byte count,
//! and the parameter bytes ([`list_bytes`]).
//!
//! This module models the container: each [`Opcode`] carries its parameters as raw bytes.
//! [`OpcodeList::parse`] accepts exactly the byte strings [`spec_parse`] decodes, and the two
//! laws at the end of the file state that parsing and serialising invert each other.
use vstd::prelude::*;

use crate::error::{Error, ErrorKind, Result, ORIGIN_DNG};

verus! {

/// `WarpRectilinear` — rectilinear lens-distortion (+ lateral chromatic aberration) warp.
pub const WARP_RECTILINEAR: u32 = 1;

/// `WarpFisheye` — fisheye-to-rectilinear warp.
pub const WARP_FISHEYE: u32 = 2;

/// `FixVignetteRadial` — radial vignette gain correction.
pub const FIX_VIGNETTE_RADIAL: u32 = 3;

/// `FixBadPixelsConstant` — interpolate pixels equal to a constant.
pub const FIX_BAD_PIXELS_CONSTANT: u32 = 4;

/// `FixBadPixelsList` — interpolate listed bad pixels/rectangles.
pub const FIX_BAD_PIXELS_LIST: u32 = 5;

/// `TrimBounds` — trim the image to a rectangle.
pub const TRIM_BOUNDS: u32 = 6;

/// `MapTable` — map values through a lookup table.
pub const MAP_TABLE: u32 = 7;

/// `MapPolynomial` — map values through a polynomial.
pub const MAP_POLYNOMIAL: u32 = 8;

/// `GainMap` — spatially-varying gain (e.g. flat-field/shading correction).
pub const GAIN_MAP: u32 = 9;

/// `DeltaPerRow` — add a per-row delta.
pub const DELTA_PER_ROW: u32 = 10;

/// `DeltaPerColumn` — add a per-column delta.
pub const DELTA_PER_COLUMN: u32 = 11;

/// `ScalePerRow` — scale by a per-row factor.
pub const SCALE_PER_ROW: u32 = 12;

/// `ScalePerColumn` — scale by a per-column factor.
pub const SCALE_PER_COLUMN: u32 = 13;

/// `WarpRectilinear2` — the DNG 1.6 extended rectilinear warp.
pub const WARP_RECTILINEAR_2: u32 = 14;

/// One opcode of a DNG opcode list: the container fields, with the opcode's parameters kept as
/// raw bytes.
#[derive(Debug, Clone, PartialEq, Eq)]
pub struct Opcode {
    /// The opcode ID (see the `WARP_RECTILINEAR` .. `WARP_RECTILINEAR_2` constants for the
    /// standard set).
    pub id: u32,
    /// The DNG spec version the opcode was introduced in, as its four dotted octets in order —
    /// e.g. DNG 1.3.0.0 is `[1, 3, 0, 0]`.
    pub spec_version: [u8; 4],
    /// The flags word (bit 0 = optional, bit 1 = skip for preview quality).
    pub flags: u32,
    /// The opcode's parameter bytes, exactly as stored (big-endian, opcode-specific layout).
    pub parameters: Vec<u8>,
}

/// An opcode as a mathematical value: `(id, spec_version, flags, parameters)`.
pub type OpcodeModel = (u32, Seq<u8>, u32, Seq<u8>);

/// Flag bit 0: the opcode is optional — a reader that doesn't recognise it may skip it.
pub const FLAG_OPTIONAL: u32 = 1;

/// Flag bit 1: the opcode may be skipped when rendering at preview quality.
pub const FLAG_PREVIEW_SKIP: u32 = 2;

impl Opcode {
    /// This opcode as a mathematical value.
    pub open spec fn model(&self) -> OpcodeModel {
        (self.id, self.spec_version@, self.flags, self.parameters@)
    }

    /// Whether a reader that doesn't recognise this opcode may skip it (flag bit 0).
    pub fn is_optional(&self) -> (r: bool)
        ensures
            r == (self.flags & FLAG_OPTIONAL != 0),
    {
        self.flags & FLAG_OPTIONAL != 0
    }

    /// Whether the opcode may be skipped at preview quality (flag bit 1).
    pub fn skip_for_preview(&self) -> (r: bool)
        ensures
            r == (self.flags & FLAG_PREVIEW_SKIP != 0),
    {
        self.flags & FLAG_PREVIEW_SKIP != 0
    }
}

/// The big-endian bytes of `v`.
pub open spec fn be32(v: u32) -> Seq<u8> {
    seq![
        (v / 0x100_0000) as u8,
        ((v / 0x1_0000) % 0x100) as u8,
        ((v / 0x100) % 0x100) as u8,
        (v % 0x100) as u8,
    ]
}

/// The big-endian `u32` stored at `pos`.
pub open spec fn be32_at(bytes: Seq<u8>, pos: int) -> u32 {
    (bytes[pos] as nat * 0x100_0000 + bytes[pos + 1] as nat * 0x1_0000 + bytes[pos + 2] as nat
        * 0x100 + bytes[pos + 3] as nat) as u32
}

/// The container bytes of one opcode. A parameter count that does not fit in `u32` is written
/// truncated, as the serialiser casts it.
pub open spec fn opcode_bytes(m: OpcodeModel) -> Seq<u8> {
    be32(m.0) + m.1 + be32(m.2) + be32(m.3.len() as u32) + m.3
}

/// The container bytes of a run of opcodes, in order.
pub open spec fn opcodes_bytes(ms: Seq<OpcodeModel>) -> Seq<u8>
    decreases ms.len(),
{
    if ms.len() == 0 {
        Seq::empty()
    } else {
        opcodes_bytes(ms.drop_last()) + opcode_bytes(ms.last())
    }
}

/// The container bytes of a whole list: the count, then each opcode.
pub open spec fn list_bytes(ms: Seq<OpcodeModel>) -> Seq<u8> {
    be32(ms.len() as u32) + opcodes_bytes(ms)
}

/// The opcode whose 16-byte header starts at `pos`, and the position after its parameters.
#[verifier::opaque]
pub open spec fn parse_one(bytes: Seq<u8>, pos: nat) -> Option<(OpcodeModel, nat)> {
    if pos + 16 > bytes.len() {
        None
    } else {
        let plen = be32_at(bytes, pos + 12int) as nat;
        let end = pos + 16 + plen;
        if end > bytes.len() {
            None
        } else {
            Some(
                (
                    (
                        be32_at(bytes, pos as int),
                        bytes.subrange(pos + 4int, pos + 8int),
                        be32_at(bytes, pos + 8int),
                        bytes.subrange(pos + 16int, end as int),
                    ),
                    end,
                ),
            )
        }
    }
}

/// The first `n` opcodes starting at `pos`, and the position after the last.
pub open spec fn parse_opcodes(bytes: Seq<u8>, pos: nat, n: nat) -> Option<(Seq<OpcodeModel>, nat)>
    decreases n,
{
    if n == 0 {
        Some((Seq::empty(), pos))
    } else {
        match parse_opcodes(bytes, pos, (n - 1) as nat) {
            None => None,
            Some((ms, p)) => match parse_one(bytes, p) {
                None => None,
                Some((m, q)) => Some((ms.push(m), q)),
            },
        }
    }
}

/// The opcodes `bytes` holds, when it is exactly one well-formed container.
pub open spec fn spec_parse(bytes: Seq<u8>) -> Option<Seq<OpcodeModel>> {
    if bytes.len() < 4 {
        None
    } else {
        match parse_opcodes(bytes, 4, be32_at(bytes, 0) as nat) {
            Some((ms, end)) => if end == bytes.len() {
                Some(ms)
            } else {
                None
            },
            None => None,
        }
    }
}

/// A parsed `OpcodeList1`/`OpcodeList2`/`OpcodeList3` container: an ordered chain of opcodes.
#[derive(Debug, Clone, PartialEq, Eq, Default)]
pub struct OpcodeList {
    opcodes: Vec<Opcode>,
}

/// The refusal of a container too short for what it declares.
pub const MSG_TRUNCATED: &'static str = "DNG: opcode list is truncated";

/// The refusal of a count that the data cannot hold.
pub const MSG_COUNT: &'static str = "DNG: opcode list is truncated (count exceeds the data)";

/// The refusal of a parameter count whose end overflows `usize`.
pub const MSG_PARAMETER_OVERFLOW: &'static str = "DNG: opcode parameter length overflows";

/// The refusal of parameters that run past the data.
pub const MSG_PARAMETERS: &'static str = "DNG: opcode parameters exceed the list data";

/// The refusal of bytes after the last opcode.
pub const MSG_TRAILING: &'static str = "DNG: opcode list has trailing bytes after the last opcode";

impl OpcodeList {
    /// The opcodes as mathematical values, in application order.
    pub closed spec fn spec_opcodes(&self) -> Seq<OpcodeModel> {
        self.opcodes@.map_values(|o: Opcode| o.model())
    }

    /// Creates an empty list (the tag default).
    pub fn new() -> (r: Self)
        ensures
            r.spec_opcodes() == Seq::<OpcodeModel>::empty(),
    {
        let r = Self { opcodes: Vec::new() };
        assert(r.spec_opcodes() =~= Seq::<OpcodeModel>::empty());
        r
    }

    /// Parses the container bytes (strictly: truncation, an overrunning parameter count, or
    /// trailing bytes are all rejected as [`Error::InvalidInput`]).
    pub fn parse(bytes: &[u8]) -> (r: Result<Self>)
        ensures
            match r {
                Ok(list) => spec_parse(bytes@) == Some(list.spec_opcodes()),
                Err(e) => spec_parse(bytes@) is None && e.spec_kind() == ErrorKind::InvalidInput
                    && e.spec_origin() == Some(ORIGIN_DNG),
            },
    {
        proof {
            reveal(parse_one);
        }
        let len = bytes.len();
        let count = read_u32(bytes, 0)?;
        if len < 4 || (count as usize) > (len - 4) / 16 {
            proof {
                lemma_parse_needs_headers(bytes@, 4, count as nat);
            }
            return Err(Error::invalid_input(ORIGIN_DNG, MSG_COUNT));
        }
        let mut opcodes: Vec<Opcode> = Vec::new();
        let mut pos: usize = 4;
        let mut k: u32 = 0;
        while k < count
            invariant
                len == bytes@.len(),
                k <= count,
                count == be32_at(bytes@, 0),
                pos <= len,
                parse_opcodes(bytes@, 4, k as nat) == Some(
                    (opcodes@.map_values(|o: Opcode| o.model()), pos as nat),
                ),
            decreases count - k,
        {
            let ghost before = opcodes@.map_values(|o: Opcode| o.model());
            proof {
                reveal(parse_one);
            }
            let id = match read_u32(bytes, pos) {
                Ok(v) => v,
                Err(e) => {
                    proof {
                        lemma_parse_fails_after(bytes@, k as nat, count as nat);
                    }
                    return Err(e);
                },
            };
            if len - pos < 8 {
                proof {
                    lemma_parse_fails_after(bytes@, k as nat, count as nat);
                }
                return Err(Error::invalid_input(ORIGIN_DNG, MSG_TRUNCATED));
            }
            let flags = match read_u32(bytes, pos + 8) {
                Ok(v) => v,
                Err(e) => {
                    proof {
                        lemma_parse_fails_after(bytes@, k as nat, count as nat);
                    }
                    return Err(e);
                },
            };
            let param_len = match read_u32(bytes, pos + 12) {
                Ok(v) => v as usize,
                Err(e) => {
                    proof {
                        lemma_parse_fails_after(bytes@, k as nat, count as nat);
                    }
                    return Err(e);
                },
            };
            let version = [bytes[pos + 4], bytes[pos + 5], bytes[pos + 6], bytes[pos + 7]];
            let start = pos + 16;
            let end = match start.checked_add(param_len) {
                Some(end) => end,
                None => {
                    proof {
                        lemma_parse_fails_after(bytes@, k as nat, count as nat);
                    }
                    return Err(Error::invalid_input(ORIGIN_DNG, MSG_PARAMETER_OVERFLOW));
                },
            };
            if end > len {
                proof {
                    lemma_parse_fails_after(bytes@, k as nat, count as nat);
                }
                return Err(Error::invalid_input(ORIGIN_DNG, MSG_PARAMETERS));
            }
            let parameters = copy_range(bytes, start, end);
            let op = Opcode { id, spec_version: version, flags, parameters };
            proof {
                assert(version@ =~= bytes@.subrange(pos + 4, pos + 8));
                assert(parse_one(bytes@, pos as nat) == Some((op.model(), end as nat)));
            }
            opcodes.push(op);
            proof {
                assert(opcodes@.map_values(|o: Opcode| o.model()) =~= before.push(op.model()));
            }
            pos = end;
            k = k + 1;
        }
        if pos != len {
            return Err(Error::invalid_input(ORIGIN_DNG, MSG_TRAILING));
        }
        Ok(Self { opcodes })
    }

    /// Serializes the list back to the big-endian container layout.
    pub fn to_bytes(&self) -> (r: Vec<u8>)
        ensures
            r@ == list_bytes(self.spec_opcodes()),
    {
        let mut out: Vec<u8> = Vec::new();
        push_be32(&mut out, self.opcodes.len() as u32);
        let mut i: usize = 0;
        while i < self.opcodes.len()
            invariant
                i <= self.opcodes@.len(),
                out@ == be32(self.opcodes@.len() as u32) + opcodes_bytes(
                    self.spec_opcodes().take(i as int),
                ),
            decreases self.opcodes@.len() - i,
        {
            let ghost before = out@;
            let opcode = &self.opcodes[i];
            push_be32(&mut out, opcode.id);
            out.push(opcode.spec_version[0]);
            out.push(opcode.spec_version[1]);
            out.push(opcode.spec_version[2]);
            out.push(opcode.spec_version[3]);
            push_be32(&mut out, opcode.flags);
            push_be32(&mut out, opcode.parameters.len() as u32);
            append_bytes(&mut out, opcode.parameters.as_slice());
            proof {
                let ms = self.spec_opcodes();
                assert(ms.take(i + 1).drop_last() =~= ms.take(i as int));
                assert(ms.take(i + 1).last() == opcode.model());
                assert(opcode.spec_version@ =~= seq![
                    opcode.spec_version[0],
                    opcode.spec_version[1],
                    opcode.spec_version[2],
                    opcode.spec_version[3],
                ]);
                assert(out@ =~= before + opcode_bytes(opcode.model()));
            }
            i = i + 1;
        }
        proof {
            assert(self.spec_opcodes().take(self.opcodes@.len() as int) =~= self.spec_opcodes());
        }
        out
    }

    /// Appends an opcode to the chain.
    pub fn push(&mut self, opcode: Opcode)
        ensures
            final(self).spec_opcodes() == old(self).spec_opcodes().push(opcode.model()),
    {
        let ghost m = opcode.model();
        self.opcodes.push(opcode);
        proof {
            assert(self.spec_opcodes() =~= old(self).spec_opcodes().push(m));
        }
    }

    /// The opcodes, in application order.
    pub fn opcodes(&self) -> (r: &[Opcode])
        ensures
            r@.map_values(|o: Opcode| o.model()) == self.spec_opcodes(),
    {
        self.opcodes.as_slice()
    }

    /// The number of opcodes in the list.
    pub fn len(&self) -> (r: usize)
        ensures
            r == self.spec_opcodes().len(),
    {
        self.opcodes.len()
    }

    /// Whether the list holds no opcodes.
    pub fn is_empty(&self) -> (r: bool)
        ensures
            r == (self.spec_opcodes().len() == 0),
    {
        self.opcodes.len() == 0
    }
}

/// Reads a big-endian `u32` at `pos`.
fn read_u32(bytes: &[u8], pos: usize) -> (r: Result<u32>)
    ensures
        match r {
            Ok(v) => pos + 4 <= bytes@.len() && v == be32_at(bytes@, pos as int),
            Err(e) => pos + 4 > bytes@.len() && e.spec_kind() == ErrorKind::InvalidInput
                && e.spec_origin() == Some(ORIGIN_DNG),
        },
{
    if pos > bytes.len() || bytes.len() - pos < 4 {
        return Err(Error::invalid_input(ORIGIN_DNG, MSG_TRUNCATED).with_byte_offset(pos as u64));
    }
    let v = (bytes[pos] as u32) * 0x100_0000 + (bytes[pos + 1] as u32) * 0x1_0000 + (bytes[pos
        + 2] as u32) * 0x100 + bytes[pos + 3] as u32;
    Ok(v)
}

/// Appends the big-endian bytes of `v`.
fn push_be32(out: &mut Vec<u8>, v: u32)
    ensures
        final(out)@ == old(out)@ + be32(v),
{
    out.push((v / 0x100_0000) as u8);
    out.push(((v / 0x1_0000) % 0x100) as u8);
    out.push(((v / 0x100) % 0x100) as u8);
    out.push((v % 0x100) as u8);
    assert(final(out)@ =~= old(out)@ + be32(v));
}

/// Appends every byte of `bytes`.
fn append_bytes(out: &mut Vec<u8>, bytes: &[u8])
    ensures
        final(out)@ == old(out)@ + bytes@,
{
    let ghost start = out@;
    let mut i: usize = 0;
    while i < bytes.len()
        invariant
            i <= bytes@.len(),
            out@ == start + bytes@.take(i as int),
        decreases bytes@.len() - i,
    {
        out.push(bytes[i]);
        i = i + 1;
        assert(out@ =~= start + bytes@.take(i as int));
    }
    assert(bytes@.take(bytes@.len() as int) =~= bytes@);
}

/// A copy of `bytes[start..end]`.
fn copy_range(bytes: &[u8], start: usize, end: usize) -> (r: Vec<u8>)
    requires
        start <= end <= bytes@.len(),
    ensures
        r@ == bytes@.subrange(start as int, end as int),
{
    let mut out: Vec<u8> = Vec::new();
    let mut i: usize = start;
    while i < end
        invariant
            start <= i <= end,
            end <= bytes@.len(),
            out@ == bytes@.subrange(start as int, i as int),
        decreases end - i,
    {
        out.push(bytes[i]);
        i = i + 1;
        assert(out@ =~= bytes@.subrange(start as int, i as int));
    }
    out
}

/// Parsing `n` opcodes from `pos` consumes at least their headers, and never runs past the data.
proof fn lemma_parse_needs_headers(bytes: Seq<u8>, pos: nat, n: nat)
    ensures
        parse_opcodes(bytes, pos, n) matches Some((ms, end)) ==> pos + 16 * n <= end <= bytes.len()
            || (n == 0 && end == pos),
    decreases n,
{
    reveal(parse_one);
    if n > 0 {
        lemma_parse_needs_headers(bytes, pos, (n - 1) as nat);
    }
}

/// Once the `k`-th opcode fails to parse, no count past `k` parses.
proof fn lemma_parse_fails_after(bytes: Seq<u8>, k: nat, count: nat)
    requires
        k < count,
        parse_opcodes(bytes, 4, k) matches Some((ms, p)) && parse_one(bytes, p) is None,
    ensures
        parse_opcodes(bytes, 4, count) is None,
    decreases count - k,
{
    if count > k + 1 {
        lemma_parse_fails_after(bytes, k, (count - 1) as nat);
    }
}

/// The big-endian bytes of a `u32` read back give the `u32`.
proof fn lemma_be32_read_back(v: u32, rest: Seq<u8>, pre: Seq<u8>)
    ensures
        be32_at(pre + be32(v) + rest, pre.len() as int) == v,
{
    let b = pre + be32(v) + rest;
    let p = pre.len() as int;
    let b0 = v / 0x100_0000;
    let b1 = (v / 0x1_0000) % 0x100;
    let b2 = (v / 0x100) % 0x100;
    let b3 = v % 0x100;
    assert(b0 < 0x100) by (bit_vector)
        requires
            b0 == v / 0x100_0000,
    ;
    assert(b[p] == b0 as u8 && b[p + 1] == b1 as u8 && b[p + 2] == b2 as u8 && b[p + 3] == b3 as u8);
    assert(b0 * 0x100_0000 + b1 * 0x1_0000 + b2 * 0x100 + b3 == v) by (bit_vector)
        requires
            b0 == v / 0x100_0000,
            b1 == (v / 0x1_0000) % 0x100,
            b2 == (v / 0x100) % 0x100,
            b3 == v % 0x100,
    ;
}

/// Four stored bytes are the big-endian bytes of the `u32` they hold.
proof fn lemma_be32_of_stored(bytes: Seq<u8>, p: int)
    requires
        0 <= p,
        p + 4 <= bytes.len(),
    ensures
        be32(be32_at(bytes, p)) == bytes.subrange(p, p + 4),
{
    let b0 = bytes[p];
    let b1 = bytes[p + 1];
    let b2 = bytes[p + 2];
    let b3 = bytes[p + 3];
    let v = be32_at(bytes, p);
    assert(v == (b0 as u32) * 0x100_0000 + (b1 as u32) * 0x1_0000 + (b2 as u32) * 0x100 + (
    b3 as u32)) by {
        assert(b0 as nat * 0x100_0000 + b1 as nat * 0x1_0000 + b2 as nat * 0x100 + b3 as nat
            <= 0xffff_ffff);
    }
    assert(v / 0x100_0000 == b0 as u32 && (v / 0x1_0000) % 0x100 == b1 as u32 && (v / 0x100)
        % 0x100 == b2 as u32 && v % 0x100 == b3 as u32) by (bit_vector)
        requires
            v == (b0 as u32) * 0x100_0000 + (b1 as u32) * 0x1_0000 + (b2 as u32) * 0x100 + (
            b3 as u32),
    ;
    assert(be32(v) =~= bytes.subrange(p, p + 4));
}

/// The bytes of a run of opcodes begin with the bytes of each of its prefixes.
proof fn lemma_opcodes_bytes_prefix(ms: Seq<OpcodeModel>, n: int)
    requires
        0 <= n <= ms.len(),
    ensures
        opcodes_bytes(ms.take(n)).len() <= opcodes_bytes(ms).len(),
        opcodes_bytes(ms).subrange(0, opcodes_bytes(ms.take(n)).len() as int) == opcodes_bytes(
            ms.take(n),
        ),
    decreases ms.len(),
{
    if n == ms.len() {
        assert(ms.take(n) =~= ms);
    } else {
        lemma_opcodes_bytes_prefix(ms.drop_last(), n);
        assert(ms.drop_last().take(n) =~= ms.take(n));
        let a = opcodes_bytes(ms.drop_last());
        let l = opcodes_bytes(ms.take(n)).len() as int;
        assert((a + opcode_bytes(ms.last())).subrange(0, l) =~= a.subrange(0, l));
    }
}

/// The opcode serialised at `pre.len()` parses back to itself, ending where its bytes end.
proof fn lemma_parse_one_of(pre: Seq<u8>, m: OpcodeModel, post: Seq<u8>)
    requires
        m.1.len() == 4,
        m.3.len() <= u32::MAX,
    ensures
        parse_one(pre + opcode_bytes(m) + post, pre.len()) == Some(
            (m, pre.len() + opcode_bytes(m).len()),
        ),
{
    reveal(parse_one);
    let b = pre + opcode_bytes(m) + post;
    let p = pre.len() as int;
    let plen = m.3.len() as u32;
    let after_id = m.1 + be32(m.2) + be32(plen) + m.3 + post;
    assert(b =~= pre + be32(m.0) + after_id);
    lemma_be32_read_back(m.0, after_id, pre);
    let pre8 = pre + be32(m.0) + m.1;
    let after_flags = be32(plen) + m.3 + post;
    assert(b =~= pre8 + be32(m.2) + after_flags);
    lemma_be32_read_back(m.2, after_flags, pre8);
    let pre12 = pre8 + be32(m.2);
    let after_len = m.3 + post;
    assert(b =~= pre12 + be32(plen) + after_len);
    lemma_be32_read_back(plen, after_len, pre12);
    assert(b.subrange(p + 4, p + 8) =~= m.1);
    assert(b.subrange(p + 16, p + 16 + m.3.len()) =~= m.3);
}

/// The serialised list splits around its `k`-th opcode.
proof fn lemma_list_split(ms: Seq<OpcodeModel>, k: int)
    requires
        0 <= k < ms.len(),
    ensures
        list_bytes(ms) == (be32(ms.len() as u32) + opcodes_bytes(ms.take(k))) + opcode_bytes(ms[k])
            + opcodes_bytes(ms).subrange(
            opcodes_bytes(ms.take(k + 1)).len() as int,
            opcodes_bytes(ms).len() as int,
        ),
        opcodes_bytes(ms.take(k + 1)) == opcodes_bytes(ms.take(k)) + opcode_bytes(ms[k]),
{
    assert(ms.take(k + 1).drop_last() =~= ms.take(k));
    lemma_opcodes_bytes_prefix(ms, k + 1);
    let whole = opcodes_bytes(ms);
    let upto = opcodes_bytes(ms.take(k + 1));
    assert(whole =~= upto + whole.subrange(upto.len() as int, whole.len() as int));
}

/// Parsing the first `n` opcodes of a serialised list gives back those opcodes, ending where
/// their bytes end.
proof fn lemma_parse_prefix(ms: Seq<OpcodeModel>, n: nat)
    requires
        n <= ms.len(),
        forall|i: int|
            0 <= i < ms.len() ==> (#[trigger] ms[i]).1.len() == 4 && ms[i].3.len() <= u32::MAX,
    ensures
        parse_opcodes(list_bytes(ms), 4, n) == Some(
            (ms.take(n as int), 4 + opcodes_bytes(ms.take(n as int)).len()),
        ),
    decreases n,
{
    if n == 0 {
        assert(ms.take(0) =~= Seq::<OpcodeModel>::empty());
    } else {
        let k = (n - 1) as int;
        lemma_parse_prefix(ms, k as nat);
        let m = ms[k];
        lemma_list_split(ms, k);
        let pre = be32(ms.len() as u32) + opcodes_bytes(ms.take(k));
        let whole = opcodes_bytes(ms);
        let post = whole.subrange(opcodes_bytes(ms.take(k + 1)).len() as int, whole.len() as int);
        lemma_parse_one_of(pre, m, post);
        assert(ms.take(k).push(m) =~= ms.take(n as int));
    }
}

/// The serialised size of a run of opcodes: a 16-byte header plus the parameter bytes, each.
pub open spec fn opcodes_size(ms: Seq<OpcodeModel>) -> nat
    decreases ms.len(),
{
    if ms.len() == 0 {
        0
    } else {
        opcodes_size(ms.drop_last()) + 16 + ms.last().3.len()
    }
}

/// A serialised list is 4 bytes of count plus, for each opcode, 16 bytes of header and its
/// parameter bytes.
pub proof fn law_list_length(ms: Seq<OpcodeModel>)
    requires
        forall|i: int| 0 <= i < ms.len() ==> (#[trigger] ms[i]).1.len() == 4,
    ensures
        list_bytes(ms).len() == 4 + opcodes_size(ms),
    decreases ms.len(),
{
    if ms.len() > 0 {
        let rest = ms.drop_last();
        assert forall|i: int| 0 <= i < rest.len() implies (#[trigger] rest[i]).1.len() == 4 by {
            assert(rest[i] == ms[i]);
        }
        law_list_length(rest);
        assert(ms.last() == ms[ms.len() - 1]);
    }
}

/// Serialising a list and parsing the bytes gives back the list, for every list whose counts fit
/// the container's `u32` fields.
pub proof fn law_parse_inverts_to_bytes(ms: Seq<OpcodeModel>)
    requires
        ms.len() <= u32::MAX,
        forall|i: int|
            0 <= i < ms.len() ==> (#[trigger] ms[i]).1.len() == 4 && ms[i].3.len() <= u32::MAX,
    ensures
        spec_parse(list_bytes(ms)) == Some(ms),
{
    let b = list_bytes(ms);
    lemma_be32_read_back(ms.len() as u32, opcodes_bytes(ms), Seq::empty());
    assert(Seq::<u8>::empty() + be32(ms.len() as u32) + opcodes_bytes(ms) =~= b);
    lemma_parse_prefix(ms, ms.len());
    assert(ms.take(ms.len() as int) =~= ms);
}

/// An opcode the parser reads at `p` occupies exactly its serialised bytes.
proof fn lemma_parse_one_bytes(bytes: Seq<u8>, p: nat)
    ensures
        parse_one(bytes, p) matches Some((m, q)) ==> p <= q <= bytes.len() && bytes.subrange(
            p as int,
            q as int,
        ) == opcode_bytes(m),
{
    reveal(parse_one);
    if let Some((m, q)) = parse_one(bytes, p) {
        let pi = p as int;
        lemma_be32_of_stored(bytes, pi);
        lemma_be32_of_stored(bytes, pi + 8);
        lemma_be32_of_stored(bytes, pi + 12);
        assert(m.3.len() as u32 == be32_at(bytes, pi + 12));
        assert(bytes.subrange(pi, q as int) =~= opcode_bytes(m));
    }
}

/// Parsing `n` opcodes from `pos` reads exactly the bytes that serialise them.
proof fn lemma_parsed_bytes(bytes: Seq<u8>, pos: nat, n: nat)
    requires
        pos <= bytes.len(),
    ensures
        parse_opcodes(bytes, pos, n) matches Some((ms, end)) ==> pos <= end <= bytes.len()
            && bytes.subrange(pos as int, end as int) == opcodes_bytes(ms),
    decreases n,
{
    if n > 0 {
        lemma_parsed_bytes(bytes, pos, (n - 1) as nat);
        if let Some((ms, p)) = parse_opcodes(bytes, pos, (n - 1) as nat) {
            lemma_parse_one_bytes(bytes, p);
            if let Some((m, q)) = parse_one(bytes, p) {
                assert(ms.push(m).drop_last() =~= ms);
                assert(bytes.subrange(pos as int, q as int) =~= bytes.subrange(pos as int, p as int)
                    + bytes.subrange(p as int, q as int));
            }
        }
    } else {
        assert(bytes.subrange(pos as int, pos as int) =~= Seq::<u8>::empty());
    }
}

/// Parsing then serialising gives back the bytes: every container the parser accepts is exactly
/// the serialisation of what it parsed.
pub proof fn law_to_bytes_inverts_parse(bytes: Seq<u8>)
    ensures
        spec_parse(bytes) matches Some(ms) ==> list_bytes(ms) == bytes,
{
    if bytes.len() >= 4 {
        let count = be32_at(bytes, 0);
        lemma_parsed_bytes(bytes, 4, count as nat);
        lemma_parse_length(bytes, 4, count as nat);
        if let Some((ms, end)) = parse_opcodes(bytes, 4, count as nat) {
            if end == bytes.len() {
                lemma_be32_of_stored(bytes, 0);
                assert(ms.len() as u32 == count);
                assert(bytes =~= bytes.subrange(0, 4) + bytes.subrange(4, end as int));
            }
        }
    }
}

/// Parsing `n` opcodes yields `n` opcodes.
proof fn lemma_parse_length(bytes: Seq<u8>, pos: nat, n: nat)
    ensures
        parse_opcodes(bytes, pos, n) matches Some((ms, end)) ==> ms.len() == n,
    decreases n,
{
    if n > 0 {
        lemma_parse_length(bytes, pos, (n - 1) as nat);
    }
}

} // verus!

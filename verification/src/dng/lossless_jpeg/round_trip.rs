//! Why [`decode`](super::decode) inverts [`encode`](super::encode): a reader walking stuffed,
//! packed bits sees exactly those bits; the fixed table decodes each sample's category; the
//! mantissa and the prediction give the sample back.
use vstd::prelude::*;
use vstd::arithmetic::power2::{pow2, lemma_pow2_pos, lemma_pow2_unfold};
use crate::dng::lossless_jpeg::{
    ReadState, bits_of, value_of, pack, stuff, stuff_byte, step, read_bits, read_state, ones,
    pad_len, entropy_bits, sample_bits, diff_at, coords, prediction, reduced, category, mantissa,
    extended, fixed_entry, find_code, first_match, lemma_value_of_concat, lemma_value_of_bound,
    lemma_bits_of, lemma_coords, law_extend_inverts_magnitude, be16_bytes, be16_at, header,
    frame_components, scan_components, encoded, MARKER, SOI, SOF3, DHT, SOS, EOI, BITS, HUFFVAL,
};

verus! {

/// The length of the first `j` packed bytes once stuffed.
pub open spec fn stuffed_len(bytes: Seq<u8>, j: nat) -> nat {
    stuff(bytes.take(j as int)).len()
}

/// Where a reader of the stuffed `bytes` stands after `k` bits: at the start; after a whole
/// byte, past its stuffed form with no bits left; inside byte `k / 8`, past its stuffed form
/// with `8 - k % 8` of its bits left.
pub open spec fn expected_state(bytes: Seq<u8>, k: nat) -> ReadState {
    if k == 0 {
        (0, 0, 0)
    } else if k % 8 == 0 {
        (stuffed_len(bytes, k / 8), bytes[k / 8 - 1] as nat, 0)
    } else {
        (stuffed_len(bytes, k / 8 + 1), bytes[(k / 8) as int] as nat, (8 - k % 8) as nat)
    }
}

/// Stuffing distributes over concatenation.
pub proof fn lemma_stuff_concat(a: Seq<u8>, b: Seq<u8>)
    ensures
        stuff(a + b) == stuff(a) + stuff(b),
    decreases b.len(),
{
    if b.len() == 0 {
        assert(a + b =~= a);
        assert(stuff(a) + Seq::<u8>::empty() =~= stuff(a));
    } else {
        lemma_stuff_concat(a, b.drop_last());
        assert((a + b).drop_last() =~= a + b.drop_last());
        assert((a + b).last() == b.last());
        assert(stuff(a) + stuff(b.drop_last()) + stuff_byte(b.last()) =~= stuff(a) + (stuff(
            b.drop_last(),
        ) + stuff_byte(b.last())));
    }
}

/// Bit `r`, most significant first, of the byte whose bits are `x`.
pub proof fn lemma_byte_bit(x: Seq<bool>, r: nat)
    requires
        x.len() == 8,
        r < 8,
    ensures
        ((value_of(x) / pow2((7 - r) as nat)) % 2 == 1) == x[r as int],
{
    let hi = x.take((r + 1) as int);
    let lo = x.skip((r + 1) as int);
    assert(x =~= hi + lo);
    lemma_value_of_concat(hi, lo);
    lemma_value_of_bound(lo);
    lemma_pow2_pos((7 - r) as nat);
    let q = value_of(hi);
    let m = value_of(lo);
    assert(lo.len() == 7 - r);
    vstd::arithmetic::div_mod::lemma_fundamental_div_mod_converse(
        value_of(x) as int,
        pow2((7 - r) as nat) as int,
        q as int,
        m as int,
    );
    assert(hi.drop_last() =~= x.take(r as int));
    assert(hi.last() == x[r as int]);
    assert(q == 2 * value_of(hi.drop_last()) + if hi.last() {
        1nat
    } else {
        0nat
    });
}

/// One read from the expected state of bit `k` yields bit `k` and the expected state of `k + 1`.
pub proof fn lemma_step(bits: Seq<bool>, tail: Seq<u8>, k: nat)
    requires
        bits.len() % 8 == 0,
        k < bits.len(),
    ensures
        step(stuff(pack(bits)) + tail, expected_state(pack(bits), k)) == (
            bits[k as int],
            expected_state(pack(bits), k + 1),
        ),
{
    vstd::arithmetic::power2::lemma2_to64();
    let bytes = pack(bits);
    let data = stuff(bytes) + tail;
    let j = k / 8;
    let r = k % 8;
    assert(j < bytes.len());
    let x = bits.subrange((8 * j) as int, (8 * j + 8) as int);
    lemma_value_of_bound(x);
    let b = bytes[j as int];
    assert(b as nat == value_of(x));
    // The stuffed form of byte j sits at stuffed_len(bytes, j).
    let pre = bytes.take(j as int);
    let post = bytes.skip((j + 1) as int);
    assert(bytes =~= pre.push(b) + post);
    lemma_stuff_concat(pre.push(b), post);
    assert(pre.push(b).drop_last() =~= pre);
    assert(stuff(pre.push(b)) == stuff(pre) + stuff_byte(b));
    assert(bytes.take((j + 1) as int) =~= pre.push(b));
    let sl = stuffed_len(bytes, j);
    assert(stuffed_len(bytes, j + 1) == sl + stuff_byte(b).len());
    assert(data =~= stuff(pre) + stuff_byte(b) + (stuff(post) + tail));
    assert(data[sl as int] == b);
    if b == MARKER {
        assert(data[(sl + 1) as int] == 0);
    }
    lemma_byte_bit(x, r);
    assert(x[r as int] == bits[k as int]);
    if r == 0 {
        if k == 0 {
            assert(bytes.take(0) =~= Seq::<u8>::empty());
            assert(stuffed_len(bytes, 0) == 0);
        }
        assert(expected_state(bytes, k).2 == 0);
        assert(expected_state(bytes, k).0 == sl);
    }
}

/// Reading `m` bits from the expected state of bit `k` yields bits `k..k + m` and ends in the
/// expected state of `k + m`.
pub proof fn lemma_read_from(bits: Seq<bool>, tail: Seq<u8>, k: nat, m: nat)
    requires
        bits.len() % 8 == 0,
        k + m <= bits.len(),
    ensures
        read_bits(stuff(pack(bits)) + tail, expected_state(pack(bits), k), m) == bits.subrange(
            k as int,
            (k + m) as int,
        ),
        read_state(stuff(pack(bits)) + tail, expected_state(pack(bits), k), m) == expected_state(
            pack(bits),
            k + m,
        ),
    decreases m,
{
    let data = stuff(pack(bits)) + tail;
    let st = expected_state(pack(bits), k);
    if m == 0 {
        assert(bits.subrange(k as int, k as int) =~= Seq::<bool>::empty());
    } else {
        lemma_read_from(bits, tail, k, (m - 1) as nat);
        lemma_step(bits, tail, (k + m - 1) as nat);
        assert(bits.subrange(k as int, (k + m) as int) =~= bits.subrange(
            k as int,
            (k + m - 1) as int,
        ).push(bits[k + m - 1]));
    }
}

/// The entropy-coded bits of an image's first `n` samples, padded with one-bits to a byte.
pub open spec fn entropy_stream(s: Seq<u16>, w: nat, c: nat, p: nat, n: nat) -> Seq<bool> {
    let b = entropy_bits(s, w, c, p, n);
    b + ones(pad_len(b.len()))
}

/// Where sample `i`'s bits start.
pub open spec fn offset(s: Seq<u16>, w: nat, c: nat, p: nat, i: nat) -> nat {
    entropy_bits(s, w, c, p, i).len()
}

/// The code table the fixed `BITS`/`HUFFVAL` define, keyed by symbol.
pub open spec fn fixed_codes() -> Seq<(u16, u8)> {
    Seq::new(256, |k: int| fixed_entry(k))
}

/// The bits of the first `i` samples begin the bits of the first `n`.
pub proof fn lemma_entropy_prefix(s: Seq<u16>, w: nat, c: nat, p: nat, i: nat, n: nat)
    requires
        i <= n,
    ensures
        entropy_bits(s, w, c, p, i).len() <= entropy_bits(s, w, c, p, n).len(),
        entropy_bits(s, w, c, p, n).take(entropy_bits(s, w, c, p, i).len() as int) == entropy_bits(
            s,
            w,
            c,
            p,
            i,
        ),
    decreases n - i,
{
    if i < n {
        lemma_entropy_prefix(s, w, c, p, i, (n - 1) as nat);
        let a = entropy_bits(s, w, c, p, (n - 1) as nat);
        let e = entropy_bits(s, w, c, p, n);
        assert(e == a + sample_bits(s, w, c, p, (n - 1) as nat));
        assert(e.take(entropy_bits(s, w, c, p, i).len() as int) =~= a.take(
            entropy_bits(s, w, c, p, i).len() as int,
        ));
    } else {
        assert(entropy_bits(s, w, c, p, n).take(entropy_bits(s, w, c, p, n).len() as int)
            =~= entropy_bits(s, w, c, p, n));
    }
}

/// No table entry from `from` on is `(code, len)`: the search finds nothing.
pub proof fn lemma_find_code_none(codes: Seq<(u16, u8)>, code: nat, len: nat, from: nat)
    requires
        forall|k: int| from <= k < codes.len() ==> #[trigger] codes[k] != (code as u16, len as u8),
    ensures
        find_code(codes, code, len, from) is None,
    decreases codes.len() - from,
{
    if from < codes.len() {
        lemma_find_code_none(codes, code, len, from + 1);
    }
}

/// The first entry from `from` on that is `(code, len)` is the one found.
pub proof fn lemma_find_code_at(codes: Seq<(u16, u8)>, code: nat, len: nat, from: nat, at: nat)
    requires
        from <= at < codes.len(),
        codes[at as int] == (code as u16, len as u8),
        forall|k: int| from <= k < at ==> #[trigger] codes[k] != (code as u16, len as u8),
    ensures
        find_code(codes, code, len, from) == Some(at as int),
    decreases at - from,
{
    if from < at {
        lemma_find_code_at(codes, code, len, from + 1, at);
    }
}

/// No fixed-table entry has a length of one to three bits.
proof fn lemma_no_short_codes(code: nat, len: nat)
    requires
        1 <= len <= 3,
    ensures
        find_code(fixed_codes(), code, len, 0) is None,
{
    assert forall|k: int| 0 <= k < fixed_codes().len() implies #[trigger] fixed_codes()[k] != (
    code as u16, len as u8) by {
        assert(fixed_codes()[k] == fixed_entry(k));
    }
    lemma_find_code_none(fixed_codes(), code, len, 0);
}

/// A reader whose next bits are a category's fixed code decodes that category with that code's
/// length.
pub proof fn lemma_first_match_fixed(data: Seq<u8>, st: ReadState, cat: nat)
    requires
        cat <= 16,
        read_bits(data, st, 4) == bits_of(
            fixed_entry(cat as int).0 as nat % pow2(fixed_entry(cat as int).1 as nat),
            fixed_entry(cat as int).1 as nat,
        ).take(4),
        fixed_entry(cat as int).1 == 5 ==> read_bits(data, st, 5) == bits_of(
            fixed_entry(cat as int).0 as nat % pow2(5),
            5,
        ),
    ensures
        first_match(fixed_codes(), data, st, 1) == Some((cat as int, fixed_entry(cat as int).1 as nat)),
{
    vstd::arithmetic::power2::lemma2_to64();
    let codes = fixed_codes();
    lemma_no_short_codes(value_of(read_bits(data, st, 1)), 1);
    lemma_no_short_codes(value_of(read_bits(data, st, 2)), 2);
    lemma_no_short_codes(value_of(read_bits(data, st, 3)), 3);
    if cat < 15 {
        assert(fixed_entry(cat as int) == (cat as u16, 4u8));
        lemma_bits_of(cat, 4);
        assert(bits_of(cat % 16, 4).take(4) =~= bits_of(cat % 16, 4));
        assert(value_of(read_bits(data, st, 4)) == cat);
        assert forall|k: int| 0 <= k < cat implies #[trigger] codes[k] != (cat as u16, 4u8) by {
            assert(codes[k] == fixed_entry(k));
        }
        assert(codes[cat as int] == fixed_entry(cat as int));
        lemma_find_code_at(codes, cat, 4, 0, cat);
        assert(first_match(codes, data, st, 4) == Some((cat as int, 4nat)));
    } else {
        let code = (cat + 15) as nat;
        assert(fixed_entry(cat as int) == (code as u16, 5u8));
        assert(code % 32 == code);
        let full = bits_of(code, 5);
        assert(full.take(4) =~= full.drop_last());
        assert(full.drop_last() == bits_of(code / 2, 4));
        assert(code / 2 == 15);
        lemma_bits_of(15, 4);
        assert(value_of(read_bits(data, st, 4)) == 15);
        assert forall|k: int| 0 <= k < codes.len() implies #[trigger] codes[k] != (15u16, 4u8) by {
            assert(codes[k] == fixed_entry(k));
        }
        lemma_find_code_none(codes, 15, 4, 0);
        lemma_bits_of(code, 5);
        assert(value_of(read_bits(data, st, 5)) == code);
        assert forall|k: int| 0 <= k < cat implies #[trigger] codes[k] != (code as u16, 5u8) by {
            assert(codes[k] == fixed_entry(k));
        }
        assert(codes[cat as int] == fixed_entry(cat as int));
        lemma_find_code_at(codes, code, 5, 0, cat);
        assert(first_match(codes, data, st, 5) == Some((cat as int, 5nat)));
        assert(first_match(codes, data, st, 4) == first_match(codes, data, st, 5));
    }
    assert(first_match(codes, data, st, 3) == first_match(codes, data, st, 4));
    assert(first_match(codes, data, st, 2) == first_match(codes, data, st, 3));
    assert(first_match(codes, data, st, 1) == first_match(codes, data, st, 2));
}

/// Every prediction error the encoder codes lies in `[-32768, 32767]` when the first sample's
/// prediction `2^(p - 1)` is at most `2^16`.
pub proof fn lemma_diff_range(s: Seq<u16>, w: nat, c: nat, p: nat, i: nat)
    requires
        1 <= p <= 17,
    ensures
        -32768 <= diff_at(s, w, c, p, i) <= 32767,
{
    vstd::arithmetic::power2::lemma2_to64();
    if p < 17 {
        vstd::arithmetic::power2::lemma_pow2_strictly_increases((p - 1) as nat, 16);
    }
    lemma_pow2_pos((p - 1) as nat);
    let (x, y, k) = coords(i, w, c);
    let pr = prediction(s, w, c, x, y, k, p);
    assert(0 <= pr <= 65536);
}

/// A reader at the start of sample `i`'s bits decodes its category from the fixed table, then
/// its mantissa, and reconstructs its prediction error, ending at the start of sample `i + 1`.
#[verifier::spinoff_prover]
#[verifier::rlimit(80)]
pub proof fn lemma_sample_decodes(
    s: Seq<u16>,
    w: nat,
    c: nat,
    p: nat,
    n: nat,
    i: nat,
    tail: Seq<u8>,
)
    requires
        1 <= p <= 17,
        i < n,
    ensures
        ({
            let bits = entropy_stream(s, w, c, p, n);
            let data = stuff(pack(bits)) + tail;
            let st = expected_state(pack(bits), offset(s, w, c, p, i));
            let d = diff_at(s, w, c, p, i);
            let cat = category(d);
            let clen = fixed_entry(cat as int).1 as nat;
            let mid = expected_state(pack(bits), offset(s, w, c, p, i) + clen);
            &&& -32768 <= d <= 32767
            &&& cat <= 16
            &&& first_match(fixed_codes(), data, st, 1) == Some((cat as int, clen))
            &&& read_state(data, st, clen) == mid
            &&& 1 <= cat <= 15 ==> extended(value_of(read_bits(data, mid, cat)), cat) == d
                && read_state(data, mid, cat) == expected_state(
                pack(bits),
                offset(s, w, c, p, i + 1),
            )
            &&& !(1 <= cat <= 15) ==> extended(0, cat) == d && offset(s, w, c, p, i) + clen
                == offset(s, w, c, p, i + 1)
        }),
{
    vstd::arithmetic::power2::lemma2_to64();
    let b = entropy_bits(s, w, c, p, n);
    let bits = entropy_stream(s, w, c, p, n);
    let o = offset(s, w, c, p, i);
    let d = diff_at(s, w, c, p, i);
    lemma_diff_range(s, w, c, p, i);
    law_extend_inverts_magnitude(d);
    let cat = category(d);
    let (code, clen8) = fixed_entry(cat as int);
    let clen = clen8 as nat;
    let codebits = bits_of(code as nat % pow2(clen), clen);
    lemma_bits_of(code as nat % pow2(clen), clen);
    let sb = sample_bits(s, w, c, p, i);
    let mbits = if 1 <= cat <= 15 {
        bits_of(mantissa(d) % pow2(cat), cat)
    } else {
        Seq::empty()
    };
    assert(sb == codebits + mbits);
    lemma_bits_of(mantissa(d) % pow2(cat), cat);
    let e1 = entropy_bits(s, w, c, p, i + 1);
    assert(e1 == entropy_bits(s, w, c, p, i) + sb);
    lemma_entropy_prefix(s, w, c, p, i + 1, n);
    assert(bits.len() % 8 == 0);
    assert(bits.take(e1.len() as int) =~= b.take(e1.len() as int));
    assert(bits.subrange(o as int, (o + sb.len()) as int) =~= sb) by {
        assert(bits.take(e1.len() as int) == e1);
        assert(e1.subrange(o as int, (o + sb.len()) as int) =~= sb);
    }
    assert(4 <= clen <= 5);
    lemma_read_from(bits, tail, o, 4);
    assert(bits.subrange(o as int, (o + 4) as int) =~= codebits.take(4)) by {
        assert(bits.subrange(o as int, (o + 4) as int) =~= sb.take(4));
        assert(sb.take(4) =~= codebits.take(4));
    }
    if clen == 5 {
        lemma_read_from(bits, tail, o, 5);
        assert(bits.subrange(o as int, (o + 5) as int) =~= codebits) by {
            assert(bits.subrange(o as int, (o + 5) as int) =~= sb.take(5));
            assert(sb.take(5) =~= codebits);
        }
    }
    lemma_first_match_fixed(stuff(pack(bits)) + tail, expected_state(pack(bits), o), cat);
    lemma_read_from(bits, tail, o, clen);
    if 1 <= cat <= 15 {
        lemma_read_from(bits, tail, o + clen, cat);
        assert(bits.subrange((o + clen) as int, (o + clen + cat) as int) =~= mbits) by {
            assert(bits.subrange((o + clen) as int, (o + clen + cat) as int) =~= sb.subrange(
                clen as int,
                (clen + cat) as int,
            ));
        }
        vstd::arithmetic::div_mod::lemma_small_mod(mantissa(d), pow2(cat));
        vstd::arithmetic::div_mod::lemma_small_mod(mantissa(d) % pow2(cat), pow2(cat));
    } else {
        assert(sb =~= codebits);
        assert(mantissa(d) == 0);
    }
}

/// The SOF3 component list holds three bytes per component.
pub proof fn lemma_frame_components_len(n: nat)
    ensures
        frame_components(n).len() == 3 * n,
    decreases n,
{
    if n > 0 {
        lemma_frame_components_len((n - 1) as nat);
    }
}

/// The SOS component list holds two bytes per component.
pub proof fn lemma_scan_components_len(n: nat)
    ensures
        scan_components(n).len() == 2 * n,
    decreases n,
{
    if n > 0 {
        lemma_scan_components_len((n - 1) as nat);
    }
}

/// A 16-bit field reads back modulo `2^16`.
pub proof fn lemma_be16(v: nat)
    ensures
        be16_bytes(v).len() == 2,
        be16_bytes(v)[0] as nat * 256 + be16_bytes(v)[1] as nat == v % 65536,
{
    let w = v % 65536;
    vstd::arithmetic::div_mod::lemma_fundamental_div_mod(w as int, 256);
    vstd::arithmetic::div_mod::lemma_mod_bound(w as int, 256);
}

/// The images the round trip covers: dimensions and a component count that the headers carry
/// exactly, a precision whose first prediction `2^(p - 1)` leaves every prediction error within
/// 16 bits, a sample count that fits `usize`, and that many samples.
pub open spec fn decodable(s: Seq<u16>, w: nat, h: nat, c: nat, p: nat) -> bool {
    &&& 1 <= w <= 65535
    &&& 1 <= h <= 65535
    &&& 1 <= c <= 255
    &&& 1 <= p <= 17
    &&& w * h * c <= usize::MAX
    &&& w * h * c <= s.len()
}

/// `data` is what [`encode`](super::encode) writes for samples `s` of a `w x h` image with `c`
/// components at precision `p`, within the range the round trip covers.
pub open spec fn is_encoding(data: Seq<u8>, s: Seq<u16>, w: nat, h: nat, c: nat, p: nat) -> bool {
    decodable(s, w, h, c, p) && data == encoded(s, w, h, c, p)
}

/// `data` begins with the headers the encoder writes for a `w x h` image of `c` components at
/// precision `p`, with the fields in the range the headers carry exactly.
pub open spec fn header_at(data: Seq<u8>, w: nat, h: nat, c: nat, p: nat) -> bool {
    &&& 1 <= w <= 65535
    &&& 1 <= h <= 65535
    &&& 1 <= c <= 255
    &&& 1 <= p <= 17
    &&& 58 + 5 * (c as int) <= data.len()
    &&& data.take(58 + 5 * (c as int)) == header(w, h, c, p)
}

/// The fixed-width fields before the SOF3 component list.
spec fn header_front(w: nat, h: nat, c: nat, p: nat) -> Seq<u8> {
    let a = be16_bytes(8 + 3 * c);
    let hb = be16_bytes(h);
    let wb = be16_bytes(w);
    seq![MARKER, SOI, MARKER, SOF3, a[0], a[1], (p % 256) as u8, hb[0], hb[1], wb[0], wb[1], (c % 256) as u8]
}

/// The Huffman table segment and the fixed-width fields of the scan header.
spec fn header_mid(c: nat) -> Seq<u8> {
    let tb = be16_bytes(36);
    let sb = be16_bytes(6 + 2 * c);
    seq![MARKER, DHT, tb[0], tb[1], 0x00u8] + BITS@ + HUFFVAL@ + seq![MARKER, SOS, sb[0], sb[1], (c % 256) as u8]
}

/// The headers, cut where the component lists sit.
proof fn lemma_header_split(w: nat, h: nat, c: nat, p: nat)
    ensures
        header(w, h, c, p) == header_front(w, h, c, p) + frame_components(c) + header_mid(c) + (
        scan_components(c) + seq![1u8, 0u8, 0u8]),
        header_front(w, h, c, p).len() == 12,
        header_mid(c).len() == 43,
        frame_components(c).len() == 3 * c,
        scan_components(c).len() == 2 * c,
{
    lemma_frame_components_len(c);
    lemma_scan_components_len(c);
    lemma_be16(8 + 3 * c);
    lemma_be16(h);
    lemma_be16(w);
    lemma_be16(36);
    lemma_be16(6 + 2 * c);
    assert(header(w, h, c, p) =~= header_front(w, h, c, p) + frame_components(c) + header_mid(c) + (
    scan_components(c) + seq![1u8, 0u8, 0u8]));
}

/// Where each field of the headers sits.
#[verifier::spinoff_prover]
pub proof fn lemma_header_bytes(data: Seq<u8>, w: nat, h: nat, c: nat, p: nat)
    requires
        header_at(data, w, h, c, p),
    ensures
        data[0] == MARKER,
        data[1] == SOI,
        data[2] == MARKER,
        data[3] == SOF3,
        be16_at(data, 4) == 8 + 3 * (c as int),
        data[6] == p,
        be16_at(data, 7) == h,
        be16_at(data, 9) == w,
        data[11] == c,
        data[12 + 3 * (c as int)] == MARKER,
        data[13 + 3 * (c as int)] == DHT,
        be16_at(data, 14 + 3 * (c as int)) == 36,
        forall|k: int| 0 <= k < 16 ==> #[trigger] data[17 + 3 * (c as int) + k] == BITS@[k],
        data.subrange(33 + 3 * (c as int), 50 + 3 * (c as int)) == HUFFVAL@,
        data[50 + 3 * (c as int)] == MARKER,
        data[51 + 3 * (c as int)] == SOS,
        be16_at(data, 52 + 3 * (c as int)) == 6 + 2 * (c as int),
{
    lemma_header_split(w, h, c, p);
    lemma_be16(8 + 3 * c);
    lemma_be16(h);
    lemma_be16(w);
    lemma_be16(36);
    lemma_be16(6 + 2 * c);
    let front = header_front(w, h, c, p);
    let mid = header_mid(c);
    let x = front + frame_components(c);
    let hd = header(w, h, c, p);
    let o = 12 + 3 * (c as int);
    assert forall|k: int| 0 <= k < 12 implies #[trigger] data[k] == front[k] by {
        assert(data.take(58 + 5 * (c as int))[k] == data[k]);
        assert(hd[k] == (x + mid)[k]);
        assert((x + mid)[k] == x[k]);
    }
    assert forall|k: int| 0 <= k < 43 implies #[trigger] data[o + k] == mid[k] by {
        assert(data.take(58 + 5 * (c as int))[o + k] == data[o + k]);
        assert(hd[o + k] == (x + mid)[o + k]);
    }
    assert(data[o + 0] == mid[0]);
    assert(data[o + 1] == mid[1]);
    assert(data[o + 2] == mid[2]);
    assert(data[o + 3] == mid[3]);
    assert(data[o + 38] == mid[38]);
    assert(data[o + 39] == mid[39]);
    assert(data[o + 40] == mid[40]);
    assert(data[o + 41] == mid[41]);
    assert forall|k: int| 0 <= k < 16 implies #[trigger] data[17 + 3 * (c as int) + k] == BITS@[k] by {
        assert(data[o + (5 + k)] == mid[5 + k]);
    }
    assert(data.subrange(33 + 3 * (c as int), 50 + 3 * (c as int)) =~= HUFFVAL@) by {
        assert forall|k: int| 0 <= k < 17 implies #[trigger] data.subrange(
            33 + 3 * (c as int),
            50 + 3 * (c as int),
        )[k] == HUFFVAL@[k] by {
            assert(data[o + (21 + k)] == mid[21 + k]);
        }
    }
}

/// Data that is an image's encoding starts with that image's headers, and after them holds the
/// stuffed entropy-coded stream and EOI.
pub proof fn lemma_encoding_parts(data: Seq<u8>, s: Seq<u16>, w: nat, h: nat, c: nat, p: nat)
    requires
        is_encoding(data, s, w, h, c, p),
    ensures
        header_at(data, w, h, c, p),
        data.subrange(58 + 5 * (c as int), data.len() as int) == stuff(pack(entropy_stream(s, w, c, p, w * h * c)))
            + seq![MARKER, EOI],
{
    lemma_frame_components_len(c);
    lemma_scan_components_len(c);
    lemma_be16(8 + 3 * c);
    lemma_be16(h);
    lemma_be16(w);
    lemma_be16(36);
    lemma_be16(6 + 2 * c);
    let hd = header(w, h, c, p);
    assert(hd.len() == 58 + 5 * (c as int));
    let rest = stuff(pack(entropy_stream(s, w, c, p, w * h * c))) + seq![MARKER, EOI];
    assert(data =~= hd + rest);
    assert(data.take(58 + 5 * (c as int)) =~= hd);
    assert(data.subrange(58 + 5 * (c as int), data.len() as int) =~= rest);
}

/// The headers name one image: two readings of them agree.
pub proof fn lemma_header_unique(
    data: Seq<u8>,
    w: nat,
    h: nat,
    c: nat,
    p: nat,
    w2: nat,
    h2: nat,
    c2: nat,
    p2: nat,
)
    requires
        header_at(data, w, h, c, p),
        header_at(data, w2, h2, c2, p2),
    ensures
        w == w2 && h == h2 && c == c2 && p == p2,
{
    lemma_header_bytes(data, w, h, c, p);
    lemma_header_bytes(data, w2, h2, c2, p2);
}

/// A prediction reads only samples before the one it predicts.
pub proof fn lemma_prediction_prefix(a: Seq<u16>, b: Seq<u16>, w: nat, c: nat, p: nat, i: nat)
    requires
        w > 0,
        c > 0,
        i < a.len(),
        i < b.len(),
        a.take(i as int) == b.take(i as int),
    ensures
        ({
            let (x, y, k) = coords(i, w, c);
            prediction(a, w, c, x, y, k, p) == prediction(b, w, c, x, y, k, p)
        }),
{
    lemma_coords(i, w, c);
    let (x, y, k) = coords(i, w, c);
    if x > 0 {
        let j = (y * w + x - 1) * c + k;
        assert(j == i - c) by (nonlinear_arith)
            requires
                (y * w + x) * c + k == i,
                j == (y * w + x - 1) * c + k,
        ;
        assert(a[j] == a.take(i as int)[j]);
        assert(b[j] == b.take(i as int)[j]);
    } else if y > 0 {
        let j = ((y - 1) * w + x) * c + k;
        assert(j == i - w * c && w * c > 0) by (nonlinear_arith)
            requires
                (y * w + x) * c + k == i,
                j == ((y - 1) * w + x) * c + k,
                w > 0,
                c > 0,
        ;
        assert(a[j] == a.take(i as int)[j]);
        assert(b[j] == b.take(i as int)[j]);
    }
}

/// Adding the reduced error to the prediction, modulo `2^16`, gives the sample back.
pub proof fn lemma_reconstruct(pr: i32, d: i32, sv: u16)
    requires
        0 <= pr <= 65536,
        d == reduced(sv - pr),
    ensures
        (pr + d) as u16 == sv,
{
    let v: i32 = (pr + d) as i32;
    assert(v == pr + d);
    assert(v == sv as i32 || v == sv as i32 + 65536 || v == sv as i32 - 65536);
    assert((v == sv as i32 || v == sv as i32 + 65536 || v == sv as i32 - 65536) ==> v as u16 == sv)
        by (bit_vector);
}

} // verus!

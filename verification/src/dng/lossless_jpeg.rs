//! Lossless JPEG (ITU-T T.81 process 14, SOF3) — the standard DNG raw compression
//! (`Compression = 7`).
//!
//! This is the Huffman-coded, prediction-based lossless JPEG (not the lossy DCT codec). Each
//! sample is predicted from its left neighbour (predictor 1, with the specification's
//! first-row/column defaults), and the prediction error is Huffman-coded by magnitude category
//! plus mantissa bits, exactly as a JPEG DC coefficient. The planes map to JPEG components,
//! interleaved. Differences are reduced modulo 2^16 so they always fit a category `0..=16`, and
//! reconstruction wraps to match.
//!
//! The bit-level model: a writer appends MSB-first bits ([`bits_of`]); the bytes it emits are the
//! packed bits ([`pack`]) with every `FF` followed by a stuffed `00` ([`stuff`]). A reader walks
//! such a byte stream back ([`step`]). [`decode`] inverts [`encode`] on every image the encoder
//! accepts.
use vstd::prelude::*;
use vstd::arithmetic::power2::{pow2, lemma_pow2_pos, lemma_pow2_adds, lemma_pow2_unfold};

use crate::error::{Error, ErrorKind, Result};

pub mod round_trip;

use round_trip::{
    header_at, is_encoding, lemma_header_bytes, lemma_header_unique, lemma_encoding_parts,
    lemma_sample_decodes, lemma_prediction_prefix, lemma_reconstruct, fixed_codes, entropy_stream,
    expected_state, offset,
};

verus! {

/// A decoded lossless-JPEG frame.
#[derive(Debug)]
pub struct LosslessJpeg {
    /// Samples per row.
    pub width: usize,
    /// Rows.
    pub height: usize,
    /// Interleaved components per pixel.
    pub components: usize,
    /// The samples, `width * height * components` long, interleaved and row-major.
    pub samples: Vec<u16>,
}

/// The byte that introduces every JPEG marker.
pub const MARKER: u8 = 0xFF;

/// Start of image.
pub const SOI: u8 = 0xD8;

/// End of image.
pub const EOI: u8 = 0xD9;

/// Start of a lossless (process 14) frame.
pub const SOF3: u8 = 0xC3;

/// Define Huffman table.
pub const DHT: u8 = 0xC4;

/// Start of scan.
pub const SOS: u8 = 0xDA;

/// The number of codes of each length `1..=16` in the fixed table the encoder writes: fifteen
/// codes of length 4 and two of length 5 (Kraft sum `15/16 + 2/32 = 1`).
pub const BITS: [u8; 16] = [0, 0, 0, 15, 2, 0, 0, 0, 0, 0, 0, 0, 0, 0, 0, 0];

/// The symbols of the fixed table, in code order: the magnitude categories `0..=16`.
pub const HUFFVAL: [u8; 17] = [0, 1, 2, 3, 4, 5, 6, 7, 8, 9, 10, 11, 12, 13, 14, 15, 16];

// ---------------------------------------------------------------------------------------------
// The bit model.

/// The `n` low bits of `v`, most significant first.
pub open spec fn bits_of(v: nat, n: nat) -> Seq<bool>
    decreases n,
{
    if n == 0 {
        Seq::empty()
    } else {
        bits_of(v / 2, (n - 1) as nat).push(v % 2 == 1)
    }
}

/// The number whose binary digits, most significant first, are `b`.
pub open spec fn value_of(b: Seq<bool>) -> nat
    decreases b.len(),
{
    if b.len() == 0 {
        0
    } else {
        2 * value_of(b.drop_last()) + if b.last() {
            1nat
        } else {
            0nat
        }
    }
}

/// The bytes holding the complete octets of `b`, most significant bit first.
pub open spec fn pack(b: Seq<bool>) -> Seq<u8> {
    Seq::new(b.len() / 8, |i: int| value_of(b.subrange(8 * i, 8 * i + 8)) as u8)
}

/// One byte as it stands in entropy-coded data: `FF` is followed by a stuffed `00`.
pub open spec fn stuff_byte(byte: u8) -> Seq<u8> {
    if byte == MARKER {
        seq![MARKER, 0u8]
    } else {
        seq![byte]
    }
}

/// Bytes as they stand in entropy-coded data.
pub open spec fn stuff(bytes: Seq<u8>) -> Seq<u8>
    decreases bytes.len(),
{
    if bytes.len() == 0 {
        Seq::empty()
    } else {
        stuff(bytes.drop_last()) + stuff_byte(bytes.last())
    }
}

/// `n` one-bits.
pub open spec fn ones(n: nat) -> Seq<bool> {
    Seq::new(n, |i: int| true)
}

/// The number of one-bits that pad `len` bits to a whole byte.
pub open spec fn pad_len(len: nat) -> nat {
    ((8 - len % 8) % 8) as nat
}

// ---------------------------------------------------------------------------------------------
// Canonical Huffman codes (T.81 Annex C).

/// The code lengths in table order: `bits[l - 1]` codes of each length `l`, shortest first.
pub open spec fn sizes_upto(bits: Seq<u8>, l: nat) -> Seq<nat>
    decreases l,
{
    if l == 0 {
        Seq::empty()
    } else {
        sizes_upto(bits, (l - 1) as nat) + Seq::new(bits[l - 1] as nat, |i: int| l)
    }
}

/// The code lengths of a DHT's `BITS` array, in table order.
pub open spec fn code_sizes(bits: Seq<u8>) -> Seq<nat> {
    sizes_upto(bits, 16)
}

/// The canonical code of table entry `k`: the first code is zero, and each next code is one more
/// than the last, shifted left by the growth in length — kept to the table's 16 bits.
pub open spec fn code_value(sizes: Seq<nat>, k: nat) -> nat
    decreases k,
{
    if k == 0 {
        0
    } else {
        ((code_value(sizes, (k - 1) as nat) + 1) * pow2((sizes[k as int] - sizes[k - 1]) as nat))
            % 65536
    }
}

/// The `(code, length)` the first `upto` table entries assign to symbol `s`: the last entry that
/// names `s`, or `(0, 0)` when none does.
pub open spec fn table_entry(sizes: Seq<nat>, huffval: Seq<u8>, upto: nat, s: int) -> (u16, u8)
    decreases upto,
{
    if upto == 0 {
        (0, 0)
    } else if huffval[upto - 1] == s {
        (code_value(sizes, (upto - 1) as nat) as u16, sizes[upto - 1] as u8)
    } else {
        table_entry(sizes, huffval, (upto - 1) as nat, s)
    }
}

/// The code table, keyed by symbol, that a DHT's `BITS` and `HUFFVAL` define.
pub open spec fn canonical_table(bits: Seq<u8>, huffval: Seq<u8>) -> Seq<(u16, u8)> {
    let sizes = code_sizes(bits);
    Seq::new(256, |s: int| table_entry(sizes, huffval, sizes.len(), s))
}

/// The code lengths grow along the table, and never exceed the length reached so far.
proof fn lemma_sizes_upto(bits: Seq<u8>, l: nat)
    requires
        l <= 16,
        bits.len() == 16,
    ensures
        forall|i: int, j: int|
            0 <= i <= j < sizes_upto(bits, l).len() ==> #[trigger] sizes_upto(bits, l)[i]
                <= #[trigger] sizes_upto(bits, l)[j],
        forall|i: int|
            0 <= i < sizes_upto(bits, l).len() ==> 1 <= #[trigger] sizes_upto(bits, l)[i] <= l,
        sizes_upto(bits, l).len() <= 255 * l,
    decreases l,
{
    if l > 0 {
        lemma_sizes_upto(bits, (l - 1) as nat);
    }
}

/// Canonical codes per symbol: `(code, length)` keyed by symbol value, as T.81 Annex C assigns
/// them from a DHT's `BITS` and `HUFFVAL`. Codes wrap at 16 bits rather than overflow when the
/// counts are more than a 16-bit code space can hold.
pub fn canonical_codes(bits: &[u8; 16], huffval: &[u8]) -> (r: Vec<(u16, u8)>)
    requires
        huffval@.len() >= code_sizes(bits@).len(),
    ensures
        r@ == canonical_table(bits@, huffval@),
{
    let ghost sz = code_sizes(bits@);
    // Code lengths in table order.
    let mut sizes: Vec<u8> = Vec::new();
    let mut l: usize = 0;
    while l < 16
        invariant
            l <= 16,
            sizes@.len() == sizes_upto(bits@, l as nat).len(),
            forall|i: int| 0 <= i < sizes@.len() ==> sizes@[i] as nat == #[trigger] sizes_upto(bits@, l as nat)[i],
        decreases 16 - l,
    {
        proof {
            lemma_sizes_upto(bits@, l as nat);
        }
        let count = bits[l];
        let mut c: u8 = 0;
        let ghost start = sizes@;
        while c < count
            invariant
                l < 16,
                c <= count,
                count == bits@[l as int],
                start.len() == sizes_upto(bits@, l as nat).len(),
                sizes@.len() == start.len() + c,
                forall|i: int| 0 <= i < start.len() ==> sizes@[i] as nat == #[trigger] sizes_upto(bits@, l as nat)[i],
                forall|i: int| start.len() <= i < sizes@.len() ==> #[trigger] sizes@[i] == l + 1,
            decreases count - c,
        {
            sizes.push((l + 1) as u8);
            c = c + 1;
        }
        proof {
            let next = sizes_upto(bits@, (l + 1) as nat);
            assert(next == sizes_upto(bits@, l as nat) + Seq::new(
                bits@[l as int] as nat,
                |i: int| (l + 1) as nat,
            ));
            assert forall|i: int| 0 <= i < sizes@.len() implies sizes@[i] as nat == #[trigger] next[i] by {
                if i >= start.len() {
                    assert(next[i] == l + 1);
                }
            }
        }
        l = l + 1;
    }
    proof {
        lemma_sizes_upto(bits@, 16);
    }
    let n = sizes.len();
    let mut table: Vec<(u16, u8)> = Vec::new();
    let mut t: usize = 0;
    while t < 256
        invariant
            t <= 256,
            table@.len() == t,
            forall|s: int| 0 <= s < t ==> #[trigger] table@[s] == (0u16, 0u8),
        decreases 256 - t,
    {
        table.push((0, 0));
        t = t + 1;
    }
    let mut code: u16 = 0;
    let mut k: usize = 0;
    let mut length: u8 = if n > 0 {
        sizes[0]
    } else {
        0
    };
    while k < n
        invariant
            n == sizes@.len(),
            n == sz.len(),
            n <= 255 * 16,
            huffval@.len() >= n,
            forall|i: int| 0 <= i < n ==> sizes@[i] as nat == #[trigger] sz[i],
            forall|i: int, j: int| 0 <= i <= j < n ==> #[trigger] sz[i] <= #[trigger] sz[j],
            forall|i: int| 0 <= i < n ==> 1 <= #[trigger] sz[i] <= 16,
            table@.len() == 256,
            k <= n,
            k < n ==> length <= sz[k as int],
            length <= 17,
            k == 0 ==> code == 0 && (n > 0 ==> length == sz[0]),
            k > 0 ==> length >= sz[k - 1] && code as nat == ((code_value(sz, (k - 1) as nat) + 1)
                * pow2((length - sz[k - 1]) as nat)) % 65536,
            forall|s: int| 0 <= s < 256 ==> #[trigger] table@[s] == table_entry(sz, huffval@, k as nat, s),
        decreases n - k, 17 - length,
    {
        while k < n && sizes[k] == length
            invariant
                n == sizes@.len(),
                n == sz.len(),
                huffval@.len() >= n,
                forall|i: int| 0 <= i < n ==> sizes@[i] as nat == #[trigger] sz[i],
                forall|i: int, j: int| 0 <= i <= j < n ==> #[trigger] sz[i] <= #[trigger] sz[j],
                table@.len() == 256,
                k <= n,
                k < n ==> length <= sz[k as int],
                length <= 17,
                k == 0 ==> code == 0 && (n > 0 ==> length == sz[0]),
                k > 0 ==> length >= sz[k - 1] && code as nat == ((code_value(sz, (k - 1) as nat)
                    + 1) * pow2((length - sz[k - 1]) as nat)) % 65536,
                forall|s: int| 0 <= s < 256 ==> #[trigger] table@[s] == table_entry(sz, huffval@, k as nat, s),
            decreases n - k,
        {
            proof {
                if k > 0 {
                    assert(code_value(sz, k as nat) == ((code_value(sz, (k - 1) as nat) + 1) * pow2(
                        (sz[k as int] - sz[k - 1]) as nat,
                    )) % 65536);
                }
                assert(code as nat == code_value(sz, k as nat));
            }
            let sym = huffval[k] as usize;
            table.set(sym, (code, length));
            proof {
                assert forall|s: int| 0 <= s < 256 implies #[trigger] table@[s] == table_entry(
                    sz,
                    huffval@,
                    (k + 1) as nat,
                    s,
                ) by {}
            }
            code = code.wrapping_add(1);
            k = k + 1;
            proof {
                vstd::arithmetic::power2::lemma2_to64();
                assert(length - sz[k - 1] == 0);
                assert(code as nat == ((code_value(sz, (k - 1) as nat) + 1) * pow2(0)) % 65536);
            }
        }
        proof {
            assert(k > 0);
            lemma_pow2_adds((length - sz[k - 1]) as nat, 1);
            vstd::arithmetic::power2::lemma2_to64();
            let base = code_value(sz, (k - 1) as nat) + 1;
            let p = pow2((length - sz[k - 1]) as nat);
            assert(((base * p) % 65536) * 2 % 65536 == (base * (p * 2)) % 65536) by (nonlinear_arith);
            assert(pow2((length + 1 - sz[k - 1]) as nat) == p * 2);
        }
        code = ((code as u32 * 2) % 65536) as u16;
        length = length + 1;
    }
    proof {
        assert(table@ =~= canonical_table(bits@, huffval@));
    }
    table
}

/// The code the fixed table gives symbol `s`: categories `0..=14` take the 4-bit codes `0..=14`,
/// categories 15 and 16 the 5-bit codes `11110` and `11111`, every other symbol nothing.
pub open spec fn fixed_entry(s: int) -> (u16, u8) {
    if 0 <= s < 15 {
        (s as u16, 4u8)
    } else if 15 <= s < 17 {
        ((s + 15) as u16, 5u8)
    } else {
        (0u16, 0u8)
    }
}

/// The fixed table's codes are the ones [`fixed_entry`] lists.
pub proof fn lemma_fixed_table()
    ensures
        canonical_table(BITS@, HUFFVAL@) == Seq::new(256, |s: int| fixed_entry(s)),
        code_sizes(BITS@).len() == 17,
        HUFFVAL@.len() == 17,
{
    let bits = BITS@;
    let huffval = HUFFVAL@;
    assert(bits =~= seq![0u8, 0, 0, 15, 2, 0, 0, 0, 0, 0, 0, 0, 0, 0, 0, 0]);
    assert(huffval =~= seq![0u8, 1, 2, 3, 4, 5, 6, 7, 8, 9, 10, 11, 12, 13, 14, 15, 16]);
    let sizes = code_sizes(bits);
    assert(sizes =~= seq![4nat, 4, 4, 4, 4, 4, 4, 4, 4, 4, 4, 4, 4, 4, 4, 5, 5]) by {
        reveal_with_fuel(sizes_upto, 17);
    }
    assert(sizes =~= fixed_sizes());
    assert forall|k: nat| k < 15 implies #[trigger] code_value(sizes, k) == k by {
        lemma_code_value_run(sizes, k);
    }
    lemma_fixed_tail_codes(sizes);
    assert forall|s: int| 0 <= s < 256 implies #[trigger] table_entry(sizes, huffval, 17, s)
        == fixed_entry(s) by {
        lemma_table_entry_identity(sizes, huffval, 17, s);
    }
    assert(canonical_table(bits, huffval) =~= Seq::new(256, |s: int| fixed_entry(s)));
}

/// The code lengths of the fixed table: fifteen of length 4, then two of length 5.
spec fn fixed_sizes() -> Seq<nat> {
    Seq::new(17, |i: int| if i < 15 {
        4nat
    } else {
        5nat
    })
}

/// The two 5-bit codes of the fixed table are `11110` and `11111`.
proof fn lemma_fixed_tail_codes(sizes: Seq<nat>)
    requires
        sizes == fixed_sizes(),
    ensures
        code_value(sizes, 15) == 30,
        code_value(sizes, 16) == 31,
{
    lemma_code_value_run(sizes, 14);
    vstd::arithmetic::power2::lemma2_to64();
    assert(sizes[15] == 5 && sizes[14] == 4 && sizes[16] == 5);
    assert(code_value(sizes, 15) == ((code_value(sizes, 14) + 1) * pow2(1)) % 65536);
    assert(code_value(sizes, 16) == ((code_value(sizes, 15) + 1) * pow2(0)) % 65536);
}

/// The first fifteen codes of the fixed table count up from zero.
proof fn lemma_code_value_run(sizes: Seq<nat>, k: nat)
    requires
        k < 15,
        sizes == fixed_sizes(),
    ensures
        code_value(sizes, k) == k,
    decreases k,
{
    if k > 0 {
        lemma_code_value_run(sizes, (k - 1) as nat);
        vstd::arithmetic::power2::lemma2_to64();
        assert(sizes[k as int] == 4);
        assert(sizes[k - 1] == 4);
        assert(pow2(0) == 1);
        assert(code_value(sizes, k) == ((code_value(sizes, (k - 1) as nat) + 1) * pow2(0)) % 65536);
    }
}

/// With `HUFFVAL` the identity, the table entry of symbol `s` is entry `s` itself.
proof fn lemma_table_entry_identity(sizes: Seq<nat>, huffval: Seq<u8>, upto: nat, s: int)
    requires
        upto <= 17,
        huffval =~= seq![0u8, 1, 2, 3, 4, 5, 6, 7, 8, 9, 10, 11, 12, 13, 14, 15, 16],
        sizes == fixed_sizes(),
        forall|k: nat| k < 15 ==> #[trigger] code_value(sizes, k) == k,
        code_value(sizes, 15) == 30,
        code_value(sizes, 16) == 31,
    ensures
        table_entry(sizes, huffval, upto, s) == (if 0 <= s < upto {
            fixed_entry(s)
        } else {
            (0u16, 0u8)
        }),
    decreases upto,
{
    if upto > 0 {
        lemma_table_entry_identity(sizes, huffval, (upto - 1) as nat, s);
        if s == upto - 1 {
            assert(huffval[upto - 1] == s);
            if s < 15 {
                assert(code_value(sizes, s as nat) == s);
            }
        }
    }
}

// ---------------------------------------------------------------------------------------------
// Differences: prediction, reduction, magnitude categories.

/// The number of binary digits of `n` (zero for zero).
pub open spec fn bit_length(n: nat) -> nat
    decreases n,
{
    if n == 0 {
        0
    } else {
        1 + bit_length(n / 2)
    }
}

/// `|d|`.
pub open spec fn abs(d: int) -> nat {
    if d < 0 {
        (-d) as nat
    } else {
        d as nat
    }
}

/// The magnitude category (`SSSS`) of a difference: zero for zero, 16 for `-32768` (T.81's
/// special case), and the bit length of `|d|` otherwise.
pub open spec fn category(d: int) -> nat {
    if d == 0 {
        0
    } else if d == -32768 {
        16
    } else {
        bit_length(abs(d))
    }
}

/// The mantissa bits of a difference: the difference itself when non-negative, its one's
/// complement low bits (`d - 1` modulo `2^SSSS`) when negative, and nothing for categories 0
/// and 16.
pub open spec fn mantissa(d: int) -> nat {
    if d == 0 || d == -32768 {
        0
    } else if d > 0 {
        d as nat
    } else {
        (d - 1 + pow2(category(d))) as nat
    }
}

/// The difference that category `s` and mantissa `t` stand for.
pub open spec fn extended(t: nat, s: nat) -> int {
    if s == 0 {
        0
    } else if s == 16 {
        -32768
    } else if t < pow2((s - 1) as nat) {
        t - pow2(s) + 1
    } else {
        t as int
    }
}

/// A raw prediction error reduced to the canonical `[-32768, 32767]` range (mod 2^16).
pub open spec fn reduced(d: int) -> int {
    if d < -32768 {
        d + 65536
    } else if d > 32767 {
        d - 65536
    } else {
        d
    }
}

/// The bit length of a positive `n` brackets it between powers of two.
proof fn lemma_bit_length(n: nat)
    requires
        n > 0,
    ensures
        bit_length(n) >= 1,
        pow2((bit_length(n) - 1) as nat) <= n < pow2(bit_length(n)),
    decreases n,
{
    if n / 2 > 0 {
        lemma_bit_length(n / 2);
        let b = bit_length(n / 2);
        lemma_pow2_unfold(b + 1);
        lemma_pow2_unfold(b);
        assert(pow2(b + 1) == 2 * pow2(b));
        assert(pow2(b) == 2 * pow2((b - 1) as nat));
        assert(bit_length(n) == 1 + b);
        assert(2 * (n / 2) <= n <= 2 * (n / 2) + 1);
    } else {
        vstd::arithmetic::power2::lemma2_to64();
        assert(n == 1);
        assert(bit_length(0) == 0);
        assert(bit_length(1) == 1 + bit_length(0));
    }
}

/// A bit length below `k` bounds the number below `2^k`, and conversely.
proof fn lemma_bit_length_bound(n: nat, k: nat)
    ensures
        n < pow2(k) <==> bit_length(n) <= k,
    decreases n,
{
    if n == 0 {
        lemma_pow2_pos(k);
    } else {
        lemma_bit_length(n);
        if bit_length(n) < k {
            vstd::arithmetic::power2::lemma_pow2_strictly_increases(bit_length(n), k);
        } else if bit_length(n) > k {
            if k < bit_length(n) - 1 {
                vstd::arithmetic::power2::lemma_pow2_strictly_increases(k, (bit_length(n) - 1) as nat);
            }
        }
    }
}

/// Every reduced difference survives its category and mantissa: the decoder's reconstruction
/// inverts the encoder's split, for every difference in `[-32768, 32767]`.
pub proof fn law_extend_inverts_magnitude(d: int)
    requires
        -32768 <= d <= 32767,
    ensures
        category(d) <= 16,
        1 <= category(d) <= 15 ==> mantissa(d) < pow2(category(d)),
        extended(mantissa(d), category(d)) == d,
{
    vstd::arithmetic::power2::lemma2_to64();
    if d != 0 && d != -32768 {
        let a = abs(d);
        lemma_bit_length(a);
        lemma_bit_length_bound(a, 15);
        let s = bit_length(a);
        lemma_pow2_unfold(s);
        if d < 0 {
            assert(mantissa(d) == d - 1 + pow2(s));
        }
    }
}

/// Reduces a raw prediction error to the canonical `[-32768, 32767]` range (mod 2^16).
pub fn reduce(diff: i32) -> (r: i32)
    ensures
        r == reduced(diff as int),
{
    if diff < -32768 {
        diff + 65536
    } else if diff > 32767 {
        diff - 65536
    } else {
        diff
    }
}

/// The magnitude category (`SSSS`) of a difference and its mantissa bits.
pub fn magnitude(diff: i32) -> (r: (u8, u32))
    requires
        diff != i32::MIN,
    ensures
        r.0 == category(diff as int),
        r.1 == mantissa(diff as int),
{
    if diff == 0 {
        return (0, 0);
    }
    if diff == -32768 {
        return (16, 0);
    }
    let magnitude: u32 = if diff < 0 {
        (-diff) as u32
    } else {
        diff as u32
    };
    proof {
        vstd::arithmetic::power2::lemma2_to64();
        lemma_bit_length_bound(magnitude as nat, 31);
    }
    let mut ssss: u8 = 0;
    let mut rest: u32 = magnitude;
    while rest > 0
        invariant
            ssss + bit_length(rest as nat) == bit_length(magnitude as nat),
            ssss <= 32,
            bit_length(magnitude as nat) <= 31,
        decreases rest,
    {
        rest = rest / 2;
        ssss = ssss + 1;
    }
    proof {
        lemma_bit_length_bound(magnitude as nat, 31);
        vstd::arithmetic::power2::lemma2_to64();
        lemma_bit_length(magnitude as nat);
    }
    proof {
        vstd::bits::lemma_u64_shl_is_mul(1, ssss as u64);
        vstd::bits::lemma_u64_pow2_no_overflow(ssss as nat);
    }
    let pow: i64 = (1u64 << (ssss as u64)) as i64;
    let mantissa = if diff >= 0 {
        diff as u32
    } else {
        ((diff as i64) - 1 + pow) as u32
    };
    (ssss, mantissa)
}

/// The predictor-1 prediction for the sample at `(x, y)` of component `c`: the left neighbour,
/// the sample above for the first column, or `2^(precision - 1)` for the very first sample.
pub open spec fn prediction(
    s: Seq<u16>,
    width: nat,
    comp: nat,
    x: nat,
    y: nat,
    c: nat,
    precision: nat,
) -> int {
    if x > 0 {
        s[((y * width + x - 1) * comp + c) as int] as int
    } else if y > 0 {
        s[(((y - 1) * width + x) * comp + c) as int] as int
    } else {
        pow2((precision - 1) as nat) as int
    }
}

/// The predictor-1 prediction for the sample at `(x, y)` of component `c`.
fn predict(
    samples: &[u16],
    width: usize,
    comp: usize,
    x: usize,
    y: usize,
    c: usize,
    precision: u16,
) -> (r: i32)
    requires
        1 <= precision <= 31,
        x < width,
        c < comp,
        (y * width + x) * comp + c < samples@.len(),
    ensures
        r == prediction(samples@, width as nat, comp as nat, x as nat, y as nat, c as nat, precision as nat),
{
    let len = samples.len();
    proof {
        assert(y * width + x <= (y * width + x) * comp + c) by (nonlinear_arith)
            requires
                c < comp,
        ;
        assert(y * width <= y * width + x);
    }
    if x > 0 {
        proof {
            assert((y * width + x - 1) * comp + c <= (y * width + x) * comp + c) by (nonlinear_arith)
                requires
                    x > 0,
            ;
        }
        samples[(y * width + x - 1) * comp + c] as i32
    } else if y > 0 {
        proof {
            assert(((y - 1) * width + x) * comp + c <= (y * width + x) * comp + c) by (nonlinear_arith)
                requires
                    y > 0,
            ;
            assert((y - 1) * width <= y * width) by (nonlinear_arith)
                requires
                    y > 0,
            ;
        }
        samples[((y - 1) * width + x) * comp + c] as i32
    } else {
        let shift = (precision - 1) as u32;
        proof {
            vstd::bits::lemma_u32_pow2_no_overflow(shift as nat);
            vstd::bits::lemma_u32_shl_is_mul(1, shift);
            vstd::arithmetic::power2::lemma2_to64();
            vstd::arithmetic::power2::lemma_pow2_strictly_increases(shift as nat, 31);
        }
        (1u32 << shift) as i32
    }
}

// ---------------------------------------------------------------------------------------------
// Facts about the bit model.

/// Bits written after bits: the value of a concatenation shifts the first part up.
pub proof fn lemma_value_of_concat(a: Seq<bool>, b: Seq<bool>)
    ensures
        value_of(a + b) == value_of(a) * pow2(b.len()) + value_of(b),
    decreases b.len(),
{
    vstd::arithmetic::power2::lemma2_to64();
    if b.len() == 0 {
        assert(a + b =~= a);
    } else {
        lemma_value_of_concat(a, b.drop_last());
        assert((a + b).drop_last() =~= a + b.drop_last());
        assert((a + b).last() == b.last());
        lemma_pow2_unfold(b.len());
        let x = value_of(a);
        let p = pow2((b.len() - 1) as nat);
        assert(2 * (x * p + value_of(b.drop_last())) == x * (2 * p) + 2 * value_of(b.drop_last()))
            by (nonlinear_arith);
    }
}

/// The value of `n` bits is below `2^n`.
pub proof fn lemma_value_of_bound(b: Seq<bool>)
    ensures
        value_of(b) < pow2(b.len()),
    decreases b.len(),
{
    vstd::arithmetic::power2::lemma2_to64();
    if b.len() > 0 {
        lemma_value_of_bound(b.drop_last());
        lemma_pow2_unfold(b.len());
    }
}

/// The `n` low bits of `v` hold `v mod 2^n`.
pub proof fn lemma_bits_of(v: nat, n: nat)
    ensures
        bits_of(v, n).len() == n,
        value_of(bits_of(v, n)) == v % pow2(n),
    decreases n,
{
    vstd::arithmetic::power2::lemma2_to64();
    if n > 0 {
        lemma_bits_of(v / 2, (n - 1) as nat);
        let b = bits_of(v, n);
        assert(b.drop_last() =~= bits_of(v / 2, (n - 1) as nat));
        lemma_pow2_unfold(n);
        let p = pow2((n - 1) as nat);
        lemma_pow2_pos((n - 1) as nat);
        // v = 2 * (v / 2) + v % 2 and (v / 2) % p = v / 2 - p * ((v / 2) / p).
        assert(2 * ((v / 2) % p) + v % 2 == v % (2 * p)) by {
            let q = v / 2;
            let r = v % 2;
            let k = q / p;
            let m = q % p;
            vstd::arithmetic::div_mod::lemma_fundamental_div_mod(q as int, p as int);
            vstd::arithmetic::div_mod::lemma_mod_bound(q as int, p as int);
            assert(v == (2 * p) * k + (2 * m + r)) by (nonlinear_arith)
                requires
                    v == 2 * q + r,
                    q == p * k + m,
            ;
            vstd::arithmetic::div_mod::lemma_fundamental_div_mod_converse_mod(
                v as int,
                (2 * p) as int,
                k as int,
                (2 * m + r) as int,
            );
        }
    }
}

// ---------------------------------------------------------------------------------------------
// Writing entropy-coded bits.

/// MSB-first bit writer with JPEG `FF` -> `FF 00` byte stuffing.
pub struct BitWriter {
    out: Vec<u8>,
    acc: u32,
    nbits: u32,
    bits: Ghost<Seq<bool>>,
}

/// Packing one more whole byte of bits appends that byte.
proof fn lemma_pack_push(b: Seq<bool>, full: nat)
    requires
        full % 8 == 0,
        full + 8 <= b.len(),
    ensures
        pack(b.take(full as int + 8)) == pack(b.take(full as int)).push(
            value_of(b.subrange(full as int, full as int + 8)) as u8,
        ),
{
    let lhs = pack(b.take(full as int + 8));
    let rhs = pack(b.take(full as int)).push(value_of(b.subrange(full as int, full as int + 8)) as u8);
    assert(lhs.len() == rhs.len());
    assert forall|i: int| 0 <= i < lhs.len() implies lhs[i] == rhs[i] by {
        assert(b.take(full as int + 8).subrange(8 * i, 8 * i + 8) =~= b.subrange(8 * i, 8 * i + 8));
        if i < full / 8 {
            assert(b.take(full as int).subrange(8 * i, 8 * i + 8) =~= b.subrange(8 * i, 8 * i + 8));
        }
    }
    assert(lhs =~= rhs);
}

impl BitWriter {
    /// The bits written so far.
    pub closed spec fn spec_bits(&self) -> Seq<bool> {
        self.bits@
    }

    /// The writer's state matches its bits: whole bytes are out (stuffed), the rest wait in the
    /// top of the accumulator.
    pub closed spec fn wf(&self) -> bool {
        let b = self.bits@;
        let full = b.len() - self.nbits;
        &&& self.nbits < 8
        &&& b.len() % 8 == self.nbits
        &&& self.out@ == stuff(pack(b.take(full)))
        &&& self.acc == value_of(b.skip(full)) * pow2((32 - self.nbits) as nat)
    }

    /// An empty writer.
    pub fn new() -> (r: Self)
        ensures
            r.wf(),
            r.spec_bits() == Seq::<bool>::empty(),
    {
        let r = Self { out: Vec::new(), acc: 0, nbits: 0, bits: Ghost(Seq::empty()) };
        proof {
            assert(pack(Seq::<bool>::empty().take(0)) =~= Seq::<u8>::empty());
            assert(Seq::<bool>::empty().skip(0) =~= Seq::<bool>::empty());
            assert(value_of(Seq::<bool>::empty()) == 0);
            assert(stuff(Seq::<u8>::empty()) == Seq::<u8>::empty());
            assert(r.out@ =~= Seq::<u8>::empty());
        }
        r
    }

    /// Appends the `count` low bits of `value`, most significant first.
    pub fn put(&mut self, value: u32, count: u8)
        requires
            old(self).wf(),
            count <= 24,
        ensures
            final(self).wf(),
            final(self).spec_bits() == old(self).spec_bits() + bits_of(
                value as nat % pow2(count as nat),
                count as nat,
            ),
    {
        proof {
            vstd::arithmetic::power2::lemma2_to64();
            lemma_bits_of(value as nat % pow2(count as nat), count as nat);
        }
        if count == 0 {
            proof {
                assert(self.bits@ + bits_of(value as nat % pow2(0), 0) =~= self.bits@);
            }
            return;
        }
        let ghost b0 = self.bits@;
        let ghost full = b0.len() - self.nbits;
        proof {
            vstd::bits::lemma_u32_pow2_no_overflow(count as nat);
            vstd::bits::lemma_u32_shl_is_mul(1, count as u32);
        }
        let pow: u32 = 1u32 << (count as u32);
        let v = value % pow;
        proof {
            vstd::arithmetic::div_mod::lemma_small_mod(v as nat, pow2(count as nat));
        }
        let shift: u32 = 32 - self.nbits - count as u32;
        let ghost pending = b0.skip(full);
        let ghost added = bits_of(v as nat, count as nat);
        proof {
            assert(v as nat % pow2(count as nat) == v as nat);
            lemma_value_of_bound(pending);
            lemma_value_of_concat(pending, added);
            lemma_pow2_adds(count as nat, shift as nat);
            lemma_pow2_adds((self.nbits + count) as nat, shift as nat);
            lemma_pow2_adds(self.nbits as nat, count as nat);
            let pv = value_of(pending);
            let nb = self.nbits as nat;
            let c = count as nat;
            let sh = shift as nat;
            assert(pow2((32 - nb) as nat) == pow2(c) * pow2(sh));
            assert(pv * pow2((32 - nb) as nat) + v * pow2(sh) == (pv * pow2(c) + v) * pow2(sh))
                by (nonlinear_arith)
                requires
                    pow2((32 - nb) as nat) == pow2(c) * pow2(sh),
            ;
            assert((pv * pow2(c) + v) < pow2(nb + c)) by (nonlinear_arith)
                requires
                    pv < pow2(nb),
                    v < pow2(c),
                    pow2(nb + c) == pow2(nb) * pow2(c),
            ;
            lemma_pow2_pos(sh);
            assert((pv * pow2(c) + v) * pow2(sh) < pow2(32)) by (nonlinear_arith)
                requires
                    (pv * pow2(c) + v) < pow2(nb + c),
                    pow2(sh) > 0,
                    pow2(32) == pow2(nb + c) * pow2(sh),
            ;
            vstd::bits::lemma_u32_pow2_no_overflow(sh);
            assert(v * pow2(sh) <= (pv * pow2(c) + v) * pow2(sh)) by (nonlinear_arith);
            vstd::bits::lemma_u32_shl_is_mul(v, shift);
        }
        self.acc = self.acc + (v << shift);
        self.nbits = self.nbits + count as u32;
        self.bits = Ghost(b0 + added);
        proof {
            assert(self.bits@.skip(full) =~= pending + added);
            assert(self.bits@.take(full) =~= b0.take(full));
        }
        while self.nbits >= 8
            invariant
                self.nbits <= 32,
                self.bits@.len() >= self.nbits,
                (self.bits@.len() - self.nbits) % 8 == 0,
                self.bits@.len() % 8 == self.nbits % 8,
                self.out@ == stuff(pack(self.bits@.take(self.bits@.len() - self.nbits))),
                self.acc == value_of(self.bits@.skip(self.bits@.len() - self.nbits)) * pow2(
                    (32 - self.nbits) as nat,
                ),
                self.bits@ == b0 + added,
            decreases self.nbits,
        {
            let ghost b = self.bits@;
            let ghost f = (b.len() - self.nbits) as nat;
            let ghost p = b.skip(f as int);
            let ghost head = p.take(8);
            let ghost tail = p.skip(8);
            let ghost out0 = self.out@;
            proof {
                vstd::arithmetic::power2::lemma2_to64();
                lemma_pow2_pos((32 - self.nbits) as nat);
                assert(p =~= head + tail);
                lemma_value_of_concat(head, tail);
                lemma_value_of_bound(tail);
                lemma_value_of_bound(head);
                let nb = self.nbits as nat;
                lemma_pow2_adds(8, (nb - 8) as nat);
                lemma_pow2_adds((nb - 8) as nat, (32 - nb) as nat);
                lemma_pow2_adds(8, (32 - nb) as nat);
                let hv = value_of(head);
                let tv = value_of(tail);
                assert(self.acc == hv * pow2(24) + tv * pow2((32 - nb) as nat)) by (nonlinear_arith)
                    requires
                        self.acc == (hv * pow2((nb - 8) as nat) + tv) * pow2((32 - nb) as nat),
                        pow2(24) == pow2((nb - 8) as nat) * pow2((32 - nb) as nat),
                ;
                assert(tv * pow2((32 - nb) as nat) < pow2(24)) by (nonlinear_arith)
                    requires
                        tv < pow2((nb - 8) as nat),
                        pow2((32 - nb) as nat) > 0,
                        pow2(24) == pow2((nb - 8) as nat) * pow2((32 - nb) as nat),
                ;
                vstd::arithmetic::div_mod::lemma_fundamental_div_mod_converse(
                    self.acc as int,
                    pow2(24) as int,
                    hv as int,
                    (tv * pow2((32 - nb) as nat)) as int,
                );
                assert(tv * pow2((32 - nb) as nat) * 256 == tv * pow2((40 - nb) as nat)) by {
                    lemma_pow2_adds((32 - nb) as nat, 8);
                    assert(tv * pow2((32 - nb) as nat) * pow2(8) == tv * (pow2((32 - nb) as nat)
                        * pow2(8))) by (nonlinear_arith);
                }
                lemma_pack_push(b, f);
                assert(b.subrange(f as int, f as int + 8) =~= head);
                assert(b.skip(f as int + 8) =~= tail);
            }
            let byte = (self.acc / 0x100_0000) as u8;
            self.out.push(byte);
            if byte == MARKER {
                self.out.push(0);
            }
            self.acc = (self.acc % 0x100_0000) * 256;
            self.nbits = self.nbits - 8;
            proof {
                let pk = pack(b.take(f as int));
                assert(byte == value_of(head) as u8);
                assert(pack(b.take(f as int + 8)) == pk.push(byte));
                assert(pk.push(byte).drop_last() =~= pk);
                assert(stuff(pk.push(byte)) == stuff(pk) + stuff_byte(byte));
                assert(self.out@ =~= out0 + stuff_byte(byte));
                assert(self.bits@.len() - self.nbits == f + 8);
            }
        }
    }

    /// Pads the final partial byte with one-bits (the JPEG convention) and returns the bytes.
    pub fn finish(self) -> (r: Vec<u8>)
        requires
            self.wf(),
        ensures
            r@ == stuff(pack(self.spec_bits() + ones(pad_len(self.spec_bits().len())))),
    {
        let mut w = self;
        if w.nbits > 0 {
            let pad = (8 - w.nbits) as u8;
            w.put(0xFF, pad);
            proof {
                vstd::arithmetic::power2::lemma2_to64();
                assert(bits_of(0xFFnat % pow2(pad as nat), pad as nat) =~= ones(pad as nat)) by {
                    lemma_ones_bits(pad as nat);
                }
            }
        } else {
            proof {
                assert(w.bits@ + ones(0) =~= w.bits@);
                assert(w.bits@.take(w.bits@.len() as int) =~= w.bits@);
            }
        }
        proof {
            assert(w.bits@.take(w.bits@.len() as int) =~= w.bits@);
            assert(pack(w.bits@) =~= pack(w.bits@.take(w.bits@.len() as int)));
        }
        w.out
    }
}

/// `p` low bits of `0xFF`, for `p <= 8`, are `p` ones.
proof fn lemma_ones_bits(p: nat)
    requires
        p <= 8,
    ensures
        bits_of(0xFFnat % pow2(p), p) == ones(p),
{
    vstd::arithmetic::power2::lemma2_to64();
    lemma_ones_bits_of(p);
    let m = pow2(p);
    assert(0xFFnat % m == (m - 1) as nat) by {
        assert(m == 1 || m == 2 || m == 4 || m == 8 || m == 16 || m == 32 || m == 64 || m == 128
            || m == 256);
    }
}

/// `2^p - 1` is `p` one-bits.
proof fn lemma_ones_bits_of(p: nat)
    ensures
        bits_of((pow2(p) - 1) as nat, p) == ones(p),
    decreases p,
{
    vstd::arithmetic::power2::lemma2_to64();
    if p > 0 {
        lemma_pow2_unfold(p);
        lemma_pow2_pos((p - 1) as nat);
        let m = (pow2(p) - 1) as nat;
        assert(m / 2 == (pow2((p - 1) as nat) - 1) as nat);
        assert(m % 2 == 1);
        lemma_ones_bits_of((p - 1) as nat);
        assert(bits_of(m, p) =~= ones(p));
    }
}

// ---------------------------------------------------------------------------------------------
// Reading entropy-coded bits.

/// A reader's position: `(pos, byte, bits left in byte)`.
pub type ReadState = (nat, nat, nat);

/// The next byte at `pos` and where reading continues: a stuffed `FF 00` yields `FF` and skips
/// both, any other `FF` is a marker that stays in place (so the reader sees one-bits from then on),
/// and past the end the reader sees zero bytes.
pub open spec fn fetch(data: Seq<u8>, pos: nat) -> (u8, nat) {
    if pos < data.len() {
        let byte = data[pos as int];
        if byte == MARKER {
            if pos + 1 < data.len() && data[pos + 1int] == 0 {
                (byte, pos + 2)
            } else {
                (byte, pos)
            }
        } else {
            (byte, pos + 1)
        }
    } else {
        (0, pos)
    }
}

/// One read: the next bit, most significant first within each fetched byte, and the state after.
pub open spec fn step(data: Seq<u8>, st: ReadState) -> (bool, ReadState) {
    let byte: nat = if st.2 == 0 {
        fetch(data, st.0).0 as nat
    } else {
        st.1
    };
    let pos: nat = if st.2 == 0 {
        fetch(data, st.0).1
    } else {
        st.0
    };
    let left: nat = if st.2 == 0 {
        7
    } else {
        (st.2 - 1) as nat
    };
    ((byte / pow2(left)) % 2 == 1, (pos, byte, left))
}

/// The state after `n` reads.
pub open spec fn read_state(data: Seq<u8>, st: ReadState, n: nat) -> ReadState
    decreases n,
{
    if n == 0 {
        st
    } else {
        step(data, read_state(data, st, (n - 1) as nat)).1
    }
}

/// The `n` bits the next `n` reads give.
pub open spec fn read_bits(data: Seq<u8>, st: ReadState, n: nat) -> Seq<bool>
    decreases n,
{
    if n == 0 {
        Seq::empty()
    } else {
        read_bits(data, st, (n - 1) as nat).push(step(data, read_state(data, st, (n - 1) as nat)).0)
    }
}

/// MSB-first bit reader that unstuffs `FF 00` and treats other markers as end-of-stream.
pub struct BitReader<'a> {
    data: &'a [u8],
    pos: usize,
    acc: u32,
    nbits: u32,
}

impl<'a> BitReader<'a> {
    /// The bytes being read.
    pub closed spec fn spec_data(&self) -> Seq<u8> {
        self.data@
    }

    /// The reader's position.
    pub closed spec fn spec_state(&self) -> ReadState {
        (self.pos as nat, self.acc as nat, self.nbits as nat)
    }

    /// The position is inside the data and the current byte is a byte.
    pub closed spec fn wf(&self) -> bool {
        &&& self.pos <= self.data@.len()
        &&& self.acc < 256
        &&& self.nbits <= 8
    }

    /// A reader at the start of `data`.
    pub fn new(data: &'a [u8]) -> (r: Self)
        ensures
            r.wf(),
            r.spec_data() == data@,
            r.spec_state() == (0nat, 0nat, 0nat),
    {
        Self { data, pos: 0, acc: 0, nbits: 0 }
    }

    /// Reads one bit.
    pub fn next_bit(&mut self) -> (r: u32)
        requires
            old(self).wf(),
        ensures
            final(self).wf(),
            final(self).spec_data() == old(self).spec_data(),
            r == (if step(old(self).spec_data(), old(self).spec_state()).0 {
                1u32
            } else {
                0u32
            }),
            final(self).spec_state() == step(old(self).spec_data(), old(self).spec_state()).1,
    {
        if self.nbits == 0 {
            let len = self.data.len();
            let byte = if self.pos < len {
                self.data[self.pos]
            } else {
                0
            };
            if self.pos < len {
                if byte == MARKER {
                    if self.pos + 1 < len && self.data[self.pos + 1] == 0 {
                        self.pos = self.pos + 2;
                    }
                } else {
                    self.pos = self.pos + 1;
                }
            }
            self.acc = byte as u32;
            self.nbits = 8;
        }
        self.nbits = self.nbits - 1;
        let shifted = self.acc >> self.nbits;
        proof {
            vstd::bits::lemma_u32_shr_is_div(self.acc, self.nbits);
            assert(shifted & 1 == shifted % 2) by (bit_vector);
        }
        shifted & 1
    }

    /// Reads `count` bits, most significant first.
    fn receive(&mut self, count: u8) -> (r: u32)
        requires
            old(self).wf(),
            count <= 16,
        ensures
            final(self).wf(),
            final(self).spec_data() == old(self).spec_data(),
            r == value_of(read_bits(old(self).spec_data(), old(self).spec_state(), count as nat)),
            final(self).spec_state() == read_state(
                old(self).spec_data(),
                old(self).spec_state(),
                count as nat,
            ),
    {
        let ghost data = self.spec_data();
        let ghost st = self.spec_state();
        let mut v: u32 = 0;
        let mut i: u8 = 0;
        while i < count
            invariant
                self.wf(),
                self.spec_data() == data,
                i <= count,
                count <= 16,
                v == value_of(read_bits(data, st, i as nat)),
                self.spec_state() == read_state(data, st, i as nat),
            decreases count - i,
        {
            proof {
                lemma_value_of_bound(read_bits(data, st, i as nat));
                lemma_read_bits_len(data, st, i as nat);
                vstd::arithmetic::power2::lemma_pow2_strictly_increases(i as nat, 16);
                vstd::arithmetic::power2::lemma2_to64();
            }
            let bit = self.next_bit();
            proof {
                let b = read_bits(data, st, (i + 1) as nat);
                assert(b.drop_last() =~= read_bits(data, st, i as nat));
            }
            v = v * 2 + bit;
            i = i + 1;
        }
        v
    }
}

/// `n` reads give `n` bits.
pub proof fn lemma_read_bits_len(data: Seq<u8>, st: ReadState, n: nat)
    ensures
        read_bits(data, st, n).len() == n,
    decreases n,
{
    if n > 0 {
        lemma_read_bits_len(data, st, (n - 1) as nat);
    }
}

/// Reconstructs a difference from its category `ssss` and the mantissa bits read from `reader`:
/// categories 0 and 16 read nothing.
pub fn extend(reader: &mut BitReader, ssss: u8) -> (r: i32)
    requires
        old(reader).wf(),
        ssss <= 16,
    ensures
        final(reader).wf(),
        final(reader).spec_data() == old(reader).spec_data(),
        ssss == 0 || ssss == 16 ==> final(reader).spec_state() == old(reader).spec_state(),
        1 <= ssss <= 15 ==> final(reader).spec_state() == read_state(
            old(reader).spec_data(),
            old(reader).spec_state(),
            ssss as nat,
        ),
        r == extended(
            if 1 <= ssss <= 15 {
                value_of(read_bits(old(reader).spec_data(), old(reader).spec_state(), ssss as nat))
            } else {
                0
            },
            ssss as nat,
        ),
{
    if ssss == 0 {
        return 0;
    }
    if ssss == 16 {
        return -32768;
    }
    let t = reader.receive(ssss);
    proof {
        lemma_value_of_bound(read_bits(old(reader).spec_data(), old(reader).spec_state(), ssss as nat));
        lemma_read_bits_len(old(reader).spec_data(), old(reader).spec_state(), ssss as nat);
        vstd::arithmetic::power2::lemma2_to64();
        vstd::bits::lemma_u32_pow2_no_overflow(ssss as nat);
        vstd::bits::lemma_u32_pow2_no_overflow((ssss - 1) as nat);
        vstd::bits::lemma_u32_shl_is_mul(1, ssss as u32);
        vstd::bits::lemma_u32_shl_is_mul(1, (ssss - 1) as u32);
        vstd::arithmetic::power2::lemma_pow2_strictly_increases(ssss as nat, 16);
    }
    let half = (1u32 << ((ssss - 1) as u32)) as i32;
    let full = (1u32 << (ssss as u32)) as i32;
    let t = t as i32;
    if t < half {
        t - full + 1
    } else {
        t
    }
}

/// The first table index at or after `from` whose entry is `(code, len)`.
pub open spec fn find_code(codes: Seq<(u16, u8)>, code: nat, len: nat, from: nat) -> Option<int>
    decreases codes.len() - from,
{
    if from >= codes.len() {
        None
    } else if codes[from as int] == (code as u16, len as u8) {
        Some(from as int)
    } else {
        find_code(codes, code, len, from + 1)
    }
}

/// A found index is a table index.
pub proof fn lemma_find_code_bound(codes: Seq<(u16, u8)>, code: nat, len: nat, from: nat)
    ensures
        find_code(codes, code, len, from) matches Some(i) ==> from <= i < codes.len() && codes[i]
            == (code as u16, len as u8),
    decreases codes.len() - from,
{
    if from < codes.len() && codes[from as int] != (code as u16, len as u8) {
        lemma_find_code_bound(codes, code, len, from + 1);
    }
}

/// The symbol the reader at `st` decodes with `codes`, and the code length it reads: the first
/// length `len..=16` whose bits name a table entry, the lowest such entry winning.
pub open spec fn first_match(codes: Seq<(u16, u8)>, data: Seq<u8>, st: ReadState, len: nat) -> Option<
    (int, nat),
>
    decreases 17 - len,
{
    if len > 16 || len == 0 {
        None
    } else {
        match find_code(codes, value_of(read_bits(data, st, len)), len, 0) {
            Some(sym) => Some((sym, len)),
            None => first_match(codes, data, st, len + 1),
        }
    }
}

/// The refusal of bits that name no table entry.
pub const MSG_HUFFMAN: &'static str = "DNG: invalid lossless-JPEG Huffman code";

/// Looks `(code, len)` up in the table.
fn find_entry(codes: &[(u16, u8)], code: u16, len: u8) -> (r: Option<usize>)
    ensures
        match r {
            Some(i) => find_code(codes@, code as nat, len as nat, 0) == Some(i as int),
            None => find_code(codes@, code as nat, len as nat, 0) is None,
        },
{
    let mut i: usize = 0;
    while i < codes.len()
        invariant
            i <= codes@.len(),
            find_code(codes@, code as nat, len as nat, 0) == find_code(codes@, code as nat, len as nat, i as nat),
        decreases codes@.len() - i,
    {
        let (c, l) = codes[i];
        if l == len && c == code {
            return Some(i);
        }
        i = i + 1;
    }
    None
}

/// Decodes one Huffman symbol (the magnitude category) using the canonical table.
fn decode_symbol(reader: &mut BitReader, codes: &[(u16, u8)]) -> (r: Result<u8>)
    requires
        old(reader).wf(),
        codes@.len() <= 256,
    ensures
        final(reader).wf(),
        final(reader).spec_data() == old(reader).spec_data(),
        match r {
            Ok(sym) => first_match(codes@, old(reader).spec_data(), old(reader).spec_state(), 1) matches Some(
                (s, l),
            ) && s == sym as int && final(reader).spec_state() == read_state(
                old(reader).spec_data(),
                old(reader).spec_state(),
                l,
            ),
            Err(e) => first_match(codes@, old(reader).spec_data(), old(reader).spec_state(), 1) is None
                && e.spec_kind() == ErrorKind::InvalidInput && e.spec_static_message() == Some(
                MSG_HUFFMAN,
            ),
        },
{
    let ghost data = reader.spec_data();
    let ghost st = reader.spec_state();
    let mut code: u16 = 0;
    let mut len: u8 = 1;
    while len <= 16
        invariant
            reader.wf(),
            reader.spec_data() == data,
            data == old(reader).spec_data(),
            st == old(reader).spec_state(),
            1 <= len <= 17,
            codes@.len() <= 256,
            code == value_of(read_bits(data, st, (len - 1) as nat)),
            reader.spec_state() == read_state(data, st, (len - 1) as nat),
            first_match(codes@, data, st, 1) == first_match(codes@, data, st, len as nat),
        decreases 17 - len,
    {
        proof {
            lemma_value_of_bound(read_bits(data, st, (len - 1) as nat));
            lemma_read_bits_len(data, st, (len - 1) as nat);
            vstd::arithmetic::power2::lemma_pow2_strictly_increases((len - 1) as nat, 16);
            vstd::arithmetic::power2::lemma2_to64();
        }
        let bit = reader.next_bit();
        proof {
            let b = read_bits(data, st, len as nat);
            assert(b.drop_last() =~= read_bits(data, st, (len - 1) as nat));
        }
        code = code * 2 + bit as u16;
        proof {
            let b = read_bits(data, st, len as nat);
            assert(code as nat == value_of(b));
        }
        match find_entry(codes, code, len) {
            Some(sym) => {
                proof {
                    assert(first_match(codes@, data, st, len as nat) == Some((sym as int, len as nat)));
                    lemma_find_code_bound(codes@, code as nat, len as nat, 0);
                }
                return Ok(sym as u8);
            },
            None => {},
        }
        len = len + 1;
    }
    Err(Error::InvalidInput(MSG_HUFFMAN))
}

// ---------------------------------------------------------------------------------------------
// Encoding.

/// The big-endian bytes of `v`, truncated to 16 bits as the header fields store it.
pub open spec fn be16_bytes(v: nat) -> Seq<u8> {
    let w = v % 65536;
    seq![(w / 256) as u8, (w % 256) as u8]
}

/// The SOF3 component specifications: id `i + 1`, sampling `1x1`, no quantisation table.
pub open spec fn frame_components(n: nat) -> Seq<u8>
    decreases n,
{
    if n == 0 {
        Seq::empty()
    } else {
        frame_components((n - 1) as nat) + seq![(n % 256) as u8, 0x11u8, 0x00u8]
    }
}

/// The SOS component selectors: id `i + 1`, DC table 0, AC table 0.
pub open spec fn scan_components(n: nat) -> Seq<u8>
    decreases n,
{
    if n == 0 {
        Seq::empty()
    } else {
        scan_components((n - 1) as nat) + seq![(n % 256) as u8, 0x00u8]
    }
}

/// The SOF3 frame header: marker, length, precision, height, width, and the components.
pub open spec fn frame_header(width: nat, height: nat, components: nat, precision: nat) -> Seq<u8> {
    seq![MARKER, SOF3] + be16_bytes(8 + 3 * components) + seq![(precision % 256) as u8] + be16_bytes(height)
        + be16_bytes(width) + seq![(components % 256) as u8] + frame_components(components)
}

/// The DHT segment carrying the fixed table.
pub open spec fn table_segment() -> Seq<u8> {
    seq![MARKER, DHT] + be16_bytes(36) + seq![0x00u8] + BITS@ + HUFFVAL@
}

/// The SOS scan header: every component, predictor selector 1.
pub open spec fn scan_header(components: nat) -> Seq<u8> {
    seq![MARKER, SOS] + be16_bytes(6 + 2 * components) + seq![(components % 256) as u8] + scan_components(
        components,
    ) + seq![1u8, 0u8, 0u8]
}

/// Everything the encoder writes before the entropy-coded data: SOI, the SOF3 frame header, the
/// fixed Huffman table, and the scan header selecting predictor 1.
pub open spec fn header(width: nat, height: nat, components: nat, precision: nat) -> Seq<u8> {
    seq![MARKER, SOI] + frame_header(width, height, components, precision) + table_segment()
        + scan_header(components)
}

/// The position `(x, y, component)` of interleaved sample `i`.
pub open spec fn coords(i: nat, width: nat, comp: nat) -> (nat, nat, nat) {
    ((i / comp) % width, (i / comp) / width, i % comp)
}

/// The reduced prediction error of sample `i`.
pub open spec fn diff_at(s: Seq<u16>, width: nat, comp: nat, precision: nat, i: nat) -> int {
    let (x, y, c) = coords(i, width, comp);
    reduced(s[i as int] as int - prediction(s, width, comp, x, y, c, precision))
}

/// The bits the encoder writes for sample `i`: its category's code, then the mantissa for
/// categories `1..=15`.
pub open spec fn sample_bits(s: Seq<u16>, width: nat, comp: nat, precision: nat, i: nat) -> Seq<
    bool,
> {
    let d = diff_at(s, width, comp, precision, i);
    let cat = category(d);
    let (code, len) = fixed_entry(cat as int);
    bits_of(code as nat % pow2(len as nat), len as nat) + if 1 <= cat <= 15 {
        bits_of(mantissa(d) % pow2(cat), cat)
    } else {
        Seq::empty()
    }
}

/// The entropy-coded bits of the first `n` samples.
pub open spec fn entropy_bits(s: Seq<u16>, width: nat, comp: nat, precision: nat, n: nat) -> Seq<
    bool,
>
    decreases n,
{
    if n == 0 {
        Seq::empty()
    } else {
        entropy_bits(s, width, comp, precision, (n - 1) as nat) + sample_bits(
            s,
            width,
            comp,
            precision,
            (n - 1) as nat,
        )
    }
}

/// The lossless-JPEG stream the encoder writes: the headers, the entropy-coded samples padded
/// with one-bits to a whole byte and byte-stuffed, and EOI.
pub open spec fn encoded(
    s: Seq<u16>,
    width: nat,
    height: nat,
    comp: nat,
    precision: nat,
) -> Seq<u8> {
    let b = entropy_bits(s, width, comp, precision, width * height * comp);
    header(width, height, comp, precision) + stuff(pack(b + ones(pad_len(b.len())))) + seq![
        MARKER,
        EOI,
    ]
}

/// Sample `i` sits at its coordinates.
pub proof fn lemma_coords(i: nat, width: nat, comp: nat)
    requires
        width > 0,
        comp > 0,
    ensures
        ({
            let (x, y, c) = coords(i, width, comp);
            &&& x < width
            &&& c < comp
            &&& (y * width + x) * comp + c == i
        }),
{
    let p = i / comp;
    vstd::arithmetic::div_mod::lemma_fundamental_div_mod(i as int, comp as int);
    vstd::arithmetic::div_mod::lemma_fundamental_div_mod(p as int, width as int);
    vstd::arithmetic::div_mod::lemma_mod_bound(i as int, comp as int);
    vstd::arithmetic::div_mod::lemma_mod_bound(p as int, width as int);
    let x = p % width;
    let y = p / width;
    assert((y * width + x) * comp + i % comp == i) by (nonlinear_arith)
        requires
            i == comp * p + i % comp,
            p == width * y + x,
    ;
}

/// Appends a 16-bit big-endian field.
fn push_be16(out: &mut Vec<u8>, v: usize)
    ensures
        final(out)@ == old(out)@ + be16_bytes(v as nat),
{
    let w = (v % 65536) as u16;
    out.push((w / 256) as u8);
    out.push((w % 256) as u8);
    assert(final(out)@ =~= old(out)@ + be16_bytes(v as nat));
}

/// Appends bytes.
fn push_all(out: &mut Vec<u8>, bytes: &[u8])
    ensures
        final(out)@ == old(out)@ + bytes@,
{
    let ghost start = out@;
    let mut i: usize = 0;
    while i < bytes.len()
        invariant
            i <= bytes@.len(),
            out@ == start + bytes@.take(i as int),
        decreases bytes@.len() - i,
    {
        out.push(bytes[i]);
        i = i + 1;
        assert(out@ =~= start + bytes@.take(i as int));
    }
    assert(bytes@.take(bytes@.len() as int) =~= bytes@);
}

/// Appends the SOF3 frame header.
fn write_frame_header(
    out: &mut Vec<u8>,
    width: usize,
    height: usize,
    components: usize,
    precision: u16,
)
    ensures
        final(out)@ == old(out)@ + frame_header(
            width as nat,
            height as nat,
            components as nat,
            precision as nat,
        ),
{
    let ghost start = out@;
    out.push(MARKER);
    out.push(SOF3);
    let sof_len = (8 + 3 * (components as u128)) % 65536;
    push_be16(out, sof_len as usize);
    out.push((precision % 256) as u8);
    push_be16(out, height);
    push_be16(out, width);
    out.push((components % 256) as u8);
    let ghost before_frame = out@;
    let mut i: usize = 0;
    while i < components
        invariant
            i <= components,
            out@ == before_frame + frame_components(i as nat),
        decreases components - i,
    {
        out.push(((i + 1) % 256) as u8);
        out.push(0x11);
        out.push(0x00);
        i = i + 1;
        assert(out@ =~= before_frame + frame_components(i as nat));
    }
    proof {
        assert(be16_bytes(sof_len as nat) == be16_bytes(8 + 3 * components as nat));
        assert(out@ =~= start + frame_header(
            width as nat,
            height as nat,
            components as nat,
            precision as nat,
        ));
    }
}

/// Appends the DHT segment carrying the fixed table.
fn write_table(out: &mut Vec<u8>)
    ensures
        final(out)@ == old(out)@ + table_segment(),
{
    let ghost start = out@;
    out.push(MARKER);
    out.push(DHT);
    push_be16(out, 36);
    out.push(0x00);
    push_all(out, &BITS);
    push_all(out, &HUFFVAL);
    assert(out@ =~= start + table_segment());
}

/// Appends the SOS scan header.
fn write_scan_header(out: &mut Vec<u8>, components: usize)
    ensures
        final(out)@ == old(out)@ + scan_header(components as nat),
{
    let ghost start = out@;
    out.push(MARKER);
    out.push(SOS);
    let sos_len = (6 + 2 * (components as u128)) % 65536;
    push_be16(out, sos_len as usize);
    out.push((components % 256) as u8);
    let ghost before_scan = out@;
    let mut i: usize = 0;
    while i < components
        invariant
            i <= components,
            out@ == before_scan + scan_components(i as nat),
        decreases components - i,
    {
        out.push(((i + 1) % 256) as u8);
        out.push(0x00);
        i = i + 1;
        assert(out@ =~= before_scan + scan_components(i as nat));
    }
    out.push(1);
    out.push(0);
    out.push(0);
    proof {
        assert(be16_bytes(sos_len as nat) == be16_bytes(6 + 2 * components as nat));
        assert(out@ =~= start + scan_header(components as nat));
    }
}

/// Writes the headers the encoder puts before the entropy-coded data.
fn write_header(out: &mut Vec<u8>, width: usize, height: usize, components: usize, precision: u16)
    requires
        old(out)@.len() == 0,
    ensures
        final(out)@ == header(width as nat, height as nat, components as nat, precision as nat),
{
    out.push(MARKER);
    out.push(SOI);
    write_frame_header(out, width, height, components, precision);
    write_table(out);
    write_scan_header(out, components);
    assert(out@ =~= header(width as nat, height as nat, components as nat, precision as nat));
}

/// Writes the bits of sample `i`: its category's code, then the mantissa for categories
/// `1..=15`.
fn encode_sample(
    writer: &mut BitWriter,
    codes: &Vec<(u16, u8)>,
    samples: &[u16],
    width: usize,
    components: usize,
    precision: u16,
    i: usize,
)
    requires
        old(writer).wf(),
        width > 0,
        components > 0,
        i < samples@.len(),
        1 <= precision <= 31,
        codes@ == Seq::new(256, |s: int| fixed_entry(s)),
    ensures
        final(writer).wf(),
        final(writer).spec_bits() == old(writer).spec_bits() + sample_bits(
            samples@,
            width as nat,
            components as nat,
            precision as nat,
            i as nat,
        ),
{
    proof {
        lemma_coords(i as nat, width as nat, components as nat);
    }
    let pixel = i / components;
    let c = i % components;
    let x = pixel % width;
    let y = pixel / width;
    let actual = samples[i] as i32;
    let predicted = predict(samples, width, components, x, y, c, precision);
    proof {
        vstd::arithmetic::power2::lemma2_to64();
        if precision < 31 {
            vstd::arithmetic::power2::lemma_pow2_strictly_increases((precision - 1) as nat, 30);
        }
    }
    let diff = reduce(actual - predicted);
    let (ssss, mantissa) = magnitude(diff);
    proof {
        let d = diff as int;
        if d != 0 && d != -32768 {
            lemma_bit_length_bound(abs(d), 31);
        }
    }
    let (code, len) = codes[ssss as usize];
    writer.put(code as u32, len);
    if ssss != 0 && ssss < 16 {
        writer.put(mantissa, ssss);
    }
    proof {
        let d = diff_at(samples@, width as nat, components as nat, precision as nat, i as nat);
        assert(diff == d);
        assert(final(writer).spec_bits() =~= old(writer).spec_bits() + sample_bits(
            samples@,
            width as nat,
            components as nat,
            precision as nat,
            i as nat,
        ));
    }
}

/// Encodes interleaved `samples` (`width * height * components`) as a lossless JPEG at `precision`
/// bits per sample.
pub fn encode(
    samples: &[u16],
    width: usize,
    height: usize,
    components: usize,
    precision: u16,
) -> (r: Vec<u8>)
    requires
        width * height * components <= samples@.len(),
        width * height * components > 0 ==> 1 <= precision <= 31,
    ensures
        r@ == encoded(samples@, width as nat, height as nat, components as nat, precision as nat),
{
    proof {
        lemma_fixed_table();
    }
    let codes = canonical_codes(&BITS, &HUFFVAL);
    let mut out: Vec<u8> = Vec::new();
    write_header(&mut out, width, height, components, precision);
    let len = samples.len();
    let n = if components == 0 {
        0
    } else {
        proof {
            assert(width * height <= width * height * components) by (nonlinear_arith)
                requires
                    components >= 1,
            ;
        }
        width * height * components
    };
    proof {
        assert(n == width * height * components) by (nonlinear_arith)
            requires
                components == 0 ==> n == 0,
                components != 0 ==> n == width * height * components,
        ;
    }
    let mut writer = BitWriter::new();
    let mut i: usize = 0;
    while i < n
        invariant
            writer.wf(),
            i <= n,
            n == width * height * components,
            n <= samples@.len(),
            n > 0 ==> 1 <= precision <= 31,
            codes@ == Seq::new(256, |s: int| fixed_entry(s)),
            writer.spec_bits() == entropy_bits(
                samples@,
                width as nat,
                components as nat,
                precision as nat,
                i as nat,
            ),
        decreases n - i,
    {
        proof {
            assert(width > 0 && components > 0) by (nonlinear_arith)
                requires
                    n == width * height * components,
                    n > 0,
            ;
        }
        encode_sample(&mut writer, &codes, samples, width, components, precision, i);
        i = i + 1;
    }
    let body = writer.finish();
    push_all(&mut out, body.as_slice());
    out.push(MARKER);
    out.push(EOI);
    proof {
        assert(out@ =~= encoded(
            samples@,
            width as nat,
            height as nat,
            components as nat,
            precision as nat,
        ));
    }
    out
}

// ---------------------------------------------------------------------------------------------
// Decoding.

/// The refusal of data that does not start with SOI.
pub const MSG_NO_SOI: &'static str = "DNG: not a JPEG (missing SOI)";

/// The refusal of data with no scan.
pub const MSG_NO_SOS: &'static str = "DNG: lossless JPEG missing SOS";

/// The refusal of data that ends inside a marker.
pub const MSG_TRUNCATED: &'static str = "DNG: truncated lossless JPEG";

/// The refusal of a marker segment too short for its length field.
pub const MSG_TRUNCATED_MARKER: &'static str = "DNG: truncated lossless-JPEG marker";

/// The refusal of a frame header that ends early.
pub const MSG_TRUNCATED_SOF3: &'static str = "DNG: truncated SOF3";

/// The refusal of a Huffman table that ends early.
pub const MSG_TRUNCATED_DHT: &'static str = "DNG: truncated DHT";

/// The refusal of a Huffman table whose values end early.
pub const MSG_TRUNCATED_DHT_VALUES: &'static str = "DNG: truncated DHT values";

/// The refusal of an image that ends before its scan.
pub const MSG_EOI_BEFORE_SOS: &'static str = "DNG: lossless JPEG ended before SOS";

/// The refusal of a scan with no Huffman table.
pub const MSG_NO_DHT: &'static str = "DNG: lossless JPEG missing DHT";

/// The refusal of a frame with a zero dimension.
pub const MSG_ZERO_DIMENSIONS: &'static str = "DNG: lossless JPEG has zero dimensions";

/// The refusal of a frame whose sample count overflows `usize`.
pub const MSG_OVERFLOW: &'static str = "DNG: lossless JPEG dimensions overflow";

/// The refusal of a category beyond 16.
pub const MSG_CATEGORY: &'static str = "DNG: lossless-JPEG category out of range";

/// The refusal of a sample precision the predictor cannot seed (zero, or wider than 31 bits).
pub const MSG_PRECISION: &'static str = "DNG: lossless-JPEG precision out of range";

/// The big-endian 16-bit field at `pos`.
pub open spec fn be16_at(data: Seq<u8>, pos: int) -> nat {
    data[pos] as nat * 256 + data[pos + 1] as nat
}

/// The first marker byte (`FF`) at or after `pos`.
pub open spec fn marker_from(data: Seq<u8>, pos: nat) -> Option<nat>
    decreases data.len() - pos,
{
    if pos >= data.len() {
        None
    } else if data[pos as int] == MARKER {
        Some(pos)
    } else {
        marker_from(data, pos + 1)
    }
}

/// The first position at or after `pos` that holds no fill `FF` byte (the end at the latest).
pub open spec fn past_fill(data: Seq<u8>, pos: nat) -> nat
    decreases data.len() - pos,
{
    if pos < data.len() && data[pos as int] == MARKER {
        past_fill(data, pos + 1)
    } else {
        pos
    }
}

/// A found marker lies at or after where the search began.
pub proof fn lemma_marker_from(data: Seq<u8>, pos: nat)
    ensures
        marker_from(data, pos) matches Some(at) ==> pos <= at < data.len() && data[at as int]
            == MARKER,
    decreases data.len() - pos,
{
    if pos < data.len() && data[pos as int] != MARKER {
        lemma_marker_from(data, pos + 1);
    }
}

/// Skipping fill bytes never moves back.
pub proof fn lemma_past_fill(data: Seq<u8>, pos: nat)
    ensures
        pos <= past_fill(data, pos),
    decreases data.len() - pos,
{
    if pos < data.len() && data[pos as int] == MARKER {
        lemma_past_fill(data, pos + 1);
    }
}

/// The frame fields the header walk collects: width, height, components, precision, and the
/// last Huffman table (per symbol value, as [`canonical_table`] builds it).
pub type HeaderFields = (nat, nat, nat, nat, Option<Seq<(u16, u8)>>);

/// The header walk from `pos`, with `seen` collected so far: find the next marker (skipping fill
/// `FF`s), then SOF3 sets the frame fields, DHT replaces the table, any other segment is skipped
/// by its length, and SOS ends the walk with the fields and where the scan data starts (`None`
/// when its length runs past the data). `None` when the data ends first, EOI comes first, or a
/// segment is cut short.
pub open spec fn walk_headers(data: Seq<u8>, pos: nat, seen: HeaderFields) -> Option<
    (HeaderFields, Option<nat>),
>
    decreases data.len() - pos,
{
    let len = data.len();
    match marker_from(data, pos) {
        None => None,
        Some(at) => {
            let q = past_fill(data, at);
            if q >= len {
                None
            } else {
                let marker = data[q as int];
                let p: int = q as int + 1;
                if marker == EOI || p + 2 > len {
                    None
                } else {
                    let seg = be16_at(data, p);
                    if marker == SOS {
                        Some(
                            (
                                seen,
                                if seg > len - p {
                                    None
                                } else {
                                    Some((p + seg) as nat)
                                },
                            ),
                        )
                    } else {
                        let next: Option<HeaderFields> = if marker == SOF3 {
                            if p + 8 > len {
                                None
                            } else {
                                Some(
                                    (
                                        be16_at(data, p + 5),
                                        be16_at(data, p + 3),
                                        data[p + 7] as nat,
                                        data[p + 2] as nat,
                                        seen.4,
                                    ),
                                )
                            }
                        } else if marker == DHT {
                            if p + 19 > len {
                                None
                            } else {
                                let bits = data.subrange(p + 3, p + 19);
                                let n = code_sizes(bits).len();
                                if p + 19 + n > len {
                                    None
                                } else {
                                    Some(
                                        (
                                            seen.0,
                                            seen.1,
                                            seen.2,
                                            seen.3,
                                            Some(
                                                canonical_table(
                                                    bits,
                                                    data.subrange(p + 19, p + 19 + n),
                                                ),
                                            ),
                                        ),
                                    )
                                }
                            }
                        } else {
                            Some(seen)
                        };
                        match next {
                            None => None,
                            Some(f) => {
                                if seg > len - p {
                                    None
                                } else {
                                    proof {
                                        lemma_marker_from(data, pos);
                                        lemma_past_fill(data, at);
                                    }
                                    walk_headers(data, (p + seg) as nat, f)
                                }
                            },
                        }
                    }
                }
            }
        }
    }
}

/// The samples a predictor-1 scan decodes to, from sample `i` on, with the reader at `st` and
/// the samples so far in `samples`: each sample reads a category with `codes` (refused when no
/// code matches or the category exceeds 16), then its mantissa for categories `1..=15`, and is
/// the prediction plus the extended difference, kept to 16 bits.
pub open spec fn scan_samples(
    codes: Seq<(u16, u8)>,
    data: Seq<u8>,
    width: nat,
    comp: nat,
    precision: nat,
    count: nat,
    i: nat,
    st: ReadState,
    samples: Seq<u16>,
) -> Option<Seq<u16>>
    decreases count - i,
{
    if i >= count {
        Some(samples)
    } else {
        match first_match(codes, data, st, 1) {
            None => None,
            Some((sym, l)) => {
                if sym > 16 {
                    None
                } else {
                    let cat = sym as nat;
                    let st1 = read_state(data, st, l);
                    let t = if 1 <= cat <= 15 {
                        value_of(read_bits(data, st1, cat))
                    } else {
                        0
                    };
                    let st2 = if 1 <= cat <= 15 {
                        read_state(data, st1, cat)
                    } else {
                        st1
                    };
                    let (x, y, c) = coords(i, width, comp);
                    let value = (prediction(samples, width, comp, x, y, c, precision) + extended(
                        t,
                        cat,
                    )) as u16;
                    scan_samples(
                        codes,
                        data,
                        width,
                        comp,
                        precision,
                        count,
                        i + 1,
                        st2,
                        samples.update(i as int, value),
                    )
                }
            },
        }
    }
}

/// What a lossless JPEG decodes to: after SOI, the header walk's frame fields and table; refused
/// without a table, with a zero dimension, a sample count past `usize::MAX`, a precision of zero
/// or over 31 bits, or no scan data; otherwise the geometry and the samples the scan decodes to
/// under the stream's own table, starting from zeros.
pub open spec fn decoded(data: Seq<u8>) -> Option<(nat, nat, nat, Seq<u16>)> {
    if data.len() < 2 || data[0] != MARKER || data[1] != SOI {
        None
    } else {
        match walk_headers(data, 2, (0, 0, 0, 0, None)) {
            None => None,
            Some((f, scan)) => {
                let (w, h, c, p, table) = f;
                let count = w * h * c;
                if table is None || w == 0 || h == 0 || c == 0 || count > usize::MAX || p == 0 || p
                    > 31 || scan is None {
                    None
                } else {
                    match scan_samples(
                        table->0,
                        data.skip(scan->0 as int),
                        w,
                        c,
                        p,
                        count,
                        0,
                        (0, 0, 0),
                        Seq::new(count, |k: int| 0u16),
                    ) {
                        None => None,
                        Some(s) => Some((w, h, c, s)),
                    }
                }
            },
        }
    }
}

/// Reads a big-endian `u16` at `pos`.
fn be16(data: &[u8], pos: usize) -> (r: Result<usize>)
    ensures
        match r {
            Ok(v) => pos + 2 <= data@.len() && v == be16_at(data@, pos as int),
            Err(e) => pos + 2 > data@.len() && e.spec_kind() == ErrorKind::InvalidInput,
        },
{
    if pos >= data.len() || data.len() - pos < 2 {
        return Err(Error::InvalidInput(MSG_TRUNCATED_MARKER));
    }
    Ok((data[pos] as usize) * 256 + data[pos + 1] as usize)
}

/// The byte at `pos`, or the refusal `message` past the end.
fn byte_at(data: &[u8], pos: usize, message: &'static str) -> (r: Result<u8>)
    ensures
        match r {
            Ok(v) => pos < data@.len() && v == data@[pos as int],
            Err(e) => pos >= data@.len() && e.spec_kind() == ErrorKind::InvalidInput
                && e.spec_static_message() == Some(message),
        },
{
    if pos < data.len() {
        Ok(data[pos])
    } else {
        Err(Error::InvalidInput(message))
    }
}

/// The first `FF` at or after `pos`.
fn next_marker(data: &[u8], pos: usize) -> (r: Option<usize>)
    ensures
        match r {
            Some(at) => pos <= at < data@.len() && data@[at as int] == MARKER && forall|k: int|
                pos <= k < at ==> data@[k] != MARKER,
            None => forall|k: int| pos <= k < data@.len() ==> data@[k] != MARKER,
        },
        match r {
            Some(at) => marker_from(data@, pos as nat) == Some(at as nat),
            None => marker_from(data@, pos as nat) is None,
        },
{
    let mut at = pos;
    while at < data.len()
        invariant
            pos <= at,
            forall|k: int| pos <= k < at ==> data@[k] != MARKER,
            marker_from(data@, pos as nat) == marker_from(data@, at as nat),
        decreases data@.len() - at,
    {
        if data[at] == MARKER {
            return Some(at);
        }
        at = at + 1;
    }
    None
}

/// The sum of the sixteen `BITS` counts.
fn table_count(bits: &[u8; 16]) -> (r: usize)
    ensures
        r == code_sizes(bits@).len(),
{
    proof {
        lemma_sizes_upto(bits@, 16);
    }
    let mut total: usize = 0;
    let mut l: usize = 0;
    while l < 16
        invariant
            l <= 16,
            total == sizes_upto(bits@, l as nat).len(),
            total <= 255 * l,
        decreases 16 - l,
    {
        total = total + bits[l] as usize;
        l = l + 1;
    }
    total
}

/// What the marker loop learns from the headers.
struct Frame {
    width: usize,
    height: usize,
    components: usize,
    precision: u16,
    codes: Option<Vec<(u16, u8)>>,
    scan: Option<usize>,
}

/// A table as the header walk sees it.
spec fn table_of(codes: Option<Vec<(u16, u8)>>) -> Option<Seq<(u16, u8)>> {
    match codes {
        Some(c) => Some(c@),
        None => None,
    }
}

/// A scan position as the header walk sees it.
spec fn scan_of(scan: Option<usize>) -> Option<nat> {
    match scan {
        Some(at) => Some(at as nat),
        None => None,
    }
}

/// What [`read_headers`] returns, as the header walk from just past SOI gives it.
spec fn frame_walked(data: Seq<u8>, f: Frame) -> bool {
    walk_headers(data, 2, (0, 0, 0, 0, None)) == Some(
        (
            (
                f.width as nat,
                f.height as nat,
                f.components as nat,
                f.precision as nat,
                table_of(f.codes),
            ),
            scan_of(f.scan),
        ),
    )
}

/// Walks the marker segments after SOI up to and including SOS, returning the frame parameters,
/// the last Huffman table, and the position of the entropy-coded data. On data that begins with
/// the headers [`encode`] writes for the geometry `expect`, that is what it finds.
#[verifier::spinoff_prover]
#[verifier::rlimit(100)]
fn read_headers(data: &[u8], Ghost(expect): Ghost<(nat, nat, nat, nat)>) -> (r: Result<Frame>)
    requires
        data@.len() >= 2,
    ensures
        match r {
            Ok(f) => (f.codes matches Some(c) ==> c@.len() == 256) && (f.scan matches Some(at)
                ==> at <= data@.len()) && f.width <= 65535 && f.height <= 65535 && f.components
                <= 255 && f.precision <= 255,
            Err(e) => e.spec_kind() == ErrorKind::InvalidInput,
        },
        header_at(data@, expect.0, expect.1, expect.2, expect.3) ==> (r matches Ok(f) && f.width
            == expect.0 && f.height == expect.1 && f.components == expect.2 && f.precision
            == expect.3 && (f.codes matches Some(t) && t@ == fixed_codes()) && f.scan == Some(
            (58 + 5 * expect.2) as usize,
        )),
        match r {
            Ok(f) => frame_walked(data@, f),
            Err(_) => walk_headers(data@, 2, (0, 0, 0, 0, None)) is None,
        },
{
    let ghost hdr = header_at(data@, expect.0, expect.1, expect.2, expect.3);
    let ghost o: int = 3 * (expect.2 as int);
    let len = data.len();
    let mut pos: usize = 2;
    let mut width: usize = 0;
    let mut height: usize = 0;
    let mut components: usize = 0;
    let mut precision: u16 = 0;
    let mut codes: Option<Vec<(u16, u8)>> = None;
    loop
        invariant
            len == data@.len(),
            pos <= len,
            codes matches Some(c) ==> c@.len() == 256,
            width <= 65535,
            height <= 65535,
            components <= 255,
            precision <= 255,
            o == 3 * (expect.2 as int),
            hdr == header_at(data@, expect.0, expect.1, expect.2, expect.3),
            hdr ==> {
                ||| pos == 2 && codes is None
                ||| pos == 12 + o && codes is None && width == expect.0 && height == expect.1
                    && components == expect.2 && precision == expect.3
                ||| pos == 50 + o && (codes matches Some(t) && t@ == fixed_codes()) && width
                    == expect.0 && height == expect.1 && components == expect.2 && precision
                    == expect.3
            },
            walk_headers(data@, pos as nat, (
                width as nat,
                height as nat,
                components as nat,
                precision as nat,
                table_of(codes),
            )) == walk_headers(data@, 2, (0, 0, 0, 0, None)),
        decreases len - pos,
    {
        proof {
            if hdr {
                lemma_header_bytes(data@, expect.0, expect.1, expect.2, expect.3);
                assert(data@[pos as int] == MARKER);
                assert(data@[pos + 1] != MARKER);
            }
        }
        let at = match next_marker(data, pos) {
            Some(at) => at,
            None => return Err(Error::InvalidInput(MSG_NO_SOS)),
        };
        let mut p = at;
        while p < len && data[p] == MARKER
            invariant
                len == data@.len(),
                at <= p <= len,
                forall|k: int| at <= k < p ==> data@[k] == MARKER,
                past_fill(data@, at as nat) == past_fill(data@, p as nat),
            decreases len - p,
        {
            p = p + 1;
        }
        proof {
            if hdr {
                assert(at == pos);
                assert(p == at + 1);
            }
        }
        let marker = byte_at(data, p, MSG_TRUNCATED)?;
        let p = p + 1;
        if marker == EOI {
            return Err(Error::InvalidInput(MSG_EOI_BEFORE_SOS));
        }
        let seg = be16(data, p)?;
        if marker == SOF3 {
            if len - p <= 2 {
                return Err(Error::InvalidInput(MSG_TRUNCATED_SOF3));
            }
            precision = data[p + 2] as u16;
            height = be16(data, p + 3)?;
            width = be16(data, p + 5)?;
            if len - p <= 7 {
                return Err(Error::InvalidInput(MSG_TRUNCATED_SOF3));
            }
            components = data[p + 7] as usize;
        } else if marker == DHT {
            if len - p < 19 {
                return Err(Error::InvalidInput(MSG_TRUNCATED_DHT));
            }
            let bits_start = p + 3;
            let bits: [u8; 16] = [
                data[bits_start],
                data[bits_start + 1],
                data[bits_start + 2],
                data[bits_start + 3],
                data[bits_start + 4],
                data[bits_start + 5],
                data[bits_start + 6],
                data[bits_start + 7],
                data[bits_start + 8],
                data[bits_start + 9],
                data[bits_start + 10],
                data[bits_start + 11],
                data[bits_start + 12],
                data[bits_start + 13],
                data[bits_start + 14],
                data[bits_start + 15],
            ];
            proof {
                assert forall|k: int| 0 <= k < 16 implies bits@[k] == data@[bits_start + k] by {}
                assert(bits@ =~= data@.subrange(bits_start as int, bits_start + 16));
                if hdr {
                    assert(bits_start == 17 + o);
                    assert(bits@ =~= data@.subrange(17 + o, 33 + o));
                    assert forall|k: int| 0 <= k < 16 implies bits@[k] == BITS@[k] by {
                        assert(data@[17 + o + k] == BITS@[k]);
                        assert(data@.subrange(17 + o, 33 + o)[k] == data@[17 + o + k]);
                    }
                    assert(bits@ =~= BITS@);
                }
            }
            let nvals = table_count(&bits);
            let values_start = bits_start + 16;
            proof {
                lemma_fixed_table();
                if hdr {
                    assert(nvals == 17);
                    assert(values_start == 33 + o);
                    assert(len >= 58 + 5 * (expect.2 as int));
                }
            }
            if len - values_start < nvals {
                return Err(Error::InvalidInput(MSG_TRUNCATED_DHT_VALUES));
            }
            let huffval = slice_of(data, values_start, values_start + nvals);
            proof {
                assert(bits@.len() == 16);
            }
            codes = Some(canonical_codes(&bits, huffval.as_slice()));
        } else if marker == SOS {
            let scan = if seg > len - p {
                None
            } else {
                Some(p + seg)
            };
            return Ok(Frame { width, height, components, precision, codes, scan });
        }
        if seg > len - p {
            return Err(Error::InvalidInput(MSG_NO_SOS));
        }
        pos = p + seg;
    }
}

/// A copy of `data[start..end]`.
fn slice_of(data: &[u8], start: usize, end: usize) -> (r: Vec<u8>)
    requires
        start <= end <= data@.len(),
    ensures
        r@ == data@.subrange(start as int, end as int),
{
    let mut out: Vec<u8> = Vec::new();
    let mut i = start;
    while i < end
        invariant
            start <= i <= end,
            end <= data@.len(),
            out@ == data@.subrange(start as int, i as int),
        decreases end - i,
    {
        out.push(data[i]);
        i = i + 1;
        assert(out@ =~= data@.subrange(start as int, i as int));
    }
    out
}

/// What [`read_headers`] finds for an image of geometry `(w, h, c, p)`: those fields, the fixed
/// table, and the scan right after the headers.
spec fn frame_is(f: Frame, w: nat, h: nat, c: nat, p: nat) -> bool {
    &&& f.width == w
    &&& f.height == h
    &&& f.components == c
    &&& f.precision == p
    &&& f.codes matches Some(t) && t@ == fixed_codes()
    &&& f.scan == Some((58 + 5 * c) as usize)
}

/// Decodes a lossless JPEG, returning its geometry and interleaved samples.
///
/// Fails with [`Error::InvalidInput`] when the markers are malformed or the entropy stream is
/// invalid — and, where a careless reader would index past the data or shift by the precision,
/// when a segment length runs past the data or the precision is zero or wider than 31 bits.
///
/// The result is [`decoded`]: the geometry the header walk finds and the samples the scan
/// decodes to under the stream's own Huffman table; any failure is exactly where [`decoded`] is
/// `None`. Whatever [`encode`] writes for an image of 1 to 65535 columns and rows, 1 to 255
/// components and a precision of 1 to 17 bits decodes to that geometry and those samples.
#[verifier::spinoff_prover]
#[verifier::rlimit(60)]
pub fn decode(data: &[u8]) -> (r: Result<LosslessJpeg>)
    ensures
        match r {
            Ok(j) => j.width > 0 && j.height > 0 && j.components > 0 && j.samples@.len() == j.width
                * j.height * j.components,
            Err(e) => e.spec_kind() == ErrorKind::InvalidInput,
        },
        data@.len() < 2 || data@[0] != MARKER || data@[1] != SOI ==> (r matches Err(e)
            && e.spec_static_message() == Some(MSG_NO_SOI)),
        forall|s: Seq<u16>, w: nat, h: nat, c: nat, p: nat| #[trigger]
            is_encoding(data@, s, w, h, c, p) ==> (r matches Ok(j) && j.width == w && j.height == h
                && j.components == c && j.samples@ == s.take((w * h * c) as int)),
        match r {
            Ok(j) => decoded(data@) == Some(
                (j.width as nat, j.height as nat, j.components as nat, j.samples@),
            ),
            Err(_) => decoded(data@) is None,
        },
{
    if data.len() < 2 || data[0] != MARKER || data[1] != SOI {
        proof {
            assert forall|s: Seq<u16>, w: nat, h: nat, c: nat, p: nat| is_encoding(
                data@,
                s,
                w,
                h,
                c,
                p,
            ) implies false by {
                lemma_encoding_parts(data@, s, w, h, c, p);
                lemma_header_bytes(data@, w, h, c, p);
            }
        }
        return Err(Error::InvalidInput(MSG_NO_SOI));
    }
    let ghost t0 = choose|t: (nat, nat, nat, nat)| header_at(data@, t.0, t.1, t.2, t.3);
    let frame = match read_headers(data, Ghost(t0)) {
        Ok(f) => f,
        Err(e) => {
            proof {
                assert forall|s: Seq<u16>, w: nat, h: nat, c: nat, p: nat| is_encoding(
                    data@,
                    s,
                    w,
                    h,
                    c,
                    p,
                ) implies false by {
                    lemma_encoding_parts(data@, s, w, h, c, p);
                    let t = (w, h, c, p);
                    assert(header_at(data@, t.0, t.1, t.2, t.3));
                }
            }
            return Err(e);
        },
    };
    proof {
        assert forall|s: Seq<u16>, w: nat, h: nat, c: nat, p: nat| #[trigger] is_encoding(
            data@,
            s,
            w,
            h,
            c,
            p,
        ) implies frame_is(frame, w, h, c, p) && w * h <= usize::MAX by {
            lemma_encoding_parts(data@, s, w, h, c, p);
            let t = (w, h, c, p);
            assert(header_at(data@, t.0, t.1, t.2, t.3));
            lemma_header_unique(data@, t0.0, t0.1, t0.2, t0.3, w, h, c, p);
            assert(w * h <= w * h * c) by (nonlinear_arith)
                requires
                    c >= 1,
            ;
        }
    }
    let width = frame.width;
    let height = frame.height;
    let components = frame.components;
    let precision = frame.precision;
    let codes = match frame.codes {
        Some(c) => c,
        None => return Err(Error::InvalidInput(MSG_NO_DHT)),
    };
    if width == 0 || height == 0 || components == 0 {
        return Err(Error::InvalidInput(MSG_ZERO_DIMENSIONS));
    }
    proof {
        assert(width * height <= width * height * components) by (nonlinear_arith)
            requires
                components >= 1,
        ;
    }
    let count = match width.checked_mul(height) {
        Some(n) => match n.checked_mul(components) {
            Some(m) => m,
            None => return Err(Error::InvalidInput(MSG_OVERFLOW)),
        },
        None => return Err(Error::InvalidInput(MSG_OVERFLOW)),
    };
    if precision == 0 || precision > 31 {
        return Err(Error::InvalidInput(MSG_PRECISION));
    }
    let scan = match frame.scan {
        Some(at) => at,
        None => return Err(Error::InvalidInput(MSG_TRUNCATED)),
    };
    let mut samples: Vec<u16> = Vec::new();
    let mut k: usize = 0;
    while k < count
        invariant
            k <= count,
            samples@.len() == k,
            samples@ == Seq::new(k as nat, |j: int| 0u16),
        decreases count - k,
    {
        samples.push(0);
        k = k + 1;
        proof {
            assert(samples@ =~= Seq::new(k as nat, |j: int| 0u16));
        }
    }
    let entropy = &data[scan..data.len()];
    let mut reader = BitReader::new(entropy);
    let ghost tail = seq![MARKER, EOI];
    let ghost ed = reader.spec_data();
    let ghost goal = scan_samples(
        codes@,
        ed,
        width as nat,
        components as nat,
        precision as nat,
        count as nat,
        0,
        (0, 0, 0),
        samples@,
    );
    proof {
        assert(ed =~= data@.skip(scan as int));
        assert(decoded(data@) == match goal {
            None => None,
            Some(s) => Some((width as nat, height as nat, components as nat, s)),
        });
    }
    proof {
        assert forall|s: Seq<u16>| #[trigger] is_encoding(
            data@,
            s,
            width as nat,
            height as nat,
            components as nat,
            precision as nat,
        ) implies codes@ == fixed_codes() && reader.spec_data() == stuff(
            pack(entropy_stream(s, width as nat, components as nat, precision as nat, count as nat)),
        ) + tail && reader.spec_state() == expected_state(
            pack(entropy_stream(s, width as nat, components as nat, precision as nat, count as nat)),
            offset(s, width as nat, components as nat, precision as nat, 0),
        ) && samples@.take(0) == s.take(0) by {
            lemma_encoding_parts(
                data@,
                s,
                width as nat,
                height as nat,
                components as nat,
                precision as nat,
            );
            assert(samples@.take(0) =~= s.take(0));
        }
    }
    let mut i: usize = 0;
    while i < count
        invariant
            reader.wf(),
            i <= count,
            count == width * height * components,
            width > 0,
            components > 0,
            1 <= precision <= 31,
            samples@.len() == count,
            codes@.len() == 256,
            data@.len() >= 2 && data@[0] == MARKER && data@[1] == SOI,
            tail == seq![MARKER, EOI],
            forall|s: Seq<u16>, w: nat, h: nat, c: nat, p: nat| #[trigger]
                is_encoding(data@, s, w, h, c, p) ==> w == width && h == height && c == components
                    && p == precision,
            forall|s: Seq<u16>| #[trigger]
                is_encoding(
                    data@,
                    s,
                    width as nat,
                    height as nat,
                    components as nat,
                    precision as nat,
                ) ==> codes@ == fixed_codes() && reader.spec_data() == stuff(
                    pack(
                        entropy_stream(
                            s,
                            width as nat,
                            components as nat,
                            precision as nat,
                            count as nat,
                        ),
                    ),
                ) + tail && reader.spec_state() == expected_state(
                    pack(
                        entropy_stream(
                            s,
                            width as nat,
                            components as nat,
                            precision as nat,
                            count as nat,
                        ),
                    ),
                    offset(s, width as nat, components as nat, precision as nat, i as nat),
                ) && samples@.take(i as int) == s.take(i as int),
            reader.spec_data() == ed,
            scan_samples(
                codes@,
                ed,
                width as nat,
                components as nat,
                precision as nat,
                count as nat,
                i as nat,
                reader.spec_state(),
                samples@,
            ) == goal,
            decoded(data@) == match goal {
                None => None,
                Some(s) => Some((width as nat, height as nat, components as nat, s)),
            },
        decreases count - i,
    {
        let ghost rd = reader.spec_data();
        let ghost rs = reader.spec_state();
        let ssss = match decode_symbol(&mut reader, codes.as_slice()) {
            Ok(v) => v,
            Err(e) => {
                proof {
                    assert forall|s: Seq<u16>, w: nat, h: nat, c: nat, p: nat| is_encoding(
                        data@,
                        s,
                        w,
                        h,
                        c,
                        p,
                    ) implies false by {
                        lemma_sample_decodes(
                            s,
                            width as nat,
                            components as nat,
                            precision as nat,
                            count as nat,
                            i as nat,
                            tail,
                        );
                    }
                }
                return Err(e);
            },
        };
        let ghost rs1 = reader.spec_state();
        if ssss > 16 {
            proof {
                assert forall|s: Seq<u16>, w: nat, h: nat, c: nat, p: nat| is_encoding(
                    data@,
                    s,
                    w,
                    h,
                    c,
                    p,
                ) implies false by {
                    lemma_sample_decodes(
                        s,
                        width as nat,
                        components as nat,
                        precision as nat,
                        count as nat,
                        i as nat,
                        tail,
                    );
                }
            }
            return Err(Error::InvalidInput(MSG_CATEGORY));
        }
        let diff = extend(&mut reader, ssss);
        proof {
            lemma_coords(i as nat, width as nat, components as nat);
            vstd::arithmetic::power2::lemma2_to64();
            if precision < 31 {
                vstd::arithmetic::power2::lemma_pow2_strictly_increases((precision - 1) as nat, 30);
            }
            assert(-32768 <= diff <= 32767) by {
                if 1 <= ssss <= 15 {
                    vstd::arithmetic::power2::lemma_pow2_strictly_increases(ssss as nat, 16);
                    lemma_read_bits_len(rd, rs1, ssss as nat);
                    lemma_value_of_bound(read_bits(rd, rs1, ssss as nat));
                }
            }
        }
        let pixel = i / components;
        let c = i % components;
        let x = pixel % width;
        let y = pixel / width;
        let predicted = predict(samples.as_slice(), width, components, x, y, c, precision);
        let value = #[verifier::truncate] ((predicted + diff) as u16);
        let ghost before = samples@;
        samples.set(i, value);
        proof {
            assert forall|s: Seq<u16>| #[trigger] is_encoding(
                data@,
                s,
                width as nat,
                height as nat,
                components as nat,
                precision as nat,
            ) implies reader.spec_state() == expected_state(
                pack(
                    entropy_stream(s, width as nat, components as nat, precision as nat, count as nat),
                ),
                offset(s, width as nat, components as nat, precision as nat, (i + 1) as nat),
            ) && samples@.take(i + 1) == s.take(i + 1) by {
                lemma_sample_decodes(
                    s,
                    width as nat,
                    components as nat,
                    precision as nat,
                    count as nat,
                    i as nat,
                    tail,
                );
                lemma_prediction_prefix(
                    before,
                    s,
                    width as nat,
                    components as nat,
                    precision as nat,
                    i as nat,
                );
                vstd::arithmetic::power2::lemma2_to64();
                if precision < 17 {
                    vstd::arithmetic::power2::lemma_pow2_strictly_increases(
                        (precision - 1) as nat,
                        16,
                    );
                }
                lemma_reconstruct(predicted, diff, s[i as int]);
                assert(samples@.take(i + 1) =~= s.take(i + 1)) by {
                    assert forall|k: int| 0 <= k < i implies samples@[k] == s[k] by {
                        assert(before.take(i as int)[k] == s.take(i as int)[k]);
                    }
                }
            }
        }
        i = i + 1;
    }
    proof {
        assert forall|s: Seq<u16>, w: nat, h: nat, c: nat, p: nat| #[trigger] is_encoding(
            data@,
            s,
            w,
            h,
            c,
            p,
        ) implies samples@ == s.take((w * h * c) as int) by {
            assert(samples@ =~= samples@.take(count as int));
        }
    }
    Ok(LosslessJpeg { width, height, components, samples })
}

} // verus!

//! Huffman coding for DEFLATE: bit reversal, the fixed code tables (RFC 1951 §3.2.6), and the
//! length-limited canonical-code builder for dynamic blocks (§3.2.2).
//!
//! DEFLATE packs Huffman codes most-significant-bit-of-the-code first, but the bit writer is
//! LSB-first, so every code is bit-reversed via [`reverse_bits`] before emission.
use vstd::prelude::*;
use vstd::arithmetic::power2::{pow2, lemma_pow2_pos, lemma_pow2_unfold};

use crate::deflate::bitwriter::{lsb_bits, BitWriter};

verus! {

/// Maximum DEFLATE Huffman code length, in bits (RFC 1951).
pub const MAX_CODE_LEN: usize = 15;

/// Bit `i` of `v`.
pub open spec fn bit(v: nat, i: nat) -> nat {
    (v / pow2(i)) % 2
}

/// The low `len` bits of `v` in reverse order: bit `i` of `v` lands at bit `len - 1 - i`.
pub open spec fn reversed(v: nat, len: nat) -> nat
    decreases len,
{
    if len == 0 {
        0
    } else {
        2 * reversed(v, (len - 1) as nat) + bit(v, (len - 1) as nat)
    }
}

/// Reverses the low `len` bits of `value`, discarding higher bits (and, past 32 bits, keeping the
/// low 32 bits of the result).
pub fn reverse_bits(value: u32, len: u32) -> (r: u32)
    ensures
        r as nat == reversed(value as nat, len as nat) % pow2(32),
{
    let mut v = value;
    let mut r: u32 = 0;
    let mut k: u32 = 0;
    proof {
        vstd::arithmetic::power2::lemma2_to64();
    }
    while k < len
        invariant
            k <= len,
            v as nat == value as nat / pow2(k as nat),
            r as nat == reversed(value as nat, k as nat) % pow2(32),
        decreases len - k,
    {
        proof {
            vstd::arithmetic::power2::lemma2_to64();
            lemma_pow2_pos(k as nat);
            lemma_pow2_unfold((k + 1) as nat);
            vstd::arithmetic::div_mod::lemma_div_denominator(value as int, pow2(k as nat) as int, 2);
            let big = reversed(value as nat, k as nat);
            // (2 * big + b) mod 2^32 only needs big mod 2^31.
            vstd::arithmetic::div_mod::lemma_mod_mod(big as int, 0x8000_0000, 2);
            vstd::arithmetic::div_mod::lemma_fundamental_div_mod(big as int, 0x8000_0000);
            let q = big / 0x8000_0000;
            let m = big % 0x8000_0000;
            assert(2 * big + bit(value as nat, k as nat) == 0x1_0000_0000 * q + (2 * m + bit(value as nat, k as nat))) by (nonlinear_arith)
                requires
                    big == 0x8000_0000 * q + m,
            ;
            vstd::arithmetic::div_mod::lemma_mod_bound(big as int, 0x8000_0000);
            vstd::arithmetic::div_mod::lemma_fundamental_div_mod_converse_mod(
                (2 * big + bit(value as nat, k as nat)) as int,
                0x1_0000_0000,
                q as int,
                (2 * m + bit(value as nat, k as nat)) as int,
            );
            assert((r as nat) % 0x8000_0000 == m) by {
                vstd::arithmetic::div_mod::lemma_mod_mod(big as int, 0x1_0000_0000, 2);
            }
        }
        r = (r % 0x8000_0000) * 2 + v % 2;
        v = v / 2;
        k = k + 1;
    }
    r
}

/// The fixed literal/length code `(code, bit_length)` of RFC 1951 §3.2.6, MSB-first.
pub open spec fn spec_fixed_litlen(sym: nat) -> (nat, nat) {
    if sym <= 143 {
        ((0x30 + sym) as nat, 8)
    } else if sym <= 255 {
        ((0x190 + sym - 144) as nat, 9)
    } else if sym <= 279 {
        ((sym - 256) as nat, 7)
    } else {
        ((0xC0 + sym - 280) as nat, 8)
    }
}

/// The fixed Huffman code `(code, bit_length)` for a literal/length symbol (RFC 1951 §3.2.6): the
/// canonical value read MSB-first; pass it through [`reverse_bits`] before emitting.
pub fn fixed_litlen(sym: u16) -> (r: (u32, u32))
    ensures
        (r.0 as nat, r.1 as nat) == spec_fixed_litlen(sym as nat),
{
    if sym <= 143 {
        (0x30 + sym as u32, 8)
    } else if sym <= 255 {
        (0x190 + (sym as u32 - 144), 9)
    } else if sym <= 279 {
        (sym as u32 - 256, 7)
    } else {
        (0xC0 + (sym as u32 - 280), 8)
    }
}

/// The fixed Huffman code `(code, bit_length)` for a distance symbol: a 5-bit code equal to the
/// symbol number (RFC 1951 §3.2.6). MSB-first; reverse before emitting.
pub fn fixed_distance(sym: u16) -> (r: (u32, u32))
    ensures
        r == (sym as u32, 5u32),
{
    (sym as u32, 5)
}

// ---------------------------------------------------------------------------------------------
// Canonical codes (RFC 1951 §3.2.2).

/// How many of the first `upto` symbols have code length `len`.
pub open spec fn count_len(lengths: Seq<u8>, len: nat, upto: nat) -> nat
    decreases upto,
{
    if upto == 0 {
        0
    } else {
        count_len(lengths, len, (upto - 1) as nat) + if lengths[upto - 1] as nat == len {
            1nat
        } else {
            0nat
        }
    }
}

/// The first code of length `bits` (RFC 1951 §3.2.2 step 2): zero for length 1, and otherwise
/// the previous length's first code plus its count, shifted left once.
pub open spec fn first_code(lengths: Seq<u8>, bits: nat) -> nat
    decreases bits,
{
    if bits <= 1 {
        0
    } else {
        2 * (first_code(lengths, (bits - 1) as nat) + count_len(
            lengths,
            (bits - 1) as nat,
            lengths.len(),
        ))
    }
}

/// The emit-ready code of symbol `sym`: its canonical code (the first code of its length plus the
/// number of earlier symbols with that length) bit-reversed; zero for an unused symbol or a
/// length past 15.
pub open spec fn canonical_code(lengths: Seq<u8>, sym: nat) -> nat {
    let len = lengths[sym as int] as nat;
    if 1 <= len <= 15 {
        reversed(first_code(lengths, len) + count_len(lengths, len, sym), len)
    } else {
        0
    }
}

/// Reversing `len <= 15` bits gives fewer than `2^len`.
pub proof fn lemma_reversed_bound(v: nat, len: nat)
    ensures
        reversed(v, len) < pow2(len),
    decreases len,
{
    vstd::arithmetic::power2::lemma2_to64();
    if len > 0 {
        lemma_reversed_bound(v, (len - 1) as nat);
        lemma_pow2_unfold(len);
        lemma_pow2_pos((len - 1) as nat);
        vstd::arithmetic::div_mod::lemma_mod_bound((v / pow2((len - 1) as nat)) as int, 2);
    }
}

/// Counts never exceed the number of symbols counted.
proof fn lemma_count_len_bound(lengths: Seq<u8>, len: nat, upto: nat)
    ensures
        count_len(lengths, len, upto) <= upto,
    decreases upto,
{
    if upto > 0 {
        lemma_count_len_bound(lengths, len, (upto - 1) as nat);
    }
}

/// How many of the first `upto` symbols have a length in `1..=b`.
spec fn count_upto(lengths: Seq<u8>, b: nat, upto: nat) -> nat
    decreases upto,
{
    if upto == 0 {
        0
    } else {
        count_upto(lengths, b, (upto - 1) as nat) + if 1 <= lengths[upto - 1] as nat <= b {
            1nat
        } else {
            0nat
        }
    }
}

/// Lengths `1..=b` split into lengths `1..b` and length `b`; none outnumber the symbols.
proof fn lemma_count_upto(lengths: Seq<u8>, b: nat, upto: nat)
    requires
        b >= 1,
    ensures
        count_upto(lengths, b, upto) == count_upto(lengths, (b - 1) as nat, upto) + count_len(
            lengths,
            b,
            upto,
        ),
        count_upto(lengths, b, upto) <= upto,
    decreases upto,
{
    if upto > 0 {
        lemma_count_upto(lengths, b, (upto - 1) as nat);
    }
}

/// The first code of length `bits` is at most the number of shorter codes times `2^(bits - 1)`.
proof fn lemma_first_code_count(lengths: Seq<u8>, bits: nat)
    requires
        bits >= 1,
    ensures
        first_code(lengths, bits) <= count_upto(lengths, (bits - 1) as nat, lengths.len()) * pow2(
            (bits - 1) as nat,
        ),
    decreases bits,
{
    vstd::arithmetic::power2::lemma2_to64();
    if bits > 1 {
        let n = lengths.len();
        lemma_first_code_count(lengths, (bits - 1) as nat);
        lemma_count_upto(lengths, (bits - 1) as nat, n);
        lemma_pow2_unfold((bits - 1) as nat);
        if bits > 2 {
            vstd::arithmetic::power2::lemma_pow2_strictly_increases(1, (bits - 1) as nat);
        }
        let p = pow2((bits - 2) as nat);
        let f = first_code(lengths, (bits - 1) as nat);
        let c = count_len(lengths, (bits - 1) as nat, n);
        let s = count_upto(lengths, (bits - 2) as nat, n);
        assert(2 * (f + c) <= (s + c) * (2 * p)) by (nonlinear_arith)
            requires
                f <= s * p,
                2 * p >= 2,
        ;
    }
}

/// First codes leave room for every symbol below `n * 2^bits`.
proof fn lemma_first_code_bound(lengths: Seq<u8>, bits: nat)
    requires
        bits >= 1,
    ensures
        first_code(lengths, bits) + lengths.len() <= lengths.len() * pow2(bits),
{
    let n = lengths.len();
    lemma_first_code_count(lengths, bits);
    lemma_count_upto(lengths, bits, n);
    if bits > 1 {
        lemma_count_upto(lengths, (bits - 1) as nat, n);
    } else {
        assert(count_upto(lengths, 0, n) == 0) by {
            lemma_count_upto_zero(lengths, n);
        }
    }
    lemma_pow2_unfold(bits);
    lemma_pow2_pos((bits - 1) as nat);
    let p = pow2((bits - 1) as nat);
    let s = count_upto(lengths, (bits - 1) as nat, n);
    assert(s * p + n <= n * (2 * p)) by (nonlinear_arith)
        requires
            s <= n,
            p >= 1,
    ;
}

/// No symbol has a length in the empty range.
proof fn lemma_count_upto_zero(lengths: Seq<u8>, upto: nat)
    ensures
        count_upto(lengths, 0, upto) == 0,
    decreases upto,
{
    if upto > 0 {
        lemma_count_upto_zero(lengths, (upto - 1) as nat);
    }
}

/// The canonical code of symbol `sym`, most significant bit first: the first code of its length
/// plus the number of earlier symbols with that length.
pub open spec fn code_value(lengths: Seq<u8>, sym: nat) -> nat {
    first_code(lengths, lengths[sym as int] as nat) + count_len(
        lengths,
        lengths[sym as int] as nat,
        sym,
    )
}

/// The sum over lengths `1..=l` of the number of symbols (among the first `upto`) of that length
/// times `2^(top - length)`.
spec fn weighted(lengths: Seq<u8>, top: nat, l: nat, upto: nat) -> nat
    decreases l,
{
    if l == 0 {
        0
    } else {
        weighted(lengths, top, (l - 1) as nat, upto) + count_len(lengths, l, upto) * pow2(
            (top - l) as nat,
        )
    }
}

/// Raising the scale by `d` multiplies the weighted count by `2^d`.
proof fn lemma_weighted_scale(lengths: Seq<u8>, top: nat, d: nat, l: nat, upto: nat)
    requires
        l <= top,
    ensures
        weighted(lengths, top + d, l, upto) == pow2(d) * weighted(lengths, top, l, upto),
    decreases l,
{
    let f = pow2(d);
    if l == 0 {
        assert(f * 0 == 0) by (nonlinear_arith);
    } else {
        lemma_weighted_scale(lengths, top, d, (l - 1) as nat, upto);
        vstd::arithmetic::power2::lemma_pow2_adds(d, (top - l) as nat);
        assert((top + d - l) as nat == d + (top - l) as nat);
        let c = count_len(lengths, l, upto);
        let w = weighted(lengths, top, (l - 1) as nat, upto);
        let g = pow2((top - l) as nat);
        assert(f * w + c * (f * g) == f * (w + c * g)) by (nonlinear_arith);
    }
}

/// Counting more lengths never counts less.
proof fn lemma_weighted_monotone(lengths: Seq<u8>, top: nat, a: nat, b: nat, upto: nat)
    requires
        a <= b,
    ensures
        weighted(lengths, top, a, upto) <= weighted(lengths, top, b, upto),
    decreases b,
{
    if b > a {
        lemma_weighted_monotone(lengths, top, a, (b - 1) as nat, upto);
    }
}

/// The first code of length `l` plus that length's count is the weighted count of lengths
/// `1..=l` at scale `l`.
proof fn lemma_first_code_weighted(lengths: Seq<u8>, l: nat)
    requires
        l >= 1,
    ensures
        first_code(lengths, l) + count_len(lengths, l, lengths.len()) == weighted(
            lengths,
            l,
            l,
            lengths.len(),
        ),
    decreases l,
{
    let n = lengths.len();
    vstd::arithmetic::power2::lemma2_to64();
    if l == 1 {
        assert(weighted(lengths, 1, 0, n) == 0);
    } else {
        lemma_first_code_weighted(lengths, (l - 1) as nat);
        lemma_weighted_scale(lengths, (l - 1) as nat, 1, (l - 1) as nat, n);
        assert((l - 1 + 1) as nat == l);
        assert((l - l) as nat == 0);
    }
}

/// A symbol added to the counted prefix adds its term to every weighted count that covers its
/// length.
proof fn lemma_weighted_step(lengths: Seq<u8>, top: nat, l: nat, upto: nat)
    requires
        upto < lengths.len(),
    ensures
        weighted(lengths, top, l, upto + 1) == weighted(lengths, top, l, upto) + if 1
            <= lengths[upto as int] <= l {
            pow2((top - lengths[upto as int]) as nat)
        } else {
            0
        },
    decreases l,
{
    if l > 0 {
        lemma_weighted_step(lengths, top, (l - 1) as nat, upto);
        let x = lengths[upto as int];
        let p = pow2((top - l) as nat);
        let c = count_len(lengths, l, upto);
        if x as nat == l {
            assert(count_len(lengths, l, upto + 1) == c + 1);
            assert((c + 1) * p == c * p + p) by (nonlinear_arith);
        } else {
            assert(count_len(lengths, l, upto + 1) == c);
        }
    }
}

/// With every length at most `top`, the Kraft sum is the weighted count of all lengths.
proof fn lemma_kraft_weighted(lengths: Seq<u8>, top: nat, upto: nat)
    requires
        upto <= lengths.len(),
        forall|s: int| 0 <= s < upto ==> #[trigger] lengths[s] <= top,
    ensures
        kraft(lengths, top, upto) == weighted(lengths, top, top, upto),
    decreases upto,
{
    if upto == 0 {
        lemma_weighted_zero(lengths, top, top);
    } else {
        lemma_kraft_weighted(lengths, top, (upto - 1) as nat);
        lemma_weighted_step(lengths, top, top, (upto - 1) as nat);
        assert(lengths[upto - 1] <= top);
    }
}

/// Nothing is counted among no symbols.
proof fn lemma_weighted_zero(lengths: Seq<u8>, top: nat, l: nat)
    ensures
        weighted(lengths, top, l, 0) == 0,
    decreases l,
{
    if l > 0 {
        lemma_weighted_zero(lengths, top, (l - 1) as nat);
        assert(count_len(lengths, l, 0) == 0);
        assert(0 * pow2((top - l) as nat) == 0) by (nonlinear_arith);
    }
}

/// Under a Kraft sum of at most `2^top`, the codes of each length `l <= top` fit in `l` bits.
proof fn lemma_codes_fit(lengths: Seq<u8>, top: nat, l: nat)
    requires
        1 <= l <= top,
        forall|s: int| 0 <= s < lengths.len() ==> #[trigger] lengths[s] <= top,
        kraft(lengths, top, lengths.len()) <= pow2(top),
    ensures
        first_code(lengths, l) + count_len(lengths, l, lengths.len()) <= pow2(l),
{
    let n = lengths.len();
    lemma_kraft_weighted(lengths, top, n);
    lemma_weighted_monotone(lengths, top, l, top, n);
    lemma_weighted_scale(lengths, l, (top - l) as nat, l, n);
    assert((l + (top - l)) as nat == top);
    lemma_first_code_weighted(lengths, l);
    vstd::arithmetic::power2::lemma_pow2_adds((top - l) as nat, l);
    lemma_pow2_pos((top - l) as nat);
    let f = pow2((top - l) as nat);
    let w = weighted(lengths, l, l, n);
    assert(f * w <= f * pow2(l));
    assert(w <= pow2(l)) by (nonlinear_arith)
        requires
            f * w <= f * pow2(l),
            f > 0,
    ;
}

/// The first code of a longer length starts past every code of a shorter one, scaled up.
proof fn lemma_first_code_grows(lengths: Seq<u8>, a: nat, b: nat)
    requires
        1 <= a < b,
    ensures
        first_code(lengths, b) >= pow2((b - a) as nat) * (first_code(lengths, a) + count_len(
            lengths,
            a,
            lengths.len(),
        )),
    decreases b,
{
    let n = lengths.len();
    let base = first_code(lengths, a) + count_len(lengths, a, n);
    if b == a + 1 {
        vstd::arithmetic::power2::lemma2_to64();
        assert((b - a) as nat == 1);
    } else {
        lemma_first_code_grows(lengths, a, (b - 1) as nat);
        lemma_pow2_unfold((b - a) as nat);
        assert(((b - a) - 1) as nat == (b - 1 - a) as nat);
        let p = pow2((b - 1 - a) as nat);
        let fb = first_code(lengths, (b - 1) as nat);
        let cb = count_len(lengths, (b - 1) as nat, n);
        assert(2 * (fb + cb) >= (2 * p) * base) by (nonlinear_arith)
            requires
                fb >= p * base,
        ;
    }
}

/// Counting further along never counts fewer, and passes every counted symbol.
proof fn lemma_count_len_monotone(lengths: Seq<u8>, len: nat, a: nat, b: nat)
    requires
        a <= b <= lengths.len(),
    ensures
        count_len(lengths, len, a) <= count_len(lengths, len, b),
        a < b && lengths[a as int] as nat == len ==> count_len(lengths, len, a) < count_len(
            lengths,
            len,
            b,
        ),
    decreases b,
{
    if b > a {
        lemma_count_len_monotone(lengths, len, a, (b - 1) as nat);
    }
}

/// Under a Kraft sum of at most `2^15`, a used symbol's canonical code fits its length.
pub proof fn lemma_code_value_fits(lengths: Seq<u8>, s: nat)
    requires
        forall|k: int| 0 <= k < lengths.len() ==> #[trigger] lengths[k] <= 15,
        kraft(lengths, 15, lengths.len()) <= pow2(15),
        s < lengths.len(),
        1 <= lengths[s as int],
    ensures
        code_value(lengths, s) < pow2(lengths[s as int] as nat),
{
    let l = lengths[s as int] as nat;
    lemma_codes_fit(lengths, 15, l);
    lemma_count_len_monotone(lengths, l, s, lengths.len());
}

/// A canonical code whose lengths (at most 15) have a Kraft sum of at most 1 is a prefix code:
/// every used symbol's code fits its length, and no code is a prefix of another's (the longer
/// code cut to the shorter length differs from the shorter code).
pub proof fn law_canonical_codes_are_prefix_free(lengths: Seq<u8>, s: nat, t: nat)
    requires
        forall|k: int| 0 <= k < lengths.len() ==> #[trigger] lengths[k] <= 15,
        kraft(lengths, 15, lengths.len()) <= pow2(15),
        s < lengths.len(),
        t < lengths.len(),
        s != t,
        1 <= lengths[s as int] <= lengths[t as int],
    ensures
        code_value(lengths, s) < pow2(lengths[s as int] as nat),
        code_value(lengths, t) < pow2(lengths[t as int] as nat),
        code_value(lengths, t) / pow2((lengths[t as int] - lengths[s as int]) as nat) != code_value(
            lengths,
            s,
        ),
{
    let n = lengths.len();
    let ls = lengths[s as int] as nat;
    let lt = lengths[t as int] as nat;
    lemma_codes_fit(lengths, 15, ls);
    lemma_codes_fit(lengths, 15, lt);
    lemma_count_len_monotone(lengths, ls, s, n);
    lemma_count_len_monotone(lengths, lt, t, n);
    let cs = code_value(lengths, s);
    let ct = code_value(lengths, t);
    let d = (lt - ls) as nat;
    lemma_pow2_pos(d);
    if ls == lt {
        assert(d == 0);
        vstd::arithmetic::power2::lemma2_to64();
        if s < t {
            lemma_count_len_monotone(lengths, ls, s, t);
        } else {
            lemma_count_len_monotone(lengths, ls, t, s);
        }
    } else {
        lemma_first_code_grows(lengths, ls, lt);
        let base = first_code(lengths, ls) + count_len(lengths, ls, n);
        let p = pow2(d);
        assert(ct >= p * base);
        assert(ct / p >= base) by {
            vstd::arithmetic::div_mod::lemma_div_is_ordered((p * base) as int, ct as int, p as int);
            vstd::arithmetic::div_mod::lemma_div_multiples_vanish(base as int, p as int);
        }
    }
}

/// Derives the canonical, emit-ready (bit-reversed) code for each symbol from its `lengths`.
pub fn canonical_codes(lengths: &[u8]) -> (r: Vec<u16>)
    requires
        lengths@.len() <= 65536,
    ensures
        r@.len() == lengths@.len(),
        forall|sym: int| 0 <= sym < lengths@.len() ==> #[trigger] r@[sym] as nat == canonical_code(lengths@, sym as nat),
{
    let n = lengths.len();
    // bl_count[len] for len in 0..=15 (lengths past 15 are ignored).
    let mut bl_count: Vec<u32> = Vec::new();
    let mut b: usize = 0;
    while b <= MAX_CODE_LEN
        invariant
            b <= MAX_CODE_LEN + 1,
            bl_count@.len() == b,
            n == lengths@.len(),
            n <= 65536,
            forall|l: int| 0 <= l < b ==> #[trigger] bl_count@[l] as nat == (if l == 0 {
                0
            } else {
                count_len(lengths@, l as nat, n as nat)
            }),
        decreases MAX_CODE_LEN + 1 - b,
    {
        let mut c: u32 = 0;
        if b > 0 {
            let mut i: usize = 0;
            while i < n
                invariant
                    0 < b <= MAX_CODE_LEN,
                    i <= n,
                    n == lengths@.len(),
                    n <= 65536,
                    c as nat == count_len(lengths@, b as nat, i as nat),
                decreases n - i,
            {
                proof {
                    lemma_count_len_bound(lengths@, b as nat, i as nat);
                }
                if lengths[i] as usize == b {
                    c = c + 1;
                }
                i = i + 1;
            }
        }
        bl_count.push(c);
        b = b + 1;
    }
    // next_code[bits] for bits in 0..=15.
    let mut next_code: Vec<u32> = Vec::new();
    next_code.push(0);
    let mut code: u32 = 0;
    let mut bits: usize = 1;
    proof {
        vstd::arithmetic::power2::lemma2_to64();
    }
    while bits <= MAX_CODE_LEN
        invariant
            1 <= bits <= MAX_CODE_LEN + 1,
            next_code@.len() == bits,
            n == lengths@.len(),
            n <= 65536,
            bl_count@.len() == MAX_CODE_LEN + 1,
            forall|l: int| 0 <= l <= MAX_CODE_LEN ==> #[trigger] bl_count@[l] as nat == (if l == 0 {
                0
            } else {
                count_len(lengths@, l as nat, n as nat)
            }),
            bits > 1 ==> code as nat == first_code(lengths@, (bits - 1) as nat),
            bits == 1 ==> code == 0,
            forall|l: int| 1 <= l < bits ==> #[trigger] next_code@[l] as nat == first_code(lengths@, l as nat),
        decreases MAX_CODE_LEN + 1 - bits,
    {
        proof {
            lemma_first_code_bound(lengths@, bits as nat);
            if bits > 1 {
                lemma_first_code_bound(lengths@, (bits - 1) as nat);
            }
            vstd::arithmetic::power2::lemma2_to64();
            lemma_count_len_bound(lengths@, (bits - 1) as nat, n as nat);
            assert(n * pow2(bits as nat) <= 65536 * pow2(15)) by (nonlinear_arith)
                requires
                    n <= 65536,
                    pow2(bits as nat) <= pow2(15),
                    bits <= 15,
            ;
            if bits < 15 {
                vstd::arithmetic::power2::lemma_pow2_strictly_increases(bits as nat, 15);
            }
        }
        code = (code + bl_count[bits - 1]) * 2;
        next_code.push(code);
        bits = bits + 1;
    }
    // Assign codes in symbol order.
    let mut codes: Vec<u16> = Vec::new();
    let mut sym: usize = 0;
    while sym < n
        invariant
            sym <= n,
            n == lengths@.len(),
            n <= 65536,
            next_code@.len() == MAX_CODE_LEN + 1,
            codes@.len() == sym,
            forall|l: int| 1 <= l <= MAX_CODE_LEN ==> #[trigger] next_code@[l] as nat == first_code(lengths@, l as nat)
                + count_len(lengths@, l as nat, sym as nat),
            forall|s: int| 0 <= s < sym ==> #[trigger] codes@[s] as nat == canonical_code(lengths@, s as nat),
        decreases n - sym,
    {
        let len = lengths[sym] as usize;
        if len > 0 && len <= MAX_CODE_LEN {
            let c = next_code[len];
            proof {
                lemma_reversed_bound(c as nat, len as nat);
                vstd::arithmetic::power2::lemma2_to64();
                vstd::arithmetic::power2::lemma_pow2_strictly_increases(len as nat, 16);
                lemma_first_code_bound(lengths@, len as nat);
                lemma_count_len_bound(lengths@, len as nat, sym as nat);
                assert(n * pow2(len as nat) <= 65536 * pow2(15)) by (nonlinear_arith)
                    requires
                        n <= 65536,
                        pow2(len as nat) <= pow2(15),
                ;
                if len < 15 {
                    vstd::arithmetic::power2::lemma_pow2_strictly_increases(len as nat, 15);
                }
                vstd::arithmetic::div_mod::lemma_small_mod(reversed(c as nat, len as nat), pow2(32));
            }
            next_code.set(len, c + 1);
            let rev = reverse_bits(c, len as u32);
            codes.push(rev as u16);
        } else {
            codes.push(0);
        }
        sym = sym + 1;
    }
    codes
}

// ---------------------------------------------------------------------------------------------
// Length-limited code lengths.

/// How many of the first `upto` histogram entries are nonzero.
pub open spec fn used_upto(histogram: Seq<u32>, upto: nat) -> nat
    decreases upto,
{
    if upto == 0 {
        0
    } else {
        used_upto(histogram, (upto - 1) as nat) + if histogram[upto - 1] > 0 {
            1nat
        } else {
            0nat
        }
    }
}

/// How many symbols of `histogram` occur.
pub open spec fn used_count(histogram: Seq<u32>) -> nat {
    used_upto(histogram, histogram.len())
}

/// Counts never exceed the entries counted.
pub proof fn lemma_used_upto_bound(histogram: Seq<u32>, upto: nat)
    ensures
        used_upto(histogram, upto) <= upto,
    decreases upto,
{
    if upto > 0 {
        lemma_used_upto_bound(histogram, (upto - 1) as nat);
    }
}

/// A count of one names exactly one symbol; a count of zero names none.
pub proof fn lemma_used_upto_members(histogram: Seq<u32>, upto: nat, s: int)
    requires
        0 <= s < upto,
        histogram[s] > 0,
    ensures
        used_upto(histogram, upto) >= 1,
        used_upto(histogram, upto) >= used_upto(histogram, s as nat) + 1,
    decreases upto,
{
    if upto - 1 > s {
        lemma_used_upto_members(histogram, (upto - 1) as nat, s);
    }
}

/// The total weight of the active nodes.
spec fn weight_sum(active: Seq<(u64, usize)>) -> nat
    decreases active.len(),
{
    if active.len() == 0 {
        0
    } else {
        weight_sum(active.drop_last()) + active.last().0 as nat
    }
}

/// Removing a node takes its weight out of the total.
proof fn lemma_weight_sum_remove(active: Seq<(u64, usize)>, i: int)
    requires
        0 <= i < active.len(),
    ensures
        weight_sum(active) == weight_sum(active.remove(i)) + active[i].0,
    decreases active.len(),
{
    if i < active.len() - 1 {
        lemma_weight_sum_remove(active.drop_last(), i);
        assert(active.remove(i).drop_last() =~= active.drop_last().remove(i));
        assert(active.remove(i).last() == active.last());
    } else {
        assert(active.remove(i) =~= active.drop_last());
    }
}

/// Every node weighs at most the total.
proof fn lemma_weight_sum_member(active: Seq<(u64, usize)>, i: int)
    requires
        0 <= i < active.len(),
    ensures
        active[i].0 <= weight_sum(active),
{
    lemma_weight_sum_remove(active, i);
}

/// The lightest of the nodes from `k` on against the best so far (`best`): a node replaces the
/// best when lighter, or equally heavy with a lower id.
pub open spec fn min_from(active: Seq<(u64, usize)>, k: nat, best: nat) -> nat
    decreases active.len() - k,
{
    if k >= active.len() {
        best
    } else {
        let better = active[k as int].0 < active[best as int].0 || (active[k as int].0
            == active[best as int].0 && active[k as int].1 < active[best as int].1);
        min_from(
            active,
            k + 1,
            if better {
                k
            } else {
                best
            },
        )
    }
}

/// The index of the lightest node, ties going to the lower id.
pub open spec fn spec_min_index(active: Seq<(u64, usize)>) -> nat {
    min_from(active, 1, 0)
}

/// The scan ends on an index of the nodes.
pub proof fn lemma_min_from_bound(active: Seq<(u64, usize)>, k: nat, best: nat)
    requires
        best < active.len(),
    ensures
        min_from(active, k, best) < active.len(),
    decreases active.len() - k,
{
    if k < active.len() {
        let better = active[k as int].0 < active[best as int].0 || (active[k as int].0
            == active[best as int].0 && active[k as int].1 < active[best as int].1);
        lemma_min_from_bound(
            active,
            k + 1,
            if better {
                k
            } else {
                best
            },
        );
    }
}

/// The index of the lightest node, ties going to the lower id.
fn min_index(active: &Vec<(u64, usize)>) -> (r: usize)
    requires
        active@.len() > 0,
    ensures
        r < active@.len(),
        r == spec_min_index(active@),
        forall|k: int| 0 <= k < active@.len() ==> active@[r as int].0 < active@[k].0 || (active@[r as int].0
            == active@[k].0 && active@[r as int].1 <= active@[k].1),
{
    let mut best: usize = 0;
    let mut k: usize = 1;
    while k < active.len()
        invariant
            best < k <= active@.len(),
            min_from(active@, k as nat, best as nat) == spec_min_index(active@),
            forall|j: int| 0 <= j < k ==> active@[best as int].0 < active@[j].0 || (active@[best as int].0
                == active@[j].0 && active@[best as int].1 <= active@[j].1),
        decreases active@.len() - k,
    {
        let (w, id) = active[k];
        let (bw, bid) = active[best];
        if w < bw || (w == bw && id < bid) {
            best = k;
        }
        k = k + 1;
    }
    best
}

/// The first nodes of a Huffman pass: a zero depth for each of the first `s` symbols, each used
/// symbol owned by its own node (numbered in symbol order), and that node weighing the symbol's
/// count raised to the floor `count_min`.
pub open spec fn initial_nodes(histogram: Seq<u32>, count_min: u32, s: nat) -> (
    Seq<u32>,
    Seq<usize>,
    Seq<(u64, usize)>,
)
    decreases s,
{
    if s == 0 {
        (Seq::empty(), Seq::empty(), Seq::empty())
    } else {
        let (d, o, a) = initial_nodes(histogram, count_min, (s - 1) as nat);
        let count = histogram[s - 1];
        if count > 0 {
            let weight: u64 = if count > count_min {
                count as u64
            } else {
                count_min as u64
            };
            (d.push(0), o.push(a.len() as usize), a.push((weight, a.len() as usize)))
        } else {
            (d.push(0), o.push(usize::MAX), a)
        }
    }
}

/// The depths after nodes `a` and `b` merge: one level deeper for every symbol either owned.
pub open spec fn deepened(depth: Seq<u32>, owner: Seq<usize>, a: usize, b: usize) -> Seq<u32> {
    Seq::new(
        depth.len(),
        |u: int|
            if owner[u] == a || owner[u] == b {
                (depth[u] + 1) as u32
            } else {
                depth[u]
            },
    )
}

/// The owners after nodes `a` and `b` merge into node `c`.
pub open spec fn reowned(owner: Seq<usize>, a: usize, b: usize, c: usize) -> Seq<usize> {
    Seq::new(
        owner.len(),
        |u: int|
            if owner[u] == a || owner[u] == b {
                c
            } else {
                owner[u]
            },
    )
}

/// The Huffman merges from the given state on: while two or more nodes remain, the two lightest
/// (ties to the lower id) merge into a new node numbered `next_id`, one level deeper for every
/// symbol either owned. The symbols' depths at the end.
#[verifier::opaque]
pub open spec fn merge_nodes(
    depth: Seq<u32>,
    owner: Seq<usize>,
    active: Seq<(u64, usize)>,
    next_id: usize,
) -> Seq<u32>
    decreases active.len(),
{
    if active.len() <= 1 {
        depth
    } else {
        let ia = spec_min_index(active);
        let a = active[ia as int];
        let a1 = active.remove(ia as int);
        let ib = spec_min_index(a1);
        let b = a1[ib as int];
        let a2 = a1.remove(ib as int);
        proof {
            lemma_min_from_bound(active, 1, 0);
            lemma_min_from_bound(a1, 1, 0);
        }
        merge_nodes(
            deepened(depth, owner, a.1, b.1),
            reowned(owner, a.1, b.1, next_id),
            a2.push(((a.0 + b.0) as u64, next_id)),
            (next_id + 1) as usize,
        )
    }
}

/// The depths one Huffman pass gives: a lone used symbol gets depth 1; otherwise the merges
/// of the initial nodes.
#[verifier::opaque]
pub open spec fn huffman_depths(histogram: Seq<u32>, count_min: u32) -> Seq<u32> {
    let (d, o, a) = initial_nodes(histogram, count_min, histogram.len());
    if a.len() == 1 {
        Seq::new(
            histogram.len(),
            |s: int|
                if histogram[s] > 0 {
                    1u32
                } else {
                    0u32
                },
        )
    } else {
        merge_nodes(d, o, a, a.len() as usize)
    }
}

/// The Kraft sum of code lengths, scaled by `2^top`: the sum of `2^(top - len)` over the
/// symbols with a code (length above zero) among the first `upto`. A prefix code has a sum of
/// at most `2^top`; a complete one, exactly `2^top`.
pub open spec fn kraft(lengths: Seq<u8>, top: nat, upto: nat) -> nat
    decreases upto,
{
    if upto == 0 {
        0
    } else {
        kraft(lengths, top, (upto - 1) as nat) + if lengths[upto - 1] > 0 {
            pow2((top - lengths[upto - 1]) as nat)
        } else {
            0
        }
    }
}

/// The Kraft sum, scaled by `2^top`, of the depths of the used symbols among the first `upto`.
pub open spec fn depth_kraft(depths: Seq<u32>, histogram: Seq<u32>, top: nat, upto: nat) -> nat
    decreases upto,
{
    if upto == 0 {
        0
    } else {
        depth_kraft(depths, histogram, top, (upto - 1) as nat) + if histogram[upto - 1] > 0 {
            pow2((top - depths[upto - 1]) as nat)
        } else {
            0
        }
    }
}

/// The Kraft sum, scaled by `2^top`, of the symbols among the first `upto` in tree `id`.
spec fn tree_kraft(depth: Seq<u32>, owner: Seq<usize>, id: usize, top: nat, upto: nat) -> nat
    decreases upto,
{
    if upto == 0 {
        0
    } else {
        tree_kraft(depth, owner, id, top, (upto - 1) as nat) + if owner[upto - 1] == id {
            pow2((top - depth[upto - 1]) as nat)
        } else {
            0
        }
    }
}

/// The sum over a prefix depends on that prefix alone.
proof fn lemma_tree_kraft_prefix(
    d0: Seq<u32>,
    o0: Seq<usize>,
    d1: Seq<u32>,
    o1: Seq<usize>,
    id: usize,
    top: nat,
    upto: nat,
)
    requires
        upto <= d0.len(),
        upto <= o0.len(),
        upto <= d1.len(),
        upto <= o1.len(),
        forall|u: int| 0 <= u < upto ==> d0[u] == d1[u] && o0[u] == o1[u],
    ensures
        tree_kraft(d0, o0, id, top, upto) == tree_kraft(d1, o1, id, top, upto),
    decreases upto,
{
    if upto > 0 {
        lemma_tree_kraft_prefix(d0, o0, d1, o1, id, top, (upto - 1) as nat);
    }
}

/// Merging trees `a` and `b` into the new tree `c` (every symbol of either one level deeper)
/// halves their sums into `c`'s.
proof fn lemma_tree_kraft_merge(
    d0: Seq<u32>,
    o0: Seq<usize>,
    d1: Seq<u32>,
    o1: Seq<usize>,
    a: usize,
    b: usize,
    c: usize,
    top: nat,
    upto: nat,
)
    requires
        upto <= d0.len(),
        upto <= o0.len(),
        upto <= d1.len(),
        upto <= o1.len(),
        a != b,
        c != a,
        c != b,
        forall|u: int| 0 <= u < upto ==> #[trigger] o0[u] != c,
        forall|u: int| 0 <= u < upto ==> #[trigger] d0[u] < top,
        forall|u: int|
            0 <= u < upto ==> #[trigger] d1[u] == if o0[u] == a || o0[u] == b {
                d0[u] + 1
            } else {
                d0[u] as int
            },
        forall|u: int|
            0 <= u < upto ==> #[trigger] o1[u] == if o0[u] == a || o0[u] == b {
                c
            } else {
                o0[u]
            },
    ensures
        2 * tree_kraft(d1, o1, c, top, upto) == tree_kraft(d0, o0, a, top, upto) + tree_kraft(
            d0,
            o0,
            b,
            top,
            upto,
        ),
    decreases upto,
{
    if upto > 0 {
        let u = upto - 1;
        lemma_tree_kraft_merge(d0, o0, d1, o1, a, b, c, top, (upto - 1) as nat);
        assert(o0[u] != c);
        assert(d0[u] < top);
        if o0[u] == a || o0[u] == b {
            lemma_pow2_unfold((top - d0[u]) as nat);
            assert((top - d1[u]) as nat == (top - d0[u] - 1) as nat);
        }
    }
}

/// Merging trees `a` and `b` into `c` leaves every other tree's sum alone.
proof fn lemma_tree_kraft_other(
    d0: Seq<u32>,
    o0: Seq<usize>,
    d1: Seq<u32>,
    o1: Seq<usize>,
    a: usize,
    b: usize,
    c: usize,
    k: usize,
    top: nat,
    upto: nat,
)
    requires
        upto <= d0.len(),
        upto <= o0.len(),
        upto <= d1.len(),
        upto <= o1.len(),
        k != a,
        k != b,
        k != c,
        forall|u: int|
            0 <= u < upto ==> #[trigger] d1[u] == if o0[u] == a || o0[u] == b {
                d0[u] + 1
            } else {
                d0[u] as int
            },
        forall|u: int|
            0 <= u < upto ==> #[trigger] o1[u] == if o0[u] == a || o0[u] == b {
                c
            } else {
                o0[u]
            },
    ensures
        tree_kraft(d1, o1, k, top, upto) == tree_kraft(d0, o0, k, top, upto),
    decreases upto,
{
    if upto > 0 {
        let u = upto - 1;
        lemma_tree_kraft_other(d0, o0, d1, o1, a, b, c, k, top, (upto - 1) as nat);
        assert(o1[u] == k <==> o0[u] == k);
    }
}

/// When tree `r` holds exactly the used symbols, its sum is theirs.
proof fn lemma_tree_kraft_all(
    depth: Seq<u32>,
    owner: Seq<usize>,
    histogram: Seq<u32>,
    r: usize,
    top: nat,
    upto: nat,
)
    requires
        upto <= depth.len(),
        upto <= owner.len(),
        upto <= histogram.len(),
        forall|u: int| 0 <= u < upto ==> (#[trigger] owner[u] == r <==> histogram[u] > 0),
    ensures
        tree_kraft(depth, owner, r, top, upto) == depth_kraft(depth, histogram, top, upto),
    decreases upto,
{
    if upto > 0 {
        lemma_tree_kraft_all(depth, owner, histogram, r, top, (upto - 1) as nat);
        assert(owner[upto - 1] == r <==> histogram[upto - 1] > 0);
    }
}

/// Raising the scale from `t1` to `t2` multiplies the sum by `2^(t2 - t1)`, when no used depth
/// exceeds `t1`.
proof fn lemma_depth_kraft_scale(depths: Seq<u32>, histogram: Seq<u32>, t1: nat, t2: nat, upto: nat)
    requires
        t1 <= t2,
        upto <= depths.len(),
        upto <= histogram.len(),
        forall|u: int| 0 <= u < upto && histogram[u] > 0 ==> #[trigger] depths[u] <= t1,
    ensures
        depth_kraft(depths, histogram, t2, upto) == pow2((t2 - t1) as nat) * depth_kraft(
            depths,
            histogram,
            t1,
            upto,
        ),
    decreases upto,
{
    let f = pow2((t2 - t1) as nat);
    if upto == 0 {
        assert(f * 0 == 0) by (nonlinear_arith);
    } else {
        let u = upto - 1;
        lemma_depth_kraft_scale(depths, histogram, t1, t2, (upto - 1) as nat);
        let prev1 = depth_kraft(depths, histogram, t1, (upto - 1) as nat);
        let prev2 = depth_kraft(depths, histogram, t2, (upto - 1) as nat);
        assert(prev2 == f * prev1);
        if histogram[u] > 0 {
            assert(depths[u] <= t1);
            vstd::arithmetic::power2::lemma_pow2_adds((t2 - t1) as nat, (t1 - depths[u]) as nat);
            assert((t2 - depths[u]) as nat == (t2 - t1) as nat + (t1 - depths[u]) as nat);
            let g = pow2((t1 - depths[u]) as nat);
            assert(pow2((t2 - depths[u]) as nat) == f * g);
            assert(f * prev1 + f * g == f * (prev1 + g)) by (nonlinear_arith);
            assert(depth_kraft(depths, histogram, t2, upto) == prev2 + f * g);
            assert(depth_kraft(depths, histogram, t1, upto) == prev1 + g);
        } else {
            assert(depth_kraft(depths, histogram, t2, upto) == prev2);
            assert(depth_kraft(depths, histogram, t1, upto) == prev1);
        }
    }
}

/// One merge keeps the tree invariants: the trees `a0[ia]` and `a1[ib]` (the two removed
/// entries) become the new tree `c`, pushed last; every used symbol still belongs to a live tree,
/// live trees stay ordered by id, and each live tree's Kraft sum stays `2^n`.
#[verifier::spinoff_prover]
#[verifier::rlimit(60)]
proof fn lemma_merge_keeps(
    histogram: Seq<u32>,
    a0: Seq<(u64, usize)>,
    ia: int,
    a1: Seq<(u64, usize)>,
    ib: int,
    a2: Seq<(u64, usize)>,
    after: Seq<(u64, usize)>,
    d0: Seq<u32>,
    o0: Seq<usize>,
    d1: Seq<u32>,
    o1: Seq<usize>,
    c: usize,
    merges: nat,
)
    requires
        d0.len() == histogram.len(),
        o0.len() == histogram.len(),
        d1.len() == histogram.len(),
        o1.len() == histogram.len(),
        0 <= ia < a0.len(),
        a1 == a0.remove(ia),
        0 <= ib < a1.len(),
        a2 == a1.remove(ib),
        after.len() == a2.len() + 1,
        after.drop_last() == a2,
        after.last().1 == c,
        c < usize::MAX,
        forall|k: int| 0 <= k < a0.len() ==> (#[trigger] a0[k]).1 < c,
        forall|i: int, j: int| 0 <= i < j < a0.len() ==> #[trigger] a0[i].1 < #[trigger] a0[j].1,
        forall|k: int|
            0 <= k < a0.len() ==> tree_kraft(
                d0,
                o0,
                (#[trigger] a0[k]).1,
                histogram.len() as nat,
                histogram.len() as nat,
            ) == pow2(histogram.len() as nat),
        forall|t: int|
            0 <= t < histogram.len() && histogram[t] > 0 ==> exists|k: int|
                0 <= k < a0.len() && a0[k].1 == #[trigger] o0[t],
        forall|t: int| 0 <= t < histogram.len() && histogram[t] > 0 ==> #[trigger] o0[t] < c,
        forall|t: int| 0 <= t < histogram.len() && histogram[t] == 0 ==> #[trigger] o0[t] == usize::MAX,
        forall|t: int| 0 <= t < histogram.len() ==> #[trigger] d0[t] <= merges,
        merges < histogram.len(),
        forall|u: int|
            0 <= u < histogram.len() ==> #[trigger] d1[u] == if o0[u] == a0[ia].1 || o0[u]
                == a1[ib].1 {
                d0[u] + 1
            } else {
                d0[u] as int
            },
        forall|u: int|
            0 <= u < histogram.len() ==> #[trigger] o1[u] == if o0[u] == a0[ia].1 || o0[u]
                == a1[ib].1 {
                c
            } else {
                o0[u]
            },
    ensures
        forall|t: int|
            0 <= t < histogram.len() && histogram[t] > 0 ==> exists|k: int|
                0 <= k < after.len() && after[k].1 == #[trigger] o1[t],
        forall|i: int, j: int|
            0 <= i < j < after.len() ==> #[trigger] after[i].1 < #[trigger] after[j].1,
        forall|k: int|
            0 <= k < after.len() ==> tree_kraft(
                d1,
                o1,
                (#[trigger] after[k]).1,
                histogram.len() as nat,
                histogram.len() as nat,
            ) == pow2(histogram.len() as nat),
{
    let n = histogram.len();
    let a = a0[ia].1;
    let b = a1[ib].1;
    let ib0 = if ib < ia {
        ib
    } else {
        ib + 1
    };
    assert(a1[ib] == a0[ib0]);
    assert(ib0 != ia);
    assert(a != b);
    // Where an entry of the shrunk list sat before the two removals.
    assert forall|k: int| 0 <= k < a2.len() implies #[trigger] a2[k] == a0[if k < ib {
        if k < ia {
            k
        } else {
            k + 1
        }
    } else {
        if k + 1 < ia {
            k + 1
        } else {
            k + 2
        }
    }] by {
        let k1 = if k < ib {
            k
        } else {
            k + 1
        };
        assert(a2[k] == a1[k1]);
    }
    assert forall|u: int| 0 <= u < n implies #[trigger] o0[u] != c by {
        if histogram[u] > 0 {
            assert(o0[u] < c);
        } else {
            assert(o0[u] == usize::MAX);
        }
    }
    assert forall|u: int| 0 <= u < n implies #[trigger] d0[u] < n by {
        assert(d0[u] <= merges);
    }
    lemma_tree_kraft_merge(d0, o0, d1, o1, a, b, c, n as nat, n as nat);
    assert(tree_kraft(d0, o0, a, n as nat, n as nat) == pow2(n as nat)) by {
        assert(a0[ia].1 == a);
    }
    assert(tree_kraft(d0, o0, b, n as nat, n as nat) == pow2(n as nat)) by {
        assert(a0[ib0].1 == b);
    }
    assert forall|i: int, j: int| 0 <= i < j < after.len() implies #[trigger] after[i].1
        < #[trigger] after[j].1 by {
        assert(after[i] == a2[i]);
        if j < a2.len() {
            assert(after[j] == a2[j]);
        }
    }
    assert forall|k: int| 0 <= k < after.len() implies tree_kraft(
        d1,
        o1,
        (#[trigger] after[k]).1,
        n as nat,
        n as nat,
    ) == pow2(n as nat) by {
        if k < a2.len() {
            let id = a2[k].1;
            assert(after[k] == a2[k]);
            assert(id != a && id != b && id != c);
            lemma_tree_kraft_other(d0, o0, d1, o1, a, b, c, id, n as nat, n as nat);
        }
    }
    assert forall|u: int| 0 <= u < n && histogram[u] > 0 implies exists|k: int|
        0 <= k < after.len() && after[k].1 == #[trigger] o1[u] by {
        if o0[u] == a || o0[u] == b {
            assert(after[a2.len() as int].1 == o1[u]);
        } else {
            let k0 = choose|k: int| 0 <= k < a0.len() && a0[k].1 == o0[u];
            assert(k0 != ia);
            let k1 = if k0 < ia {
                k0
            } else {
                k0 - 1
            };
            assert(a1[k1].1 == o0[u]);
            assert(k1 != ib);
            let k2 = if k1 < ib {
                k1
            } else {
                k1 - 1
            };
            assert(a2[k2].1 == o0[u]);
            assert(after[k2].1 == o1[u]);
        }
    }
}

/// One step of the merges: with the two lightest nodes merged into node `c`, the merges from the
/// new state end where those from the old state do.
proof fn lemma_merge_step(
    d0: Seq<u32>,
    o0: Seq<usize>,
    a0: Seq<(u64, usize)>,
    c: usize,
    ia: nat,
    a1: Seq<(u64, usize)>,
    ib: nat,
    a2: Seq<(u64, usize)>,
    d1: Seq<u32>,
    o1: Seq<usize>,
    act: Seq<(u64, usize)>,
)
    requires
        a0.len() > 1,
        ia == spec_min_index(a0),
        ia < a0.len(),
        a1 == a0.remove(ia as int),
        ib == spec_min_index(a1),
        ib < a1.len(),
        a2 == a1.remove(ib as int),
        a0[ia as int].0 + a1[ib as int].0 <= u64::MAX,
        act == a2.push(((a0[ia as int].0 + a1[ib as int].0) as u64, c)),
        d1.len() == d0.len(),
        o1.len() == o0.len(),
        o0.len() == d0.len(),
        c < usize::MAX,
        forall|u: int| 0 <= u < d0.len() ==> #[trigger] d0[u] < 0xffff_ffff,
        forall|u: int|
            0 <= u < d0.len() ==> #[trigger] d1[u] == if o0[u] == a0[ia as int].1 || o0[u]
                == a1[ib as int].1 {
                d0[u] + 1
            } else {
                d0[u] as int
            },
        forall|u: int|
            0 <= u < o0.len() ==> #[trigger] o1[u] == if o0[u] == a0[ia as int].1 || o0[u]
                == a1[ib as int].1 {
                c
            } else {
                o0[u]
            },
    ensures
        merge_nodes(d0, o0, a0, c) == merge_nodes(d1, o1, act, (c + 1) as usize),
{
    let a = a0[ia as int];
    let b = a1[ib as int];
    reveal(merge_nodes);
    let dn = deepened(d0, o0, a.1, b.1);
    let on = reowned(o0, a.1, b.1, c);
    assert(dn =~= d1);
    assert(on =~= o1);
}

/// With one node or none left, the merges change nothing.
proof fn lemma_merge_done(depth: Seq<u32>, owner: Seq<usize>, active: Seq<(u64, usize)>, next_id: usize)
    requires
        active.len() <= 1,
    ensures
        merge_nodes(depth, owner, active, next_id) == depth,
{
    reveal(merge_nodes);
}

/// A histogram with no used symbol among its first `upto` counts none there.
proof fn lemma_used_upto_members_zero(histogram: Seq<u32>, upto: nat)
    requires
        upto <= histogram.len(),
        forall|u: int| 0 <= u < upto ==> histogram[u] == 0,
    ensures
        used_upto(histogram, upto) == 0,
    decreases upto,
{
    if upto > 0 {
        lemma_used_upto_members_zero(histogram, (upto - 1) as nat);
    }
}

/// One Huffman construction pass: per-symbol depths, each present symbol's weight floored to
/// `count_min` (raising the floor flattens the tree, capping its depth). The two lightest nodes
/// merge first, ties going to the older node.
#[verifier::spinoff_prover]
#[verifier::rlimit(100)]
fn huffman_pass(histogram: &[u32], count_min: u32) -> (r: Vec<u32>)
    requires
        histogram@.len() <= 0x4000_0000,
    ensures
        r@ == huffman_depths(histogram@, count_min),
        r@.len() == histogram@.len(),
        forall|s: int| 0 <= s < histogram@.len() && histogram@[s] == 0 ==> #[trigger] r@[s] == 0,
        used_count(histogram@) == 1 ==> forall|s: int|
            0 <= s < histogram@.len() && histogram@[s] > 0 ==> #[trigger] r@[s] == 1,
        used_count(histogram@) >= 2 ==> forall|s: int|
            0 <= s < histogram@.len() && histogram@[s] > 0 ==> #[trigger] r@[s] >= 1,
        forall|s: int| 0 <= s < histogram@.len() ==> #[trigger] r@[s] <= histogram@.len(),
        used_count(histogram@) >= 2 ==> depth_kraft(
            r@,
            histogram@,
            histogram@.len() as nat,
            histogram@.len() as nat,
        ) == pow2(histogram@.len() as nat),
{
    let n = histogram.len();
    let mut depth: Vec<u32> = Vec::new();
    let mut owner: Vec<usize> = Vec::new();
    let mut active: Vec<(u64, usize)> = Vec::new();
    let mut next_id: usize = 0;
    let mut s: usize = 0;
    let ghost mut total: nat = 0;
    while s < n
        invariant
            n == histogram@.len(),
            n <= 0x4000_0000,
            s <= n,
            depth@.len() == s,
            owner@.len() == s,
            next_id == used_upto(histogram@, s as nat),
            next_id <= s,
            active@.len() == next_id,
            total == weight_sum(active@),
            total <= next_id * 0xffff_ffff,
            (depth@, owner@, active@) == initial_nodes(histogram@, count_min, s as nat),
            forall|k: int| 0 <= k < active@.len() ==> (#[trigger] active@[k]).1 == k,
            forall|t: int| 0 <= t < s ==> #[trigger] depth@[t] == 0,
            forall|t: int|
                0 <= t < s && histogram@[t] > 0 ==> #[trigger] owner@[t] < next_id && active@[owner@[t] as int].1
                    == owner@[t],
            forall|t: int| 0 <= t < s && histogram@[t] == 0 ==> #[trigger] owner@[t] == usize::MAX,
            forall|k: usize|
                k < next_id ==> #[trigger] tree_kraft(depth@, owner@, k, n as nat, s as nat) == pow2(
                    n as nat,
                ),
            forall|k: usize|
                next_id <= k < usize::MAX ==> #[trigger] tree_kraft(
                    depth@,
                    owner@,
                    k,
                    n as nat,
                    s as nat,
                ) == 0,
        decreases n - s,
    {
        proof {
            lemma_used_upto_bound(histogram@, s as nat);
        }
        let ghost d_before = depth@;
        let ghost o_before = owner@;
        let ghost id_before = next_id;
        depth.push(0);
        let count = histogram[s];
        if count > 0 {
            let weight: u64 = if count > count_min {
                count as u64
            } else {
                count_min as u64
            };
            owner.push(next_id);
            let ghost before = active@;
            active.push((weight, next_id));
            proof {
                assert(active@.drop_last() =~= before);
                total = total + weight as nat;
            }
            next_id = next_id + 1;
        } else {
            owner.push(usize::MAX);
        }
        proof {
            assert forall|k: usize| k < next_id implies #[trigger] tree_kraft(
                depth@,
                owner@,
                k,
                n as nat,
                (s + 1) as nat,
            ) == pow2(n as nat) by {
                lemma_tree_kraft_prefix(d_before, o_before, depth@, owner@, k, n as nat, s as nat);
                if k < id_before {
                    assert(tree_kraft(d_before, o_before, k, n as nat, s as nat) == pow2(n as nat));
                } else {
                    assert(tree_kraft(d_before, o_before, k, n as nat, s as nat) == 0);
                }
            }
            assert forall|k: usize| next_id <= k < usize::MAX implies #[trigger] tree_kraft(
                depth@,
                owner@,
                k,
                n as nat,
                (s + 1) as nat,
            ) == 0 by {
                lemma_tree_kraft_prefix(d_before, o_before, depth@, owner@, k, n as nat, s as nat);
            }
        }
        proof {
            assert((depth@, owner@, active@) == initial_nodes(histogram@, count_min, (s + 1) as nat));
        }
        s = s + 1;
    }
    let used = next_id;
    let ghost target = huffman_depths(histogram@, count_min);
    proof {
        assert(histogram@.take(n as int) =~= histogram@);
    }
    if used == 1 {
        // The lone symbol gets a one-bit code.
        assert(target == Seq::new(
            n as nat,
            |u: int|
                if histogram@[u] > 0 {
                    1u32
                } else {
                    0u32
                },
        )) by {
            reveal(huffman_depths);
        }
        let mut t: usize = 0;
        while t < n
            invariant
                target == huffman_depths(histogram@, count_min),
                target == Seq::new(
                    n as nat,
                    |u: int|
                        if histogram@[u] > 0 {
                            1u32
                        } else {
                            0u32
                        },
                ),
                n == histogram@.len(),
                used_count(histogram@) == 1,
                t <= n,
                depth@.len() == n,
                forall|u: int| 0 <= u < t ==> histogram@[u] == 0,
                forall|u: int| 0 <= u < n ==> #[trigger] depth@[u] == 0,
            decreases n - t,
        {
            if histogram[t] > 0 {
                depth.set(t, 1);
                proof {
                    assert forall|u: int| 0 <= u < n && histogram@[u] > 0 implies u == t by {
                        if u != t {
                            lemma_used_upto_members(histogram@, n as nat, t as int);
                            if u > t {
                                lemma_used_upto_members(histogram@, u as nat + 1, t as int);
                                lemma_used_upto_members(histogram@, n as nat, u);
                                lemma_used_upto_monotone(histogram@, (t + 1) as nat, u as nat);
                            } else {
                                lemma_used_upto_members(histogram@, t as nat + 1, u);
                                lemma_used_upto_members(histogram@, n as nat, t as int);
                                lemma_used_upto_monotone(histogram@, (u + 1) as nat, t as nat);
                            }
                        }
                    }
                    assert(depth@ =~= target);
                }
                return depth;
            }
            t = t + 1;
        }
        proof {
            lemma_used_upto_members_zero(histogram@, n as nat);
        }
        return depth;
    }
    let ghost mut merges: nat = 0;
    assert(target == merge_nodes(depth@, owner@, active@, next_id)) by {
        reveal(huffman_depths);
    }
    proof {
        assert forall|k: int| 0 <= k < active@.len() implies tree_kraft(
            depth@,
            owner@,
            (#[trigger] active@[k]).1,
            n as nat,
            n as nat,
        ) == pow2(n as nat) by {
            assert(active@[k].1 == k);
            assert(tree_kraft(depth@, owner@, k as usize, n as nat, n as nat) == pow2(n as nat));
        }
        assert forall|t: int| 0 <= t < n && histogram@[t] > 0 implies exists|k: int|
            0 <= k < active@.len() && active@[k].1 == #[trigger] owner@[t] by {
            assert(owner@[t] < next_id);
            let k = owner@[t] as int;
            assert(0 <= k < active@.len() && active@[k].1 == owner@[t]);
        }
    }
    while active.len() > 1
        invariant
            n == histogram@.len(),
            n <= 0x4000_0000,
            used == used_count(histogram@),
            used <= n,
            used != 1,
            depth@.len() == n,
            owner@.len() == n,
            next_id == used + merges,
            active@.len() + merges == used,
            total == weight_sum(active@),
            total <= n * 0xffff_ffff,
            merge_nodes(depth@, owner@, active@, next_id) == target,
            target == huffman_depths(histogram@, count_min),
            merges >= 1 ==> active@.last().1 == next_id - 1,
            used >= 2 ==> active@.len() >= 1,
            next_id <= 2 * n,
            forall|k: int| 0 <= k < active@.len() ==> (#[trigger] active@[k]).1 < next_id,
            forall|t: int| 0 <= t < n && histogram@[t] == 0 ==> #[trigger] depth@[t] == 0,
            forall|t: int| 0 <= t < n && histogram@[t] == 0 ==> #[trigger] owner@[t] == usize::MAX,
            forall|t: int| 0 <= t < n ==> #[trigger] depth@[t] <= merges,
            forall|t: int|
                0 <= t < n && histogram@[t] > 0 ==> (#[trigger] depth@[t] == 0 <==> owner@[t] < used),
            forall|t: int|
                0 <= t < n && histogram@[t] > 0 ==> exists|k: int|
                    0 <= k < active@.len() && active@[k].1 == #[trigger] owner@[t],
            forall|t: int| 0 <= t < n && histogram@[t] > 0 ==> #[trigger] owner@[t] < next_id,
            forall|i: int, j: int|
                0 <= i < j < active@.len() ==> #[trigger] active@[i].1 < #[trigger] active@[j].1,
            forall|k: int|
                0 <= k < active@.len() ==> tree_kraft(
                    depth@,
                    owner@,
                    (#[trigger] active@[k]).1,
                    n as nat,
                    n as nat,
                ) == pow2(n as nat),
        decreases active@.len(),
    {
        let ia = min_index(&active);
        let ghost a0 = active@;
        let (wa, a) = active.remove(ia);
        proof {
            lemma_weight_sum_remove(a0, ia as int);
        }
        let ib = min_index(&active);
        let ghost a1 = active@;
        let (wb, b) = active.remove(ib);
        proof {
            lemma_weight_sum_remove(a1, ib as int);
            lemma_weight_sum_member(a0, ia as int);
            lemma_weight_sum_member(a1, ib as int);
        }
        proof {
            assert(a < next_id);
            assert(b < next_id) by {
                let k1 = if ib < ia {
                    ib as int
                } else {
                    ib + 1
                };
                assert(a1[ib as int] == a0[k1]);
            }
        }
        let c = next_id;
        next_id = next_id + 1;
        let ghost d0 = depth@;
        let ghost o0 = owner@;
        let mut t: usize = 0;
        while t < n
            invariant
                n == histogram@.len(),
                t <= n,
                depth@.len() == n,
                owner@.len() == n,
                d0.len() == n,
                o0.len() == n,
                c >= used,
                forall|u: int| 0 <= u < n ==> #[trigger] d0[u] <= merges,
                merges < n,
                n <= 0x4000_0000,
                forall|u: int|
                    0 <= u < t ==> #[trigger] depth@[u] == if o0[u] == a || o0[u] == b {
                        d0[u] + 1
                    } else {
                        d0[u] as int
                    },
                forall|u: int|
                    0 <= u < t ==> #[trigger] owner@[u] == if o0[u] == a || o0[u] == b {
                        c
                    } else {
                        o0[u]
                    },
                forall|u: int| t <= u < n ==> #[trigger] depth@[u] == d0[u],
                forall|u: int| t <= u < n ==> #[trigger] owner@[u] == o0[u],
            decreases n - t,
        {
            if owner[t] == a || owner[t] == b {
                let d = depth[t];
                depth.set(t, d + 1);
                owner.set(t, c);
            }
            t = t + 1;
        }
        let ghost a2 = active@;
        active.push((wa + wb, c));
        proof {
            lemma_merge_step(d0, o0, a0, c, ia as nat, a1, ib as nat, a2, depth@, owner@, active@);
            merges = merges + 1;
            assert(active@.drop_last() =~= a2);
            lemma_merge_keeps(
                histogram@,
                a0,
                ia as int,
                a1,
                ib as int,
                a2,
                active@,
                d0,
                o0,
                depth@,
                owner@,
                c,
                (merges - 1) as nat,
            );
            assert forall|k: int| 0 <= k < active@.len() implies (#[trigger] active@[k]).1 < next_id by {
                if k < a2.len() {
                    let k1 = if k < ib {
                        k
                    } else {
                        k + 1
                    };
                    assert(a2[k] == a1[k1]);
                    let k0 = if k1 < ia {
                        k1
                    } else {
                        k1 + 1
                    };
                    assert(a1[k1] == a0[k0]);
                }
            }
        }
    }
    proof {
        if used >= 2 {
            assert(merges >= 1);
            assert(active@.len() == 1);
            let r = active@[0].1;
            assert forall|t: int| 0 <= t < n && histogram@[t] > 0 implies #[trigger] depth@[t] >= 1 by {
                if depth@[t] == 0 {
                    let k = choose|k: int| 0 <= k < active@.len() && active@[k].1 == owner@[t];
                    assert(k == 0);
                }
            }
            assert forall|t: int| 0 <= t < n implies (#[trigger] owner@[t] == r <==> histogram@[t] > 0) by {
                if histogram@[t] > 0 {
                    let k = choose|k: int| 0 <= k < active@.len() && active@[k].1 == owner@[t];
                    assert(k == 0);
                } else {
                    assert(owner@[t] == usize::MAX);
                    assert(r < next_id);
                }
            }
            lemma_tree_kraft_all(depth@, owner@, histogram@, r, n as nat, n as nat);
        }
        lemma_merge_done(depth@, owner@, active@, next_id);
    }
    depth
}

/// Counting more entries never counts fewer.
proof fn lemma_used_upto_monotone(histogram: Seq<u32>, a: nat, b: nat)
    requires
        a <= b,
    ensures
        used_upto(histogram, a) <= used_upto(histogram, b),
    decreases b,
{
    if b > a {
        lemma_used_upto_monotone(histogram, a, (b - 1) as nat);
    }
}

/// The largest value in `depths`.
fn max_of(depths: &Vec<u32>) -> (r: u32)
    ensures
        forall|i: int| 0 <= i < depths@.len() ==> #[trigger] depths@[i] <= r,
        depths@.len() > 0 ==> exists|i: int| 0 <= i < depths@.len() && depths@[i] == r,
        depths@.len() == 0 ==> r == 0,
{
    let mut best: u32 = 0;
    let mut i: usize = 0;
    while i < depths.len()
        invariant
            i <= depths@.len(),
            forall|j: int| 0 <= j < i ==> #[trigger] depths@[j] <= best,
            i > 0 ==> exists|j: int| 0 <= j < i && depths@[j] == best,
            i == 0 ==> best == 0,
        decreases depths@.len() - i,
    {
        if depths[i] > best || i == 0 {
            best = depths[i];
        }
        i = i + 1;
    }
    best
}

/// The Kraft sum over a prefix depends on that prefix alone.
proof fn lemma_kraft_prefix(a: Seq<u8>, b: Seq<u8>, top: nat, upto: nat)
    requires
        upto <= a.len(),
        upto <= b.len(),
        forall|u: int| 0 <= u < upto ==> a[u] == b[u],
    ensures
        kraft(a, top, upto) == kraft(b, top, upto),
    decreases upto,
{
    if upto > 0 {
        lemma_kraft_prefix(a, b, top, (upto - 1) as nat);
    }
}

/// A complete code over the used symbols with every length at most `k`, where `2^k` is the
/// first power of two at or above the number of used symbols: the first `2^k - used` used symbols
/// get length `k - 1`, the rest length `k`.
#[verifier::spinoff_prover]
#[verifier::rlimit(40)]
fn balanced_lengths(histogram: &[u32], used: usize, max_len: u8) -> (r: Vec<u8>)
    requires
        used == used_count(histogram@),
        used >= 2,
        1 <= max_len <= 31,
        used <= pow2(max_len as nat),
        histogram@.len() <= 0x4000_0000,
    ensures
        r@.len() == histogram@.len(),
        forall|s: int| 0 <= s < histogram@.len() ==> (histogram@[s] == 0 <==> #[trigger] r@[s] == 0),
        forall|s: int| 0 <= s < histogram@.len() ==> #[trigger] r@[s] <= max_len,
        kraft(r@, max_len as nat, r@.len()) == pow2(max_len as nat),
        r@ == balanced(histogram@),
{
    let n = histogram.len();
    let mut k: u8 = 1;
    let mut span: usize = 2;
    proof {
        vstd::arithmetic::power2::lemma2_to64();
        lemma_used_upto_bound(histogram@, n as nat);
    }
    while span < used
        invariant
            1 <= k <= max_len,
            max_len <= 31,
            span == pow2(k as nat),
            span / 2 < used,
            used <= pow2(max_len as nat),
            used <= 0x4000_0000,
            balance_bits(used as nat, 1) == balance_bits(used as nat, k as nat),
        decreases max_len - k,
    {
        proof {
            vstd::arithmetic::power2::lemma2_to64();
            if k == max_len {
                assert(false);
            }
            lemma_pow2_unfold((k + 1) as nat);
            assert(span * 2 <= 0x8000_0000);
        }
        span = span * 2;
        k = k + 1;
    }
    let short = span - used;
    proof {
        lemma_pow2_unfold(k as nat);
        assert(short < used);
        assert(balance_bits(used as nat, k as nat) == k);
    }
    let mut lengths: Vec<u8> = Vec::new();
    let mut given: usize = 0;
    let mut s: usize = 0;
    let ghost big = pow2((max_len - k + 1) as nat);
    let ghost small = pow2((max_len - k) as nat);
    while s < n
        invariant
            s <= n,
            n == histogram@.len(),
            lengths@.len() == s,
            1 <= k <= max_len,
            short < used,
            forall|t: int| 0 <= t < s ==> (histogram@[t] == 0 <==> #[trigger] lengths@[t] == 0),
            forall|t: int| 0 <= t < s ==> #[trigger] lengths@[t] <= max_len,
            short > 0 ==> k >= 2,
            big == pow2((max_len - k + 1) as nat),
            small == pow2((max_len - k) as nat),
            given <= short,
            given <= used_upto(histogram@, s as nat),
            given < short ==> given == used_upto(histogram@, s as nat),
            kraft(lengths@, max_len as nat, s as nat) == given * big + (used_upto(
                histogram@,
                s as nat,
            ) - given) * small,
            used == used_count(histogram@),
            k == balance_bits(used as nat, 1),
            span == pow2(k as nat),
            short == span - used,
            forall|t: int| 0 <= t < s ==> #[trigger] lengths@[t] == balanced(histogram@)[t],
        decreases n - s,
    {
        let ghost before = lengths@;
        let ghost u = used_upto(histogram@, s as nat);
        if histogram[s] == 0 {
            lengths.push(0);
        } else if given < short {
            lengths.push(k - 1);
            given = given + 1;
        } else {
            lengths.push(k);
        }
        proof {
            lemma_kraft_prefix(before, lengths@, max_len as nat, s as nat);
            if histogram@[s as int] > 0 {
                if lengths@[s as int] == k - 1 && short > 0 {
                    assert((max_len - (k - 1)) as nat == (max_len - k + 1) as nat);
                    assert((given as nat) * big + ((u + 1) - given) * small == ((given - 1) as nat)
                        * big + (u - (given - 1)) * small + big) by (nonlinear_arith)
                        requires
                            given >= 1,
                            u + 1 >= given,
                    ;
                } else {
                    assert((given as nat) * big + ((u + 1) - given) * small == (given as nat) * big
                        + (u - given) * small + small) by (nonlinear_arith)
                        requires
                            u >= given,
                    ;
                }
            }
        }
        s = s + 1;
    }
    proof {
        assert(histogram@.take(n as int) =~= histogram@);
        assert(given == short);
        lemma_pow2_unfold((max_len - k + 1) as nat);
        vstd::arithmetic::power2::lemma_pow2_adds((max_len - k) as nat, k as nat);
        assert(short * big + (used - short) * small == (short + used) * small) by (nonlinear_arith)
            requires
                big == 2 * small,
                short <= used,
        ;
        assert(span == short + used);
        assert(((max_len - k) as nat + k as nat) as nat == max_len as nat);
        assert(pow2((max_len - k) as nat) * pow2(k as nat) == pow2(max_len as nat));
        assert((short + used) * small == span * small);
        assert(span * small == pow2(max_len as nat)) by (nonlinear_arith)
            requires
                span == pow2(k as nat),
                small == pow2((max_len - k) as nat),
                pow2((max_len - k) as nat) * pow2(k as nat) == pow2(max_len as nat),
        ;
        assert(lengths@ =~= balanced(histogram@));
    }
    lengths
}

/// Builds length-limited (`<= max_len`) Huffman code lengths from a symbol `histogram`: one
/// length per symbol, zero exactly for the unused ones, and a lone used symbol gets length 1.
///
/// The depth is capped by raising every count toward a common floor and rebuilding until the tree
/// fits; once the floor saturates every weight is equal, and equal weights give a balanced tree of
/// depth `ceil(log2(used))`, which the caller's bound `used <= 2^max_len` keeps within `max_len`.
/// A histogram has at most `2^30` symbols, so that each of the tree's `2 * n - 1` nodes has an
/// index that fits 31 bits.
pub fn build_lengths(histogram: &[u32], max_len: u8) -> (r: Vec<u8>)
    requires
        histogram@.len() <= 0x4000_0000,
        1 <= max_len <= 31,
        used_count(histogram@) <= pow2(max_len as nat),
    ensures
        r@.len() == histogram@.len(),
        forall|s: int| 0 <= s < histogram@.len() ==> (histogram@[s] == 0 <==> #[trigger] r@[s] == 0),
        forall|s: int| 0 <= s < histogram@.len() ==> #[trigger] r@[s] <= max_len,
        used_count(histogram@) == 1 ==> forall|s: int|
            0 <= s < histogram@.len() && histogram@[s] > 0 ==> #[trigger] r@[s] == 1,
        used_count(histogram@) >= 2 ==> kraft(r@, max_len as nat, r@.len()) == pow2(max_len as nat),
        kraft(r@, max_len as nat, r@.len()) <= pow2(max_len as nat),
        r@ == code_lengths(histogram@, max_len),
{
    let n = histogram.len();
    let mut used: usize = 0;
    let mut i: usize = 0;
    while i < n
        invariant
            i <= n,
            n == histogram@.len(),
            used == used_upto(histogram@, i as nat),
            used <= i,
        decreases n - i,
    {
        if histogram[i] > 0 {
            used = used + 1;
        }
        i = i + 1;
    }
    proof {
        assert(histogram@.take(n as int) =~= histogram@);
    }
    if used <= 1 {
        let depths = huffman_pass(histogram, 1);
        proof {
            if used == 0 {
                assert forall|s: int| 0 <= s < n implies histogram@[s] == 0 by {
                    if histogram@[s] > 0 {
                        lemma_used_upto_members(histogram@, n as nat, s);
                    }
                }
            }
        }
        return narrow_lengths(&depths, histogram, max_len);
    }
    let mut count_min: u32 = 1;
    loop
        invariant
            n == histogram@.len(),
            n <= 0x4000_0000,
            used == used_count(histogram@),
            used >= 2,
            1 <= max_len <= 31,
            used <= pow2(max_len as nat),
            count_min >= 1,
            capped_lengths(histogram@, max_len, count_min) == capped_lengths(histogram@, max_len, 1),
        decreases u32::MAX - count_min,
    {
        let depths = huffman_pass(histogram, count_min);
        let max_depth = max_of(&depths);
        if max_depth <= max_len as u32 {
            proof {
                assert(depths_fit(depths@, max_len));
            }
            return narrow_lengths(&depths, histogram, max_len);
        }
        proof {
            assert(!depths_fit(depths@, max_len));
        }
        if count_min == u32::MAX {
            return balanced_lengths(histogram, used, max_len);
        }
        count_min = if count_min > u32::MAX / 2 {
            u32::MAX
        } else {
            count_min * 2
        };
    }
}

/// Lengths of at most one bit that are non-zero exactly for the used symbols have a Kraft sum of
/// `2^(top - 1)` per used symbol.
proof fn lemma_kraft_one_bit(lengths: Seq<u8>, histogram: Seq<u32>, top: nat, upto: nat)
    requires
        top >= 1,
        upto <= lengths.len(),
        upto <= histogram.len(),
        forall|s: int| 0 <= s < upto ==> #[trigger] lengths[s] <= 1,
        forall|s: int| 0 <= s < upto ==> (histogram[s] > 0 <==> #[trigger] lengths[s] > 0),
    ensures
        kraft(lengths, top, upto) == used_upto(histogram, upto) * pow2((top - 1) as nat),
    decreases upto,
{
    let p = pow2((top - 1) as nat);
    if upto == 0 {
        assert(0 * p == 0) by (nonlinear_arith);
    } else {
        lemma_kraft_one_bit(lengths, histogram, top, (upto - 1) as nat);
        let u = upto - 1;
        assert(lengths[u] <= 1);
        assert(histogram[u] > 0 <==> lengths[u] > 0);
        let c = used_upto(histogram, (upto - 1) as nat);
        if histogram[u] > 0 {
            assert(lengths[u] == 1);
            assert((top - lengths[u]) as nat == (top - 1) as nat);
            assert(c * p + p == (c + 1) * p) by (nonlinear_arith);
            assert(kraft(lengths, top, upto) == c * p + p);
        } else {
            assert(kraft(lengths, top, upto) == c * p);
        }
    }
}

/// Byte lengths equal to the depths, zero exactly for unused symbols, have the depths' Kraft sum.
proof fn lemma_kraft_of_depths(
    lengths: Seq<u8>,
    depths: Seq<u32>,
    histogram: Seq<u32>,
    top: nat,
    upto: nat,
)
    requires
        upto <= lengths.len(),
        upto <= depths.len(),
        upto <= histogram.len(),
        forall|s: int| 0 <= s < upto ==> #[trigger] lengths[s] as u32 == depths[s],
        forall|s: int| 0 <= s < upto ==> (histogram[s] > 0 <==> #[trigger] lengths[s] > 0),
    ensures
        kraft(lengths, top, upto) == depth_kraft(depths, histogram, top, upto),
    decreases upto,
{
    if upto > 0 {
        lemma_kraft_of_depths(lengths, depths, histogram, top, (upto - 1) as nat);
        assert(lengths[upto - 1] as u32 == depths[upto - 1]);
        assert(histogram[upto - 1] > 0 <==> lengths[upto - 1] > 0);
    }
}

/// A Kraft sum of `2^from` at scale `from` is one of `2^to` at scale `to`, when no used depth
/// exceeds either scale.
proof fn lemma_depth_kraft_rescale(
    depths: Seq<u32>,
    histogram: Seq<u32>,
    from: nat,
    to: nat,
    upto: nat,
)
    requires
        upto <= depths.len(),
        upto <= histogram.len(),
        forall|u: int| 0 <= u < upto && histogram[u] > 0 ==> #[trigger] depths[u] <= from,
        forall|u: int| 0 <= u < upto && histogram[u] > 0 ==> #[trigger] depths[u] <= to,
        depth_kraft(depths, histogram, from, upto) == pow2(from),
    ensures
        depth_kraft(depths, histogram, to, upto) == pow2(to),
{
    if to <= from {
        lemma_depth_kraft_scale(depths, histogram, to, from, upto);
        vstd::arithmetic::power2::lemma_pow2_adds((from - to) as nat, to);
        lemma_pow2_pos((from - to) as nat);
        let f = pow2((from - to) as nat);
        let x = depth_kraft(depths, histogram, to, upto);
        assert(f * x == f * pow2(to));
        assert(x == pow2(to)) by (nonlinear_arith)
            requires
                f * x == f * pow2(to),
                f > 0,
        ;
    } else {
        lemma_depth_kraft_scale(depths, histogram, from, to, upto);
        vstd::arithmetic::power2::lemma_pow2_adds((to - from) as nat, from);
    }
}

/// Depths that fit `max_len` (and vanish exactly for unused symbols) as byte lengths.
fn narrow_lengths(depths: &Vec<u32>, histogram: &[u32], max_len: u8) -> (r: Vec<u8>)
    requires
        max_len >= 1,
        depths@.len() == histogram@.len(),
        forall|s: int| 0 <= s < depths@.len() ==> #[trigger] depths@[s] <= max_len,
        forall|s: int| 0 <= s < histogram@.len() && histogram@[s] == 0 ==> #[trigger] depths@[s] == 0,
        used_count(histogram@) >= 2 ==> forall|s: int|
            0 <= s < histogram@.len() && histogram@[s] > 0 ==> #[trigger] depths@[s] >= 1,
        used_count(histogram@) == 1 ==> forall|s: int|
            0 <= s < histogram@.len() && histogram@[s] > 0 ==> #[trigger] depths@[s] == 1,
        forall|s: int| 0 <= s < depths@.len() ==> #[trigger] depths@[s] <= depths@.len(),
        used_count(histogram@) >= 2 ==> depth_kraft(
            depths@,
            histogram@,
            depths@.len() as nat,
            depths@.len() as nat,
        ) == pow2(depths@.len() as nat),
    ensures
        r@.len() == histogram@.len(),
        forall|s: int| 0 <= s < histogram@.len() ==> (histogram@[s] == 0 <==> #[trigger] r@[s] == 0),
        forall|s: int| 0 <= s < histogram@.len() ==> #[trigger] r@[s] <= max_len,
        used_count(histogram@) == 1 ==> forall|s: int|
            0 <= s < histogram@.len() && histogram@[s] > 0 ==> #[trigger] r@[s] == 1,
        used_count(histogram@) >= 2 ==> kraft(r@, max_len as nat, r@.len()) == pow2(max_len as nat),
        kraft(r@, max_len as nat, r@.len()) <= pow2(max_len as nat),
        r@ == narrowed(depths@),
{
    let n = depths.len();
    let mut out: Vec<u8> = Vec::new();
    let mut i: usize = 0;
    while i < n
        invariant
            i <= n,
            n == depths@.len(),
            out@.len() == i,
            forall|s: int| 0 <= s < depths@.len() ==> #[trigger] depths@[s] <= max_len,
            forall|s: int| 0 <= s < i ==> #[trigger] out@[s] as u32 == depths@[s],
            forall|s: int| 0 <= s < i ==> #[trigger] out@[s] == depths@[s] as u8,
        decreases n - i,
    {
        out.push(depths[i] as u8);
        i = i + 1;
    }
    proof {
        assert(out@ =~= narrowed(depths@));
        if used_count(histogram@) == 0 {
            assert forall|s: int| 0 <= s < n implies histogram@[s] == 0 by {
                if histogram@[s] > 0 {
                    lemma_used_upto_members(histogram@, n as nat, s);
                }
            }
        }
        if used_count(histogram@) >= 2 {
            assert forall|s: int| 0 <= s < n implies (histogram@[s] > 0 <==> #[trigger] out@[s] > 0) by {
                assert(out@[s] as u32 == depths@[s]);
            }
            lemma_kraft_of_depths(out@, depths@, histogram@, max_len as nat, n as nat);
            lemma_depth_kraft_rescale(depths@, histogram@, n as nat, max_len as nat, n as nat);
        } else {
            assert forall|s: int| 0 <= s < n implies (histogram@[s] > 0 <==> #[trigger] out@[s] > 0) by {
                assert(out@[s] as u32 == depths@[s]);
            }
            assert forall|s: int| 0 <= s < n implies #[trigger] out@[s] <= 1 by {
                assert(out@[s] as u32 == depths@[s]);
                if histogram@[s] == 0 {
                    assert(depths@[s] == 0);
                }
            }
            assert(histogram@.take(n as int) =~= histogram@);
            lemma_kraft_one_bit(out@, histogram@, max_len as nat, n as nat);
            lemma_pow2_unfold(max_len as nat);
            assert(used_upto(histogram@, n as nat) * pow2((max_len - 1) as nat) <= pow2(
                max_len as nat,
            )) by (nonlinear_arith)
                requires
                    used_upto(histogram@, n as nat) <= 1,
                    pow2(max_len as nat) == 2 * pow2((max_len - 1) as nat),
            ;
        }
    }
    out
}

/// Depths taken as byte lengths, one per symbol.
pub open spec fn narrowed(depths: Seq<u32>) -> Seq<u8> {
    Seq::new(depths.len(), |s: int| depths[s] as u8)
}

/// The least `k`, counting up from `from`, with `2^k >= used` (searched no further than 64).
pub open spec fn balance_bits(used: nat, from: nat) -> nat
    decreases 64 - from,
{
    if from >= 64 || pow2(from) >= used {
        from
    } else {
        balance_bits(used, from + 1)
    }
}

/// The balanced lengths for the used symbols of `histogram`: with `k` the least depth (at least 1)
/// whose `2^k` leaves hold every used symbol, the first `2^k - used` used symbols get `k - 1`
/// bits and the others `k`; unused symbols get `0`.
pub open spec fn balanced(histogram: Seq<u32>) -> Seq<u8> {
    let used = used_count(histogram);
    let k = balance_bits(used, 1);
    let short = pow2(k) - used;
    Seq::new(
        histogram.len(),
        |s: int|
            if histogram[s] == 0 {
                0u8
            } else if used_upto(histogram, s as nat) < short {
                (k - 1) as u8
            } else {
                k as u8
            },
    )
}

/// The next count floor: doubled, saturating at `u32::MAX`.
pub open spec fn next_floor(count_min: u32) -> u32 {
    if count_min > u32::MAX / 2 {
        u32::MAX
    } else {
        (count_min * 2) as u32
    }
}

/// Whether every depth is at most `max_len`.
pub open spec fn depths_fit(depths: Seq<u32>, max_len: u8) -> bool {
    forall|s: int| 0 <= s < depths.len() ==> #[trigger] depths[s] <= max_len
}

/// The lengths the capped search settles on from the floor `count_min` up: the first floor whose
/// Huffman depths fit `max_len`, or the balanced lengths once the floor has saturated.
pub open spec fn capped_lengths(histogram: Seq<u32>, max_len: u8, count_min: u32) -> Seq<u8>
    decreases u32::MAX - count_min,
{
    let depths = huffman_depths(histogram, count_min);
    if depths_fit(depths, max_len) {
        narrowed(depths)
    } else if count_min == u32::MAX || count_min == 0 {
        balanced(histogram)
    } else {
        capped_lengths(histogram, max_len, next_floor(count_min))
    }
}

/// The code lengths built for `histogram` under the limit `max_len`: the plain Huffman depths
/// when at most one symbol is used, else the capped search from the floor 1.
pub open spec fn code_lengths(histogram: Seq<u32>, max_len: u8) -> Seq<u8> {
    if used_count(histogram) <= 1 {
        narrowed(huffman_depths(histogram, 1))
    } else {
        capped_lengths(histogram, max_len, 1)
    }
}

/// A canonical Huffman code: per-symbol code lengths plus the matching emit-ready (bit-reversed)
/// codes.
pub struct CanonicalCode {
    lengths: Vec<u8>,
    codes: Vec<u16>,
}

impl CanonicalCode {
    /// The per-symbol code lengths.
    pub closed spec fn spec_lengths(&self) -> Seq<u8> {
        self.lengths@
    }

    /// The codes agree with the lengths.
    pub closed spec fn wf(&self) -> bool {
        &&& self.codes@.len() == self.lengths@.len()
        &&& self.lengths@.len() <= 65536
        &&& forall|sym: int|
            0 <= sym < self.lengths@.len() ==> #[trigger] self.codes@[sym] as nat == canonical_code(
                self.lengths@,
                sym as nat,
            )
        &&& forall|sym: int| 0 <= sym < self.lengths@.len() ==> #[trigger] self.lengths@[sym] <= 15
    }

    /// The emit-ready code of `sym`, as a spec value.
    pub closed spec fn spec_code(&self, sym: int) -> nat {
        self.codes@[sym] as nat
    }

    /// Builds a length-limited (`<= max_len`) canonical code from a symbol `histogram`.
    pub fn from_histogram(histogram: &[u32], max_len: u8) -> (r: Self)
        requires
            histogram@.len() <= 65536,
            1 <= max_len <= 15,
            used_count(histogram@) <= pow2(max_len as nat),
        ensures
            r.wf(),
            r.spec_lengths().len() == histogram@.len(),
            forall|s: int|
                0 <= s < histogram@.len() ==> (histogram@[s] == 0 <==> #[trigger] r.spec_lengths()[s]
                    == 0),
            forall|s: int| 0 <= s < histogram@.len() ==> #[trigger] r.spec_lengths()[s] <= max_len,
            used_count(histogram@) == 1 ==> forall|s: int|
                0 <= s < histogram@.len() && histogram@[s] > 0 ==> #[trigger] r.spec_lengths()[s]
                    == 1,
            forall|s: int|
                0 <= s < histogram@.len() ==> #[trigger] r.spec_code(s) == canonical_code(
                    r.spec_lengths(),
                    s as nat,
                ),
            kraft(r.spec_lengths(), max_len as nat, histogram@.len() as nat) <= pow2(max_len as nat),
            used_count(histogram@) >= 2 ==> kraft(
                r.spec_lengths(),
                max_len as nat,
                histogram@.len() as nat,
            ) == pow2(max_len as nat),
            r.spec_lengths() == code_lengths(histogram@, max_len),
    {
        let lengths = build_lengths(histogram, max_len);
        let codes = canonical_codes(lengths.as_slice());
        Self { lengths, codes }
    }

    /// Each symbol's emit-ready code is its canonical code, and every length fits 15 bits.
    pub proof fn lemma_codes(&self)
        requires
            self.wf(),
        ensures
            self.spec_lengths().len() <= 65536,
            forall|sym: int|
                0 <= sym < self.spec_lengths().len() ==> #[trigger] self.spec_code(sym)
                    == canonical_code(self.spec_lengths(), sym as nat),
    {
    }

    /// Per-symbol code lengths (`0` = symbol unused / absent from the code).
    pub fn lengths(&self) -> (r: &[u8])
        ensures
            r@ == self.spec_lengths(),
    {
        self.lengths.as_slice()
    }

    /// Emits the code for `sym` (nothing if `sym` is unused, i.e. has length 0).
    pub fn emit(&self, w: &mut BitWriter, sym: usize)
        requires
            self.wf(),
            old(w).wf(),
            sym < self.spec_lengths().len(),
        ensures
            final(w).wf(),
            final(w).spec_bits() == old(w).spec_bits() + lsb_bits(
                self.spec_code(sym as int),
                self.spec_lengths()[sym as int] as nat,
            ),
    {
        let len = self.lengths[sym];
        if len > 0 {
            w.write_bits(self.codes[sym] as u32, len as u32);
        } else {
            proof {
                assert(w.spec_bits() + lsb_bits(self.spec_code(sym as int), 0) =~= w.spec_bits());
            }
        }
    }
}

} // verus!

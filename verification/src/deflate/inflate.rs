//! What a DEFLATE stream decodes to (RFC 1951 §3.2), written as spec functions: a reference
//! inflater over the stream's bits, against which the encoder's bodies are proved to round-trip.
//!
//! Huffman codes are read most significant bit first, every other field least significant bit
//! first, and a code is described by a function from each symbol to its `(code, length)` pair
//! (length 0 for a symbol without a code).
use vstd::prelude::*;
use vstd::arithmetic::power2::{pow2, lemma_pow2_pos, lemma_pow2_unfold};
use crate::deflate::bitwriter::{
    lsb_bits, lsb_value, lemma_lsb_bits, bytes_bits, align_pad, zeros, lemma_pack_bytes_bits,
    lemma_bytes_bits_at, lemma_bytes_bits_of_pack,
};
use crate::deflate::huffman::code_value;
use crate::deflate::huffman::{bit, reversed, spec_fixed_litlen};
use crate::deflate::block::{
    MAX_STORED, code_bits, fixed_symbol_bits, fixed_token_bits, fixed_tokens_bits,
    fixed_block_bits, packed, stored_block, stored_blocks,
};
use crate::deflate::lz77::{Token, copy_back, expand, tokens_valid, expands_within};
use crate::deflate::symbols::{
    LENGTH_BASE, LENGTH_EXTRA, DIST_BASE, DIST_EXTRA, length_parts, distance_parts,
    lemma_length_parts, lemma_distance_parts,
};

verus! {

/// The number whose binary digits, most significant first, are `b`.
pub open spec fn msb_value(b: Seq<bool>) -> nat
    decreases b.len(),
{
    if b.len() == 0 {
        0
    } else {
        2 * msb_value(b.drop_last()) + if b.last() {
            1nat
        } else {
            0nat
        }
    }
}

/// `x` is what the bits at `p` begin with.
pub open spec fn sits_at(bits: Seq<bool>, p: nat, x: Seq<bool>) -> bool {
    p + x.len() <= bits.len() && bits.subrange(p as int, (p + x.len()) as int) == x
}

/// The symbol below `n` whose code, of `len` to 15 bits, the bits at `p` begin with, and the
/// length of that code.
pub open spec fn decode_from(
    code: spec_fn(nat) -> (nat, nat),
    n: nat,
    bits: Seq<bool>,
    p: nat,
    len: nat,
) -> Option<(nat, nat)>
    decreases 16 - len,
{
    if len > 15 || p + len > bits.len() {
        None
    } else {
        let v = msb_value(bits.subrange(p as int, (p + len) as int));
        if exists|s: nat| s < n && #[trigger] code(s) == (v, len) {
            Some((choose|s: nat| s < n && #[trigger] code(s) == (v, len), len))
        } else {
            decode_from(code, n, bits, p, len + 1)
        }
    }
}

/// The symbol whose code the bits at `p` begin with, and the code's length: the shortest match.
pub open spec fn decode_symbol(code: spec_fn(nat) -> (nat, nat), n: nat, bits: Seq<bool>, p: nat) -> Option<
    (nat, nat),
> {
    decode_from(code, n, bits, p, 1)
}

/// The bits a symbol's code is written with: its `len` bits, most significant first.
pub open spec fn sym_bits(code: spec_fn(nat) -> (nat, nat), s: nat) -> Seq<bool> {
    lsb_bits(reversed(code(s).0, code(s).1), code(s).1)
}

/// A code DEFLATE can decode: each code of the symbols below `n` has at most 15 bits and fits
/// them (a symbol of length 0 has none), and no code is a prefix of another.
pub open spec fn decodable(code: spec_fn(nat) -> (nat, nat), n: nat) -> bool {
    &&& forall|s: nat|
        s < n ==> (#[trigger] code(s)).1 <= 15 && (code(s).1 >= 1 ==> code(s).0 < pow2(code(s).1))
    &&& forall|s: nat, t: nat|
        #![trigger code(s), code(t)]
        s < n && t < n && s != t && 1 <= code(s).1 <= code(t).1 ==> code(t).0 / pow2(
            (code(t).1 - code(s).1) as nat,
        ) != code(s).0
}

/// Reading the `l` low bits of `v` (least significant first) most significant first reverses
/// them.
proof fn lemma_msb_of_lsb_bits(v: nat, l: nat)
    ensures
        msb_value(lsb_bits(v, l)) == reversed(v, l),
    decreases l,
{
    if l > 0 {
        lemma_msb_of_lsb_bits(v, (l - 1) as nat);
        assert(lsb_bits(v, l).drop_last() =~= lsb_bits(v, (l - 1) as nat));
        lemma_pow2_pos((l - 1) as nat);
    }
}

/// Reversal peels the lowest bit off to the top.
proof fn lemma_reversed_low(v: nat, l: nat)
    requires
        l >= 1,
    ensures
        reversed(v, l) == bit(v, 0) * pow2((l - 1) as nat) + reversed(v / 2, (l - 1) as nat),
    decreases l,
{
    vstd::arithmetic::power2::lemma2_to64();
    if l == 1 {
        assert(reversed(v, 0) == 0);
        assert(reversed(v / 2, 0) == 0);
    } else {
        lemma_reversed_low(v, (l - 1) as nat);
        let k = (l - 2) as nat;
        lemma_pow2_pos(k);
        lemma_pow2_unfold((l - 1) as nat);
        vstd::arithmetic::div_mod::lemma_div_denominator(v as int, 2, pow2(k) as int);
        assert(bit(v, (l - 1) as nat) == bit(v / 2, k));
        let b = bit(v, 0);
        let p = pow2(k);
        assert(2 * (b * p) == b * (2 * p)) by (nonlinear_arith);
    }
}

/// Reversing twice gives back the low bits.
proof fn lemma_reversed_twice(c: nat, l: nat)
    ensures
        reversed(reversed(c, l), l) == c % pow2(l),
    decreases l,
{
    vstd::arithmetic::power2::lemma2_to64();
    if l > 0 {
        let k = (l - 1) as nat;
        lemma_reversed_twice(c, k);
        let r1 = reversed(c, k);
        let b = bit(c, k);
        let r = reversed(c, l);
        assert(r == 2 * r1 + b);
        lemma_pow2_pos(k);
        lemma_reversed_low(r, l);
        assert(bit(r, 0) == b);
        assert(r / 2 == r1);
        lemma_pow2_unfold(l);
        vstd::arithmetic::div_mod::lemma_mod_breakdown(c as int, pow2(k) as int, 2);
        assert(pow2(k) * 2 == pow2(l));
        assert(b * pow2(k) == pow2(k) * b) by (nonlinear_arith);
    }
}

/// A code written as [`sym_bits`] reads back as its value.
pub proof fn lemma_sym_bits_value(code: spec_fn(nat) -> (nat, nat), s: nat)
    requires
        code(s).0 < pow2(code(s).1),
    ensures
        sym_bits(code, s).len() == code(s).1,
        msb_value(sym_bits(code, s)) == code(s).0,
{
    let (c, l) = code(s);
    lemma_msb_of_lsb_bits(reversed(c, l), l);
    lemma_reversed_twice(c, l);
    vstd::arithmetic::div_mod::lemma_small_mod(c, pow2(l));
}

/// The first `k` of `b`'s bits, read most significant first, are `b`'s value shifted right by the
/// rest.
proof fn lemma_msb_prefix(b: Seq<bool>, k: nat)
    requires
        k <= b.len(),
    ensures
        msb_value(b.take(k as int)) == msb_value(b) / pow2((b.len() - k) as nat),
    decreases b.len(),
{
    vstd::arithmetic::power2::lemma2_to64();
    if k == b.len() {
        assert(b.take(k as int) =~= b);
        assert(pow2((b.len() - k) as nat) == 1);
    } else {
        let d = b.drop_last();
        lemma_msb_prefix(d, k);
        assert(b.take(k as int) =~= d.take(k as int));
        let e = (d.len() - k) as nat;
        lemma_pow2_pos(e);
        lemma_pow2_unfold(e + 1);
        vstd::arithmetic::div_mod::lemma_div_denominator(msb_value(b) as int, 2, pow2(e) as int);
        assert(msb_value(b) / 2 == msb_value(d));
        assert((b.len() - k) as nat == e + 1);
        assert(pow2(e + 1) == 2 * pow2(e));
        assert(msb_value(b) / pow2(e + 1) == msb_value(d) / pow2(e));
    }
}

/// The shortest match is the written symbol, from any starting length up to its own.
proof fn lemma_decode_from(
    code: spec_fn(nat) -> (nat, nat),
    n: nat,
    bits: Seq<bool>,
    p: nat,
    s: nat,
    len: nat,
)
    requires
        decodable(code, n),
        s < n,
        1 <= len <= code(s).1,
        sits_at(bits, p, sym_bits(code, s)),
    ensures
        decode_from(code, n, bits, p, len) == Some((s, code(s).1)),
    decreases code(s).1 - len,
{
    let (c, l) = code(s);
    assert(code(s).1 <= 15 && (code(s).1 >= 1 ==> code(s).0 < pow2(code(s).1)));
    lemma_sym_bits_value(code, s);
    let whole = bits.subrange(p as int, (p + l) as int);
    assert(whole == sym_bits(code, s));
    let v = msb_value(bits.subrange(p as int, (p + len) as int));
    lemma_msb_prefix(whole, len);
    assert(whole.take(len as int) =~= bits.subrange(p as int, (p + len) as int));
    assert(v == c / pow2((l - len) as nat));
    if len < l {
        assert forall|t: nat| t < n implies #[trigger] code(t) != (v, len) by {
            if code(t) == (v, len) {
                assert(t != s);
                assert(c / pow2((l - code(t).1) as nat) != code(t).0);
            }
        }
        lemma_decode_from(code, n, bits, p, s, len + 1);
    } else {
        vstd::arithmetic::power2::lemma2_to64();
        assert(v == c);
        assert(code(s) == (v, len));
        let t = choose|t: nat| t < n && #[trigger] code(t) == (v, len);
        if t != s {
            assert(c / pow2((l - code(t).1) as nat) != code(t).0);
        }
    }
}

/// A decodable code reads back every symbol written with it.
pub proof fn lemma_decode_symbol(
    code: spec_fn(nat) -> (nat, nat),
    n: nat,
    bits: Seq<bool>,
    p: nat,
    s: nat,
)
    requires
        decodable(code, n),
        s < n,
        1 <= code(s).1,
        sits_at(bits, p, sym_bits(code, s)),
    ensures
        decode_symbol(code, n, bits, p) == Some((s, code(s).1)),
{
    lemma_decode_from(code, n, bits, p, s, 1);
}

/// A decoded symbol lies below `n` and its code takes between 1 and 15 bits, all of them present.
pub proof fn lemma_decode_bounds(
    code: spec_fn(nat) -> (nat, nat),
    n: nat,
    bits: Seq<bool>,
    p: nat,
    len: nat,
)
    requires
        len >= 1,
    ensures
        decode_from(code, n, bits, p, len) matches Some((s, l)) ==> s < n && 1 <= l <= 15 && p
            + l <= bits.len(),
    decreases 16 - len,
{
    if !(len > 15 || p + len > bits.len()) {
        let v = msb_value(bits.subrange(p as int, (p + len) as int));
        if !(exists|s: nat| s < n && #[trigger] code(s) == (v, len)) {
            lemma_decode_bounds(code, n, bits, p, len + 1);
        }
    }
}

// ---------------------------------------------------------------------------------------------
// Huffman-coded data (RFC 1951 §3.2.5).

/// Huffman-coded data from bit `p` on: literals, and lengths each followed by a distance, under
/// the literal/length code `lit` (symbols below `nl`) and the distance code `dist` (below `nd`),
/// appended to `out` up to end-of-block (symbol 256). The output and the position past
/// end-of-block; `None` when no code matches, a symbol is not one DEFLATE defines, a field runs
/// past the end, or a distance reaches before the start of the output.
pub open spec fn inflate_codes(
    bits: Seq<bool>,
    p: nat,
    out: Seq<u8>,
    lit: spec_fn(nat) -> (nat, nat),
    nl: nat,
    dist: spec_fn(nat) -> (nat, nat),
    nd: nat,
) -> Option<(Seq<u8>, nat)>
    decreases bits.len() - p,
{
    match decode_symbol(lit, nl, bits, p) {
        None => None,
        Some((sym, used)) => {
            proof {
                lemma_decode_bounds(lit, nl, bits, p, 1);
            }
            let q = p + used;
            if sym < 256 {
                inflate_codes(bits, q, out.push(sym as u8), lit, nl, dist, nd)
            } else if sym == 256 {
                Some((out, q))
            } else if sym <= 285 {
                let lb = LENGTH_EXTRA@[sym - 257] as nat;
                let q2 = q + lb;
                if q2 > bits.len() {
                    None
                } else {
                    let length = LENGTH_BASE@[sym - 257] + lsb_value(
                        bits.subrange(q as int, q2 as int),
                    );
                    match decode_symbol(dist, nd, bits, q2) {
                        None => None,
                        Some((ds, dused)) => {
                            proof {
                                lemma_decode_bounds(dist, nd, bits, q2, 1);
                            }
                            let q3 = q2 + dused;
                            if ds >= 30 {
                                None
                            } else {
                                let q4 = q3 + DIST_EXTRA@[ds as int] as nat;
                                if q4 > bits.len() {
                                    None
                                } else {
                                    let distance = DIST_BASE@[ds as int] + lsb_value(
                                        bits.subrange(q3 as int, q4 as int),
                                    );
                                    if distance > out.len() {
                                        None
                                    } else {
                                        inflate_codes(
                                            bits,
                                            q4,
                                            copy_back(out, length as nat, distance as nat),
                                            lit,
                                            nl,
                                            dist,
                                            nd,
                                        )
                                    }
                                }
                            }
                        },
                    }
                }
            } else {
                None
            }
        },
    }
}

/// The bits a token is written with under the literal/length code `lit` and the distance code
/// `dist`: a literal's code, or a length symbol's code and extra bits followed by a distance
/// symbol's code and extra bits.
pub open spec fn token_bits_with(
    lit: spec_fn(nat) -> (nat, nat),
    dist: spec_fn(nat) -> (nat, nat),
    t: Token,
) -> Seq<bool> {
    match t {
        Token::Literal(b) => sym_bits(lit, b as nat),
        Token::Match { len, dist: d } => {
            let (ls, lb, lv) = length_parts(len as nat);
            let (ds, db, dv) = distance_parts(d as nat);
            sym_bits(lit, ls) + lsb_bits(lv, lb) + sym_bits(dist, ds) + lsb_bits(dv, db)
        },
    }
}

/// A token stream written under the codes `lit` and `dist`.
pub open spec fn tokens_bits_with(
    lit: spec_fn(nat) -> (nat, nat),
    dist: spec_fn(nat) -> (nat, nat),
    tokens: Seq<Token>,
) -> Seq<bool>
    decreases tokens.len(),
{
    if tokens.len() == 0 {
        Seq::empty()
    } else {
        tokens_bits_with(lit, dist, tokens.drop_last()) + token_bits_with(lit, dist, tokens.last())
    }
}

/// Every symbol a token needs has a code: a literal's byte, or a match's length and distance
/// symbols.
pub open spec fn token_coded(
    lit: spec_fn(nat) -> (nat, nat),
    nl: nat,
    dist: spec_fn(nat) -> (nat, nat),
    nd: nat,
    t: Token,
) -> bool {
    match t {
        Token::Literal(b) => b < nl && lit(b as nat).1 >= 1,
        Token::Match { len, dist: d } => {
            &&& length_parts(len as nat).0 < nl
            &&& lit(length_parts(len as nat).0).1 >= 1
            &&& distance_parts(d as nat).0 < nd
            &&& dist(distance_parts(d as nat).0).1 >= 1
        },
    }
}

/// The codes cover a token stream and its end-of-block.
pub open spec fn tokens_coded(
    lit: spec_fn(nat) -> (nat, nat),
    nl: nat,
    dist: spec_fn(nat) -> (nat, nat),
    nd: nat,
    tokens: Seq<Token>,
) -> bool {
    &&& 256 < nl
    &&& lit(256).1 >= 1
    &&& forall|i: int| 0 <= i < tokens.len() ==> token_coded(lit, nl, dist, nd, #[trigger] tokens[i])
}

/// What sits at `p` sits there piece by piece.
pub proof fn lemma_sits_sub(bits: Seq<bool>, p: nat, x: Seq<bool>, a: nat, b: nat)
    requires
        sits_at(bits, p, x),
        a <= b <= x.len(),
    ensures
        sits_at(bits, p + a, x.subrange(a as int, b as int)),
{
    assert(bits.subrange((p + a) as int, (p + b) as int) =~= x.subrange(a as int, b as int));
}

/// A token stream's bits begin with those of any of its prefixes.
proof fn lemma_tokens_bits_prefix(
    lit: spec_fn(nat) -> (nat, nat),
    dist: spec_fn(nat) -> (nat, nat),
    tokens: Seq<Token>,
    j: nat,
)
    requires
        j <= tokens.len(),
    ensures
        tokens_bits_with(lit, dist, tokens.take(j as int)).len() <= tokens_bits_with(
            lit,
            dist,
            tokens,
        ).len(),
        tokens_bits_with(lit, dist, tokens).take(
            tokens_bits_with(lit, dist, tokens.take(j as int)).len() as int,
        ) == tokens_bits_with(lit, dist, tokens.take(j as int)),
    decreases tokens.len(),
{
    if j == tokens.len() {
        assert(tokens.take(j as int) =~= tokens);
        assert(tokens_bits_with(lit, dist, tokens).take(
            tokens_bits_with(lit, dist, tokens).len() as int,
        ) =~= tokens_bits_with(lit, dist, tokens));
    } else {
        let d = tokens.drop_last();
        lemma_tokens_bits_prefix(lit, dist, d, j);
        assert(d.take(j as int) =~= tokens.take(j as int));
        let whole = tokens_bits_with(lit, dist, tokens);
        let part = tokens_bits_with(lit, dist, d);
        let pre = tokens_bits_with(lit, dist, tokens.take(j as int));
        assert(whole == part + token_bits_with(lit, dist, tokens.last()));
        assert(whole.take(pre.len() as int) =~= part.take(pre.len() as int));
    }
}

/// The output after one more token.
pub open spec fn token_step(out: Seq<u8>, t: Token) -> Seq<u8> {
    match t {
        Token::Literal(b) => out.push(b),
        Token::Match { len, dist } => copy_back(out, len as nat, dist as nat),
    }
}

/// A literal written under a decodable code decodes to itself.
proof fn lemma_inflate_literal(
    bits: Seq<bool>,
    q: nat,
    out: Seq<u8>,
    b: u8,
    lit: spec_fn(nat) -> (nat, nat),
    nl: nat,
    dist: spec_fn(nat) -> (nat, nat),
    nd: nat,
)
    requires
        decodable(lit, nl),
        token_coded(lit, nl, dist, nd, Token::Literal(b)),
        sits_at(bits, q, sym_bits(lit, b as nat)),
    ensures
        inflate_codes(bits, q, out, lit, nl, dist, nd) == inflate_codes(
            bits,
            q + sym_bits(lit, b as nat).len(),
            out.push(b),
            lit,
            nl,
            dist,
            nd,
        ),
{
    lemma_decode_symbol(lit, nl, bits, q, b as nat);
    lemma_sym_bits_value(lit, b as nat);
}

/// A match written under decodable codes that cover it decodes to its back-copy.
#[verifier::rlimit(40)]
proof fn lemma_inflate_match(
    bits: Seq<bool>,
    q: nat,
    out: Seq<u8>,
    len: u16,
    d: u16,
    lit: spec_fn(nat) -> (nat, nat),
    nl: nat,
    dist: spec_fn(nat) -> (nat, nat),
    nd: nat,
)
    requires
        decodable(lit, nl),
        decodable(dist, nd),
        crate::deflate::lz77::token_valid(Token::Match { len, dist: d }),
        token_coded(lit, nl, dist, nd, Token::Match { len, dist: d }),
        sits_at(bits, q, token_bits_with(lit, dist, Token::Match { len, dist: d })),
        d <= out.len(),
    ensures
        inflate_codes(bits, q, out, lit, nl, dist, nd) == inflate_codes(
            bits,
            q + token_bits_with(lit, dist, Token::Match { len, dist: d }).len(),
            copy_back(out, len as nat, d as nat),
            lit,
            nl,
            dist,
            nd,
        ),
{
    let tb = token_bits_with(lit, dist, Token::Match { len, dist: d });
    lemma_length_parts(len as nat);
    lemma_distance_parts(d as nat);
    let (ls, lb, lv) = length_parts(len as nat);
    let (ds, db, dv) = distance_parts(d as nat);
    let s1 = sym_bits(lit, ls);
    let e1 = lsb_bits(lv, lb);
    let s2 = sym_bits(dist, ds);
    let e2 = lsb_bits(dv, db);
    lemma_sym_bits_value(lit, ls);
    lemma_sym_bits_value(dist, ds);
    lemma_lsb_bits(lv, lb);
    lemma_lsb_bits(dv, db);
    vstd::arithmetic::div_mod::lemma_small_mod(lv, pow2(lb));
    vstd::arithmetic::div_mod::lemma_small_mod(dv, pow2(db));
    assert(tb == s1 + e1 + s2 + e2);
    let a1 = s1.len();
    let a2 = a1 + e1.len();
    let a3 = a2 + s2.len();
    lemma_sits_sub(bits, q, tb, 0, a1);
    assert(tb.subrange(0, a1 as int) =~= s1);
    lemma_decode_symbol(lit, nl, bits, q, ls);
    lemma_sits_sub(bits, q, tb, a1, a2);
    assert(tb.subrange(a1 as int, a2 as int) =~= e1);
    lemma_sits_sub(bits, q, tb, a2, a3);
    assert(tb.subrange(a2 as int, a3 as int) =~= s2);
    lemma_decode_symbol(dist, nd, bits, q + a2, ds);
    lemma_sits_sub(bits, q, tb, a3, tb.len());
    assert(tb.subrange(a3 as int, tb.len() as int) =~= e2);
    assert(bits.subrange((q + a1) as int, (q + a2) as int) == e1);
    assert(bits.subrange((q + a3) as int, (q + tb.len()) as int) == e2);
}

/// Decoding the tokens from the `i`-th on, with the first `i` already expanded, ends with the
/// whole expansion just past end-of-block.
#[verifier::spinoff_prover]
#[verifier::rlimit(60)]
proof fn lemma_inflate_tokens_from(
    bits: Seq<bool>,
    p0: nat,
    tokens: Seq<Token>,
    i: nat,
    lit: spec_fn(nat) -> (nat, nat),
    nl: nat,
    dist: spec_fn(nat) -> (nat, nat),
    nd: nat,
)
    requires
        decodable(lit, nl),
        decodable(dist, nd),
        tokens_valid(tokens),
        expands_within(tokens),
        tokens_coded(lit, nl, dist, nd, tokens),
        i <= tokens.len(),
        sits_at(bits, p0, tokens_bits_with(lit, dist, tokens) + sym_bits(lit, 256)),
    ensures
        inflate_codes(
            bits,
            p0 + tokens_bits_with(lit, dist, tokens.take(i as int)).len(),
            expand(tokens.take(i as int)),
            lit,
            nl,
            dist,
            nd,
        ) == Some(
            (
                expand(tokens),
                p0 + tokens_bits_with(lit, dist, tokens).len() + sym_bits(lit, 256).len(),
            ),
        ),
    decreases tokens.len() - i,
{
    let all = tokens_bits_with(lit, dist, tokens);
    let x = all + sym_bits(lit, 256);
    let pre = tokens_bits_with(lit, dist, tokens.take(i as int));
    let q = p0 + pre.len();
    let out = expand(tokens.take(i as int));
    lemma_tokens_bits_prefix(lit, dist, tokens, i);
    if i == tokens.len() {
        assert(tokens.take(i as int) =~= tokens);
        lemma_sits_sub(bits, p0, x, all.len(), x.len());
        assert(x.subrange(all.len() as int, x.len() as int) =~= sym_bits(lit, 256));
        lemma_decode_symbol(lit, nl, bits, q, 256);
        lemma_sym_bits_value(lit, 256);
    } else {
        let t = tokens[i as int];
        let next = tokens.take((i + 1) as int);
        assert(next.drop_last() =~= tokens.take(i as int));
        assert(next.last() == t);
        let tb = token_bits_with(lit, dist, t);
        assert(tokens_bits_with(lit, dist, next) == pre + tb);
        lemma_tokens_bits_prefix(lit, dist, tokens, i + 1);
        let m = pre.len() + tb.len();
        assert(tokens_bits_with(lit, dist, next).len() == m);
        assert(all.take(m as int) == pre + tb);
        assert(m <= all.len());
        assert forall|k: int| 0 <= k < tb.len() implies #[trigger] x.subrange(
            pre.len() as int,
            m as int,
        )[k] == tb[k] by {
            assert(x.subrange(pre.len() as int, m as int)[k] == x[pre.len() + k]);
            assert(x[pre.len() + k] == all[pre.len() + k]);
            assert(all.take(m as int)[pre.len() + k] == all[pre.len() + k]);
            assert((pre + tb)[pre.len() + k] == tb[k]);
        }
        assert(x.subrange(pre.len() as int, m as int) =~= tb);
        lemma_sits_sub(bits, p0, x, pre.len(), pre.len() + tb.len());
        assert(crate::deflate::lz77::token_valid(t));
        assert(token_coded(lit, nl, dist, nd, t));
        assert(expand(next) == token_step(out, t));
        lemma_inflate_tokens_from(bits, p0, tokens, i + 1, lit, nl, dist, nd);
        match t {
            Token::Literal(b) => {
                lemma_inflate_literal(bits, q, out, b, lit, nl, dist, nd);
            },
            Token::Match { len, dist: d } => {
                assert(d <= out.len());
                lemma_inflate_match(bits, q, out, len, d, lit, nl, dist, nd);
            },
        }
    }
}

/// A token stream written under decodable codes that cover it, followed by end-of-block, decodes
/// to what it expands to.
pub proof fn lemma_inflate_tokens(
    bits: Seq<bool>,
    p0: nat,
    tokens: Seq<Token>,
    lit: spec_fn(nat) -> (nat, nat),
    nl: nat,
    dist: spec_fn(nat) -> (nat, nat),
    nd: nat,
)
    requires
        decodable(lit, nl),
        decodable(dist, nd),
        tokens_valid(tokens),
        expands_within(tokens),
        tokens_coded(lit, nl, dist, nd, tokens),
        sits_at(bits, p0, tokens_bits_with(lit, dist, tokens) + sym_bits(lit, 256)),
    ensures
        inflate_codes(bits, p0, Seq::empty(), lit, nl, dist, nd) == Some(
            (
                expand(tokens),
                p0 + tokens_bits_with(lit, dist, tokens).len() + sym_bits(lit, 256).len(),
            ),
        ),
{
    lemma_inflate_tokens_from(bits, p0, tokens, 0, lit, nl, dist, nd);
    assert(tokens.take(0) =~= Seq::<Token>::empty());
}

// ---------------------------------------------------------------------------------------------
// The fixed codes (RFC 1951 §3.2.6).

/// The fixed literal/length code.
pub open spec fn fixed_lit_code() -> spec_fn(nat) -> (nat, nat) {
    |s: nat| spec_fixed_litlen(s)
}

/// The fixed distance code: five bits holding the symbol.
pub open spec fn fixed_dist_code() -> spec_fn(nat) -> (nat, nat) {
    |s: nat| (s, 5nat)
}

/// The fixed literal/length code (symbols 0 to 287) and distance code (0 to 29) are decodable.
pub proof fn lemma_fixed_decodable()
    ensures
        decodable(fixed_lit_code(), 288),
        decodable(fixed_dist_code(), 30),
{
    vstd::arithmetic::power2::lemma2_to64();
    let c = fixed_lit_code();
    assert forall|s: nat| s < 288 implies (#[trigger] c(s)).1 <= 15 && (c(s).1 >= 1 ==> c(s).0 < pow2(
        c(s).1,
    )) by {}
    assert forall|s: nat, t: nat|
        #![trigger c(s), c(t)]
        s < 288 && t < 288 && s != t && 1 <= c(s).1 <= c(t).1 implies c(t).0 / pow2(
            (c(t).1 - c(s).1) as nat,
        ) != c(s).0 by {
        let d = (c(t).1 - c(s).1) as nat;
        assert(d <= 2);
        if d == 0 {
            assert(c(t).0 / 1 == c(t).0);
        } else if d == 1 {
            assert(pow2(d) == 2);
        } else {
            assert(pow2(d) == 4);
        }
    }
    let e = fixed_dist_code();
    assert forall|s: nat| s < 30 implies (#[trigger] e(s)).1 <= 15 && (e(s).1 >= 1 ==> e(s).0 < pow2(
        e(s).1,
    )) by {}
    assert forall|s: nat, t: nat|
        #![trigger e(s), e(t)]
        s < 30 && t < 30 && s != t && 1 <= e(s).1 <= e(t).1 implies e(t).0 / pow2(
            (e(t).1 - e(s).1) as nat,
        ) != e(s).0 by {
        assert(e(t) == (t, 5nat));
        assert(e(s) == (s, 5nat));
        assert(pow2(0) == 1);
        assert(t / 1 == t);
    }
}

/// The fixed-Huffman writer's bits are those of the generic writer under the fixed codes.
pub proof fn lemma_fixed_tokens_bits(tokens: Seq<Token>)
    ensures
        fixed_tokens_bits(tokens) == tokens_bits_with(fixed_lit_code(), fixed_dist_code(), tokens),
        fixed_symbol_bits(256) == sym_bits(fixed_lit_code(), 256),
    decreases tokens.len(),
{
    if tokens.len() > 0 {
        lemma_fixed_tokens_bits(tokens.drop_last());
        let t = tokens.last();
        match t {
            Token::Literal(b) => {},
            Token::Match { len, dist: d } => {
                let (ds, db, dv) = distance_parts(d as nat);
                assert(code_bits(ds, 5) == sym_bits(fixed_dist_code(), ds));
            },
        }
        assert(fixed_token_bits(t) == token_bits_with(fixed_lit_code(), fixed_dist_code(), t));
    }
}

/// The fixed codes cover every codable token stream.
pub proof fn lemma_fixed_coded(tokens: Seq<Token>)
    requires
        tokens_valid(tokens),
    ensures
        tokens_coded(fixed_lit_code(), 288, fixed_dist_code(), 30, tokens),
{
    assert forall|i: int| 0 <= i < tokens.len() implies token_coded(
        fixed_lit_code(),
        288,
        fixed_dist_code(),
        30,
        #[trigger] tokens[i],
    ) by {
        assert(crate::deflate::lz77::token_valid(tokens[i]));
        match tokens[i] {
            Token::Literal(b) => {},
            Token::Match { len, dist: d } => {
                lemma_length_parts(len as nat);
                lemma_distance_parts(d as nat);
            },
        }
    }
}

/// Decoding Huffman-coded data moves forward and stays within the bits.
pub proof fn lemma_inflate_codes_advances(
    bits: Seq<bool>,
    p: nat,
    out: Seq<u8>,
    lit: spec_fn(nat) -> (nat, nat),
    nl: nat,
    dist: spec_fn(nat) -> (nat, nat),
    nd: nat,
)
    ensures
        inflate_codes(bits, p, out, lit, nl, dist, nd) matches Some((o, q)) ==> p < q
            <= bits.len(),
    decreases bits.len() - p,
{
    lemma_decode_bounds(lit, nl, bits, p, 1);
    match decode_symbol(lit, nl, bits, p) {
        None => {},
        Some((sym, used)) => {
            let q = p + used;
            if sym < 256 {
                lemma_inflate_codes_advances(bits, q, out.push(sym as u8), lit, nl, dist, nd);
            } else if 256 < sym <= 285 {
                let q2 = q + LENGTH_EXTRA@[sym - 257] as nat;
                if q2 <= bits.len() {
                    let length = LENGTH_BASE@[sym - 257] + lsb_value(
                        bits.subrange(q as int, q2 as int),
                    );
                    lemma_decode_bounds(dist, nd, bits, q2, 1);
                    match decode_symbol(dist, nd, bits, q2) {
                        None => {},
                        Some((ds, dused)) => {
                            if ds < 30 {
                                let q3 = q2 + dused;
                                let q4 = q3 + DIST_EXTRA@[ds as int] as nat;
                                if q4 <= bits.len() {
                                    let distance = DIST_BASE@[ds as int] + lsb_value(
                                        bits.subrange(q3 as int, q4 as int),
                                    );
                                    lemma_inflate_codes_advances(
                                        bits,
                                        q4,
                                        copy_back(out, length as nat, distance as nat),
                                        lit,
                                        nl,
                                        dist,
                                        nd,
                                    );
                                }
                            }
                        },
                    }
                }
            }
        },
    }
}

// ---------------------------------------------------------------------------------------------
// Blocks (RFC 1951 §3.2.3, §3.2.4, §3.2.7).

/// A stored block whose header ends at bit `p`: skip to the byte boundary, then `LEN` and its
/// complement `NLEN` (little-endian bytes), then `LEN` bytes appended to `out`. The output and
/// the position past the payload; `None` when `NLEN` is wrong or the stream is cut short.
pub open spec fn inflate_stored(stream: Seq<u8>, p: nat, out: Seq<u8>) -> Option<(Seq<u8>, nat)> {
    let k = (p + align_pad(p)) / 8;
    if k + 4 > stream.len() {
        None
    } else {
        let len = stream[k as int] + 256 * stream[k + 1int];
        let nlen = stream[k + 2int] + 256 * stream[k + 3int];
        if nlen != 65535 - len || k + 4 + len > stream.len() {
            None
        } else {
            Some((out + stream.subrange(k + 4int, k + 4 + len), (8 * (k + 4 + len)) as nat))
        }
    }
}

/// The canonical code with these code lengths (RFC 1951 §3.2.2).
pub open spec fn canonical(lengths: Seq<u8>) -> spec_fn(nat) -> (nat, nat) {
    |s: nat| (code_value(lengths, s), lengths[s as int] as nat)
}

/// Where code-length symbol `k` comes in the order the code-length code lengths are written.
pub open spec fn cl_slot(k: nat) -> nat {
    seq![3nat, 17, 15, 13, 11, 9, 7, 5, 4, 6, 8, 10, 12, 14, 16, 18, 0, 1, 2][k as int]
}

/// The code-length code lengths: `hclen` fields of 3 bits from bit `p`, in the order of
/// [`cl_slot`]; symbols past them have length 0.
pub open spec fn read_cl_lengths(bits: Seq<bool>, p: nat, hclen: nat) -> Seq<u8> {
    Seq::new(
        19,
        |k: int|
            if cl_slot(k as nat) < hclen {
                lsb_value(
                    bits.subrange(
                        (p + 3 * cl_slot(k as nat)) as int,
                        (p + 3 * cl_slot(k as nat) + 3) as int,
                    ),
                ) as u8
            } else {
                0u8
            },
    )
}

/// Code lengths from bit `p` on, coded with the code-length code of lengths `cl`, appended to
/// `acc` until there are `total`: symbols 0 to 15 are lengths, 16 repeats the previous length 3
/// to 6 times (2 extra bits), 17 gives 3 to 10 zeros (3 extra bits), 18 gives 11 to 138 zeros (7
/// extra bits). The lengths and the position after them; `None` when they overshoot `total`, a
/// repeat has nothing to repeat, or a code is not found.
pub open spec fn inflate_lengths(
    bits: Seq<bool>,
    p: nat,
    cl: Seq<u8>,
    total: nat,
    acc: Seq<u8>,
) -> Option<(Seq<u8>, nat)>
    decreases bits.len() - p,
{
    if acc.len() >= total {
        if acc.len() == total {
            Some((acc, p))
        } else {
            None
        }
    } else {
        match decode_symbol(canonical(cl), 19, bits, p) {
            None => None,
            Some((sym, used)) => {
                proof {
                    lemma_decode_bounds(canonical(cl), 19, bits, p, 1);
                }
                let q = p + used;
                if sym <= 15 {
                    inflate_lengths(bits, q, cl, total, acc.push(sym as u8))
                } else {
                    let nb: nat = if sym == 16 {
                        2
                    } else if sym == 17 {
                        3
                    } else {
                        7
                    };
                    let base: nat = if sym == 18 {
                        11
                    } else {
                        3
                    };
                    if q + nb > bits.len() || (sym == 16 && acc.len() == 0) {
                        None
                    } else {
                        let count = base + lsb_value(bits.subrange(q as int, (q + nb) as int));
                        let v: u8 = if sym == 16 {
                            acc.last()
                        } else {
                            0
                        };
                        inflate_lengths(bits, q + nb, cl, total, acc + Seq::new(count, |k: int| v))
                    }
                }
            },
        }
    }
}

/// A dynamic-Huffman block whose header ends at bit `p`: HLIT, HDIST and HCLEN, the code-length
/// code lengths, the literal/length and distance code lengths coded with them, then the data
/// under the two canonical codes, appended to `out`.
pub open spec fn inflate_dynamic(bits: Seq<bool>, p: nat, out: Seq<u8>) -> Option<(Seq<u8>, nat)> {
    if p + 14 > bits.len() {
        None
    } else {
        let hlit = lsb_value(bits.subrange(p as int, p + 5int)) + 257;
        let hdist = lsb_value(bits.subrange(p + 5int, p + 10int)) + 1;
        let hclen = lsb_value(bits.subrange(p + 10int, p + 14int)) + 4;
        let q = p + 14 + 3 * hclen;
        if hlit > 286 || hdist > 30 || q > bits.len() {
            None
        } else {
            let cl = read_cl_lengths(bits, p + 14, hclen);
            match inflate_lengths(bits, q, cl, hlit + hdist, Seq::empty()) {
                None => None,
                Some((lengths, r)) => inflate_codes(
                    bits,
                    r,
                    out,
                    canonical(lengths.take(hlit as int)),
                    hlit,
                    canonical(lengths.skip(hlit as int)),
                    hdist,
                ),
            }
        }
    }
}

/// One block from bit `p` on: its `BTYPE` (two bits after `BFINAL`) selects a stored, a
/// fixed-Huffman or a dynamic-Huffman block (`BTYPE = 3` is an error).
pub open spec fn inflate_block(stream: Seq<u8>, p: nat, out: Seq<u8>) -> Option<(Seq<u8>, nat)> {
    let bits = bytes_bits(stream);
    let btype = lsb_value(bits.subrange(p + 1int, p + 3int));
    if btype == 0 {
        inflate_stored(stream, p + 3, out)
    } else if btype == 1 {
        inflate_codes(bits, p + 3, out, fixed_lit_code(), 288, fixed_dist_code(), 30)
    } else if btype == 2 {
        inflate_dynamic(bits, p + 3, out)
    } else {
        None
    }
}

/// A block moves forward and stays within the stream.
pub proof fn lemma_inflate_block_advances(stream: Seq<u8>, p: nat, out: Seq<u8>)
    requires
        p + 3 <= bytes_bits(stream).len(),
    ensures
        inflate_block(stream, p, out) matches Some((o, q)) ==> p < q <= bytes_bits(stream).len(),
{
    let bits = bytes_bits(stream);
    lemma_pack_bytes_bits(stream);
    let btype = lsb_value(bits.subrange(p + 1int, p + 3int));
    if btype == 0 {
        let k = (p + 3 + align_pad(p + 3)) / 8;
        assert(8 * k >= p + 3);
    } else if btype == 1 {
        lemma_inflate_codes_advances(bits, p + 3, out, fixed_lit_code(), 288, fixed_dist_code(), 30);
    } else if btype == 2 {
        let p3 = p + 3;
        if p3 + 14 <= bits.len() {
            let hlit = lsb_value(bits.subrange(p3 as int, p3 + 5int)) + 257;
            let hdist = lsb_value(bits.subrange(p3 + 5int, p3 + 10int)) + 1;
            let hclen = lsb_value(bits.subrange(p3 + 10int, p3 + 14int)) + 4;
            let q = p3 + 14 + 3 * hclen;
            let cl = read_cl_lengths(bits, p3 + 14, hclen);
            lemma_inflate_lengths_advances(bits, q, cl, hlit + hdist, Seq::empty());
            match inflate_lengths(bits, q, cl, hlit + hdist, Seq::empty()) {
                None => {},
                Some((lengths, r)) => {
                    lemma_inflate_codes_advances(
                        bits,
                        r,
                        out,
                        canonical(lengths.take(hlit as int)),
                        hlit,
                        canonical(lengths.skip(hlit as int)),
                        hdist,
                    );
                },
            }
        }
    }
}

/// Decoding code lengths does not move backward.
pub proof fn lemma_inflate_lengths_advances(
    bits: Seq<bool>,
    p: nat,
    cl: Seq<u8>,
    total: nat,
    acc: Seq<u8>,
)
    ensures
        inflate_lengths(bits, p, cl, total, acc) matches Some((l, q)) ==> p <= q,
    decreases bits.len() - p,
{
    if acc.len() < total {
        lemma_decode_bounds(canonical(cl), 19, bits, p, 1);
        match decode_symbol(canonical(cl), 19, bits, p) {
            None => {},
            Some((sym, used)) => {
                let q = p + used;
                if sym <= 15 {
                    lemma_inflate_lengths_advances(bits, q, cl, total, acc.push(sym as u8));
                } else {
                    let nb: nat = if sym == 16 {
                        2
                    } else if sym == 17 {
                        3
                    } else {
                        7
                    };
                    let base: nat = if sym == 18 {
                        11
                    } else {
                        3
                    };
                    if !(q + nb > bits.len() || (sym == 16 && acc.len() == 0)) {
                        let count = base + lsb_value(bits.subrange(q as int, (q + nb) as int));
                        let v: u8 = if sym == 16 {
                            acc.last()
                        } else {
                            0
                        };
                        lemma_inflate_lengths_advances(
                            bits,
                            q + nb,
                            cl,
                            total,
                            acc + Seq::new(count, |k: int| v),
                        );
                    }
                }
            },
        }
    }
}

/// The blocks from bit `p` on, appended to `out`, up to and including the one whose `BFINAL`
/// bit is set. The output and the position past the final block.
pub open spec fn inflate_blocks(stream: Seq<u8>, p: nat, out: Seq<u8>) -> Option<(Seq<u8>, nat)>
    decreases bytes_bits(stream).len() - p,
{
    if p + 3 > bytes_bits(stream).len() {
        None
    } else {
        match inflate_block(stream, p, out) {
            None => None,
            Some((o, q)) => {
                proof {
                    lemma_inflate_block_advances(stream, p, out);
                }
                if bytes_bits(stream)[p as int] {
                    Some((o, q))
                } else {
                    inflate_blocks(stream, q, o)
                }
            },
        }
    }
}

/// What a raw DEFLATE stream (RFC 1951) decodes to: its blocks from the first bit on, up to the
/// final one; bits after it are ignored.
pub open spec fn inflate(stream: Seq<u8>) -> Option<Seq<u8>> {
    match inflate_blocks(stream, 0, Seq::empty()) {
        Some((out, _)) => Some(out),
        None => None,
    }
}

// ---------------------------------------------------------------------------------------------
// Round trips.

/// A byte 0 or 1 at byte `k` starts a stored block header: `BFINAL` is the byte's low bit and
/// `BTYPE` is 0.
proof fn lemma_stored_header(stream: Seq<u8>, k: nat)
    requires
        k < stream.len(),
        stream[k as int] <= 1,
    ensures
        bytes_bits(stream)[8 * k as int] == (stream[k as int] == 1),
        lsb_value(bytes_bits(stream).subrange(8 * k + 1int, 8 * k + 3int)) == 0,
{
    vstd::arithmetic::power2::lemma2_to64();
    let bits = bytes_bits(stream);
    lemma_bytes_bits_at(stream, k);
    let hb = lsb_bits(stream[k as int] as nat, 8);
    assert(bits.subrange(8 * k as int, 8 * k + 8int) == hb);
    assert(bits[8 * k as int] == hb[0]);
    assert(bits[8 * k + 1int] == hb[1]);
    assert(bits[8 * k + 2int] == hb[2]);
    let two = bits.subrange(8 * k + 1int, 8 * k + 3int);
    assert(two =~= seq![false, false]);
    assert(seq![false, false].drop_last() =~= seq![false]);
    assert(seq![false].drop_last() =~= Seq::<bool>::empty());
    assert(lsb_value(Seq::<bool>::empty()) == 0);
    assert(lsb_value(seq![false]) == 0);
    assert(lsb_value(seq![false, false]) == 0);
}

/// The byte fields of one stored block read back as its length, the length's complement and its
/// payload.
proof fn lemma_stored_fields(stream: Seq<u8>, k0: nat, chunk: Seq<u8>, last: bool)
    requires
        chunk.len() <= MAX_STORED,
        k0 + 5 + chunk.len() <= stream.len(),
        stream.subrange(k0 as int, (k0 + 5 + chunk.len()) as int) == stored_block(chunk, last),
    ensures
        stream[k0 as int] == (if last {
            1u8
        } else {
            0u8
        }),
        stream[k0 + 1int] + 256 * stream[k0 + 2int] == chunk.len(),
        stream[k0 + 3int] + 256 * stream[k0 + 4int] == 65535 - chunk.len(),
        stream.subrange(k0 + 5int, (k0 + 5 + chunk.len()) as int) == chunk,
{
    let blk = stored_block(chunk, last);
    let w = stream.subrange(k0 as int, (k0 + 5 + chunk.len()) as int);
    assert(stream[k0 as int] == w[0]);
    assert(stream[k0 + 1int] == w[1]);
    assert(stream[k0 + 2int] == w[2]);
    assert(stream[k0 + 3int] == w[3]);
    assert(stream[k0 + 4int] == w[4]);
    assert(stream.subrange(k0 + 5int, (k0 + 5 + chunk.len()) as int) =~= w.subrange(
        5,
        5 + chunk.len() as int,
    ));
    assert(blk.subrange(5, 5 + chunk.len() as int) =~= chunk);
}

/// Stored blocks at byte `k0` decode to the data they were written from, ending where they end.
#[verifier::spinoff_prover]
proof fn lemma_inflate_stored_blocks(stream: Seq<u8>, k0: nat, data: Seq<u8>, out: Seq<u8>)
    requires
        k0 + stored_blocks(data).len() <= stream.len(),
        stream.subrange(k0 as int, (k0 + stored_blocks(data).len()) as int) == stored_blocks(data),
    ensures
        inflate_blocks(stream, 8 * k0, out) == Some(
            (out + data, 8 * (k0 + stored_blocks(data).len())),
        ),
    decreases data.len(),
{
    lemma_pack_bytes_bits(stream);
    let last = data.len() <= MAX_STORED;
    let chunk = if last {
        data
    } else {
        data.take(MAX_STORED as int)
    };
    let rest = data.skip(MAX_STORED as int);
    let blk = stored_block(chunk, last);
    let len = chunk.len();
    let whole = stored_blocks(data);
    let tail = stream.subrange(k0 as int, (k0 + whole.len()) as int);
    if last {
        assert(whole == blk);
    } else {
        assert(whole == blk + stored_blocks(rest));
    }
    assert(stream.subrange(k0 as int, (k0 + 5 + len) as int) =~= tail.subrange(0, 5 + len as int));
    assert(tail.subrange(0, 5 + len as int) =~= blk);
    lemma_stored_fields(stream, k0, chunk, last);
    lemma_stored_header(stream, k0);
    let p3 = 8 * k0 + 3;
    assert(align_pad(p3) == 5) by {
        vstd::arithmetic::div_mod::lemma_mod_multiples_vanish(k0 as int, 3, 8);
    }
    assert((p3 + align_pad(p3)) / 8 == k0 + 1) by {
        vstd::arithmetic::div_mod::lemma_div_multiples_vanish_fancy(k0 as int + 1, 0, 8);
    }
    let q = 8 * (k0 + 5 + len);
    assert(inflate_block(stream, 8 * k0, out) == Some((out + chunk, q as nat)));
    if !last {
        let k1 = k0 + 5 + len;
        let more = stored_blocks(rest);
        assert(stream.subrange(k1 as int, (k1 + more.len()) as int) =~= tail.subrange(
            5 + len as int,
            whole.len() as int,
        ));
        assert(tail.subrange(5 + len as int, whole.len() as int) =~= more);
        lemma_inflate_stored_blocks(stream, k1, rest, out + chunk);
        assert(chunk + rest =~= data);
        assert(out + chunk + rest =~= out + data);
    }
}

/// What the stored writer produces decodes to its input, whatever follows it, ending at its
/// last byte.
pub proof fn lemma_inflate_stored(data: Seq<u8>, rest: Seq<u8>)
    ensures
        inflate_blocks(stored_blocks(data) + rest, 0, Seq::empty()) == Some(
            (data, 8 * stored_blocks(data).len()),
        ),
{
    let stream = stored_blocks(data) + rest;
    assert(stream.subrange(0, stored_blocks(data).len() as int) =~= stored_blocks(data));
    lemma_inflate_stored_blocks(stream, 0, data, Seq::empty());
    assert(Seq::<u8>::empty() + data =~= data);
}

/// A bit string packed into bytes takes the bytes that hold it, the last one padded.
pub proof fn lemma_packed_len(b: Seq<bool>)
    ensures
        packed(b).len() == (b.len() + 7) / 8,
{
    lemma_bits_of_packed(b);
    lemma_pack_bytes_bits(packed(b));
    let n = b.len();
    let pad = align_pad(n);
    assert(pad < 8);
    let m = packed(b).len();
    assert(8 * m == n + pad);
    assert((n + 7) / 8 == m) by {
        vstd::arithmetic::div_mod::lemma_fundamental_div_mod_converse(
            (n + 7) as int,
            8,
            m as int,
            (7 - pad) as int,
        );
    }
}

/// The bits of bytes followed by more bytes begin with the first bytes' bits.
pub proof fn lemma_bits_of_packed_then(b: Seq<bool>, rest: Seq<u8>)
    ensures
        bytes_bits(packed(b) + rest).len() >= b.len(),
        bytes_bits(packed(b) + rest).subrange(0, b.len() as int) == b,
{
    lemma_bits_of_packed(b);
    crate::deflate::bitwriter::lemma_bytes_bits_concat(packed(b), rest);
    let bits = bytes_bits(packed(b) + rest);
    assert(bits.subrange(0, b.len() as int) =~= b);
}

/// Bits padded to whole bytes and packed are the bits of the packed bytes.
pub proof fn lemma_bits_of_packed(b: Seq<bool>)
    ensures
        bytes_bits(packed(b)) == b + zeros(align_pad(b.len())),
        (b + zeros(align_pad(b.len()))).len() % 8 == 0,
{
    let y = b + zeros(align_pad(b.len()));
    assert(y.len() % 8 == 0) by {
        let n = b.len();
        vstd::arithmetic::div_mod::lemma_mod_bound(n as int, 8);
        if n % 8 != 0 {
            vstd::arithmetic::div_mod::lemma_mod_adds(n as int, (8 - n % 8) as int, 8);
        }
    }
    lemma_bytes_bits_of_pack(y);
}

/// Within a known prefix, the bits are the prefix's.
pub proof fn lemma_sub_of_prefix(bits: Seq<bool>, b: Seq<bool>, a: int, c: int)
    requires
        bits.len() >= b.len(),
        bits.subrange(0, b.len() as int) == b,
        0 <= a <= c <= b.len(),
    ensures
        bits.subrange(a, c) == b.subrange(a, c),
{
    assert forall|k: int| 0 <= k < c - a implies #[trigger] bits.subrange(a, c)[k] == b.subrange(
        a,
        c,
    )[k] by {
        assert(bits.subrange(0, b.len() as int)[a + k] == bits[a + k]);
    }
    assert(bits.subrange(a, c) =~= b.subrange(a, c));
}

/// A block header `BFINAL = 1` with the given two-bit `BTYPE` reads back at the start of the
/// block.
pub proof fn lemma_final_header(bits: Seq<bool>, btype: nat)
    requires
        btype < 4,
        bits.len() >= 3,
        bits.take(3) == lsb_bits(1, 1) + lsb_bits(btype, 2),
    ensures
        bits[0],
        lsb_value(bits.subrange(1, 3)) == btype,
{
    vstd::arithmetic::power2::lemma2_to64();
    let h = lsb_bits(1, 1) + lsb_bits(btype, 2);
    assert(lsb_bits(1, 1).len() == 1);
    assert(pow2(0) == 1);
    assert(lsb_bits(1, 1)[0] == ((1nat / pow2(0)) % 2 == 1));
    assert(bits.take(3)[0] == bits[0]);
    assert(bits[0] == h[0]);
    assert(h[0] == lsb_bits(1, 1)[0]);
    assert(bits[1] == h[1]);
    assert(bits[2] == h[2]);
    assert(bits.subrange(1, 3) =~= lsb_bits(btype, 2));
    lemma_lsb_bits(btype, 2);
}

/// The fixed-Huffman block of a codable token stream that expands within itself decodes to the
/// stream's expansion, whatever follows it, ending in its last byte.
#[verifier::spinoff_prover]
#[verifier::rlimit(60)]
pub proof fn lemma_inflate_fixed(tokens: Seq<Token>, rest: Seq<u8>)
    requires
        tokens_valid(tokens),
        expands_within(tokens),
    ensures
        inflate_blocks(packed(fixed_block_bits(tokens)) + rest, 0, Seq::empty()) matches Some(
            (out, e),
        ) && out == expand(tokens) && (e + 7) / 8 == packed(fixed_block_bits(tokens)).len(),
{
    let b = fixed_block_bits(tokens);
    let stream = packed(b) + rest;
    lemma_bits_of_packed_then(b, rest);
    lemma_packed_len(b);
    let bits = bytes_bits(stream);
    lemma_pack_bytes_bits(stream);
    let t = fixed_tokens_bits(tokens);
    let eob = fixed_symbol_bits(256);
    assert(b == lsb_bits(1, 1) + lsb_bits(1, 2) + t + eob);
    assert(bits.take(3) =~= lsb_bits(1, 1) + lsb_bits(1, 2));
    lemma_final_header(bits, 1);
    lemma_fixed_tokens_bits(tokens);
    lemma_fixed_decodable();
    lemma_fixed_coded(tokens);
    assert(sits_at(bits, 3, t + eob)) by {
        let pre = bits.subrange(0, b.len() as int);
        assert(pre == b);
        assert(bits.subrange(3, 3 + (t + eob).len() as int) =~= pre.subrange(
            3,
            3 + (t + eob).len() as int,
        ));
        assert(b.subrange(3, 3 + (t + eob).len() as int) =~= t + eob);
    }
    lemma_inflate_tokens(bits, 3, tokens, fixed_lit_code(), 288, fixed_dist_code(), 30);
    lemma_sym_bits_value(fixed_lit_code(), 256);
    let e = 3 + t.len() + eob.len();
    assert(e == b.len());
    assert(inflate_block(stream, 0, Seq::empty()) == Some((expand(tokens), e as nat)));
}

} // verus!

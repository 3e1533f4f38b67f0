//! The dynamic-Huffman block reads back: its header, code-length code, run-length-coded code
//! lengths and data all decode, under the reference inflater, to what the writer was given.
use vstd::prelude::*;
use vstd::arithmetic::power2::{pow2, lemma_pow2_pos, lemma_pow2_adds};
use crate::deflate::huffman::{
    count_len, first_code, code_value, canonical_code, kraft, law_canonical_codes_are_prefix_free,
    lemma_code_value_fits,
};
use crate::deflate::bitwriter::{lsb_bits, lsb_value, lemma_lsb_bits};
use crate::deflate::dynamic::{
    ClItem, trim_from, trimmed, huff_bits, hclen_from, cl_header_bits, CL_ORDER, items_bits,
    expand_cl, item_valid, items_valid, covers_items, rle_from, run_items, zero_run, run_end,
    lemma_run_end, dyn_token_bits, dyn_tokens_bits, covers_tokens, lit_symbol, usable_codes,
    dynamic_block_bits, described_lengths, code_fits, law_rle_round_trips,
};
use crate::deflate::lz77::{Token, expand, tokens_valid, expands_within, token_valid};
use crate::deflate::symbols::{length_parts, distance_parts, lemma_length_parts, lemma_distance_parts};
use crate::deflate::block::packed;
use crate::deflate::inflate::{
    canonical, decodable, sym_bits, sits_at, cl_slot, read_cl_lengths, inflate_lengths,
    decode_symbol, lemma_decode_symbol, lemma_sym_bits_value, lemma_sits_sub, token_coded,
    tokens_coded, token_bits_with, tokens_bits_with, inflate, inflate_blocks, inflate_block,
    inflate_dynamic, inflate_codes, lemma_inflate_tokens, lemma_bits_of_packed_then, lemma_packed_len,
    lemma_final_header, lemma_sub_of_prefix,
};
use crate::deflate::bitwriter::{bytes_bits, lemma_pack_bytes_bits};

verus! {

/// Counting over a prefix only looks at the prefix.
proof fn lemma_count_len_take(lengths: Seq<u8>, h: nat, l: nat, u: nat)
    requires
        u <= h <= lengths.len(),
    ensures
        count_len(lengths.take(h as int), l, u) == count_len(lengths, l, u),
    decreases u,
{
    if u > 0 {
        lemma_count_len_take(lengths, h, l, (u - 1) as nat);
        assert(lengths.take(h as int)[u - 1] == lengths[u - 1]);
    }
}

/// Zero lengths past `h` add nothing to the count of a nonzero length.
proof fn lemma_count_len_tail(lengths: Seq<u8>, h: nat, l: nat, u: nat)
    requires
        h <= u <= lengths.len(),
        l >= 1,
        forall|k: int| h <= k < lengths.len() ==> #[trigger] lengths[k] == 0,
    ensures
        count_len(lengths, l, u) == count_len(lengths, l, h),
    decreases u,
{
    if u > h {
        lemma_count_len_tail(lengths, h, l, (u - 1) as nat);
        assert(lengths[u - 1] == 0);
    }
}

/// Dropping trailing zero lengths keeps every first code.
proof fn lemma_first_code_take(lengths: Seq<u8>, h: nat, b: nat)
    requires
        h <= lengths.len(),
        forall|k: int| h <= k < lengths.len() ==> #[trigger] lengths[k] == 0,
    ensures
        first_code(lengths.take(h as int), b) == first_code(lengths, b),
    decreases b,
{
    if b > 1 {
        lemma_first_code_take(lengths, h, (b - 1) as nat);
        lemma_count_len_take(lengths, h, (b - 1) as nat, h);
        lemma_count_len_tail(lengths, h, (b - 1) as nat, lengths.len());
    }
}

/// Dropping trailing zero lengths keeps the canonical code of every remaining symbol.
pub proof fn lemma_code_value_take(lengths: Seq<u8>, h: nat, s: nat)
    requires
        s < h <= lengths.len(),
        forall|k: int| h <= k < lengths.len() ==> #[trigger] lengths[k] == 0,
    ensures
        code_value(lengths.take(h as int), s) == code_value(lengths, s),
        lengths.take(h as int)[s as int] == lengths[s as int],
{
    let l = lengths[s as int] as nat;
    lemma_first_code_take(lengths, h, l);
    lemma_count_len_take(lengths, h, l, s);
}

/// The trimmed count lies between `min` and the length, and only zeros follow it.
pub proof fn lemma_trim_from(lengths: Seq<u8>, n: nat, min: nat)
    requires
        min <= n <= lengths.len(),
        forall|k: int| n <= k < lengths.len() ==> #[trigger] lengths[k] == 0,
    ensures
        min <= trim_from(lengths, n, min) <= n,
        forall|k: int| trim_from(lengths, n, min) <= k < lengths.len() ==> #[trigger] lengths[k] == 0,
    decreases n,
{
    if n > min && lengths[n - 1] == 0 {
        lemma_trim_from(lengths, (n - 1) as nat, min);
    }
}

/// [`trimmed`] keeps at least `min` lengths and drops only zeros.
pub proof fn lemma_trimmed(lengths: Seq<u8>, min: nat)
    requires
        min <= lengths.len(),
    ensures
        min <= trimmed(lengths, min) <= lengths.len(),
        forall|k: int| trimmed(lengths, min) <= k < lengths.len() ==> #[trigger] lengths[k] == 0,
{
    lemma_trim_from(lengths, lengths.len(), min);
}

/// Raising the scale of a Kraft sum multiplies it by a power of two.
pub proof fn lemma_kraft_scale(lengths: Seq<u8>, t: nat, d: nat, u: nat)
    requires
        u <= lengths.len(),
        forall|k: int| 0 <= k < u ==> #[trigger] lengths[k] <= t,
    ensures
        kraft(lengths, t + d, u) == kraft(lengths, t, u) * pow2(d),
    decreases u,
{
    if u > 0 {
        lemma_kraft_scale(lengths, t, d, (u - 1) as nat);
        let l = lengths[u - 1];
        let a = kraft(lengths, t, (u - 1) as nat);
        let x: nat = if l > 0 {
            pow2((t - l) as nat)
        } else {
            0
        };
        let y: nat = if l > 0 {
            pow2((t + d - l) as nat)
        } else {
            0
        };
        assert(kraft(lengths, t, u) == a + x);
        assert(kraft(lengths, t + d, u) == kraft(lengths, t + d, (u - 1) as nat) + y);
        if l > 0 {
            assert(l <= t);
            lemma_pow2_adds((t - l) as nat, d);
            assert((t + d - l) as nat == (t - l) as nat + d);
            assert(y == x * pow2(d));
        } else {
            assert(y == x * pow2(d));
        }
        assert(a * pow2(d) + x * pow2(d) == (a + x) * pow2(d)) by (nonlinear_arith);
        assert(kraft(lengths, t + d, (u - 1) as nat) == a * pow2(d));
        assert(kraft(lengths, t + d, u) == (a + x) * pow2(d));
    } else {
        assert(kraft(lengths, t + d, u) == 0);
        assert(kraft(lengths, t, u) == 0);
        assert(0 * pow2(d) == 0);
    }
}

/// The canonical code of code lengths of at most 15 bits with a Kraft sum of at most 1, with its
/// trailing zero lengths dropped, is decodable.
pub proof fn lemma_canonical_decodable(lengths: Seq<u8>, h: nat)
    requires
        h <= lengths.len(),
        forall|k: int| 0 <= k < lengths.len() ==> #[trigger] lengths[k] <= 15,
        kraft(lengths, 15, lengths.len()) <= pow2(15),
        forall|k: int| h <= k < lengths.len() ==> #[trigger] lengths[k] == 0,
    ensures
        decodable(canonical(lengths.take(h as int)), h),
{
    let c = canonical(lengths.take(h as int));
    assert forall|s: nat| s < h implies (#[trigger] c(s)).1 <= 15 && (c(s).1 >= 1 ==> c(s).0 < pow2(
        c(s).1,
    )) by {
        lemma_code_value_take(lengths, h, s);
        if lengths[s as int] >= 1 {
            lemma_code_value_fits(lengths, s);
        }
    }
    assert forall|s: nat, t: nat|
        #![trigger c(s), c(t)]
        s < h && t < h && s != t && 1 <= c(s).1 <= c(t).1 implies c(t).0 / pow2(
            (c(t).1 - c(s).1) as nat,
        ) != c(s).0 by {
        lemma_code_value_take(lengths, h, s);
        lemma_code_value_take(lengths, h, t);
        law_canonical_codes_are_prefix_free(lengths, s, t);
    }
}

/// A symbol with a code is written as the decoder's canonical code reads it.
pub proof fn lemma_huff_bits(lengths: Seq<u8>, h: nat, s: nat)
    requires
        s < h <= lengths.len(),
        1 <= lengths[s as int] <= 15,
        forall|k: int| h <= k < lengths.len() ==> #[trigger] lengths[k] == 0,
    ensures
        huff_bits(lengths, s) == sym_bits(canonical(lengths.take(h as int)), s),
{
    lemma_code_value_take(lengths, h, s);
}

/// Code-length symbol `k` is written in slot [`cl_slot`]`(k)` of `CL_ORDER`.
pub proof fn lemma_cl_slot()
    ensures
        forall|k: nat| k < 19 ==> #[trigger] cl_slot(k) < 19 && CL_ORDER@[cl_slot(k) as int] == k,
{
    assert(CL_ORDER@ =~= seq![16usize, 17, 18, 0, 8, 7, 9, 6, 10, 5, 11, 4, 12, 3, 13, 2, 14, 1, 15]);
    assert forall|k: nat| k < 19 implies #[trigger] cl_slot(k) < 19 && CL_ORDER@[cl_slot(k) as int]
        == k by {
        if k == 0 {
            assert(cl_slot(k) == 3);
        } else if k == 1 {
            assert(cl_slot(k) == 17);
        } else if k == 2 {
            assert(cl_slot(k) == 15);
        } else if k == 3 {
            assert(cl_slot(k) == 13);
        } else if k == 4 {
            assert(cl_slot(k) == 11);
        } else if k == 5 {
            assert(cl_slot(k) == 9);
        } else if k == 6 {
            assert(cl_slot(k) == 7);
        } else if k == 7 {
            assert(cl_slot(k) == 5);
        } else if k == 8 {
            assert(cl_slot(k) == 4);
        } else if k == 9 {
            assert(cl_slot(k) == 6);
        } else if k == 10 {
            assert(cl_slot(k) == 8);
        } else if k == 11 {
            assert(cl_slot(k) == 10);
        } else if k == 12 {
            assert(cl_slot(k) == 12);
        } else if k == 13 {
            assert(cl_slot(k) == 14);
        } else if k == 14 {
            assert(cl_slot(k) == 16);
        } else if k == 15 {
            assert(cl_slot(k) == 18);
        } else if k == 16 {
            assert(cl_slot(k) == 0);
        } else if k == 17 {
            assert(cl_slot(k) == 1);
        } else if k == 18 {
            assert(cl_slot(k) == 2);
        }
    }
}

/// HCLEN + 4 lies between 4 and `h`, and the lengths it leaves out are zero.
pub proof fn lemma_hclen_from(cl: Seq<u8>, h: nat)
    requires
        4 <= h <= 19,
        cl.len() == 19,
    ensures
        4 <= hclen_from(cl, h) <= h,
        forall|i: int| hclen_from(cl, h) <= i < h ==> cl[#[trigger] CL_ORDER@[i] as int] == 0,
    decreases h,
{
    assert(CL_ORDER@ =~= seq![16usize, 17, 18, 0, 8, 7, 9, 6, 10, 5, 11, 4, 12, 3, 13, 2, 14, 1, 15]);
    if h > 4 && cl[CL_ORDER@[h - 1] as int] == 0 {
        lemma_hclen_from(cl, (h - 1) as nat);
    }
}

/// The code-length code lengths are written 3 bits each, in `CL_ORDER`.
#[verifier::spinoff_prover]
#[verifier::rlimit(40)]
pub proof fn lemma_cl_header_bits(cl: Seq<u8>, h: nat)
    requires
        h <= 19,
    ensures
        cl_header_bits(cl, h).len() == 3 * h,
        forall|i: int|
            0 <= i < h ==> #[trigger] cl_header_bits(cl, h).subrange(3 * i, 3 * i + 3) == lsb_bits(
                cl[CL_ORDER@[i] as int] as nat,
                3,
            ),
    decreases h,
{
    if h > 0 {
        let k = (h - 1) as nat;
        lemma_cl_header_bits(cl, k);
        let pre = cl_header_bits(cl, k);
        let x = lsb_bits(cl[CL_ORDER@[k as int] as int] as nat, 3);
        assert(cl_header_bits(cl, h) == pre + x);
        assert forall|i: int| 0 <= i < h implies #[trigger] cl_header_bits(cl, h).subrange(
            3 * i,
            3 * i + 3,
        ) == lsb_bits(cl[CL_ORDER@[i] as int] as nat, 3) by {
            if i < k {
                assert((pre + x).subrange(3 * i, 3 * i + 3) =~= pre.subrange(3 * i, 3 * i + 3));
            } else {
                assert((pre + x).subrange(3 * i, 3 * i + 3) =~= x);
            }
        }
    }
}

/// The code-length code lengths read back from their header fields.
pub proof fn lemma_read_cl_lengths(bits: Seq<bool>, p: nat, cl: Seq<u8>)
    requires
        cl.len() == 19,
        forall|k: int| 0 <= k < 19 ==> #[trigger] cl[k] <= 7,
        sits_at(bits, p, cl_header_bits(cl, hclen_from(cl, 19))),
    ensures
        read_cl_lengths(bits, p, hclen_from(cl, 19)) == cl,
{
    let h = hclen_from(cl, 19);
    lemma_hclen_from(cl, 19);
    lemma_cl_header_bits(cl, h);
    lemma_cl_slot();
    vstd::arithmetic::power2::lemma2_to64();
    let hb = cl_header_bits(cl, h);
    let r = read_cl_lengths(bits, p, h);
    assert forall|k: int| 0 <= k < 19 implies #[trigger] r[k] == cl[k] by {
        let i = cl_slot(k as nat) as int;
        assert(CL_ORDER@[i] == k);
        if i < h {
            assert(hb.subrange(3 * i, 3 * i + 3) == lsb_bits(cl[k] as nat, 3));
            assert(bits.subrange(p + 3 * i, p + 3 * i + 3) =~= hb.subrange(3 * i, 3 * i + 3));
            lemma_lsb_bits(cl[k] as nat, 3);
            vstd::arithmetic::div_mod::lemma_small_mod(cl[k] as nat, 8);
        } else {
            assert(cl[CL_ORDER@[i] as int] == 0);
        }
    }
    assert(r =~= cl);
}

/// The lengths after one more code-length item.
pub open spec fn cl_step(out: Seq<u8>, it: ClItem) -> Seq<u8> {
    if it.sym <= 15 {
        out.push(it.sym as u8)
    } else if it.sym == 16 {
        out + Seq::new((3 + it.extra_val) as nat, |k: int| out.last())
    } else if it.sym == 17 {
        out + Seq::new((3 + it.extra_val) as nat, |k: int| 0u8)
    } else if it.sym == 18 {
        out + Seq::new((11 + it.extra_val) as nat, |k: int| 0u8)
    } else {
        out
    }
}

/// Each carryable item adds at least one length, so a proper prefix of the items expands to
/// fewer lengths than the whole.
proof fn lemma_expand_cl_grows(items: Seq<ClItem>, j: nat)
    requires
        items_valid(items),
        j < items.len(),
    ensures
        expand_cl(items.take(j as int)).len() < expand_cl(items).len(),
    decreases items.len(),
{
    let d = items.drop_last();
    assert(item_valid(items.last()));
    assert(expand_cl(items) == cl_step(expand_cl(d), items.last()));
    if j + 1 < items.len() {
        assert(items_valid(d));
        lemma_expand_cl_grows(d, j);
        assert(d.take(j as int) =~= items.take(j as int));
    } else {
        assert(d =~= items.take(j as int));
    }
}

/// The items of one code-length item stream begin with those of any of its prefixes.
proof fn lemma_items_bits_prefix(cl: Seq<u8>, items: Seq<ClItem>, j: nat)
    requires
        j <= items.len(),
    ensures
        items_bits(cl, items.take(j as int)).len() <= items_bits(cl, items).len(),
        items_bits(cl, items).take(items_bits(cl, items.take(j as int)).len() as int) == items_bits(
            cl,
            items.take(j as int),
        ),
    decreases items.len(),
{
    if j == items.len() {
        assert(items.take(j as int) =~= items);
        assert(items_bits(cl, items).take(items_bits(cl, items).len() as int) =~= items_bits(
            cl,
            items,
        ));
    } else {
        let d = items.drop_last();
        lemma_items_bits_prefix(cl, d, j);
        assert(d.take(j as int) =~= items.take(j as int));
        let whole = items_bits(cl, items);
        let part = items_bits(cl, d);
        let pre = items_bits(cl, items.take(j as int));
        assert(whole == part + huff_bits(cl, items.last().sym as nat) + lsb_bits(
            items.last().extra_val as nat,
            items.last().extra_bits as nat,
        ));
        assert(whole.take(pre.len() as int) =~= part.take(pre.len() as int));
    }
}

/// One carryable code-length item decodes to its lengths.
#[verifier::rlimit(40)]
proof fn lemma_inflate_item(
    bits: Seq<bool>,
    q: nat,
    cl: Seq<u8>,
    total: nat,
    acc: Seq<u8>,
    it: ClItem,
)
    requires
        cl.len() == 19,
        decodable(canonical(cl), 19),
        item_valid(it),
        1 <= cl[it.sym as int] <= 15,
        sits_at(
            bits,
            q,
            huff_bits(cl, it.sym as nat) + lsb_bits(it.extra_val as nat, it.extra_bits as nat),
        ),
        acc.len() < total,
        it.sym == 16 ==> acc.len() > 0,
    ensures
        inflate_lengths(bits, q, cl, total, acc) == inflate_lengths(
            bits,
            (q + huff_bits(cl, it.sym as nat).len() + it.extra_bits) as nat,
            cl,
            total,
            cl_step(acc, it),
        ),
{
    vstd::arithmetic::power2::lemma2_to64();
    let c = canonical(cl);
    let sym = it.sym as nat;
    assert(cl.take(19) =~= cl);
    lemma_huff_bits(cl, 19, sym);
    let hb = huff_bits(cl, sym);
    let eb = lsb_bits(it.extra_val as nat, it.extra_bits as nat);
    let x = hb + eb;
    lemma_sits_sub(bits, q, x, 0, hb.len());
    assert(x.subrange(0, hb.len() as int) =~= hb);
    lemma_decode_symbol(c, 19, bits, q, sym);
    lemma_sym_bits_value(c, sym);
    lemma_sits_sub(bits, q, x, hb.len(), x.len());
    assert(x.subrange(hb.len() as int, x.len() as int) =~= eb);
    lemma_lsb_bits(it.extra_val as nat, it.extra_bits as nat);
    vstd::arithmetic::div_mod::lemma_small_mod(it.extra_val as nat, pow2(it.extra_bits as nat));
    let r = q + hb.len();
    if it.sym > 15 {
        assert(lsb_value(bits.subrange(r as int, (r + it.extra_bits) as int)) == it.extra_val);
        if it.sym == 16 {
            assert(acc + Seq::new((3 + it.extra_val) as nat, |k: int| acc.last()) =~= cl_step(
                acc,
                it,
            ));
        } else if it.sym == 17 {
            assert(acc + Seq::new((3 + it.extra_val) as nat, |k: int| 0u8) =~= cl_step(acc, it));
        } else {
            assert(acc + Seq::new((11 + it.extra_val) as nat, |k: int| 0u8) =~= cl_step(acc, it));
        }
    }
}

/// Decoding the items from the `j`-th on, with the first `j` already expanded, gives all the
/// lengths, just past the last item.
proof fn lemma_inflate_items_from(bits: Seq<bool>, q0: nat, cl: Seq<u8>, items: Seq<ClItem>, j: nat)
    requires
        cl.len() == 19,
        decodable(canonical(cl), 19),
        forall|k: int| 0 <= k < 19 ==> #[trigger] cl[k] <= 15,
        items_valid(items),
        covers_items(cl, items),
        items.len() > 0 ==> items[0].sym != 16,
        j <= items.len(),
        sits_at(bits, q0, items_bits(cl, items)),
    ensures
        inflate_lengths(
            bits,
            q0 + items_bits(cl, items.take(j as int)).len(),
            cl,
            expand_cl(items).len(),
            expand_cl(items.take(j as int)),
        ) == Some((expand_cl(items), q0 + items_bits(cl, items).len())),
    decreases items.len() - j,
{
    let all = items_bits(cl, items);
    let pre = items_bits(cl, items.take(j as int));
    let q = q0 + pre.len();
    let acc = expand_cl(items.take(j as int));
    lemma_items_bits_prefix(cl, items, j);
    if j == items.len() {
        assert(items.take(j as int) =~= items);
    } else {
        let it = items[j as int];
        let next = items.take((j + 1) as int);
        assert(next.drop_last() =~= items.take(j as int));
        assert(next.last() == it);
        let ib = huff_bits(cl, it.sym as nat) + lsb_bits(it.extra_val as nat, it.extra_bits as nat);
        assert(items_bits(cl, next) == pre + ib);
        lemma_items_bits_prefix(cl, items, j + 1);
        let m = pre.len() + ib.len();
        assert(all.take(m as int) == pre + ib);
        assert forall|k: int| 0 <= k < ib.len() implies #[trigger] all.subrange(
            pre.len() as int,
            m as int,
        )[k] == ib[k] by {
            assert(all.take(m as int)[pre.len() + k] == all[pre.len() + k]);
            assert((pre + ib)[pre.len() + k] == ib[k]);
        }
        assert(all.subrange(pre.len() as int, m as int) =~= ib);
        lemma_sits_sub(bits, q0, all, pre.len(), m);
        assert(item_valid(it));
        assert(cl[it.sym as int] > 0);
        lemma_expand_cl_grows(items, j);
        if j > 0 {
            let t = items.take(j as int);
            assert(items_valid(t));
            lemma_expand_cl_grows(t, 0);
            assert(t.take(0) =~= Seq::<ClItem>::empty());
        }
        assert(expand_cl(next) == cl_step(acc, it));
        lemma_inflate_item(bits, q, cl, expand_cl(items).len(), acc, it);
        assert(huff_bits(cl, it.sym as nat).len() + it.extra_bits == ib.len());
        lemma_inflate_items_from(bits, q0, cl, items, j + 1);
    }
}

/// The run-length coding of code lengths never starts with code 16: a repeat of the previous
/// length always follows a length it repeats, so a decoder never meets a repeat with nothing
/// before it.
pub proof fn law_rle_never_starts_with_a_repeat(lengths: Seq<u8>)
    requires
        lengths.len() > 0,
        forall|k: int| 0 <= k < lengths.len() ==> #[trigger] lengths[k] <= 15,
    ensures
        rle_from(lengths, 0).len() > 0,
        rle_from(lengths, 0)[0].sym != 16,
{
    let v = lengths[0];
    lemma_run_end(lengths, 1, v);
    let e = run_end(lengths, 1, v);
    let run = (e - 0) as nat;
    assert(run >= 1);
    let first = run_items(v, run);
    assert(rle_from(lengths, 0) == first + rle_from(lengths, e));
    assert(v <= 15);
    if v == 0 {
        assert(first == zero_run(run));
        if run >= 11 {
            assert(first[0].sym == 18);
        } else if run >= 3 {
            assert(first[0].sym == 17);
        } else {
            assert(first[0] == crate::deflate::dynamic::plain_item(0));
        }
    } else {
        assert(first[0] == crate::deflate::dynamic::plain_item(v as u16));
    }
    assert(first.len() > 0 && first[0].sym != 16);
}

/// Literal/length and distance code lengths, trimmed as the dynamic block writes them.
pub open spec fn trimmed_codes(lit: Seq<u8>, dist: Seq<u8>) -> bool {
    &&& code_fits(lit, 286, 15)
    &&& code_fits(dist, 30, 15)
    &&& forall|k: int| trimmed(lit, 257) <= k < 286 ==> #[trigger] lit[k] == 0
    &&& forall|k: int| trimmed(dist, 1) <= k < 30 ==> #[trigger] dist[k] == 0
    &&& 257 <= trimmed(lit, 257) <= 286
    &&& 1 <= trimmed(dist, 1) <= 30
}

/// Code lengths of the sizes the dynamic block uses are trimmed as it writes them.
proof fn lemma_trimmed_codes(lit: Seq<u8>, dist: Seq<u8>)
    requires
        code_fits(lit, 286, 15),
        code_fits(dist, 30, 15),
    ensures
        trimmed_codes(lit, dist),
{
    lemma_trimmed(lit, 257);
    lemma_trimmed(dist, 1);
}

/// The dynamic writer's token bits are those of the generic writer under the decoder's
/// canonical codes.
proof fn lemma_dyn_tokens_bits(lit: Seq<u8>, dist: Seq<u8>, tokens: Seq<Token>)
    requires
        trimmed_codes(lit, dist),
        tokens_valid(tokens),
        covers_tokens(lit, dist, tokens),
    ensures
        dyn_tokens_bits(lit, dist, tokens) == tokens_bits_with(
            canonical(lit.take(trimmed(lit, 257) as int)),
            canonical(dist.take(trimmed(dist, 1) as int)),
            tokens,
        ),
        huff_bits(lit, 256) == sym_bits(canonical(lit.take(trimmed(lit, 257) as int)), 256),
    decreases tokens.len(),
{
    let hl = trimmed(lit, 257);
    let hd = trimmed(dist, 1);
    lemma_huff_bits(lit, hl, 256);
    if tokens.len() > 0 {
        let d = tokens.drop_last();
        assert(covers_tokens(lit, dist, d)) by {
            assert forall|i: int| 0 <= i < d.len() implies lit[lit_symbol(#[trigger] d[i]) as int]
                > 0 by {
                assert(d[i] == tokens[i]);
            }
            assert forall|i: int| 0 <= i < d.len() implies (#[trigger] d[i] matches Token::Match {
                dist: dd,
                ..
            } ==> dist[distance_parts(dd as nat).0 as int] > 0) by {
                assert(d[i] == tokens[i]);
            }
        }
        assert(tokens_valid(d)) by {
            assert forall|i: int| 0 <= i < d.len() implies token_valid(#[trigger] d[i]) by {
                assert(d[i] == tokens[i]);
            }
        }
        lemma_dyn_tokens_bits(lit, dist, d);
        let t = tokens.last();
        let i = tokens.len() - 1;
        assert(t == tokens[i]);
        assert(token_valid(t));
        assert(lit[lit_symbol(t) as int] > 0);
        match t {
            Token::Literal(b) => {
                lemma_huff_bits(lit, hl, b as nat);
            },
            Token::Match { len, dist: dd } => {
                lemma_length_parts(len as nat);
                lemma_distance_parts(dd as nat);
                let ls = length_parts(len as nat).0;
                let ds = distance_parts(dd as nat).0;
                assert(lit[ls as int] > 0);
                assert(dist[ds as int] > 0);
                lemma_huff_bits(lit, hl, ls);
                lemma_huff_bits(dist, hd, ds);
            },
        }
        assert(dyn_token_bits(lit, dist, t) == token_bits_with(
            canonical(lit.take(hl as int)),
            canonical(dist.take(hd as int)),
            t,
        ));
    }
}

/// The decoder's canonical codes cover every token the lengths cover.
proof fn lemma_dyn_coded(lit: Seq<u8>, dist: Seq<u8>, tokens: Seq<Token>)
    requires
        trimmed_codes(lit, dist),
        tokens_valid(tokens),
        covers_tokens(lit, dist, tokens),
    ensures
        tokens_coded(
            canonical(lit.take(trimmed(lit, 257) as int)),
            trimmed(lit, 257),
            canonical(dist.take(trimmed(dist, 1) as int)),
            trimmed(dist, 1),
            tokens,
        ),
{
    let hl = trimmed(lit, 257);
    let hd = trimmed(dist, 1);
    let cl = canonical(lit.take(hl as int));
    let cd = canonical(dist.take(hd as int));
    assert(lit.take(hl as int)[256] == lit[256]);
    assert forall|i: int| 0 <= i < tokens.len() implies token_coded(
        cl,
        hl,
        cd,
        hd,
        #[trigger] tokens[i],
    ) by {
        let t = tokens[i];
        assert(token_valid(t));
        assert(lit[lit_symbol(t) as int] > 0);
        match t {
            Token::Literal(b) => {
                assert(lit.take(hl as int)[b as int] == lit[b as int]);
            },
            Token::Match { len, dist: dd } => {
                lemma_length_parts(len as nat);
                lemma_distance_parts(dd as nat);
                let ls = length_parts(len as nat).0;
                let ds = distance_parts(dd as nat).0;
                assert(dist[ds as int] > 0);
                assert(ls < hl);
                assert(ds < hd);
                assert(lit.take(hl as int)[ls as int] == lit[ls as int]);
                assert(dist.take(hd as int)[ds as int] == dist[ds as int]);
            },
        }
    }
}

/// The fixed-width header fields of a dynamic block read back.
proof fn lemma_dynamic_fields(bits: Seq<bool>, hl: nat, hd: nat, hc: nat)
    requires
        257 <= hl <= 286,
        1 <= hd <= 30,
        4 <= hc <= 19,
        bits.len() >= 17,
        bits.subrange(3, 17) == lsb_bits((hl - 257) as nat, 5) + lsb_bits((hd - 1) as nat, 5)
            + lsb_bits((hc - 4) as nat, 4),
    ensures
        lsb_value(bits.subrange(3, 8)) + 257 == hl,
        lsb_value(bits.subrange(8, 13)) + 1 == hd,
        lsb_value(bits.subrange(13, 17)) + 4 == hc,
{
    vstd::arithmetic::power2::lemma2_to64();
    let f = bits.subrange(3, 17);
    assert(bits.subrange(3, 8) =~= f.subrange(0, 5));
    assert(bits.subrange(8, 13) =~= f.subrange(5, 10));
    assert(bits.subrange(13, 17) =~= f.subrange(10, 14));
    assert(f.subrange(0, 5) =~= lsb_bits((hl - 257) as nat, 5));
    assert(f.subrange(5, 10) =~= lsb_bits((hd - 1) as nat, 5));
    assert(f.subrange(10, 14) =~= lsb_bits((hc - 4) as nat, 4));
    lemma_lsb_bits((hl - 257) as nat, 5);
    lemma_lsb_bits((hd - 1) as nat, 5);
    lemma_lsb_bits((hc - 4) as nat, 4);
}

/// The code-length code of usable codes is decodable, and so are the trimmed literal/length and
/// distance codes.
proof fn lemma_dynamic_decodable(tokens: Seq<Token>, lit: Seq<u8>, dist: Seq<u8>, cl: Seq<u8>)
    requires
        usable_codes(tokens, lit, dist, cl),
    ensures
        decodable(canonical(cl), 19),
        decodable(canonical(lit.take(trimmed(lit, 257) as int)), trimmed(lit, 257)),
        decodable(canonical(dist.take(trimmed(dist, 1) as int)), trimmed(dist, 1)),
{
    lemma_trimmed_codes(lit, dist);
    lemma_kraft_scale(cl, 7, 8, 19);
    lemma_pow2_adds(7, 8);
    assert(kraft(cl, 7, 19) * pow2(8) <= pow2(7) * pow2(8)) by (nonlinear_arith)
        requires
            kraft(cl, 7, 19) <= pow2(7),
    ;
    lemma_canonical_decodable(cl, 19);
    assert(cl.take(19) =~= cl);
    lemma_canonical_decodable(lit, trimmed(lit, 257));
    lemma_canonical_decodable(dist, trimmed(dist, 1));
}

/// The dynamic-Huffman block of a codable token stream that expands within itself, built with
/// usable codes, decodes to the stream's expansion.
#[verifier::spinoff_prover]
#[verifier::rlimit(80)]
pub proof fn lemma_inflate_dynamic(
    tokens: Seq<Token>,
    lit: Seq<u8>,
    dist: Seq<u8>,
    cl: Seq<u8>,
    rest: Seq<u8>,
)
    requires
        tokens_valid(tokens),
        expands_within(tokens),
        usable_codes(tokens, lit, dist, cl),
    ensures
        inflate_blocks(
            packed(dynamic_block_bits(tokens, lit, dist, cl)) + rest,
            0,
            Seq::empty(),
        ) matches Some((out, e)) && out == expand(tokens) && (e + 7) / 8 == packed(
            dynamic_block_bits(tokens, lit, dist, cl),
        ).len(),
{
    let hl = trimmed(lit, 257);
    let hd = trimmed(dist, 1);
    let hc = hclen_from(cl, 19);
    lemma_trimmed_codes(lit, dist);
    lemma_hclen_from(cl, 19);
    lemma_cl_header_bits(cl, hc);
    lemma_dynamic_decodable(tokens, lit, dist, cl);
    let described = described_lengths(lit, dist);
    let items = rle_from(described, 0);
    let head = lsb_bits(1, 1) + lsb_bits(2, 2);
    let fields = lsb_bits((hl - 257) as nat, 5) + lsb_bits((hd - 1) as nat, 5) + lsb_bits(
        (hc - 4) as nat,
        4,
    );
    let clh = cl_header_bits(cl, hc);
    let ib = items_bits(cl, items);
    let tb = dyn_tokens_bits(lit, dist, tokens);
    let eob = huff_bits(lit, 256);
    let b = dynamic_block_bits(tokens, lit, dist, cl);
    assert(b =~= head + fields + clh + ib + (tb + eob));
    let stream = packed(b) + rest;
    lemma_bits_of_packed_then(b, rest);
    lemma_packed_len(b);
    let bits = bytes_bits(stream);
    // Header and fields.
    assert(bits.take(3) =~= head);
    lemma_final_header(bits, 2);
    lemma_sub_of_prefix(bits, b, 3, 17);
    assert(b.subrange(3, 17) =~= fields);
    lemma_dynamic_fields(bits, hl, hd, hc);
    // Code-length code lengths.
    assert(sits_at(bits, 17, clh)) by {
        lemma_sub_of_prefix(bits, b, 17, 17 + clh.len() as int);
        assert(b.subrange(17, 17 + clh.len() as int) =~= clh);
    }
    assert forall|k: int| 0 <= k < 19 implies #[trigger] cl[k] <= 7 by {
        assert(code_fits(cl, 19, 7));
    }
    lemma_read_cl_lengths(bits, 17, cl);
    // Code lengths.
    let q = 17 + 3 * hc;
    assert(sits_at(bits, q, ib)) by {
        lemma_sub_of_prefix(bits, b, q as int, q + ib.len() as int);
        assert(b.subrange(q as int, q + ib.len() as int) =~= ib);
    }
    assert forall|k: int| 0 <= k < described.len() implies #[trigger] described[k] <= 15 by {
        if k < hl {
            assert(described[k] == lit[k]);
        } else {
            assert(described[k] == dist[k - hl]);
        }
    }
    law_rle_round_trips(described);
    law_rle_never_starts_with_a_repeat(described);
    lemma_inflate_items_from(bits, q, cl, items, 0);
    assert(items.take(0) =~= Seq::<ClItem>::empty());
    assert(described.len() == hl + hd);
    let r = q + ib.len();
    // Data.
    assert(described.take(hl as int) =~= lit.take(hl as int));
    assert(described.skip(hl as int) =~= dist.take(hd as int));
    lemma_dyn_tokens_bits(lit, dist, tokens);
    lemma_dyn_coded(lit, dist, tokens);
    assert(sits_at(bits, r, tb + eob)) by {
        lemma_sub_of_prefix(bits, b, r as int, r + (tb + eob).len() as int);
        assert(b.subrange(r as int, r + (tb + eob).len() as int) =~= tb + eob);
    }
    lemma_inflate_tokens(
        bits,
        r,
        tokens,
        canonical(lit.take(hl as int)),
        hl,
        canonical(dist.take(hd as int)),
        hd,
    );
    lemma_sym_bits_value(canonical(lit.take(hl as int)), 256);
    assert(inflate_dynamic(bits, 3, Seq::empty()) is Some);
}

} // verus!

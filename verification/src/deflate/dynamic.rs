//! Dynamic-Huffman DEFLATE blocks (BTYPE = 10, RFC 1951 §3.2.7).
//!
//! A dynamic block carries its own literal/length and distance codes, described by a sequence of
//! per-symbol code lengths that is itself run-length-coded (symbols 16/17/18) and Huffman-coded with
//! a small "code-length" alphabet. This is where most of DEFLATE's density comes from.
use vstd::prelude::*;
use crate::deflate::bitwriter::{BitWriter, lsb_bits};
use crate::deflate::block::{packed, write_extra};
use crate::deflate::huffman::{
    CanonicalCode, canonical_code, used_count, used_upto, lemma_used_upto_members,
    lemma_used_upto_bound, kraft, code_lengths,
};
use vstd::arithmetic::power2::pow2;
use crate::deflate::lz77::{Token, tokens_valid, token_valid};
use crate::deflate::symbols::{length_code, distance_code, length_parts, distance_parts};

verus! {

/// A run-length-coded code-length symbol plus any raw extra bits that follow it.
#[derive(Debug, Clone, Copy, PartialEq, Eq, Structural)]
pub struct ClItem {
    /// The code-length symbol: a length `0..=15`, or a repeat code 16, 17 or 18.
    pub sym: u16,
    /// How many raw extra bits follow the symbol.
    pub extra_bits: u32,
    /// The value of those extra bits.
    pub extra_val: u32,
}

// ---------------------------------------------------------------------------------------------
// Forcing two used symbols.

/// A histogram with two distinct used symbols uses at least two.
proof fn lemma_two_used(h: Seq<u32>, a: int, b: int)
    requires
        0 <= a < b < h.len(),
        h[a] > 0,
        h[b] > 0,
    ensures
        used_count(h) >= 2,
{
    lemma_used_upto_members(h, h.len(), b);
    lemma_used_upto_members(h, b as nat, a);
}

/// A histogram forced to at least two used symbols: unchanged with two or more; with none,
/// symbols 0 and 1 counted once; with one, symbol 1 (if the used one is 0) or else symbol 0
/// counted once.
pub open spec fn with_two_used(h: Seq<u32>) -> Seq<u32> {
    if used_count(h) >= 2 {
        h
    } else if used_count(h) == 0 {
        h.update(0, 1).update(1, 1)
    } else {
        h.update(
            if h[0] > 0 {
                1
            } else {
                0
            },
            1,
        )
    }
}

/// Forces a histogram to have at least two used symbols so its Huffman code is complete: with
/// none used, symbols 0 and 1 get a count of one; with one used, symbol 1 (if the used one is 0)
/// or else symbol 0 gets a count of one; with two or more, nothing changes.
pub fn ensure_two(hist: &mut [u32])
    requires
        old(hist)@.len() >= 2,
    ensures
        used_count(old(hist)@) >= 2 ==> final(hist)@ == old(hist)@,
        used_count(old(hist)@) == 0 ==> final(hist)@ == old(hist)@.update(0, 1).update(1, 1),
        used_count(old(hist)@) == 1 ==> final(hist)@ == old(hist)@.update(
            if old(hist)@[0] > 0 {
                1
            } else {
                0
            },
            1,
        ),
        used_count(final(hist)@) >= 2,
        final(hist)@ == with_two_used(old(hist)@),
{
    let n = hist.len();
    let mut used: usize = 0;
    let mut i: usize = 0;
    while i < n
        invariant
            i <= n,
            n == hist@.len(),
            hist@ == old(hist)@,
            used == used_upto(hist@, i as nat),
            used <= i,
        decreases n - i,
    {
        if hist[i] > 0 {
            used = used + 1;
        }
        i = i + 1;
    }
    if used >= 2 {
        return;
    }
    if used == 0 {
        hist[0] = 1;
        hist[1] = 1;
        proof {
            lemma_two_used(hist@, 0, 1);
        }
        return;
    }
    let mut only: usize = 0;
    while only < n && hist[only] == 0
        invariant
            only <= n,
            n == hist@.len(),
            hist@ == old(hist)@,
            forall|k: int| 0 <= k < only ==> hist@[k] == 0,
        decreases n - only,
    {
        only = only + 1;
    }
    proof {
        if only == n {
            assert forall|s: int| 0 <= s < n implies hist@[s] == 0 by {
            }
            lemma_none_used(hist@, n as nat);
        }
    }
    let idx: usize = if only == 0 {
        1
    } else {
        0
    };
    hist[idx] = 1;
    proof {
        if idx < only {
            lemma_two_used(hist@, idx as int, only as int);
        } else {
            lemma_two_used(hist@, only as int, idx as int);
        }
    }
}

/// A histogram of zeros uses nothing.
proof fn lemma_none_used(h: Seq<u32>, upto: nat)
    requires
        upto <= h.len(),
        forall|s: int| 0 <= s < upto ==> h[s] == 0,
    ensures
        used_upto(h, upto) == 0,
    decreases upto,
{
    if upto > 0 {
        lemma_none_used(h, (upto - 1) as nat);
    }
}

// ---------------------------------------------------------------------------------------------
// Trimming trailing zero lengths.

/// The first `n` lengths with trailing zeros dropped, but never fewer than `min`.
pub open spec fn trim_from(lengths: Seq<u8>, n: nat, min: nat) -> nat
    decreases n,
{
    if n > min && lengths[n - 1] == 0 {
        trim_from(lengths, (n - 1) as nat, min)
    } else {
        n
    }
}

/// How many leading code lengths to emit: the index past the last nonzero length, but at least
/// `min` (or all of them, when there are fewer than `min`).
pub open spec fn trimmed(lengths: Seq<u8>, min: nat) -> nat {
    trim_from(lengths, lengths.len(), min)
}

/// Number of leading code lengths to emit: the index past the last nonzero length, but at least
/// `min` (RFC 1951 requires HLIT+257 and HDIST+1 entries, covering every used symbol).
pub fn trimmed_len(lengths: &[u8], min: usize) -> (r: usize)
    ensures
        r == trimmed(lengths@, min as nat),
        r <= lengths@.len(),
        r >= min || r == lengths@.len(),
        forall|k: int| r <= k < lengths@.len() ==> #[trigger] lengths@[k] == 0,
        r > min ==> lengths@[r - 1] != 0,
{
    let mut n = lengths.len();
    while n > min && lengths[n - 1] == 0
        invariant
            n <= lengths@.len(),
            trim_from(lengths@, n as nat, min as nat) == trimmed(lengths@, min as nat),
            forall|k: int| n <= k < lengths@.len() ==> #[trigger] lengths@[k] == 0,
            n < lengths@.len() ==> n >= min,
        decreases n,
    {
        n = n - 1;
    }
    n
}

// ---------------------------------------------------------------------------------------------
// Run-length coding of code lengths.

/// A single code-length item with no extra bits.
pub open spec fn plain_item(sym: u16) -> ClItem {
    ClItem { sym, extra_bits: 0, extra_val: 0 }
}

/// A run of `run` zero lengths: 18s (11..=138 zeros each, 7 extra bits) while 11 or more remain,
/// then 17s (3..=10 zeros, 3 extra bits) while 3 or more remain, then single zeros.
pub open spec fn zero_run(run: nat) -> Seq<ClItem>
    decreases run,
{
    if run >= 11 {
        let c: nat = if run < 138 {
            run
        } else {
            138
        };
        seq![ClItem { sym: 18, extra_bits: 7, extra_val: (c - 11) as u32 }] + zero_run(
            (run - c) as nat,
        )
    } else if run >= 3 {
        let c: nat = if run < 10 {
            run
        } else {
            10
        };
        seq![ClItem { sym: 17, extra_bits: 3, extra_val: (c - 3) as u32 }] + zero_run(
            (run - c) as nat,
        )
    } else {
        Seq::new(run, |k: int| plain_item(0))
    }
}

/// `run` more copies of the length `value` after one literal copy: 16s (3..=6 repeats, 2 extra
/// bits) while 3 or more remain, then literal copies.
pub open spec fn repeat_run(value: u8, run: nat) -> Seq<ClItem>
    decreases run,
{
    if run >= 3 {
        let c: nat = if run < 6 {
            run
        } else {
            6
        };
        seq![ClItem { sym: 16, extra_bits: 2, extra_val: (c - 3) as u32 }] + repeat_run(
            value,
            (run - c) as nat,
        )
    } else {
        Seq::new(run, |k: int| plain_item(value as u16))
    }
}

/// A run of `run >= 1` copies of `value`: zero runs by [`zero_run`], others as one literal copy
/// followed by [`repeat_run`].
pub open spec fn run_items(value: u8, run: nat) -> Seq<ClItem> {
    if value == 0 {
        zero_run(run)
    } else {
        seq![plain_item(value as u16)] + repeat_run(value, (run - 1) as nat)
    }
}

/// The end of the run of `value` that continues at index `k`.
pub open spec fn run_end(lengths: Seq<u8>, k: nat, value: u8) -> nat
    decreases lengths.len() - k,
{
    if k < lengths.len() && lengths[k as int] == value {
        run_end(lengths, k + 1, value)
    } else {
        k
    }
}

/// The run end lies past the start and within the sequence, and the run holds `value` only.
pub proof fn lemma_run_end(lengths: Seq<u8>, k: nat, value: u8)
    requires
        k <= lengths.len(),
    ensures
        k <= run_end(lengths, k, value) <= lengths.len(),
        forall|m: int| k <= m < run_end(lengths, k, value) ==> #[trigger] lengths[m] == value,
        run_end(lengths, k, value) < lengths.len() ==> lengths[run_end(lengths, k, value) as int]
            != value,
    decreases lengths.len() - k,
{
    if k < lengths.len() && lengths[k as int] == value {
        lemma_run_end(lengths, k + 1, value);
    }
}

/// The code-length items for `lengths` from index `i` on: each maximal run of equal lengths
/// coded by [`run_items`].
pub open spec fn rle_from(lengths: Seq<u8>, i: nat) -> Seq<ClItem>
    decreases lengths.len() - i,
{
    if i >= lengths.len() {
        Seq::empty()
    } else {
        let j = run_end(lengths, i + 1, lengths[i as int]);
        proof {
            lemma_run_end(lengths, i + 1, lengths[i as int]);
        }
        run_items(lengths[i as int], (j - i) as nat) + rle_from(lengths, j)
    }
}

/// The lengths a code-length item sequence stands for: `0..=15` as themselves, 16 as 3..=6
/// copies of the previous length, 17 as 3..=10 zeros, 18 as 11..=138 zeros.
pub open spec fn expand_cl(items: Seq<ClItem>) -> Seq<u8>
    decreases items.len(),
{
    if items.len() == 0 {
        Seq::empty()
    } else {
        let out = expand_cl(items.drop_last());
        let it = items.last();
        if it.sym <= 15 {
            out.push(it.sym as u8)
        } else if it.sym == 16 {
            out + Seq::new((3 + it.extra_val) as nat, |k: int| out.last())
        } else if it.sym == 17 {
            out + Seq::new((3 + it.extra_val) as nat, |k: int| 0u8)
        } else if it.sym == 18 {
            out + Seq::new((11 + it.extra_val) as nat, |k: int| 0u8)
        } else {
            out
        }
    }
}

/// An item DEFLATE's code-length alphabet can carry: a length `0..=15` without extra bits, or a
/// repeat code with its extra-bit count and a value that fits it.
pub open spec fn item_valid(it: ClItem) -> bool {
    ||| it.sym <= 15 && it.extra_bits == 0 && it.extra_val == 0
    ||| it.sym == 16 && it.extra_bits == 2 && it.extra_val < 4
    ||| it.sym == 17 && it.extra_bits == 3 && it.extra_val < 8
    ||| it.sym == 18 && it.extra_bits == 7 && it.extra_val < 128
}

/// Every item is carryable.
pub open spec fn items_valid(items: Seq<ClItem>) -> bool {
    forall|k: int| 0 <= k < items.len() ==> item_valid(#[trigger] items[k])
}

/// Expanding one more item.
proof fn lemma_expand_cl_push(items: Seq<ClItem>, it: ClItem)
    ensures
        expand_cl(items.push(it)) == {
            let out = expand_cl(items);
            if it.sym <= 15 {
                out.push(it.sym as u8)
            } else if it.sym == 16 {
                out + Seq::new((3 + it.extra_val) as nat, |k: int| out.last())
            } else if it.sym == 17 {
                out + Seq::new((3 + it.extra_val) as nat, |k: int| 0u8)
            } else if it.sym == 18 {
                out + Seq::new((11 + it.extra_val) as nat, |k: int| 0u8)
            } else {
                out
            }
        },
{
    assert(items.push(it).drop_last() =~= items);
}

/// A zero run expands to its zeros, after any prefix.
proof fn lemma_zero_run(prefix: Seq<ClItem>, run: nat)
    ensures
        expand_cl(prefix + zero_run(run)) == expand_cl(prefix) + Seq::new(run, |k: int| 0u8),
        items_valid(zero_run(run)),
    decreases run,
{
    if run >= 3 {
        let c: nat = if run >= 11 {
            if run < 138 {
                run
            } else {
                138
            }
        } else if run < 10 {
            run
        } else {
            10
        };
        let it = zero_run(run)[0];
        assert(zero_run(run) =~= seq![it] + zero_run((run - c) as nat));
        lemma_expand_cl_push(prefix, it);
        lemma_zero_run(prefix.push(it), (run - c) as nat);
        assert(prefix + zero_run(run) =~= prefix.push(it) + zero_run((run - c) as nat));
        assert(expand_cl(prefix.push(it)) =~= expand_cl(prefix) + Seq::new(c, |k: int| 0u8));
        assert(expand_cl(prefix) + Seq::new(c, |k: int| 0u8) + Seq::new(
            (run - c) as nat,
            |k: int| 0u8,
        ) =~= expand_cl(prefix) + Seq::new(run, |k: int| 0u8));
        assert forall|k: int| 0 <= k < zero_run(run).len() implies item_valid(
            #[trigger] zero_run(run)[k],
        ) by {
            if k > 0 {
                assert(zero_run(run)[k] == zero_run((run - c) as nat)[k - 1]);
            }
        }
    } else {
        lemma_plain_run(prefix, 0, run);
    }
}

/// Single copies of a length expand to themselves.
proof fn lemma_plain_run(prefix: Seq<ClItem>, value: u8, run: nat)
    requires
        value <= 15,
    ensures
        expand_cl(prefix + Seq::new(run, |k: int| plain_item(value as u16))) == expand_cl(prefix)
            + Seq::new(run, |k: int| value),
        items_valid(Seq::new(run, |k: int| plain_item(value as u16))),
    decreases run,
{
    let items = Seq::new(run, |k: int| plain_item(value as u16));
    if run == 0 {
        assert(prefix + items =~= prefix);
        assert(expand_cl(prefix) + Seq::new(run, |k: int| value) =~= expand_cl(prefix));
    } else {
        let shorter = Seq::new((run - 1) as nat, |k: int| plain_item(value as u16));
        lemma_plain_run(prefix, value, (run - 1) as nat);
        assert(prefix + items =~= (prefix + shorter).push(plain_item(value as u16)));
        lemma_expand_cl_push(prefix + shorter, plain_item(value as u16));
        assert(expand_cl(prefix) + Seq::new((run - 1) as nat, |k: int| value).push(value)
            =~= expand_cl(prefix) + Seq::new(run, |k: int| value));
        assert((expand_cl(prefix) + Seq::new((run - 1) as nat, |k: int| value)).push(value)
            =~= expand_cl(prefix) + Seq::new((run - 1) as nat, |k: int| value).push(value));
    }
}

/// Repeats of the previous length expand to copies of it.
proof fn lemma_repeat_run(prefix: Seq<ClItem>, value: u8, run: nat)
    requires
        1 <= value <= 15,
        expand_cl(prefix).len() > 0,
        expand_cl(prefix).last() == value,
    ensures
        expand_cl(prefix + repeat_run(value, run)) == expand_cl(prefix) + Seq::new(
            run,
            |k: int| value,
        ),
        items_valid(repeat_run(value, run)),
    decreases run,
{
    if run >= 3 {
        let c: nat = if run < 6 {
            run
        } else {
            6
        };
        let it = repeat_run(value, run)[0];
        assert(repeat_run(value, run) =~= seq![it] + repeat_run(value, (run - c) as nat));
        lemma_expand_cl_push(prefix, it);
        assert(expand_cl(prefix.push(it)) =~= expand_cl(prefix) + Seq::new(c, |k: int| value));
        lemma_repeat_run(prefix.push(it), value, (run - c) as nat);
        assert(prefix + repeat_run(value, run) =~= prefix.push(it) + repeat_run(
            value,
            (run - c) as nat,
        ));
        assert(expand_cl(prefix) + Seq::new(c, |k: int| value) + Seq::new(
            (run - c) as nat,
            |k: int| value,
        ) =~= expand_cl(prefix) + Seq::new(run, |k: int| value));
        assert forall|k: int| 0 <= k < repeat_run(value, run).len() implies item_valid(
            #[trigger] repeat_run(value, run)[k],
        ) by {
            if k > 0 {
                assert(repeat_run(value, run)[k] == repeat_run(value, (run - c) as nat)[k - 1]);
            }
        }
    } else {
        lemma_plain_run(prefix, value, run);
    }
}

/// A whole run expands to its copies.
proof fn lemma_run_items(prefix: Seq<ClItem>, value: u8, run: nat)
    requires
        value <= 15,
        run >= 1,
    ensures
        expand_cl(prefix + run_items(value, run)) == expand_cl(prefix) + Seq::new(
            run,
            |k: int| value,
        ),
        items_valid(run_items(value, run)),
{
    if value == 0 {
        lemma_zero_run(prefix, run);
    } else {
        let first = plain_item(value as u16);
        lemma_expand_cl_push(prefix, first);
        lemma_repeat_run(prefix.push(first), value, (run - 1) as nat);
        assert(prefix + run_items(value, run) =~= prefix.push(first) + repeat_run(
            value,
            (run - 1) as nat,
        ));
        assert(expand_cl(prefix).push(value) + Seq::new((run - 1) as nat, |k: int| value)
            =~= expand_cl(prefix) + Seq::new(run, |k: int| value));
        assert forall|k: int| 0 <= k < run_items(value, run).len() implies item_valid(
            #[trigger] run_items(value, run)[k],
        ) by {
            if k > 0 {
                assert(run_items(value, run)[k] == repeat_run(value, (run - 1) as nat)[k - 1]);
            }
        }
    }
}

/// The items from index `i` on expand to the lengths from `i` on.
proof fn lemma_rle_from(lengths: Seq<u8>, i: nat, prefix: Seq<ClItem>)
    requires
        i <= lengths.len(),
        forall|k: int| 0 <= k < lengths.len() ==> #[trigger] lengths[k] <= 15,
    ensures
        expand_cl(prefix + rle_from(lengths, i)) == expand_cl(prefix) + lengths.skip(i as int),
        items_valid(rle_from(lengths, i)),
    decreases lengths.len() - i,
{
    if i >= lengths.len() {
        assert(prefix + rle_from(lengths, i) =~= prefix);
        assert(expand_cl(prefix) + lengths.skip(i as int) =~= expand_cl(prefix));
    } else {
        let v = lengths[i as int];
        lemma_run_end(lengths, i + 1, v);
        let j = run_end(lengths, i + 1, v);
        let head = run_items(v, (j - i) as nat);
        lemma_run_items(prefix, v, (j - i) as nat);
        lemma_rle_from(lengths, j, prefix + head);
        assert(prefix + rle_from(lengths, i) =~= (prefix + head) + rle_from(lengths, j));
        assert(lengths.skip(i as int) =~= Seq::new((j - i) as nat, |k: int| v) + lengths.skip(
            j as int,
        ));
        assert(expand_cl(prefix) + Seq::new((j - i) as nat, |k: int| v) + lengths.skip(j as int)
            =~= expand_cl(prefix) + lengths.skip(i as int));
        assert forall|k: int| 0 <= k < rle_from(lengths, i).len() implies item_valid(
            #[trigger] rle_from(lengths, i)[k],
        ) by {
            if k < head.len() {
                assert(rle_from(lengths, i)[k] == head[k]);
            } else {
                assert(rle_from(lengths, i)[k] == rle_from(lengths, j)[k - head.len()]);
            }
        }
    }
}

/// Run-length coding of code lengths is lossless: for lengths a DEFLATE code can have
/// (`0..=15`), the items expand back to exactly the lengths, and every item is one the
/// code-length alphabet can carry.
pub proof fn law_rle_round_trips(lengths: Seq<u8>)
    requires
        forall|k: int| 0 <= k < lengths.len() ==> #[trigger] lengths[k] <= 15,
    ensures
        expand_cl(rle_from(lengths, 0)) == lengths,
        items_valid(rle_from(lengths, 0)),
{
    lemma_rle_from(lengths, 0, Seq::empty());
    assert(Seq::<ClItem>::empty() + rle_from(lengths, 0) =~= rle_from(lengths, 0));
    assert(expand_cl(Seq::<ClItem>::empty()) == Seq::<u8>::empty());
    assert(Seq::<u8>::empty() + lengths.skip(0) =~= lengths);
}

/// Run-length-codes a code-length sequence into code-length-alphabet symbols (RFC 1951 §3.2.7):
/// each maximal run of equal lengths in turn, 16 = repeat the previous length 3–6 times, 17 =
/// repeat zero 3–10 times, 18 = repeat zero 11–138 times. Code 16 only ever repeats within a run
/// of one value, so "previous length" is unambiguous.
pub fn rle(lengths: &[u8]) -> (items: Vec<ClItem>)
    ensures
        items@ == rle_from(lengths@, 0),
        items@.len() <= lengths@.len(),
{
    let mut items: Vec<ClItem> = Vec::new();
    let n = lengths.len();
    let mut i: usize = 0;
    while i < n
        invariant
            i <= n,
            n == lengths@.len(),
            items@ + rle_from(lengths@, i as nat) == rle_from(lengths@, 0),
            items@.len() <= i,
        decreases n - i,
    {
        let value = lengths[i];
        let mut j: usize = i + 1;
        proof {
            lemma_run_end(lengths@, (i + 1) as nat, value);
        }
        while j < n && lengths[j] == value
            invariant
                i < j <= n,
                n == lengths@.len(),
                run_end(lengths@, j as nat, value) == run_end(lengths@, (i + 1) as nat, value),
            decreases n - j,
        {
            j = j + 1;
        }
        let ghost before = items@;
        let ghost target = run_items(value, (j - i) as nat);
        let mut run: usize = j - i;
        if value == 0 {
            while run >= 11
                invariant
                    items@ + zero_run(run as nat) == before + target,
                    value == 0,
                    target == zero_run((j - i) as nat),
                    items@.len() + run <= before.len() + (j - i),
                decreases run,
            {
                let count: usize = if run < 138 {
                    run
                } else {
                    138
                };
                let it = ClItem { sym: 18, extra_bits: 7, extra_val: (count - 11) as u32 };
                proof {
                    assert(zero_run(run as nat) =~= seq![it] + zero_run((run - count) as nat));
                    assert(items@.push(it) + zero_run((run - count) as nat) =~= items@ + zero_run(
                        run as nat,
                    ));
                }
                items.push(it);
                run = run - count;
            }
            while run >= 3
                invariant
                    items@ + zero_run(run as nat) == before + target,
                    run < 11,
                    items@.len() + run <= before.len() + (j - i),
                decreases run,
            {
                let count: usize = if run < 10 {
                    run
                } else {
                    10
                };
                let it = ClItem { sym: 17, extra_bits: 3, extra_val: (count - 3) as u32 };
                proof {
                    assert(zero_run(run as nat) =~= seq![it] + zero_run((run - count) as nat));
                    assert(items@.push(it) + zero_run((run - count) as nat) =~= items@ + zero_run(
                        run as nat,
                    ));
                }
                items.push(it);
                run = run - count;
            }
            push_copies(&mut items, 0, run);
            proof {
                assert(zero_run(run as nat) =~= Seq::new(run as nat, |k: int| plain_item(0)));
            }
        } else {
            items.push(ClItem { sym: value as u16, extra_bits: 0, extra_val: 0 });
            run = run - 1;
            proof {
                assert(target =~= seq![plain_item(value as u16)] + repeat_run(value, run as nat));
                assert(items@ + repeat_run(value, run as nat) =~= before + target);
            }
            while run >= 3
                invariant
                    items@ + repeat_run(value, run as nat) == before + target,
                    items@.len() + run <= before.len() + (j - i),
                decreases run,
            {
                let count: usize = if run < 6 {
                    run
                } else {
                    6
                };
                let it = ClItem { sym: 16, extra_bits: 2, extra_val: (count - 3) as u32 };
                proof {
                    assert(repeat_run(value, run as nat) =~= seq![it] + repeat_run(
                        value,
                        (run - count) as nat,
                    ));
                    assert(items@.push(it) + repeat_run(value, (run - count) as nat) =~= items@
                        + repeat_run(value, run as nat));
                }
                items.push(it);
                run = run - count;
            }
            push_copies(&mut items, value, run);
            proof {
                assert(repeat_run(value, run as nat) =~= Seq::new(
                    run as nat,
                    |k: int| plain_item(value as u16),
                ));
            }
        }
        proof {
            assert(rle_from(lengths@, i as nat) == target + rle_from(lengths@, j as nat));
            assert(items@ =~= before + target);
            assert(before + (target + rle_from(lengths@, j as nat)) =~= items@ + rle_from(
                lengths@,
                j as nat,
            ));
        }
        i = j;
    }
    proof {
        assert(items@ + Seq::<ClItem>::empty() =~= items@);
    }
    items
}

/// Appends `count` single copies of the length `value`.
fn push_copies(items: &mut Vec<ClItem>, value: u8, count: usize)
    ensures
        final(items)@ == old(items)@ + Seq::new(count as nat, |k: int| plain_item(value as u16)),
{
    let mut k: usize = 0;
    while k < count
        invariant
            k <= count,
            items@ == old(items)@ + Seq::new(k as nat, |m: int| plain_item(value as u16)),
        decreases count - k,
    {
        items.push(ClItem { sym: value as u16, extra_bits: 0, extra_val: 0 });
        k = k + 1;
        proof {
            assert(items@ =~= old(items)@ + Seq::new(k as nat, |m: int| plain_item(value as u16)));
        }
    }
}

// ---------------------------------------------------------------------------------------------
// The dynamic block.

/// Literal/length alphabet size used for the code (0..=285; 286/287 never occur).
pub const NUM_LITLEN: usize = 286;

/// Distance alphabet size (0..=29).
pub const NUM_DIST: usize = 30;

/// Code-length alphabet size (lengths 0..=15 plus repeat codes 16/17/18).
pub const NUM_CL: usize = 19;

/// The order in which code-length code lengths are written (RFC 1951 §3.2.7).
pub const CL_ORDER: [usize; 19] = [16, 17, 18, 0, 8, 7, 9, 6, 10, 5, 11, 4, 12, 3, 13, 2, 14, 1, 15];

/// The bits of symbol `sym` under the canonical code with these lengths, as written.
pub open spec fn huff_bits(lengths: Seq<u8>, sym: nat) -> Seq<bool> {
    lsb_bits(canonical_code(lengths, sym), lengths[sym as int] as nat)
}

/// One token under the given literal/length and distance codes.
pub open spec fn dyn_token_bits(lit: Seq<u8>, dist: Seq<u8>, t: Token) -> Seq<bool> {
    match t {
        Token::Literal(b) => huff_bits(lit, b as nat),
        Token::Match { len, dist: d } => {
            let (ls, lb, lv) = length_parts(len as nat);
            let (ds, db, dv) = distance_parts(d as nat);
            huff_bits(lit, ls) + lsb_bits(lv, lb) + huff_bits(dist, ds) + lsb_bits(dv, db)
        },
    }
}

/// A token stream under the given codes.
pub open spec fn dyn_tokens_bits(lit: Seq<u8>, dist: Seq<u8>, tokens: Seq<Token>) -> Seq<bool>
    decreases tokens.len(),
{
    if tokens.len() == 0 {
        Seq::empty()
    } else {
        dyn_tokens_bits(lit, dist, tokens.drop_last()) + dyn_token_bits(lit, dist, tokens.last())
    }
}

/// Code-length items under the code-length code: each symbol's code, then its extra bits.
pub open spec fn items_bits(cl: Seq<u8>, items: Seq<ClItem>) -> Seq<bool>
    decreases items.len(),
{
    if items.len() == 0 {
        Seq::empty()
    } else {
        items_bits(cl, items.drop_last()) + huff_bits(cl, items.last().sym as nat) + lsb_bits(
            items.last().extra_val as nat,
            items.last().extra_bits as nat,
        )
    }
}

/// The first `h` code-length code lengths, in `CL_ORDER`, 3 bits each.
pub open spec fn cl_header_bits(cl: Seq<u8>, h: nat) -> Seq<bool>
    decreases h,
{
    if h == 0 {
        Seq::empty()
    } else {
        cl_header_bits(cl, (h - 1) as nat) + lsb_bits(cl[CL_ORDER@[h - 1] as int] as nat, 3)
    }
}

/// HCLEN + 4: the code-length code lengths in `CL_ORDER` up to the first `h`, with trailing
/// zeros dropped but never fewer than 4.
pub open spec fn hclen_from(cl: Seq<u8>, h: nat) -> nat
    decreases h,
{
    if h > 4 && cl[CL_ORDER@[h - 1] as int] == 0 {
        hclen_from(cl, (h - 1) as nat)
    } else {
        h
    }
}

/// The code lengths a dynamic block describes: the literal/length lengths up to HLIT + 257,
/// then the distance lengths up to HDIST + 1, as one sequence.
pub open spec fn described_lengths(lit: Seq<u8>, dist: Seq<u8>) -> Seq<u8> {
    lit.take(trimmed(lit, 257) as int) + dist.take(trimmed(dist, 1) as int)
}

/// A whole dynamic block under the given code lengths: `BFINAL = 1`, `BTYPE = 10`, HLIT, HDIST,
/// HCLEN, the code-length code lengths, the run-length-coded code lengths, the tokens and
/// end-of-block.
pub open spec fn dynamic_block_bits(
    tokens: Seq<Token>,
    lit: Seq<u8>,
    dist: Seq<u8>,
    cl: Seq<u8>,
) -> Seq<bool> {
    let hlit = trimmed(lit, 257);
    let hdist = trimmed(dist, 1);
    let hclen = hclen_from(cl, NUM_CL as nat);
    let items = rle_from(described_lengths(lit, dist), 0);
    lsb_bits(1, 1) + lsb_bits(2, 2) + lsb_bits((hlit - 257) as nat, 5) + lsb_bits(
        (hdist - 1) as nat,
        5,
    ) + lsb_bits((hclen - 4) as nat, 4) + cl_header_bits(cl, hclen) + items_bits(cl, items)
        + dyn_tokens_bits(lit, dist, tokens) + huff_bits(lit, 256)
}

/// `lengths` are `count` code lengths of at most `limit` bits.
pub open spec fn code_fits(lengths: Seq<u8>, count: nat, limit: nat) -> bool {
    &&& lengths.len() == count
    &&& forall|s: int| 0 <= s < count ==> #[trigger] lengths[s] <= limit
}

/// The literal/length symbol a token starts with.
pub open spec fn lit_symbol(t: Token) -> nat {
    match t {
        Token::Literal(b) => b as nat,
        Token::Match { len, .. } => length_parts(len as nat).0,
    }
}

/// Every symbol the block emits has a code: end-of-block, each token's literal/length symbol and
/// each match's distance symbol.
pub open spec fn covers_tokens(lit: Seq<u8>, dist: Seq<u8>, tokens: Seq<Token>) -> bool {
    &&& lit[256] > 0
    &&& forall|i: int| 0 <= i < tokens.len() ==> lit[lit_symbol(#[trigger] tokens[i]) as int] > 0
    &&& forall|i: int|
        0 <= i < tokens.len() ==> (#[trigger] tokens[i] matches Token::Match { dist: d, .. }
            ==> dist[distance_parts(d as nat).0 as int] > 0)
}

/// Every code-length symbol the items use has a code.
pub open spec fn covers_items(cl: Seq<u8>, items: Seq<ClItem>) -> bool {
    forall|k: int| 0 <= k < items.len() ==> cl[(#[trigger] items[k]).sym as int] > 0
}

/// The code lengths a dynamic block can be built with for `tokens`: a literal/length code of 286
/// and a distance code of 30 lengths (at most 15 bits), a code-length code of 19 lengths (at most
/// 7 bits), each a prefix code (its Kraft sum at most 1), and a code for every symbol the block
/// emits.
pub open spec fn usable_codes(tokens: Seq<Token>, lit: Seq<u8>, dist: Seq<u8>, cl: Seq<u8>) -> bool {
    &&& code_fits(lit, NUM_LITLEN as nat, 15)
    &&& code_fits(dist, NUM_DIST as nat, 15)
    &&& code_fits(cl, NUM_CL as nat, 7)
    &&& kraft(lit, 15, NUM_LITLEN as nat) <= pow2(15)
    &&& kraft(dist, 15, NUM_DIST as nat) <= pow2(15)
    &&& kraft(cl, 7, NUM_CL as nat) <= pow2(7)
    &&& covers_tokens(lit, dist, tokens)
    &&& covers_items(cl, rle_from(described_lengths(lit, dist), 0))
}

/// One more occurrence of a symbol: its count plus one, saturating at `u32::MAX`.
pub open spec fn counted(v: u32) -> u32 {
    if v + 1 > u32::MAX {
        u32::MAX
    } else {
        (v + 1) as u32
    }
}

/// The literal/length symbol counts of `tokens` (end-of-block not included).
pub open spec fn lit_counts(tokens: Seq<Token>) -> Seq<u32>
    decreases tokens.len(),
{
    if tokens.len() == 0 {
        Seq::new(NUM_LITLEN as nat, |s: int| 0u32)
    } else {
        let prev = lit_counts(tokens.drop_last());
        let s = lit_symbol(tokens.last()) as int;
        prev.update(s, counted(prev[s]))
    }
}

/// The distance symbol counts of `tokens`.
pub open spec fn dist_counts(tokens: Seq<Token>) -> Seq<u32>
    decreases tokens.len(),
{
    if tokens.len() == 0 {
        Seq::new(NUM_DIST as nat, |s: int| 0u32)
    } else {
        let prev = dist_counts(tokens.drop_last());
        match tokens.last() {
            Token::Literal(_) => prev,
            Token::Match { dist: d, .. } => {
                let s = distance_parts(d as nat).0 as int;
                prev.update(s, counted(prev[s]))
            },
        }
    }
}

/// The literal/length histogram a dynamic block is coded from: the tokens' counts plus one
/// end-of-block.
pub open spec fn block_lit_counts(tokens: Seq<Token>) -> Seq<u32> {
    let c = lit_counts(tokens);
    c.update(256, counted(c[256]))
}

/// The literal/length and distance symbol counts of a token stream, end-of-block included
/// (counts saturate rather than wrap, so a used symbol never reads as unused).
#[verifier::spinoff_prover]
#[verifier::rlimit(80)]
fn histograms(tokens: &[Token]) -> (r: (Vec<u32>, Vec<u32>))
    requires
        tokens_valid(tokens@),
    ensures
        r.0@ == block_lit_counts(tokens@),
        r.1@ == dist_counts(tokens@),
        r.0@.len() == NUM_LITLEN,
        r.1@.len() == NUM_DIST,
        r.0@[256] > 0,
        forall|i: int| 0 <= i < tokens@.len() ==> r.0@[lit_symbol(#[trigger] tokens@[i]) as int] > 0,
        forall|i: int|
            0 <= i < tokens@.len() ==> (#[trigger] tokens@[i] matches Token::Match { dist: d, .. }
                ==> r.1@[distance_parts(d as nat).0 as int] > 0),
{
    let mut lit: Vec<u32> = vec![0u32; NUM_LITLEN];
    let mut dist: Vec<u32> = vec![0u32; NUM_DIST];
    let mut i: usize = 0;
    while i < tokens.len()
        invariant
            lit@.len() == NUM_LITLEN,
            dist@.len() == NUM_DIST,
            tokens_valid(tokens@),
            i <= tokens@.len(),
            forall|k: int| 0 <= k < i ==> lit@[lit_symbol(#[trigger] tokens@[k]) as int] > 0,
            forall|k: int|
                0 <= k < i ==> (#[trigger] tokens@[k] matches Token::Match { dist: d, .. }
                    ==> dist@[distance_parts(d as nat).0 as int] > 0),
            lit@ == lit_counts(tokens@.take(i as int)),
            dist@ == dist_counts(tokens@.take(i as int)),
        decreases tokens@.len() - i,
    {
        let t = tokens[i];
        assert(token_valid(tokens@[i as int]));
        proof {
            assert(tokens@.take(i + 1).drop_last() =~= tokens@.take(i as int));
            assert(tokens@.take(i + 1).last() == tokens@[i as int]);
        }
        match t {
            Token::Literal(b) => {
                let s = b as usize;
                let v = lit[s].saturating_add(1);
                lit.set(s, v);
            },
            Token::Match { len, dist: d } => {
                let (lsym, _, _) = length_code(len);
                let s = lsym as usize;
                let v = lit[s].saturating_add(1);
                lit.set(s, v);
                let (dsym, _, _) = distance_code(d);
                let ds = dsym as usize;
                let dv = dist[ds].saturating_add(1);
                dist.set(ds, dv);
            },
        }
        i = i + 1;
    }
    proof {
        assert(tokens@.take(tokens@.len() as int) =~= tokens@);
    }
    let v = lit[256].saturating_add(1);
    lit.set(256, v);
    (lit, dist)
}

/// Writes one token under the given codes.
fn write_dyn_token(w: &mut BitWriter, lit: &CanonicalCode, dist: &CanonicalCode, t: Token)
    requires
        old(w).wf(),
        lit.wf(),
        dist.wf(),
        lit.spec_lengths().len() == NUM_LITLEN,
        dist.spec_lengths().len() == NUM_DIST,
        token_valid(t),
    ensures
        final(w).wf(),
        final(w).spec_bits() == old(w).spec_bits() + dyn_token_bits(
            lit.spec_lengths(),
            dist.spec_lengths(),
            t,
        ),
{
    let ghost b0 = w.spec_bits();
    proof {
        lit.lemma_codes();
        dist.lemma_codes();
    }
    match t {
        Token::Literal(b) => {
            lit.emit(w, b as usize);
        },
        Token::Match { len, dist: d } => {
            let (lsym, lbits, lextra) = length_code(len);
            lit.emit(w, lsym as usize);
            write_extra(w, lextra, lbits);
            let (dsym, dbits, dextra) = distance_code(d);
            dist.emit(w, dsym as usize);
            write_extra(w, dextra, dbits);
            proof {
                let (ls, lb, lv) = length_parts(len as nat);
                let (ds, db, dv) = distance_parts(d as nat);
                assert(w.spec_bits() =~= b0 + (huff_bits(lit.spec_lengths(), ls) + lsb_bits(lv, lb)
                    + huff_bits(dist.spec_lengths(), ds) + lsb_bits(dv, db)));
            }
        },
    }
}

/// The code-length symbol counts of `items`.
pub open spec fn cl_counts(items: Seq<ClItem>) -> Seq<u32>
    decreases items.len(),
{
    if items.len() == 0 {
        Seq::new(NUM_CL as nat, |s: int| 0u32)
    } else {
        let prev = cl_counts(items.drop_last());
        let s = items.last().sym as int;
        prev.update(s, counted(prev[s]))
    }
}

/// Counts the code-length symbols the items use (saturating).
#[verifier::spinoff_prover]
fn cl_histogram(items: &Vec<ClItem>) -> (r: Vec<u32>)
    requires
        items_valid(items@),
    ensures
        r@ == cl_counts(items@),
        r@.len() == NUM_CL,
        forall|m: int| 0 <= m < items@.len() ==> r@[(#[trigger] items@[m]).sym as int] > 0,
{
    let mut cl_hist: Vec<u32> = vec![0u32; NUM_CL];
    let mut k: usize = 0;
    while k < items.len()
        invariant
            cl_hist@.len() == NUM_CL,
            items_valid(items@),
            k <= items@.len(),
            forall|m: int| 0 <= m < k ==> cl_hist@[(#[trigger] items@[m]).sym as int] > 0,
            cl_hist@ == cl_counts(items@.take(k as int)),
        decreases items@.len() - k,
    {
        assert(item_valid(items@[k as int]));
        proof {
            assert(items@.take(k + 1).drop_last() =~= items@.take(k as int));
            assert(items@.take(k + 1).last() == items@[k as int]);
        }
        let s = items[k].sym as usize;
        let v = cl_hist[s].saturating_add(1);
        cl_hist.set(s, v);
        k = k + 1;
    }
    proof {
        assert(items@.take(items@.len() as int) =~= items@);
    }
    cl_hist
}

/// HCLEN + 4 for the code-length code.
fn hclen_of(cl: &CanonicalCode) -> (r: usize)
    requires
        cl.spec_lengths().len() == NUM_CL,
    ensures
        r == hclen_from(cl.spec_lengths(), NUM_CL as nat),
        4 <= r <= NUM_CL,
{
    let ghost cls = cl.spec_lengths();
    let mut hclen: usize = NUM_CL;
    while hclen > 4 && cl.lengths()[CL_ORDER[hclen - 1]] == 0
        invariant
            4 <= hclen <= NUM_CL,
            cls.len() == NUM_CL,
            cls == cl.spec_lengths(),
            hclen_from(cls, hclen as nat) == hclen_from(cls, NUM_CL as nat),
        decreases hclen,
    {
        hclen = hclen - 1;
    }
    hclen
}

/// Writes the first `hclen` code-length code lengths in `CL_ORDER`, 3 bits each.
fn write_cl_header(w: &mut BitWriter, cl: &CanonicalCode, hclen: usize)
    requires
        old(w).wf(),
        hclen <= NUM_CL,
        cl.spec_lengths().len() == NUM_CL,
        forall|s: int| 0 <= s < NUM_CL ==> #[trigger] cl.spec_lengths()[s] <= 7,
    ensures
        final(w).wf(),
        final(w).spec_bits() == old(w).spec_bits() + cl_header_bits(cl.spec_lengths(), hclen as nat),
{
    let ghost head = w.spec_bits();
    let ghost cls = cl.spec_lengths();
    let mut k: usize = 0;
    proof {
        assert(head + Seq::<bool>::empty() =~= head);
    }
    while k < hclen
        invariant
            w.wf(),
            k <= hclen <= NUM_CL,
            cls == cl.spec_lengths(),
            cls.len() == NUM_CL,
            forall|s: int| 0 <= s < NUM_CL ==> #[trigger] cls[s] <= 7,
            w.spec_bits() == head + cl_header_bits(cls, k as nat),
            head == old(w).spec_bits(),
        decreases hclen - k,
    {
        let order = CL_ORDER[k];
        let v = cl.lengths()[order];
        w.write_bits(v as u32, 3);
        k = k + 1;
        proof {
            vstd::arithmetic::power2::lemma2_to64();
            vstd::arithmetic::div_mod::lemma_small_mod(v as nat, 8);
            assert(w.spec_bits() =~= head + cl_header_bits(cls, k as nat));
        }
    }
}

/// Writes the code-length items under the code-length code.
fn write_items(w: &mut BitWriter, cl: &CanonicalCode, items: &Vec<ClItem>)
    requires
        old(w).wf(),
        cl.wf(),
        cl.spec_lengths().len() == NUM_CL,
        items_valid(items@),
    ensures
        final(w).wf(),
        final(w).spec_bits() == old(w).spec_bits() + items_bits(cl.spec_lengths(), items@),
{
    let ghost start = w.spec_bits();
    let ghost cls = cl.spec_lengths();
    let mut k: usize = 0;
    proof {
        assert(items@.take(0) =~= Seq::<ClItem>::empty());
        assert(start + Seq::<bool>::empty() =~= start);
    }
    while k < items.len()
        invariant
            w.wf(),
            cl.wf(),
            cls == cl.spec_lengths(),
            cls.len() == NUM_CL,
            items_valid(items@),
            k <= items@.len(),
            w.spec_bits() == start + items_bits(cls, items@.take(k as int)),
            start == old(w).spec_bits(),
        decreases items@.len() - k,
    {
        let it = items[k];
        assert(item_valid(items@[k as int]));
        proof {
            cl.lemma_codes();
        }
        cl.emit(w, it.sym as usize);
        write_extra(w, it.extra_val, it.extra_bits);
        proof {
            assert(items@.take(k + 1).drop_last() =~= items@.take(k as int));
            assert(items@.take(k + 1).last() == it);
            assert(cl.spec_code(it.sym as int) == canonical_code(cls, it.sym as nat));
            assert(w.spec_bits() =~= start + items_bits(cls, items@.take(k + 1)));
        }
        k = k + 1;
    }
    proof {
        assert(items@.take(items@.len() as int) =~= items@);
    }
}

/// The bits of one more token.
proof fn lemma_dyn_tokens_step(lit: Seq<u8>, dist: Seq<u8>, tokens: Seq<Token>, i: int)
    requires
        0 <= i < tokens.len(),
    ensures
        dyn_tokens_bits(lit, dist, tokens.take(i + 1)) == dyn_tokens_bits(lit, dist, tokens.take(i))
            + dyn_token_bits(lit, dist, tokens[i]),
{
    assert(tokens.take(i + 1).drop_last() =~= tokens.take(i));
    assert(tokens.take(i + 1).last() == tokens[i]);
}

/// Writes the tokens under the literal/length and distance codes.
#[verifier::spinoff_prover]
fn write_dyn_tokens(w: &mut BitWriter, lit: &CanonicalCode, dist: &CanonicalCode, tokens: &[Token])
    requires
        old(w).wf(),
        lit.wf(),
        dist.wf(),
        lit.spec_lengths().len() == NUM_LITLEN,
        dist.spec_lengths().len() == NUM_DIST,
        tokens_valid(tokens@),
    ensures
        final(w).wf(),
        final(w).spec_bits() == old(w).spec_bits() + dyn_tokens_bits(
            lit.spec_lengths(),
            dist.spec_lengths(),
            tokens@,
        ),
{
    let ghost start = w.spec_bits();
    let mut i: usize = 0;
    proof {
        assert(tokens@.take(0) =~= Seq::<Token>::empty());
        assert(start + Seq::<bool>::empty() =~= start);
    }
    while i < tokens.len()
        invariant
            w.wf(),
            lit.wf(),
            dist.wf(),
            lit.spec_lengths().len() == NUM_LITLEN,
            dist.spec_lengths().len() == NUM_DIST,
            tokens_valid(tokens@),
            i <= tokens@.len(),
            w.spec_bits() == start + dyn_tokens_bits(
                lit.spec_lengths(),
                dist.spec_lengths(),
                tokens@.take(i as int),
            ),
            start == old(w).spec_bits(),
        decreases tokens@.len() - i,
    {
        let t = tokens[i];
        assert(token_valid(tokens@[i as int]));
        let ghost before = w.spec_bits();
        write_dyn_token(w, lit, dist, t);
        proof {
            lemma_dyn_tokens_step(lit.spec_lengths(), dist.spec_lengths(), tokens@, i as int);
            let a = dyn_tokens_bits(lit.spec_lengths(), dist.spec_lengths(), tokens@.take(i as int));
            let b = dyn_token_bits(lit.spec_lengths(), dist.spec_lengths(), t);
            assert(w.spec_bits() == (start + a) + b);
            assert((start + a) + b =~= start + (a + b));
        }
        i = i + 1;
    }
    proof {
        assert(tokens@.take(tokens@.len() as int) =~= tokens@);
    }
}

/// The literal/length code lengths of the dynamic block for `tokens`: built (at most 15 bits)
/// from the tokens' literal/length counts plus end-of-block, forced to two used symbols.
pub open spec fn dynamic_lit_lengths(tokens: Seq<Token>) -> Seq<u8> {
    code_lengths(with_two_used(block_lit_counts(tokens)), 15)
}

/// The distance code lengths of the dynamic block for `tokens`: built (at most 15 bits) from the
/// tokens' distance counts, forced to two used symbols.
pub open spec fn dynamic_dist_lengths(tokens: Seq<Token>) -> Seq<u8> {
    code_lengths(with_two_used(dist_counts(tokens)), 15)
}

/// The code-length code lengths of the dynamic block for `tokens`: built (at most 7 bits) from
/// the counts of the run-length-coded items that describe the other two codes.
pub open spec fn dynamic_cl_lengths(tokens: Seq<Token>) -> Seq<u8> {
    let described = described_lengths(dynamic_lit_lengths(tokens), dynamic_dist_lengths(tokens));
    code_lengths(cl_counts(rle_from(described, 0)), 7)
}

/// The dynamic block for `tokens`, under the codes built from the tokens' own counts.
pub open spec fn dynamic_body_bits(tokens: Seq<Token>) -> Seq<bool> {
    dynamic_block_bits(
        tokens,
        dynamic_lit_lengths(tokens),
        dynamic_dist_lengths(tokens),
        dynamic_cl_lengths(tokens),
    )
}

/// Encodes a parsed LZ77 token stream as a complete dynamic-Huffman DEFLATE body (single block,
/// `BFINAL` set). The codes are built from the stream's own symbol counts (with at least two
/// symbols per code, so each is complete); the body is the block layout under those codes.
#[verifier::spinoff_prover]
#[verifier::rlimit(40)]
pub fn body(tokens: &[Token]) -> (r: Vec<u8>)
    requires
        tokens_valid(tokens@),
    ensures
        usable_codes(
            tokens@,
            dynamic_lit_lengths(tokens@),
            dynamic_dist_lengths(tokens@),
            dynamic_cl_lengths(tokens@),
        ),
        r@ == packed(dynamic_body_bits(tokens@)),
{
    let (mut litlen_hist, mut dist_hist) = histograms(tokens);
    let ghost lh0 = litlen_hist@;
    let ghost dh0 = dist_hist@;
    ensure_two(litlen_hist.as_mut_slice());
    ensure_two(dist_hist.as_mut_slice());
    proof {
        vstd::arithmetic::power2::lemma2_to64();
        vstd::arithmetic::power2::lemma_pow2_strictly_increases(9, 15);
        lemma_used_upto_bound(litlen_hist@, litlen_hist@.len());
        lemma_used_upto_bound(dist_hist@, dist_hist@.len());
        assert forall|s: int| 0 <= s < NUM_LITLEN && lh0[s] > 0 implies litlen_hist@[s] > 0 by {
        }
        assert forall|s: int| 0 <= s < NUM_DIST && dh0[s] > 0 implies dist_hist@[s] > 0 by {
        }
    }
    let litlen_code = CanonicalCode::from_histogram(litlen_hist.as_slice(), 15);
    let dist_code = CanonicalCode::from_histogram(dist_hist.as_slice(), 15);
    let ghost lit = litlen_code.spec_lengths();
    let ghost dist = dist_code.spec_lengths();
    let hlit = trimmed_len(litlen_code.lengths(), 257);
    let hdist = trimmed_len(dist_code.lengths(), 1);
    let mut combined: Vec<u8> = Vec::new();
    combined.extend_from_slice(&litlen_code.lengths()[0..hlit]);
    combined.extend_from_slice(&dist_code.lengths()[0..hdist]);
    proof {
        assert(combined@ =~= described_lengths(lit, dist));
        assert forall|k: int| 0 <= k < combined@.len() implies #[trigger] combined@[k] <= 15 by {
            if k < hlit {
                assert(combined@[k] == lit[k]);
            } else {
                assert(combined@[k] == dist[k - hlit]);
            }
        }
        law_rle_round_trips(combined@);
    }
    let items = rle(combined.as_slice());
    let cl_hist = cl_histogram(&items);
    proof {
        lemma_used_upto_bound(cl_hist@, cl_hist@.len());
    }
    let cl = CanonicalCode::from_histogram(cl_hist.as_slice(), 7);
    let ghost cls = cl.spec_lengths();
    let hclen = hclen_of(&cl);
    let mut w = BitWriter::new();
    w.write_bits(1, 1);
    w.write_bits(2, 2);
    w.write_bits((hlit - 257) as u32, 5);
    w.write_bits((hdist - 1) as u32, 5);
    w.write_bits((hclen - 4) as u32, 4);
    proof {
        vstd::arithmetic::div_mod::lemma_small_mod((hlit - 257) as nat, 32);
        vstd::arithmetic::div_mod::lemma_small_mod((hdist - 1) as nat, 32);
        vstd::arithmetic::div_mod::lemma_small_mod((hclen - 4) as nat, 16);
    }
    write_cl_header(&mut w, &cl, hclen);
    write_items(&mut w, &cl, &items);
    write_dyn_tokens(&mut w, &litlen_code, &dist_code, tokens);
    proof {
        litlen_code.lemma_codes();
    }
    litlen_code.emit(&mut w, 256);
    proof {
        assert(Seq::<bool>::empty() + w.spec_bits() =~= w.spec_bits());
        assert(w.spec_bits() =~= dynamic_block_bits(tokens@, lit, dist, cls));
        assert(usable_codes(tokens@, lit, dist, cls));
        assert(lit == dynamic_lit_lengths(tokens@));
        assert(dist == dynamic_dist_lengths(tokens@));
        assert(cls == dynamic_cl_lengths(tokens@));
    }
    w.finish()
}

} // verus!

//! DEFLATE length and distance symbol tables (RFC 1951 §3.2.5).
//!
//! A back-reference `(length, distance)` is coded as a Huffman symbol plus a fixed number of raw
//! "extra" bits. Lengths 3..=258 map to literal/length symbols 257..=285; distances 1..=32768 map to
//! distance symbols 0..=29.
use vstd::prelude::*;
use vstd::arithmetic::power2::pow2;

verus! {

/// Base length for each length symbol 257..=285 (index `sym - 257`).
pub const LENGTH_BASE: [u16; 29] = [
    3, 4, 5, 6, 7, 8, 9, 10, 11, 13, 15, 17, 19, 23, 27, 31, 35, 43, 51, 59, 67, 83, 99, 115, 131,
    163, 195, 227, 258,
];

/// Extra bits for each length symbol 257..=285.
pub const LENGTH_EXTRA: [u8; 29] = [
    0, 0, 0, 0, 0, 0, 0, 0, 1, 1, 1, 1, 2, 2, 2, 2, 3, 3, 3, 3, 4, 4, 4, 4, 5, 5, 5, 5, 0,
];

/// Base distance for each distance symbol 0..=29.
pub const DIST_BASE: [u16; 30] = [
    1, 2, 3, 4, 5, 7, 9, 13, 17, 25, 33, 49, 65, 97, 129, 193, 257, 385, 513, 769, 1025, 1537,
    2049, 3073, 4097, 6145, 8193, 12289, 16385, 24577,
];

/// Extra bits for each distance symbol 0..=29.
pub const DIST_EXTRA: [u8; 30] = [
    0, 0, 0, 0, 1, 1, 2, 2, 3, 3, 4, 4, 5, 5, 6, 6, 7, 7, 8, 8, 9, 9, 10, 10, 11, 11, 12, 12, 13,
    13,
];

/// The shortest back-reference length DEFLATE can code.
pub const MIN_MATCH: usize = 3;

/// The longest back-reference length DEFLATE can code.
pub const MAX_MATCH: usize = 258;

/// The largest back-reference distance DEFLATE can code (the 32 KiB window).
pub const MAX_DISTANCE: usize = 32768;

/// Each length symbol's range ends where the next begins: `base + 2^extra` never overshoots the
/// next base (the last full range, for 227, covers 258 too, which symbol 285 claims).
proof fn lemma_length_table()
    ensures
        forall|i: int| 0 <= i < 28 ==> #[trigger] LENGTH_BASE@[i] < LENGTH_BASE@[i + 1] && LENGTH_BASE@[i + 1]
            <= LENGTH_BASE@[i] + pow2(LENGTH_EXTRA@[i] as nat),
        LENGTH_BASE@[0] == 3,
        LENGTH_BASE@[28] == 258,
        LENGTH_EXTRA@[28] == 0,
        forall|i: int| 0 <= i < 29 ==> #[trigger] LENGTH_EXTRA@[i] <= 5,
{
    vstd::arithmetic::power2::lemma2_to64();
    assert(LENGTH_BASE@ =~= seq![3u16, 4, 5, 6, 7, 8, 9, 10, 11, 13, 15, 17, 19, 23, 27, 31, 35, 43, 51, 59, 67, 83, 99, 115, 131, 163, 195, 227, 258]);
    assert(LENGTH_EXTRA@ =~= seq![0u8, 0, 0, 0, 0, 0, 0, 0, 1, 1, 1, 1, 2, 2, 2, 2, 3, 3, 3, 3, 4, 4, 4, 4, 5, 5, 5, 5, 0]);
}

/// Each distance symbol's range ends exactly where the next begins, and the last ends at 32768.
proof fn lemma_distance_table()
    ensures
        forall|i: int| 0 <= i < 29 ==> #[trigger] DIST_BASE@[i + 1] == DIST_BASE@[i] + pow2(DIST_EXTRA@[i] as nat),
        DIST_BASE@[0] == 1,
        DIST_BASE@[29] + pow2(DIST_EXTRA@[29] as nat) == 32769,
        forall|i: int| 0 <= i < 30 ==> #[trigger] DIST_EXTRA@[i] <= 13,
{
    vstd::arithmetic::power2::lemma2_to64();
    assert(DIST_BASE@ =~= seq![1u16, 2, 3, 4, 5, 7, 9, 13, 17, 25, 33, 49, 65, 97, 129, 193, 257, 385, 513, 769, 1025, 1537, 2049, 3073, 4097, 6145, 8193, 12289, 16385, 24577]);
    assert(DIST_EXTRA@ =~= seq![0u8, 0, 0, 0, 1, 1, 2, 2, 3, 3, 4, 4, 5, 5, 6, 6, 7, 7, 8, 8, 9, 9, 10, 10, 11, 11, 12, 12, 13, 13]);
}

/// The slot of the length table that covers `length`: the last base at or below it.
pub open spec fn length_slot(length: nat) -> int {
    choose|i: int|
        0 <= i < 29 && #[trigger] LENGTH_BASE@[i] <= length && (i < 28 ==> length < LENGTH_BASE@[i + 1])
}

/// How a match length is coded: `(symbol, extra-bit count, extra value)`.
pub open spec fn length_parts(length: nat) -> (nat, nat, nat) {
    let i = length_slot(length);
    ((257 + i) as nat, LENGTH_EXTRA@[i] as nat, (length - LENGTH_BASE@[i]) as nat)
}

/// The slot of the distance table that covers `distance`: the last base at or below it.
pub open spec fn distance_slot(distance: nat) -> int {
    choose|i: int|
        0 <= i < 30 && #[trigger] DIST_BASE@[i] <= distance && (i < 29 ==> distance < DIST_BASE@[i + 1])
}

/// How a match distance is coded: `(symbol, extra-bit count, extra value)`.
pub open spec fn distance_parts(distance: nat) -> (nat, nat, nat) {
    let i = distance_slot(distance);
    (i as nat, DIST_EXTRA@[i] as nat, (distance - DIST_BASE@[i]) as nat)
}

/// Only one slot of the length table covers a length.
proof fn lemma_length_slot_unique(length: nat, i: int)
    requires
        0 <= i < 29,
        LENGTH_BASE@[i] <= length,
        i < 28 ==> length < LENGTH_BASE@[i + 1],
    ensures
        length_slot(length) == i,
{
    lemma_length_table();
    let j = length_slot(length);
    assert(0 <= j < 29 && LENGTH_BASE@[j] <= length && (j < 28 ==> length < LENGTH_BASE@[j + 1]));
    if j < i {
        lemma_length_monotone(j + 1, i);
    } else if i < j {
        lemma_length_monotone(i + 1, j);
    }
}

/// The length bases increase.
proof fn lemma_length_monotone(a: int, b: int)
    requires
        0 <= a <= b < 29,
    ensures
        LENGTH_BASE@[a] <= LENGTH_BASE@[b],
    decreases b - a,
{
    lemma_length_table();
    if a < b {
        lemma_length_monotone(a, b - 1);
        assert(LENGTH_BASE@[b - 1] < LENGTH_BASE@[b]);
    }
}

/// Only one slot of the distance table covers a distance.
proof fn lemma_distance_slot_unique(distance: nat, i: int)
    requires
        0 <= i < 30,
        DIST_BASE@[i] <= distance,
        i < 29 ==> distance < DIST_BASE@[i + 1],
    ensures
        distance_slot(distance) == i,
{
    lemma_distance_table();
    let j = distance_slot(distance);
    assert(0 <= j < 30 && DIST_BASE@[j] <= distance && (j < 29 ==> distance < DIST_BASE@[j + 1]));
    if j < i {
        lemma_distance_monotone(j + 1, i);
    } else if i < j {
        lemma_distance_monotone(i + 1, j);
    }
}

/// The distance bases increase.
proof fn lemma_distance_monotone(a: int, b: int)
    requires
        0 <= a <= b < 30,
    ensures
        DIST_BASE@[a] <= DIST_BASE@[b],
    decreases b - a,
{
    lemma_distance_table();
    if a < b {
        lemma_distance_monotone(a, b - 1);
        let c = b - 1;
        vstd::arithmetic::power2::lemma_pow2_pos(DIST_EXTRA@[c] as nat);
        assert(DIST_BASE@[c + 1] == DIST_BASE@[c] + pow2(DIST_EXTRA@[c] as nat));
    }
}

/// The slot of the length table covering `length`, searched from slot `i` up.
proof fn length_slot_from(length: nat, i: int) -> (j: int)
    requires
        0 <= i < 29,
        LENGTH_BASE@[i] <= length,
    ensures
        i <= j < 29,
        LENGTH_BASE@[j] <= length,
        j < 28 ==> length < LENGTH_BASE@[j + 1],
    decreases 29 - i,
{
    if i + 1 < 29 && LENGTH_BASE@[i + 1] <= length {
        length_slot_from(length, i + 1)
    } else {
        i
    }
}

/// The slot of the distance table covering `distance`, searched from slot `i` up.
proof fn distance_slot_from(distance: nat, i: int) -> (j: int)
    requires
        0 <= i < 30,
        DIST_BASE@[i] <= distance,
    ensures
        i <= j < 30,
        DIST_BASE@[j] <= distance,
        j < 29 ==> distance < DIST_BASE@[j + 1],
    decreases 30 - i,
{
    if i + 1 < 30 && DIST_BASE@[i + 1] <= distance {
        distance_slot_from(distance, i + 1)
    } else {
        i
    }
}

/// A codable length is its symbol's base plus an extra value that fits the symbol's extra bits.
pub proof fn lemma_length_parts(length: nat)
    requires
        MIN_MATCH <= length <= MAX_MATCH,
    ensures
        257 <= length_parts(length).0 <= 285,
        length_parts(length).1 == LENGTH_EXTRA@[length_parts(length).0 - 257],
        LENGTH_BASE@[length_parts(length).0 - 257] + length_parts(length).2 == length,
        length_parts(length).2 < pow2(length_parts(length).1),
{
    lemma_length_table();
    let j = length_slot_from(length, 0);
    lemma_length_slot_unique(length, j);
    vstd::arithmetic::power2::lemma2_to64();
    if j < 28 {
        assert(LENGTH_BASE@[j + 1] <= LENGTH_BASE@[j] + pow2(LENGTH_EXTRA@[j] as nat));
    }
}

/// A codable distance is its symbol's base plus an extra value that fits the symbol's extra bits.
pub proof fn lemma_distance_parts(distance: nat)
    requires
        1 <= distance <= MAX_DISTANCE,
    ensures
        distance_parts(distance).0 < 30,
        distance_parts(distance).1 == DIST_EXTRA@[distance_parts(distance).0 as int],
        DIST_BASE@[distance_parts(distance).0 as int] + distance_parts(distance).2 == distance,
        distance_parts(distance).2 < pow2(distance_parts(distance).1),
{
    lemma_distance_table();
    let j = distance_slot_from(distance, 0);
    lemma_distance_slot_unique(distance, j);
    if j < 29 {
        assert(DIST_BASE@[j + 1] == DIST_BASE@[j] + pow2(DIST_EXTRA@[j] as nat));
    }
}

/// Maps a match `length` (3..=258) to `(symbol, extra_bits, extra_value)`: the symbol of the
/// last base at or below `length`, its extra-bit count, and the offset from that base — which the
/// extra bits can hold, so base plus offset gives the length back.
pub fn length_code(length: u16) -> (r: (u16, u32, u32))
    requires
        MIN_MATCH <= length <= MAX_MATCH,
    ensures
        257 <= r.0 <= 285,
        r.1 == LENGTH_EXTRA@[r.0 - 257] as u32,
        LENGTH_BASE@[r.0 - 257] + r.2 == length,
        r.2 < pow2(r.1 as nat),
        r.0 < 285 ==> length < LENGTH_BASE@[r.0 - 256],
        (r.0 as nat, r.1 as nat, r.2 as nat) == length_parts(length as nat),
{
    proof {
        lemma_length_table();
    }
    let mut idx: usize = 0;
    while idx + 1 < 29 && LENGTH_BASE[idx + 1] <= length
        invariant
            idx < 29,
            LENGTH_BASE@[idx as int] <= length,
        decreases 29 - idx,
    {
        idx = idx + 1;
    }
    proof {
        if idx < 28 {
            assert(length < LENGTH_BASE@[idx + 1]);
        }
        lemma_length_slot_unique(length as nat, idx as int);
    }
    ((257 + idx) as u16, LENGTH_EXTRA[idx] as u32, (length - LENGTH_BASE[idx]) as u32)
}

/// Maps a match `distance` (1..=32768) to `(symbol, extra_bits, extra_value)`: the symbol of the
/// last base at or below `distance`, its extra-bit count, and the offset from that base — which
/// the extra bits can hold, so base plus offset gives the distance back.
pub fn distance_code(distance: u16) -> (r: (u16, u32, u32))
    requires
        1 <= distance <= MAX_DISTANCE,
    ensures
        r.0 <= 29,
        r.1 == DIST_EXTRA@[r.0 as int] as u32,
        DIST_BASE@[r.0 as int] + r.2 == distance,
        r.2 < pow2(r.1 as nat),
        r.0 < 29 ==> distance < DIST_BASE@[r.0 + 1],
        (r.0 as nat, r.1 as nat, r.2 as nat) == distance_parts(distance as nat),
{
    proof {
        lemma_distance_table();
    }
    let mut idx: usize = 0;
    while idx + 1 < 30 && DIST_BASE[idx + 1] <= distance
        invariant
            idx < 30,
            DIST_BASE@[idx as int] <= distance,
        decreases 30 - idx,
    {
        idx = idx + 1;
    }
    proof {
        lemma_distance_slot_unique(distance as nat, idx as int);
    }
    (idx as u16, DIST_EXTRA[idx] as u32, (distance - DIST_BASE[idx]) as u32)
}

} // verus!

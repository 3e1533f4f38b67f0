//! Adler-32 checksum (RFC 1950 §9), the integrity check carried in a zlib stream's trailer.
use vstd::prelude::*;

verus! {

/// The largest prime smaller than 65536; the two running sums are reduced modulo this.
pub const MOD_ADLER: u32 = 65521;

/// Largest number of bytes that can be summed before the `s2` accumulator could overflow a `u32`
/// (even from an unreduced seed); reducing once per chunk avoids a modulo per byte.
pub const NMAX: usize = 5552;

/// The sum of the bytes of `data`.
pub open spec fn byte_sum(data: Seq<u8>) -> nat
    decreases data.len(),
{
    if data.len() == 0 {
        0
    } else {
        byte_sum(data.drop_last()) + data.last() as nat
    }
}

/// `s2`'s growth over `data` from a starting `s1`: the sum of every running `s1` after each byte.
pub open spec fn running_sum(s1: nat, data: Seq<u8>) -> nat
    decreases data.len(),
{
    if data.len() == 0 {
        0
    } else {
        running_sum(s1, data.drop_last()) + s1 + byte_sum(data)
    }
}

/// The Adler-32 of `data` continued from `seed`: `s1` is the seed's low half plus every byte,
/// `s2` the seed's high half plus every running `s1`, both reduced modulo [`MOD_ADLER`] — except
/// that empty data hands the seed back untouched.
pub open spec fn spec_adler32(seed: u32, data: Seq<u8>) -> u32 {
    if data.len() == 0 {
        seed
    } else {
        let lo = (seed % 65536) as nat;
        let hi = (seed / 65536) as nat;
        let s1 = (lo + byte_sum(data)) % (MOD_ADLER as nat);
        let s2 = (hi + running_sum(lo, data)) % (MOD_ADLER as nat);
        (s2 * 65536 + s1) as u32
    }
}

proof fn lemma_sums_push(s1: nat, data: Seq<u8>, b: u8)
    ensures
        byte_sum(data.push(b)) == byte_sum(data) + b,
        running_sum(s1, data.push(b)) == running_sum(s1, data) + s1 + byte_sum(data) + b,
{
    assert(data.push(b).drop_last() =~= data);
}

/// The sums over a concatenation split at the join.
proof fn lemma_sums_concat(s1: nat, a: Seq<u8>, b: Seq<u8>)
    ensures
        byte_sum(a + b) == byte_sum(a) + byte_sum(b),
        running_sum(s1, a + b) == running_sum(s1, a) + running_sum(s1 + byte_sum(a), b),
    decreases b.len(),
{
    if b.len() == 0 {
        assert(a + b =~= a);
    } else {
        lemma_sums_concat(s1, a, b.drop_last());
        assert((a + b).drop_last() =~= a + b.drop_last());
        assert(b.drop_last().push(b.last()) =~= b);
        lemma_sums_push(s1 + byte_sum(a), b.drop_last(), b.last());
    }
}

/// Computes the Adler-32 checksum of `data`, continuing from `seed`.
///
/// Pass `seed = 1` for a fresh checksum (the zlib initial value). The result is `s2 << 16 | s1`,
/// which is written into the zlib trailer in big-endian byte order.
#[verifier::spinoff_prover]
#[verifier::rlimit(50)]
pub fn adler32(seed: u32, data: &[u8]) -> (r: u32)
    ensures
        r == spec_adler32(seed, data@),
{
    let ghost lo = (seed % 65536) as nat;
    let ghost hi = (seed / 65536) as nat;
    let mut s1: u32 = seed & 0xffff;
    let mut s2: u32 = (seed >> 16) & 0xffff;
    proof {
        assert(seed & 0xffff == seed % 65536) by (bit_vector);
        assert((seed >> 16) & 0xffff == seed / 65536) by (bit_vector);
    }
    let n = data.len();
    if n == 0 {
        proof {
            assert(s2 * 65536 + s1 == seed) by (nonlinear_arith)
                requires
                    s1 == seed % 65536,
                    s2 == seed / 65536,
            ;
            assert((s2 << 16) | s1 == s2 * 65536 + s1) by (bit_vector)
                requires
                    s1 < 65536,
                    s2 < 65536,
            ;
        }
        return (s2 << 16) | s1;
    }
    let mut start: usize = 0;
    while start < n
        invariant
            n == data@.len(),
            start <= n,
            s1 < 65536,
            s2 < 65536,
            s1 as nat % (MOD_ADLER as nat) == (lo + byte_sum(data@.take(start as int))) % (
            MOD_ADLER as nat),
            s2 as nat % (MOD_ADLER as nat) == (hi + running_sum(lo, data@.take(start as int))) % (
            MOD_ADLER as nat),
            start > 0 ==> s1 < MOD_ADLER && s2 < MOD_ADLER,
        decreases n - start,
    {
        let end = if n - start > NMAX {
            start + NMAX
        } else {
            n
        };
        let ghost s1_0 = s1 as nat;
        let ghost s2_0 = s2 as nat;
        let mut i = start;
        while i < end
            invariant
                n == data@.len(),
                start <= i <= end,
                end <= n,
                end - start <= NMAX,
                s1_0 < 65536,
                s2_0 < 65536,
                s1 == s1_0 + byte_sum(data@.subrange(start as int, i as int)),
                s2 == s2_0 + running_sum(s1_0, data@.subrange(start as int, i as int)),
                byte_sum(data@.subrange(start as int, i as int)) <= 255 * (i - start),
                running_sum(s1_0, data@.subrange(start as int, i as int)) <= (i - start) * s1_0
                    + 255 * (i - start) * (i - start + 1) / 2,
            decreases end - i,
        {
            let ghost chunk = data@.subrange(start as int, i as int);
            proof {
                lemma_sums_push(s1_0, chunk, data@[i as int]);
                assert(data@.subrange(start as int, i + 1) =~= chunk.push(data@[i as int]));
                let k = (i - start) as nat;
                assert(k < NMAX);
                assert((k + 1) * s1_0 + 255 * (k + 1) * (k + 2) / 2 <= 5552 * 65535 + 255 * 5552
                    * 5553 / 2) by (nonlinear_arith)
                    requires
                        k < 5552,
                        s1_0 < 65536,
                ;
                assert(255 * (k + 1) * (k + 2) / 2 == 255 * k * (k + 1) / 2 + 255 * (k + 1))
                    by (nonlinear_arith);
                assert(s1_0 + byte_sum(chunk) + data@[i as int] <= s1_0 + 255 * (k + 1));
                assert((k + 1) * s1_0 == k * s1_0 + s1_0) by (nonlinear_arith);
            }
            s1 = s1 + data[i] as u32;
            s2 = s2 + s1;
            i = i + 1;
        }
        proof {
            let chunk = data@.subrange(start as int, end as int);
            lemma_sums_concat(lo, data@.take(start as int), chunk);
            assert(data@.take(end as int) =~= data@.take(start as int) + chunk);
            let m = MOD_ADLER as nat;
            let before = data@.take(start as int);
            // The chunk's running sum depends on its starting s1 only modulo m.
            lemma_running_sum_shift(s1_0, lo + byte_sum(before), chunk, m);
            vstd::arithmetic::div_mod::lemma_add_mod_noop(s1_0 as int, byte_sum(chunk) as int, m as int);
            vstd::arithmetic::div_mod::lemma_add_mod_noop(
                (lo + byte_sum(before)) as int,
                byte_sum(chunk) as int,
                m as int,
            );
            vstd::arithmetic::div_mod::lemma_add_mod_noop(
                s2_0 as int,
                running_sum(s1_0, chunk) as int,
                m as int,
            );
            vstd::arithmetic::div_mod::lemma_add_mod_noop(
                (hi + running_sum(lo, before)) as int,
                running_sum(lo + byte_sum(before), chunk) as int,
                m as int,
            );
            vstd::arithmetic::div_mod::lemma_mod_mod(s1 as int, m as int, 1);
        }
        s1 = s1 % MOD_ADLER;
        s2 = s2 % MOD_ADLER;
        proof {
            vstd::arithmetic::div_mod::lemma_mod_twice(s1 as int, MOD_ADLER as int);
        }
        start = end;
    }
    proof {
        assert(data@.take(n as int) =~= data@);
        vstd::arithmetic::div_mod::lemma_small_mod(s1 as nat, MOD_ADLER as nat);
        vstd::arithmetic::div_mod::lemma_small_mod(s2 as nat, MOD_ADLER as nat);
        assert((s2 << 16) | s1 == s2 * 65536 + s1) by (bit_vector)
            requires
                s1 < 65536,
                s2 < 65536,
        ;
    }
    (s2 << 16) | s1
}

/// The running sum from a starting `s1` differs from the one from `t1` by a multiple of `m`
/// whenever the starts agree modulo `m`.
proof fn lemma_running_sum_shift(s1: nat, t1: nat, data: Seq<u8>, m: nat)
    requires
        m > 0,
        s1 % m == t1 % m,
    ensures
        running_sum(s1, data) % m == running_sum(t1, data) % m,
    decreases data.len(),
{
    if data.len() > 0 {
        lemma_running_sum_shift(s1, t1, data.drop_last(), m);
        let r = running_sum(s1, data.drop_last());
        let q = running_sum(t1, data.drop_last());
        let bs = byte_sum(data);
        vstd::arithmetic::div_mod::lemma_add_mod_noop((r + s1) as int, bs as int, m as int);
        vstd::arithmetic::div_mod::lemma_add_mod_noop((q + t1) as int, bs as int, m as int);
        vstd::arithmetic::div_mod::lemma_add_mod_noop(r as int, s1 as int, m as int);
        vstd::arithmetic::div_mod::lemma_add_mod_noop(q as int, t1 as int, m as int);
    }
}

/// Feeding a checksum in two parts, the first result seeding the second, equals one pass over the
/// whole input.
pub proof fn law_seed_resumes_a_running_checksum(seed: u32, a: Seq<u8>, b: Seq<u8>)
    ensures
        spec_adler32(spec_adler32(seed, a), b) == spec_adler32(seed, a + b),
{
    if a.len() == 0 {
        assert(a + b =~= b);
    } else if b.len() == 0 {
        assert(a + b =~= a);
    } else {
        let m = MOD_ADLER as nat;
        let lo = (seed % 65536) as nat;
        let hi = (seed / 65536) as nat;
        let s1 = (lo + byte_sum(a)) % m;
        let s2 = (hi + running_sum(lo, a)) % m;
        let mid = spec_adler32(seed, a);
        assert(mid == s2 * 65536 + s1);
        assert(mid % 65536 == s1 && mid / 65536 == s2) by (nonlinear_arith)
            requires
                mid == s2 * 65536 + s1,
                s1 < 65536,
                s2 < 65536,
        ;
        lemma_sums_concat(lo, a, b);
        lemma_running_sum_shift(s1, lo + byte_sum(a), b, m);
        vstd::arithmetic::div_mod::lemma_add_mod_noop(s1 as int, byte_sum(b) as int, m as int);
        vstd::arithmetic::div_mod::lemma_add_mod_noop(
            (lo + byte_sum(a)) as int,
            byte_sum(b) as int,
            m as int,
        );
        vstd::arithmetic::div_mod::lemma_mod_twice((lo + byte_sum(a)) as int, m as int);
        vstd::arithmetic::div_mod::lemma_add_mod_noop(s2 as int, running_sum(s1, b) as int, m as int);
        vstd::arithmetic::div_mod::lemma_add_mod_noop(
            (hi + running_sum(lo, a)) as int,
            running_sum(lo + byte_sum(a), b) as int,
            m as int,
        );
        vstd::arithmetic::div_mod::lemma_mod_twice((hi + running_sum(lo, a)) as int, m as int);
    }
}

} // verus!

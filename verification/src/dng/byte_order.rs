//! Multi-byte values in a file's byte order: what `u16`, `u32` and `u64` values look like as
//! bytes, reading them back, and writing them.
use vstd::prelude::*;

verus! {

/// The byte order of a TIFF/DNG file's multi-byte values.
#[derive(Debug, Clone, Copy, PartialEq, Eq, Hash, Structural)]
pub enum ByteOrder {
    /// Least significant byte first (`II`).
    LittleEndian,
    /// Most significant byte first (`MM`).
    BigEndian,
}

/// Byte `k` (0 to 3, least significant first) of `v`.
pub open spec fn le_byte32(v: u32, k: int) -> u8 {
    (if k == 0 {
        v % 256
    } else if k == 1 {
        (v / 256) % 256
    } else if k == 2 {
        (v / 65536) % 256
    } else {
        v / 16777216
    }) as u8
}

/// Byte `k` (0 to 7, least significant first) of `v`.
pub open spec fn le_byte64(v: u64, k: int) -> u8 {
    if k < 4 {
        le_byte32((v % 0x1_0000_0000) as u32, k)
    } else {
        le_byte32((v / 0x1_0000_0000) as u32, k - 4)
    }
}

/// The two bytes of `v` in `order`.
pub open spec fn u16_bytes(order: ByteOrder, v: u16) -> Seq<u8> {
    Seq::new(
        2,
        |i: int|
            {
                let k = match order {
                    ByteOrder::LittleEndian => i,
                    ByteOrder::BigEndian => 1 - i,
                };
                (if k == 0 {
                    v % 256
                } else {
                    v / 256
                }) as u8
            },
    )
}

/// The four bytes of `v` in `order`.
pub open spec fn u32_bytes(order: ByteOrder, v: u32) -> Seq<u8> {
    Seq::new(
        4,
        |i: int|
            match order {
                ByteOrder::LittleEndian => le_byte32(v, i),
                ByteOrder::BigEndian => le_byte32(v, 3 - i),
            },
    )
}

/// The eight bytes of `v` in `order`.
pub open spec fn u64_bytes(order: ByteOrder, v: u64) -> Seq<u8> {
    Seq::new(
        8,
        |i: int|
            match order {
                ByteOrder::LittleEndian => le_byte64(v, i),
                ByteOrder::BigEndian => le_byte64(v, 7 - i),
            },
    )
}

/// The `u16` stored at `pos` in `order`.
pub open spec fn u16_at(data: Seq<u8>, order: ByteOrder, pos: int) -> u16 {
    match order {
        ByteOrder::LittleEndian => (data[pos] + 256 * data[pos + 1]) as u16,
        ByteOrder::BigEndian => (256 * data[pos] + data[pos + 1]) as u16,
    }
}

/// The `u32` stored at `pos` in `order`.
pub open spec fn u32_at(data: Seq<u8>, order: ByteOrder, pos: int) -> u32 {
    match order {
        ByteOrder::LittleEndian => (data[pos] + 256 * data[pos + 1] + 65536 * data[pos + 2]
            + 16777216 * data[pos + 3]) as u32,
        ByteOrder::BigEndian => (16777216 * data[pos] + 65536 * data[pos + 1] + 256 * data[pos
            + 2] + data[pos + 3]) as u32,
    }
}

/// The `u64` stored at `pos` in `order`.
pub open spec fn u64_at(data: Seq<u8>, order: ByteOrder, pos: int) -> u64 {
    match order {
        ByteOrder::LittleEndian => (u32_at(data, order, pos) + 0x1_0000_0000 * u32_at(
            data,
            order,
            pos + 4,
        )) as u64,
        ByteOrder::BigEndian => (0x1_0000_0000 * u32_at(data, order, pos) + u32_at(
            data,
            order,
            pos + 4,
        )) as u64,
    }
}

/// The bytes of each value in turn.
pub open spec fn u16s_bytes(order: ByteOrder, v: Seq<u16>) -> Seq<u8>
    decreases v.len(),
{
    if v.len() == 0 {
        Seq::empty()
    } else {
        u16s_bytes(order, v.drop_last()) + u16_bytes(order, v.last())
    }
}

/// The bytes of each value in turn.
pub open spec fn u32s_bytes(order: ByteOrder, v: Seq<u32>) -> Seq<u8>
    decreases v.len(),
{
    if v.len() == 0 {
        Seq::empty()
    } else {
        u32s_bytes(order, v.drop_last()) + u32_bytes(order, v.last())
    }
}

/// The `n` values stored from `start` on.
pub open spec fn u16s_at(data: Seq<u8>, order: ByteOrder, start: int, n: nat) -> Seq<u16> {
    Seq::new(n, |i: int| u16_at(data, order, start + 2 * i))
}

/// The `n` values stored from `start` on.
pub open spec fn u32s_at(data: Seq<u8>, order: ByteOrder, start: int, n: nat) -> Seq<u32> {
    Seq::new(n, |i: int| u32_at(data, order, start + 4 * i))
}

/// A stored `u16` reads back, and stored bytes are those of what they read as.
pub proof fn lemma_u16(data: Seq<u8>, order: ByteOrder, pos: int, v: u16)
    requires
        0 <= pos,
        pos + 2 <= data.len(),
    ensures
        data.subrange(pos, pos + 2) == u16_bytes(order, v) <==> u16_at(data, order, pos) == v,
{
    let b0 = data[pos];
    let b1 = data[pos + 1];
    assert(((b0 as u16 + 256 * (b1 as u16)) % 256) as u8 == b0 && ((b0 as u16 + 256 * (
    b1 as u16)) / 256) as u8 == b1) by (bit_vector);
    assert(((v % 256) as u8) as u16 + 256 * (((v / 256) as u8) as u16) == v) by (bit_vector);
    if data.subrange(pos, pos + 2) == u16_bytes(order, v) {
        assert(data.subrange(pos, pos + 2)[0] == b0);
        assert(data.subrange(pos, pos + 2)[1] == b1);
    }
    if u16_at(data, order, pos) == v {
        assert(data.subrange(pos, pos + 2) =~= u16_bytes(order, v));
    }
}

/// A stored `u32` reads back, and stored bytes are those of what they read as.
#[verifier::spinoff_prover]
#[verifier::rlimit(40)]
pub proof fn lemma_u32(data: Seq<u8>, order: ByteOrder, pos: int, v: u32)
    requires
        0 <= pos,
        pos + 4 <= data.len(),
    ensures
        data.subrange(pos, pos + 4) == u32_bytes(order, v) <==> u32_at(data, order, pos) == v,
{
    let b0 = data[pos];
    let b1 = data[pos + 1];
    let b2 = data[pos + 2];
    let b3 = data[pos + 3];
    let w: u32 = ((b0 as u32) + 256 * (b1 as u32) + 65536 * (b2 as u32) + 16777216 * (b3 as u32)) as u32;
    assert(w == b0 as u32 + 256 * (b1 as u32) + 65536 * (b2 as u32) + 16777216 * (b3 as u32)
        ==> (w % 256) as u8 == b0 && ((w / 256) % 256) as u8 == b1 && ((w / 65536) % 256) as u8
        == b2 && (w / 16777216) as u8 == b3) by (bit_vector);
    assert(((v % 256) as u8) as u32 + 256 * ((((v / 256) % 256) as u8) as u32) + 65536 * ((((v
        / 65536) % 256) as u8) as u32) + 16777216 * (((v / 16777216) as u8) as u32) == v)
        by (bit_vector);
    if data.subrange(pos, pos + 4) == u32_bytes(order, v) {
        assert(data.subrange(pos, pos + 4)[0] == b0);
        assert(data.subrange(pos, pos + 4)[1] == b1);
        assert(data.subrange(pos, pos + 4)[2] == b2);
        assert(data.subrange(pos, pos + 4)[3] == b3);
    }
    if u32_at(data, order, pos) == v {
        assert(data.subrange(pos, pos + 4) =~= u32_bytes(order, v));
    }
}

/// A stored `u64` reads back, and stored bytes are those of what they read as.
#[verifier::spinoff_prover]
#[verifier::rlimit(40)]
pub proof fn lemma_u64(data: Seq<u8>, order: ByteOrder, pos: int, v: u64)
    requires
        0 <= pos,
        pos + 8 <= data.len(),
    ensures
        data.subrange(pos, pos + 8) == u64_bytes(order, v) <==> u64_at(data, order, pos) == v,
{
    let lo = (v % 0x1_0000_0000) as u32;
    let hi = (v / 0x1_0000_0000) as u32;
    assert((lo as u64) + 0x1_0000_0000 * (hi as u64) == v) by (bit_vector)
        requires
            lo == (v % 0x1_0000_0000) as u32,
            hi == (v / 0x1_0000_0000) as u32,
    ;
    let a = u32_at(data, order, pos);
    let b = u32_at(data, order, pos + 4);
    let (first, second) = match order {
        ByteOrder::LittleEndian => (lo, hi),
        ByteOrder::BigEndian => (hi, lo),
    };
    lemma_u32(data, order, pos, first);
    lemma_u32(data, order, pos + 4, second);
    let x = data.subrange(pos, pos + 8);
    assert(x.subrange(0, 4) =~= data.subrange(pos, pos + 4));
    assert(x.subrange(4, 8) =~= data.subrange(pos + 4, pos + 8));
    assert(x =~= x.subrange(0, 4) + x.subrange(4, 8));
    let (lw, hw) = match order {
        ByteOrder::LittleEndian => (a, b),
        ByteOrder::BigEndian => (b, a),
    };
    assert((lw as u64) + 0x1_0000_0000 * (hw as u64) == v ==> lw == lo && hw == hi) by (bit_vector)
        requires
            lo == (v % 0x1_0000_0000) as u32,
            hi == (v / 0x1_0000_0000) as u32,
    ;
    assert(u64_bytes(order, v) =~= u32_bytes(order, first) + u32_bytes(order, second));
    if x == u64_bytes(order, v) {
        assert(x.subrange(0, 4) =~= u32_bytes(order, first));
        assert(x.subrange(4, 8) =~= u32_bytes(order, second));
    }
    if u64_at(data, order, pos) == v {
        assert(u64_at(data, order, pos) == (lw as u64) + 0x1_0000_0000 * (hw as u64));
        assert(x =~= u32_bytes(order, first) + u32_bytes(order, second));
    }
}

/// The two halves of a concatenation.
pub proof fn lemma_split(a: Seq<u8>, b: Seq<u8>)
    ensures
        (a + b).subrange(0, a.len() as int) == a,
        (a + b).subrange(a.len() as int, (a.len() + b.len()) as int) == b,
{
    assert((a + b).subrange(0, a.len() as int) =~= a);
    assert((a + b).subrange(a.len() as int, (a.len() + b.len()) as int) =~= b);
}

/// A range of a prefix is that range of the whole.
pub proof fn lemma_sub_of_prefix(s: Seq<u8>, k: int, i: int, j: int)
    requires
        0 <= i <= j <= k <= s.len(),
    ensures
        s.subrange(0, k).subrange(i, j) == s.subrange(i, j),
{
    assert(s.subrange(0, k).subrange(i, j) =~= s.subrange(i, j));
}

/// Two bytes per value.
pub proof fn lemma_u16s_len(order: ByteOrder, v: Seq<u16>)
    ensures
        u16s_bytes(order, v).len() == 2 * v.len(),
    decreases v.len(),
{
    if v.len() > 0 {
        lemma_u16s_len(order, v.drop_last());
    }
}

/// Four bytes per value.
pub proof fn lemma_u32s_len(order: ByteOrder, v: Seq<u32>)
    ensures
        u32s_bytes(order, v).len() == 4 * v.len(),
    decreases v.len(),
{
    if v.len() > 0 {
        lemma_u32s_len(order, v.drop_last());
    }
}

/// Stored `u16` values read back, and stored bytes are those of the values they read as.
pub proof fn lemma_u16s(data: Seq<u8>, order: ByteOrder, start: int, v: Seq<u16>)
    requires
        0 <= start,
        start + 2 * v.len() <= data.len(),
    ensures
        u16s_bytes(order, v).len() == 2 * v.len(),
        data.subrange(start, start + 2 * v.len()) == u16s_bytes(order, v) <==> u16s_at(
            data,
            order,
            start,
            v.len(),
        ) == v,
    decreases v.len(),
{
    if v.len() == 0 {
        assert(data.subrange(start, start) =~= Seq::<u8>::empty());
        assert(u16s_at(data, order, start, 0) =~= Seq::<u16>::empty());
        assert(v =~= Seq::<u16>::empty());
        assert(u16s_bytes(order, v) == Seq::<u8>::empty());
    } else {
        let n: int = v.len() - 1;
        let init = v.drop_last();
        lemma_u16s(data, order, start, init);
        let last_at = start + 2 * n;
        lemma_u16(data, order, last_at, v.last());
        let whole = data.subrange(start, start + 2 * v.len());
        assert(whole =~= data.subrange(start, last_at) + data.subrange(last_at, last_at + 2));
        let got = u16s_at(data, order, start, v.len());
        assert(got.drop_last() =~= u16s_at(data, order, start, n as nat));
        if whole == u16s_bytes(order, v) {
            assert(whole.subrange(0, 2 * n) =~= data.subrange(start, last_at));
            assert(whole.subrange(2 * n, 2 * n + 2) =~= data.subrange(last_at, last_at + 2));
            assert(u16s_bytes(order, v).subrange(0, 2 * n) =~= u16s_bytes(order, init));
            assert(u16s_bytes(order, v).subrange(2 * n, 2 * n + 2) =~= u16_bytes(order, v.last()));
            assert(data.subrange(start, last_at) == u16s_bytes(order, init));
            assert(u16s_at(data, order, start, n as nat) == init);
            assert(data.subrange(last_at, last_at + 2) == u16_bytes(order, v.last()));
            assert(u16_at(data, order, last_at) == v.last());
            assert forall|k: int| 0 <= k < v.len() implies got[k] == v[k] by {
                if k < n {
                    assert(got[k] == u16s_at(data, order, start, n as nat)[k]);
                }
            }
            assert(got =~= v);
        }
        if got == v {
            assert(got[n] == u16_at(data, order, last_at));
            assert(u16_at(data, order, last_at) == v.last());
            assert(u16s_at(data, order, start, n as nat) =~= init);
            assert(data.subrange(start, last_at) == u16s_bytes(order, init));
            assert(data.subrange(last_at, last_at + 2) == u16_bytes(order, v.last()));
            assert(u16s_bytes(order, v) == u16s_bytes(order, init) + u16_bytes(order, v.last()));
            assert(whole =~= u16s_bytes(order, v));
        }
    }
}

/// Stored `u32` values read back, and stored bytes are those of the values they read as.
pub proof fn lemma_u32s(data: Seq<u8>, order: ByteOrder, start: int, v: Seq<u32>)
    requires
        0 <= start,
        start + 4 * v.len() <= data.len(),
    ensures
        u32s_bytes(order, v).len() == 4 * v.len(),
        data.subrange(start, start + 4 * v.len()) == u32s_bytes(order, v) <==> u32s_at(
            data,
            order,
            start,
            v.len(),
        ) == v,
    decreases v.len(),
{
    if v.len() == 0 {
        assert(data.subrange(start, start) =~= Seq::<u8>::empty());
        assert(u32s_at(data, order, start, 0) =~= Seq::<u32>::empty());
        assert(v =~= Seq::<u32>::empty());
        assert(u32s_bytes(order, v) == Seq::<u8>::empty());
    } else {
        let n: int = v.len() - 1;
        let init = v.drop_last();
        lemma_u32s(data, order, start, init);
        let last_at = start + 4 * n;
        lemma_u32(data, order, last_at, v.last());
        let whole = data.subrange(start, start + 4 * v.len());
        assert(whole =~= data.subrange(start, last_at) + data.subrange(last_at, last_at + 4));
        let got = u32s_at(data, order, start, v.len());
        assert(got.drop_last() =~= u32s_at(data, order, start, n as nat));
        if whole == u32s_bytes(order, v) {
            assert(whole.subrange(0, 4 * n) =~= data.subrange(start, last_at));
            assert(whole.subrange(4 * n, 4 * n + 4) =~= data.subrange(last_at, last_at + 4));
            assert(u32s_bytes(order, v).subrange(0, 4 * n) =~= u32s_bytes(order, init));
            assert(u32s_bytes(order, v).subrange(4 * n, 4 * n + 4) =~= u32_bytes(order, v.last()));
            assert(data.subrange(start, last_at) == u32s_bytes(order, init));
            assert(u32s_at(data, order, start, n as nat) == init);
            assert(data.subrange(last_at, last_at + 4) == u32_bytes(order, v.last()));
            assert(u32_at(data, order, last_at) == v.last());
            assert forall|k: int| 0 <= k < v.len() implies got[k] == v[k] by {
                if k < n {
                    assert(got[k] == u32s_at(data, order, start, n as nat)[k]);
                }
            }
            assert(got =~= v);
        }
        if got == v {
            assert(got[n] == u32_at(data, order, last_at));
            assert(u32_at(data, order, last_at) == v.last());
            assert(u32s_at(data, order, start, n as nat) =~= init);
            assert(data.subrange(start, last_at) == u32s_bytes(order, init));
            assert(data.subrange(last_at, last_at + 4) == u32_bytes(order, v.last()));
            assert(u32s_bytes(order, v) == u32s_bytes(order, init) + u32_bytes(order, v.last()));
            assert(whole =~= u32s_bytes(order, v));
        }
    }
}

/// Reads the `u16` at `pos`.
pub fn read_u16(data: &[u8], pos: usize, order: ByteOrder) -> (r: u16)
    requires
        pos + 2 <= data@.len(),
    ensures
        r == u16_at(data@, order, pos as int),
{
    let b0 = data[pos] as u16;
    let b1 = data[pos + 1] as u16;
    match order {
        ByteOrder::LittleEndian => b0 + 256 * b1,
        ByteOrder::BigEndian => 256 * b0 + b1,
    }
}

/// Reads the `u32` at `pos`.
pub fn read_u32(data: &[u8], pos: usize, order: ByteOrder) -> (r: u32)
    requires
        pos + 4 <= data@.len(),
    ensures
        r == u32_at(data@, order, pos as int),
{
    let b0 = data[pos] as u32;
    let b1 = data[pos + 1] as u32;
    let b2 = data[pos + 2] as u32;
    let b3 = data[pos + 3] as u32;
    match order {
        ByteOrder::LittleEndian => b0 + 256 * b1 + 65536 * b2 + 16777216 * b3,
        ByteOrder::BigEndian => 16777216 * b0 + 65536 * b1 + 256 * b2 + b3,
    }
}

/// Reads the `u64` at `pos`.
pub fn read_u64(data: &[u8], pos: usize, order: ByteOrder) -> (r: u64)
    requires
        pos + 8 <= data@.len(),
    ensures
        r == u64_at(data@, order, pos as int),
{
    let len = data.len();
    let a = read_u32(data, pos, order) as u64;
    let b = read_u32(data, pos + 4, order) as u64;
    match order {
        ByteOrder::LittleEndian => a + 0x1_0000_0000 * b,
        ByteOrder::BigEndian => 0x1_0000_0000 * a + b,
    }
}

/// Appends the bytes of `v`.
pub fn push_u16(out: &mut Vec<u8>, v: u16, order: ByteOrder)
    ensures
        final(out)@ == old(out)@ + u16_bytes(order, v),
{
    let lo = (v % 256) as u8;
    let hi = (v / 256) as u8;
    match order {
        ByteOrder::LittleEndian => {
            out.push(lo);
            out.push(hi);
        },
        ByteOrder::BigEndian => {
            out.push(hi);
            out.push(lo);
        },
    }
    assert(final(out)@ =~= old(out)@ + u16_bytes(order, v));
}

/// Appends the bytes of `v`.
pub fn push_u32(out: &mut Vec<u8>, v: u32, order: ByteOrder)
    ensures
        final(out)@ == old(out)@ + u32_bytes(order, v),
{
    let b0 = (v % 256) as u8;
    let b1 = ((v / 256) % 256) as u8;
    let b2 = ((v / 65536) % 256) as u8;
    let b3 = (v / 16777216) as u8;
    match order {
        ByteOrder::LittleEndian => {
            out.push(b0);
            out.push(b1);
            out.push(b2);
            out.push(b3);
        },
        ByteOrder::BigEndian => {
            out.push(b3);
            out.push(b2);
            out.push(b1);
            out.push(b0);
        },
    }
    assert(final(out)@ =~= old(out)@ + u32_bytes(order, v));
}

/// Appends the bytes of `v`.
pub fn push_u64(out: &mut Vec<u8>, v: u64, order: ByteOrder)
    ensures
        final(out)@ == old(out)@ + u64_bytes(order, v),
{
    let lo = (v % 0x1_0000_0000) as u32;
    let hi = (v / 0x1_0000_0000) as u32;
    let ghost start = out@;
    match order {
        ByteOrder::LittleEndian => {
            push_u32(out, lo, order);
            push_u32(out, hi, order);
        },
        ByteOrder::BigEndian => {
            push_u32(out, hi, order);
            push_u32(out, lo, order);
        },
    }
    assert(out@ =~= start + u64_bytes(order, v));
}

} // verus!

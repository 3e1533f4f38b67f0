//! An LSB-first bit writer for DEFLATE (RFC 1951 §3.1.1).
//!
//! DEFLATE packs data elements into bytes starting from the least-significant bit. Fixed-width
//! fields are written LSB-first directly; Huffman codes are pre-reversed by the code builder so
//! they too go through [`BitWriter::write_bits`]. The writer's model is the sequence of bits
//! written ([`BitWriter::spec_bits`]); its bytes are those bits packed LSB-first
//! ([`lsb_pack`]).
use vstd::prelude::*;
use vstd::arithmetic::power2::{pow2, lemma_pow2_pos, lemma_pow2_adds, lemma_pow2_unfold};

verus! {

/// The widest field written in one call; a wider request writes nothing.
pub const MAX_BITS_PER_OP: u32 = 32;

/// The `n` low bits of `v`, least significant first.
pub open spec fn lsb_bits(v: nat, n: nat) -> Seq<bool> {
    Seq::new(n, |i: int| (v / pow2(i as nat)) % 2 == 1)
}

/// The number whose binary digits, least significant first, are `b`.
pub open spec fn lsb_value(b: Seq<bool>) -> nat
    decreases b.len(),
{
    if b.len() == 0 {
        0
    } else {
        lsb_value(b.drop_last()) + if b.last() {
            pow2((b.len() - 1) as nat)
        } else {
            0
        }
    }
}

/// The bytes holding the complete octets of `b`, least significant bit first.
pub open spec fn lsb_pack(b: Seq<bool>) -> Seq<u8> {
    Seq::new(b.len() / 8, |i: int| lsb_value(b.subrange(8 * i, 8 * i + 8)) as u8)
}

/// The bits of `bytes`, each byte least significant bit first.
pub open spec fn bytes_bits(bytes: Seq<u8>) -> Seq<bool>
    decreases bytes.len(),
{
    if bytes.len() == 0 {
        Seq::empty()
    } else {
        bytes_bits(bytes.drop_last()) + lsb_bits(bytes.last() as nat, 8)
    }
}

/// `n` zero bits.
pub open spec fn zeros(n: nat) -> Seq<bool> {
    Seq::new(n, |i: int| false)
}

/// The number of zero bits that pad `len` bits to a whole byte.
pub open spec fn align_pad(len: nat) -> nat {
    ((8 - len % 8) % 8) as nat
}

/// An LSB-first bit writer that accumulates bits low-to-high and flushes a byte at a time.
pub struct BitWriter {
    buf: Vec<u8>,
    acc: u64,
    bits_in_acc: u32,
    bits: Ghost<Seq<bool>>,
}

/// The value of a concatenation: the second part sits above the first.
pub proof fn lemma_lsb_value_concat(a: Seq<bool>, b: Seq<bool>)
    ensures
        lsb_value(a + b) == lsb_value(a) + lsb_value(b) * pow2(a.len()),
    decreases b.len(),
{
    if b.len() == 0 {
        assert(a + b =~= a);
    } else {
        lemma_lsb_value_concat(a, b.drop_last());
        assert((a + b).drop_last() =~= a + b.drop_last());
        lemma_pow2_adds(a.len(), (b.len() - 1) as nat);
        let x = lsb_value(b.drop_last());
        let p = pow2(a.len());
        let q = pow2((b.len() - 1) as nat);
        assert(x * p + (if b.last() { q } else { 0 }) * p == (x + if b.last() { q } else { 0 })
            * p) by (nonlinear_arith);
        assert(q * p == p * q) by (nonlinear_arith);
    }
}

/// The value of `n` bits is below `2^n`.
pub proof fn lemma_lsb_value_bound(b: Seq<bool>)
    ensures
        lsb_value(b) < pow2(b.len()),
    decreases b.len(),
{
    vstd::arithmetic::power2::lemma2_to64();
    if b.len() > 0 {
        lemma_lsb_value_bound(b.drop_last());
        lemma_pow2_unfold(b.len());
    }
}

/// The `n` low bits of `v` hold `v mod 2^n`.
pub proof fn lemma_lsb_bits(v: nat, n: nat)
    ensures
        lsb_bits(v, n).len() == n,
        lsb_value(lsb_bits(v, n)) == v % pow2(n),
    decreases n,
{
    vstd::arithmetic::power2::lemma2_to64();
    if n > 0 {
        lemma_lsb_bits(v, (n - 1) as nat);
        assert(lsb_bits(v, n).drop_last() =~= lsb_bits(v, (n - 1) as nat));
        let p = pow2((n - 1) as nat);
        lemma_pow2_pos((n - 1) as nat);
        lemma_pow2_unfold(n);
        // v % 2p = v % p + p * ((v / p) % 2)
        let q = v / p;
        vstd::arithmetic::div_mod::lemma_fundamental_div_mod(v as int, p as int);
        vstd::arithmetic::div_mod::lemma_fundamental_div_mod(q as int, 2);
        vstd::arithmetic::div_mod::lemma_mod_bound(v as int, p as int);
        let k = q / 2;
        assert(v == (2 * p) * k + (v % p + p * (q % 2))) by (nonlinear_arith)
            requires
                v == p * q + v % p,
                q == 2 * k + q % 2,
        ;
        vstd::arithmetic::div_mod::lemma_fundamental_div_mod_converse_mod(
            v as int,
            (2 * p) as int,
            k as int,
            (v % p + p * (q % 2)) as int,
        );
    }
}

/// Packing one more byte of bits appends that byte.
pub proof fn lemma_lsb_pack_push(b: Seq<bool>, full: nat)
    requires
        full % 8 == 0,
        full + 8 <= b.len(),
    ensures
        lsb_pack(b.take(full as int + 8)) == lsb_pack(b.take(full as int)).push(
            lsb_value(b.subrange(full as int, full as int + 8)) as u8,
        ),
{
    let lhs = lsb_pack(b.take(full as int + 8));
    let rhs = lsb_pack(b.take(full as int)).push(
        lsb_value(b.subrange(full as int, full as int + 8)) as u8,
    );
    assert forall|i: int| 0 <= i < lhs.len() implies lhs[i] == rhs[i] by {
        assert(b.take(full as int + 8).subrange(8 * i, 8 * i + 8) =~= b.subrange(8 * i, 8 * i + 8));
        if i < full / 8 {
            assert(b.take(full as int).subrange(8 * i, 8 * i + 8) =~= b.subrange(8 * i, 8 * i + 8));
        }
    }
    assert(lhs =~= rhs);
}

/// Packing bits that start on a byte boundary packs each part on its own.
pub proof fn lemma_lsb_pack_concat(a: Seq<bool>, b: Seq<bool>)
    requires
        a.len() % 8 == 0,
    ensures
        lsb_pack(a + b) == lsb_pack(a) + lsb_pack(b),
{
    let l = lsb_pack(a + b);
    let r = lsb_pack(a) + lsb_pack(b);
    let q = a.len() / 8;
    assert(a.len() == 8 * q);
    assert((a.len() + b.len()) / 8 == q + b.len() / 8) by {
        vstd::arithmetic::div_mod::lemma_hoist_over_denominator(b.len() as int, q as int, 8);
        assert(b.len() + q * 8 == a.len() + b.len());
    }
    assert forall|i: int| 0 <= i < l.len() implies l[i] == r[i] by {
        if i < q {
            assert((a + b).subrange(8 * i, 8 * i + 8) =~= a.subrange(8 * i, 8 * i + 8));
        } else {
            let j = i - q;
            assert(8 * i == 8 * q + 8 * j);
            assert((a + b).subrange(8 * i, 8 * i + 8) =~= b.subrange(8 * j, 8 * j + 8));
        }
    }
    assert(l =~= r);
}

/// The bits of concatenated bytes are the concatenated bits.
pub proof fn lemma_bytes_bits_concat(x: Seq<u8>, y: Seq<u8>)
    ensures
        bytes_bits(x + y) == bytes_bits(x) + bytes_bits(y),
    decreases y.len(),
{
    if y.len() == 0 {
        assert(x + y =~= x);
        assert(bytes_bits(x) + Seq::<bool>::empty() =~= bytes_bits(x));
    } else {
        lemma_bytes_bits_concat(x, y.drop_last());
        assert((x + y).drop_last() =~= x + y.drop_last());
        assert(bytes_bits(x) + (bytes_bits(y.drop_last()) + lsb_bits(y.last() as nat, 8)) =~= (
        bytes_bits(x) + bytes_bits(y.drop_last())) + lsb_bits(y.last() as nat, 8));
    }
}

/// The bits of bytes: eight per byte, and they pack back to the bytes.
pub proof fn lemma_pack_bytes_bits(bs: Seq<u8>)
    ensures
        bytes_bits(bs).len() == 8 * bs.len(),
        lsb_pack(bytes_bits(bs)) == bs,
    decreases bs.len(),
{
    if bs.len() == 0 {
        assert(lsb_pack(Seq::<bool>::empty()) =~= Seq::<u8>::empty());
    } else {
        let init = bs.drop_last();
        let last = bs.last();
        lemma_pack_bytes_bits(init);
        lemma_lsb_bits(last as nat, 8);
        vstd::arithmetic::power2::lemma2_to64();
        vstd::arithmetic::div_mod::lemma_small_mod(last as nat, 256);
        lemma_lsb_pack_concat(bytes_bits(init), lsb_bits(last as nat, 8));
        assert(lsb_bits(last as nat, 8).subrange(0, 8) =~= lsb_bits(last as nat, 8));
        assert(lsb_pack(lsb_bits(last as nat, 8)) =~= seq![last]);
        assert(init.push(last) =~= bs);
        assert(init + seq![last] =~= bs);
    }
}

/// The bits of a single byte.
pub proof fn lemma_bytes_bits_one(b: u8)
    ensures
        bytes_bits(seq![b]) == lsb_bits(b as nat, 8),
{
    assert(seq![b].drop_last() =~= Seq::<u8>::empty());
    assert(seq![b].last() == b);
    assert(bytes_bits(Seq::<u8>::empty()) == Seq::<bool>::empty());
    assert(Seq::<bool>::empty() + lsb_bits(b as nat, 8) =~= lsb_bits(b as nat, 8));
}

/// Two bit strings of one length with one value are the same bits.
pub proof fn lemma_lsb_value_injective(x: Seq<bool>, y: Seq<bool>)
    requires
        x.len() == y.len(),
        lsb_value(x) == lsb_value(y),
    ensures
        x == y,
    decreases x.len(),
{
    if x.len() > 0 {
        let n = (x.len() - 1) as nat;
        lemma_lsb_value_bound(x.drop_last());
        lemma_lsb_value_bound(y.drop_last());
        lemma_pow2_pos(n);
        assert(x.last() == y.last());
        lemma_lsb_value_injective(x.drop_last(), y.drop_last());
        assert(x =~= x.drop_last().push(x.last()));
        assert(y =~= y.drop_last().push(y.last()));
    } else {
        assert(x =~= y);
    }
}

/// The bits of a bit string's value are the bit string.
pub proof fn lemma_lsb_bits_of_value(x: Seq<bool>)
    ensures
        lsb_bits(lsb_value(x), x.len()) == x,
{
    lemma_lsb_bits(lsb_value(x), x.len());
    lemma_lsb_value_bound(x);
    vstd::arithmetic::div_mod::lemma_small_mod(lsb_value(x), pow2(x.len()));
    lemma_lsb_value_injective(lsb_bits(lsb_value(x), x.len()), x);
}

/// Whole bytes of bits, packed, have those bits.
pub proof fn lemma_bytes_bits_of_pack(y: Seq<bool>)
    requires
        y.len() % 8 == 0,
    ensures
        bytes_bits(lsb_pack(y)) == y,
    decreases y.len(),
{
    if y.len() == 0 {
        assert(lsb_pack(y) =~= Seq::<u8>::empty());
        assert(y =~= Seq::<bool>::empty());
    } else {
        let full = (y.len() - 8) as nat;
        let init = y.take(full as int);
        let chunk = y.subrange(full as int, y.len() as int);
        lemma_bytes_bits_of_pack(init);
        lemma_lsb_pack_push(y, full);
        assert(y.take(full as int + 8) =~= y);
        let v = lsb_value(chunk);
        lemma_lsb_value_bound(chunk);
        vstd::arithmetic::power2::lemma2_to64();
        let packed = lsb_pack(init).push(v as u8);
        assert(packed.drop_last() =~= lsb_pack(init));
        assert(packed.last() as nat == v);
        lemma_lsb_bits_of_value(chunk);
        assert(init + chunk =~= y);
    }
}

/// Byte `k`'s eight bits sit at bit `8 k`.
pub proof fn lemma_bytes_bits_at(s: Seq<u8>, k: nat)
    requires
        k < s.len(),
    ensures
        bytes_bits(s).len() == 8 * s.len(),
        bytes_bits(s).subrange(8 * k as int, (8 * k + 8) as int) == lsb_bits(s[k as int] as nat, 8),
{
    let a = s.take(k as int);
    let b = seq![s[k as int]];
    let c = s.skip((k + 1) as int);
    assert(a + b + c =~= s);
    lemma_bytes_bits_concat(a + b, c);
    lemma_bytes_bits_concat(a, b);
    lemma_pack_bytes_bits(a);
    lemma_pack_bytes_bits(s);
    lemma_bytes_bits_one(s[k as int]);
    let bits = bytes_bits(s);
    assert(bits == bytes_bits(a) + lsb_bits(s[k as int] as nat, 8) + bytes_bits(c));
    assert(bits.subrange(8 * k as int, (8 * k + 8) as int) =~= lsb_bits(s[k as int] as nat, 8));
}

impl BitWriter {
    /// The bits written so far.
    pub closed spec fn spec_bits(&self) -> Seq<bool> {
        self.bits@
    }

    /// Whether the writer is at a byte boundary.
    pub open spec fn spec_aligned(&self) -> bool {
        self.spec_bits().len() % 8 == 0
    }

    /// The writer's state matches its bits: whole bytes are in the buffer, the rest wait in the
    /// low bits of the accumulator.
    pub closed spec fn wf(&self) -> bool {
        let b = self.bits@;
        let full = b.len() - self.bits_in_acc;
        &&& self.bits_in_acc < 8
        &&& b.len() % 8 == self.bits_in_acc
        &&& self.buf@ == lsb_pack(b.take(full))
        &&& self.acc == lsb_value(b.skip(full))
    }

    /// Creates an empty writer.
    pub fn new() -> (r: Self)
        ensures
            r.wf(),
            r.spec_bits() == Seq::<bool>::empty(),
    {
        let r = Self { buf: Vec::new(), acc: 0, bits_in_acc: 0, bits: Ghost(Seq::empty()) };
        proof {
            assert(lsb_pack(Seq::<bool>::empty().take(0)) =~= Seq::<u8>::empty());
            assert(Seq::<bool>::empty().skip(0) =~= Seq::<bool>::empty());
            assert(r.buf@ =~= Seq::<u8>::empty());
        }
        r
    }

    /// Appends the low `n` bits (`0..=32`) of `value`, LSB-first. Bits above bit `n - 1` are
    /// ignored; `n == 0` or `n > 32` writes nothing.
    pub fn write_bits(&mut self, value: u32, n: u32)
        requires
            old(self).wf(),
        ensures
            final(self).wf(),
            final(self).spec_bits() == old(self).spec_bits() + if 1 <= n <= 32 {
                lsb_bits(value as nat, n as nat)
            } else {
                Seq::empty()
            },
    {
        if n == 0 || n > MAX_BITS_PER_OP {
            proof {
                assert(self.bits@ + Seq::<bool>::empty() =~= self.bits@);
            }
            return;
        }
        let ghost b0 = self.bits@;
        let ghost full = (b0.len() - self.bits_in_acc) as nat;
        let ghost added = lsb_bits(value as nat, n as nat);
        proof {
            vstd::arithmetic::power2::lemma2_to64();
            vstd::bits::lemma_u64_pow2_no_overflow(n as nat);
            vstd::bits::lemma_u64_shl_is_mul(1, n as u64);
        }
        let pow: u64 = 1u64 << (n as u64);
        let v: u64 = (value as u64) % pow;
        proof {
            lemma_lsb_bits(value as nat, n as nat);
            let pending = b0.skip(full as int);
            lemma_lsb_value_bound(pending);
            lemma_lsb_value_concat(pending, added);
            let k = self.bits_in_acc as nat;
            lemma_pow2_adds(n as nat, k);
            vstd::bits::lemma_u64_pow2_no_overflow((n + k) as nat);
            assert(v * pow2(k) + self.acc < pow2((n + k) as nat)) by (nonlinear_arith)
                requires
                    v < pow2(n as nat),
                    self.acc < pow2(k),
                    pow2((n + k) as nat) == pow2(n as nat) * pow2(k),
            ;
            vstd::bits::lemma_u64_pow2_no_overflow(k);
            assert(v * pow2(k) <= v * pow2(k) + self.acc);
            vstd::bits::lemma_u64_shl_is_mul(v, self.bits_in_acc as u64);
        }
        self.acc = self.acc + (v << (self.bits_in_acc as u64));
        self.bits_in_acc = self.bits_in_acc + n;
        self.bits = Ghost(b0 + added);
        proof {
            assert(self.bits@.skip(full as int) =~= b0.skip(full as int) + added);
            assert(self.bits@.take(full as int) =~= b0.take(full as int));
        }
        while self.bits_in_acc >= 8
            invariant
                self.bits_in_acc <= 39,
                self.bits@.len() >= self.bits_in_acc,
                (self.bits@.len() - self.bits_in_acc) % 8 == 0,
                self.buf@ == lsb_pack(self.bits@.take(self.bits@.len() - self.bits_in_acc)),
                self.acc == lsb_value(self.bits@.skip(self.bits@.len() - self.bits_in_acc)),
                self.bits@ == b0 + added,
                self.bits@.skip(self.bits@.len() - self.bits_in_acc).len() == self.bits_in_acc,
            decreases self.bits_in_acc,
        {
            let ghost b = self.bits@;
            let ghost f = (b.len() - self.bits_in_acc) as nat;
            let ghost p = b.skip(f as int);
            let ghost head = p.take(8);
            let ghost tail = p.skip(8);
            proof {
                vstd::arithmetic::power2::lemma2_to64();
                assert(p =~= head + tail);
                lemma_lsb_value_concat(head, tail);
                lemma_lsb_value_bound(head);
                vstd::arithmetic::div_mod::lemma_fundamental_div_mod_converse(
                    self.acc as int,
                    256,
                    lsb_value(tail) as int,
                    lsb_value(head) as int,
                );
                lemma_lsb_pack_push(b, f);
                assert(b.subrange(f as int, f as int + 8) =~= head);
                assert(b.skip(f as int + 8) =~= tail);
                let a = self.acc;
                assert(a & 0xff == a % 256) by (bit_vector);
                assert(a >> 8 == a / 256) by (bit_vector);
            }
            self.buf.push((self.acc & 0xff) as u8);
            self.acc = self.acc >> 8;
            self.bits_in_acc = self.bits_in_acc - 8;
            proof {
                assert(self.buf@ =~= lsb_pack(b.take(f as int + 8)));
            }
        }
    }

    /// Pads the current partial byte with zero bits so the stream is byte-aligned. A no-op when
    /// already aligned.
    pub fn align_to_byte(&mut self)
        requires
            old(self).wf(),
        ensures
            final(self).wf(),
            final(self).spec_aligned(),
            final(self).spec_bits() == old(self).spec_bits() + zeros(
                align_pad(old(self).spec_bits().len()),
            ),
    {
        if self.bits_in_acc > 0 {
            let ghost b0 = self.bits@;
            let ghost full = (b0.len() - self.bits_in_acc) as nat;
            let ghost pad = zeros((8 - self.bits_in_acc) as nat);
            proof {
                vstd::arithmetic::power2::lemma2_to64();
                let pending = b0.skip(full as int);
                lemma_lsb_value_concat(pending, pad);
                lemma_lsb_value_zeros((8 - self.bits_in_acc) as nat);
                assert(lsb_value(pad) == 0);
                lemma_lsb_value_bound(pending);
                vstd::arithmetic::power2::lemma_pow2_strictly_increases(self.bits_in_acc as nat, 8);
                assert(self.acc < 256);
                assert(self.acc == lsb_value(pending));
                assert(lsb_value(pad) * pow2(pending.len()) == 0);
                assert(lsb_value(pending + pad) == self.acc);
                vstd::arithmetic::div_mod::lemma_small_mod(self.acc as nat, 256);
                let nb = b0 + pad;
                lemma_lsb_pack_push(nb, full);
                assert(nb.subrange(full as int, full as int + 8) =~= pending + pad);
                assert(nb.take(full as int) =~= b0.take(full as int));
                assert(nb.take(full as int + 8) =~= nb);
                let a = self.acc;
                assert(a & 0xff == a % 256) by (bit_vector);
                assert(nb.skip(nb.len() as int) =~= Seq::<bool>::empty());
            }
            self.buf.push((self.acc & 0xff) as u8);
            self.acc = 0;
            self.bits_in_acc = 0;
            self.bits = Ghost(b0 + pad);
        } else {
            proof {
                assert(self.bits@ + zeros(0) =~= self.bits@);
            }
        }
    }

    /// Appends raw bytes. The writer must be byte-aligned — call [`BitWriter::align_to_byte`]
    /// first.
    pub fn write_bytes(&mut self, bytes: &[u8])
        requires
            old(self).wf(),
            old(self).spec_aligned(),
        ensures
            final(self).wf(),
            final(self).spec_aligned(),
            final(self).spec_bits() == old(self).spec_bits() + bytes_bits(bytes@),
    {
        let ghost b0 = self.bits@;
        let mut i: usize = 0;
        while i < bytes.len()
            invariant
                self.wf(),
                self.bits_in_acc == 0,
                i <= bytes@.len(),
                self.bits@ == b0 + bytes_bits(bytes@.take(i as int)),
            decreases bytes@.len() - i,
        {
            let ghost before = self.bits@;
            let byte = bytes[i];
            proof {
                vstd::arithmetic::power2::lemma2_to64();
                lemma_lsb_bits(byte as nat, 8);
                vstd::arithmetic::div_mod::lemma_small_mod(byte as nat, 256);
                let nb = before + lsb_bits(byte as nat, 8);
                lemma_lsb_pack_push(nb, before.len());
                assert(nb.take(before.len() as int) =~= before);
                assert(before.take(before.len() as int) =~= before);
                assert(nb.subrange(before.len() as int, before.len() as int + 8) =~= lsb_bits(byte as nat, 8));
                assert(nb.take(before.len() as int + 8) =~= nb);
                assert(nb.skip(nb.len() as int) =~= Seq::<bool>::empty());
                assert(bytes@.take(i + 1).drop_last() =~= bytes@.take(i as int));
            }
            self.buf.push(byte);
            self.bits = Ghost(before + lsb_bits(byte as nat, 8));
            i = i + 1;
            proof {
                assert(self.bits@ =~= b0 + bytes_bits(bytes@.take(i as int)));
            }
        }
        proof {
            assert(bytes@.take(bytes@.len() as int) =~= bytes@);
        }
    }

    /// Flushes any partial trailing byte (zero-padding its high bits) and returns the bytes.
    pub fn finish(self) -> (r: Vec<u8>)
        requires
            self.wf(),
        ensures
            r@ == lsb_pack(self.spec_bits() + zeros(align_pad(self.spec_bits().len()))),
    {
        let mut w = self;
        w.align_to_byte();
        proof {
            assert(w.bits@.take(w.bits@.len() as int) =~= w.bits@);
        }
        w.buf
    }
}

/// Zero bits are worth nothing.
proof fn lemma_lsb_value_zeros(n: nat)
    ensures
        lsb_value(zeros(n)) == 0,
    decreases n,
{
    if n > 0 {
        assert(zeros(n).drop_last() =~= zeros((n - 1) as nat));
        lemma_lsb_value_zeros((n - 1) as nat);
    }
}

} // verus!

//! DEFLATE block writers: stored (uncompressed) and fixed-Huffman blocks (RFC 1951 §3.2.4,
//! §3.2.6).
//!
//! Each public helper returns a complete, byte-aligned DEFLATE body (`BFINAL` set) so the encoder
//! can build a few candidates and keep the smallest. The stored body is stated byte for byte; the
//! fixed-Huffman body as the bits it writes, packed least significant bit first.
use vstd::prelude::*;
use vstd::arithmetic::power2::pow2;
use crate::deflate::bitwriter::{
    BitWriter, lsb_bits, lsb_pack, bytes_bits, zeros, align_pad, lemma_pack_bytes_bits,
    lemma_bytes_bits_concat, lemma_bytes_bits_one,
};
use crate::deflate::huffman::{
    reverse_bits, reversed, fixed_litlen, fixed_distance, spec_fixed_litlen, lemma_reversed_bound,
};
use crate::deflate::lz77::{Token, tokens_valid};
use crate::deflate::symbols::{length_code, distance_code, length_parts, distance_parts};

verus! {

/// Maximum payload of a single stored block (`LEN` is a `u16`); larger inputs are split.
pub const MAX_STORED: usize = 65535;

/// One stored block: the header byte (`BFINAL` in bit 0, `BTYPE = 00`), `LEN` and its one's
/// complement `NLEN` (both little-endian), then the payload.
pub open spec fn stored_block(chunk: Seq<u8>, last: bool) -> Seq<u8> {
    let len = chunk.len();
    let nlen = (65535 - len) as nat;
    seq![
        if last {
            1u8
        } else {
            0u8
        },
        (len % 256) as u8,
        (len / 256) as u8,
        (nlen % 256) as u8,
        (nlen / 256) as u8,
    ] + chunk
}

/// `data` as stored blocks of at most `MAX_STORED` bytes, only the last one final (empty data is
/// one empty final block).
pub open spec fn stored_blocks(data: Seq<u8>) -> Seq<u8>
    decreases data.len(),
{
    if data.len() <= MAX_STORED {
        stored_block(data, true)
    } else {
        stored_block(data.take(MAX_STORED as int), false) + stored_blocks(
            data.skip(MAX_STORED as int),
        )
    }
}

/// A Huffman code given MSB-first, in the order DEFLATE writes it: its `len` bits reversed, then
/// least significant first.
pub open spec fn code_bits(code: nat, len: nat) -> Seq<bool> {
    lsb_bits(reversed(code, len), len)
}

/// The fixed-Huffman code of a literal/length symbol, as written.
pub open spec fn fixed_symbol_bits(sym: nat) -> Seq<bool> {
    code_bits(spec_fixed_litlen(sym).0, spec_fixed_litlen(sym).1)
}

/// One token under the fixed codes: a literal's code, or a length symbol with its extra bits and
/// a 5-bit distance symbol with its extra bits.
pub open spec fn fixed_token_bits(t: Token) -> Seq<bool> {
    match t {
        Token::Literal(b) => fixed_symbol_bits(b as nat),
        Token::Match { len, dist } => {
            let (ls, lb, lv) = length_parts(len as nat);
            let (ds, db, dv) = distance_parts(dist as nat);
            fixed_symbol_bits(ls) + lsb_bits(lv, lb) + code_bits(ds, 5) + lsb_bits(dv, db)
        },
    }
}

/// A token stream under the fixed codes.
pub open spec fn fixed_tokens_bits(tokens: Seq<Token>) -> Seq<bool>
    decreases tokens.len(),
{
    if tokens.len() == 0 {
        Seq::empty()
    } else {
        fixed_tokens_bits(tokens.drop_last()) + fixed_token_bits(tokens.last())
    }
}

/// A whole fixed-Huffman block: `BFINAL = 1`, `BTYPE = 01`, the tokens, end-of-block.
pub open spec fn fixed_block_bits(tokens: Seq<Token>) -> Seq<bool> {
    lsb_bits(1, 1) + lsb_bits(1, 2) + fixed_tokens_bits(tokens) + fixed_symbol_bits(256)
}

/// `bits` padded with zeros to a byte boundary and packed.
pub open spec fn packed(bits: Seq<bool>) -> Seq<u8> {
    lsb_pack(bits + zeros(align_pad(bits.len())))
}

/// Encodes `data` as a complete stored (uncompressed) DEFLATE body.
pub fn stored(data: &[u8]) -> (r: Vec<u8>)
    ensures
        r@ == stored_blocks(data@),
{
    let mut w = BitWriter::new();
    write_stored(&mut w, data);
    proof {
        let all = stored_blocks(data@);
        lemma_pack_bytes_bits(all);
        assert(Seq::<bool>::empty() + bytes_bits(all) =~= bytes_bits(all));
        assert(bytes_bits(all) + zeros(0) =~= bytes_bits(all));
    }
    w.finish()
}

/// Writes `data` as one or more stored blocks (BTYPE = 00), splitting at 65535 bytes. `BFINAL` is
/// set on the final block. Empty input emits one empty final block — the shortest valid stream.
pub fn write_stored(w: &mut BitWriter, data: &[u8])
    requires
        old(w).wf(),
        old(w).spec_aligned(),
    ensures
        final(w).wf(),
        final(w).spec_aligned(),
        final(w).spec_bits() == old(w).spec_bits() + bytes_bits(stored_blocks(data@)),
{
    let n = data.len();
    let mut pos: usize = 0;
    let ghost start = w.spec_bits();
    let ghost mut done: Seq<u8> = Seq::empty();
    proof {
        assert(data@.skip(0) =~= data@);
        assert(Seq::<u8>::empty() + stored_blocks(data@) =~= stored_blocks(data@));
        assert(start + Seq::<bool>::empty() =~= start);
    }
    loop
        invariant
            w.wf(),
            w.spec_aligned(),
            pos <= n,
            n == data@.len(),
            stored_blocks(data@) == done + stored_blocks(data@.skip(pos as int)),
            w.spec_bits() == start + bytes_bits(done),
            start == old(w).spec_bits(),
        decreases n - pos,
    {
        let rest = n - pos;
        if rest <= MAX_STORED {
            let chunk = &data[pos..n];
            write_stored_block(w, chunk, true);
            proof {
                assert(chunk@ =~= data@.skip(pos as int));
                assert(stored_blocks(data@.skip(pos as int)) == stored_block(chunk@, true));
                assert(stored_blocks(data@) == done + stored_block(chunk@, true));
                lemma_bytes_bits_concat(done, stored_block(chunk@, true));
                assert(start + bytes_bits(done) + bytes_bits(stored_block(chunk@, true)) =~= start
                    + (bytes_bits(done) + bytes_bits(stored_block(chunk@, true))));
                assert(bytes_bits(stored_blocks(data@)) == bytes_bits(done) + bytes_bits(
                    stored_block(chunk@, true),
                ));
                assert(w.spec_bits() == start + bytes_bits(stored_blocks(data@)));
            }
            return;
        }
        let chunk = &data[pos..pos + MAX_STORED];
        write_stored_block(w, chunk, false);
        proof {
            let tail = data@.skip(pos as int);
            assert(chunk@ =~= tail.take(MAX_STORED as int));
            assert(tail.skip(MAX_STORED as int) =~= data@.skip(pos + MAX_STORED));
            lemma_bytes_bits_concat(done, stored_block(chunk@, false));
            assert(start + bytes_bits(done) + bytes_bits(stored_block(chunk@, false)) =~= start + (
            bytes_bits(done) + bytes_bits(stored_block(chunk@, false))));
            assert(done + (stored_block(chunk@, false) + stored_blocks(data@.skip(pos + MAX_STORED)))
                =~= (done + stored_block(chunk@, false)) + stored_blocks(data@.skip(pos + MAX_STORED)));
            done = done + stored_block(chunk@, false);
        }
        pos = pos + MAX_STORED;
    }
}

/// `BFINAL` then `BTYPE = 00`, padded to a byte, are the bits of the byte `BFINAL`.
proof fn lemma_header_byte(f: nat)
    requires
        f <= 1,
    ensures
        lsb_bits(f, 1) + lsb_bits(0, 2) + zeros(5) == lsb_bits(f, 8),
{
    vstd::arithmetic::power2::lemma2_to64();
    let a = lsb_bits(f, 1);
    let b = lsb_bits(0, 2);
    let l = a + b + zeros(5);
    let r = lsb_bits(f, 8);
    assert forall|i: int| 0 <= i < 8 implies l[i] == r[i] by {
        if i == 0 {
            assert(l[0] == a[0]);
        } else {
            if i < 3 {
                assert(l[i] == b[i - 1]);
                vstd::arithmetic::power2::lemma_pow2_pos((i - 1) as nat);
            } else {
                assert(l[i] == zeros(5)[i - 3]);
            }
            if i > 1 {
                vstd::arithmetic::power2::lemma_pow2_strictly_increases(1, i as nat);
            }
            assert(pow2(i as nat) >= 2);
            assert(f / pow2(i as nat) == 0) by {
                vstd::arithmetic::div_mod::lemma_basic_div(f as int, pow2(i as nat) as int);
            }
        }
    }
    assert(l =~= r);
}

/// Writes one stored block; the writer stays byte-aligned.
pub fn write_stored_block(w: &mut BitWriter, chunk: &[u8], is_final: bool)
    requires
        old(w).wf(),
        old(w).spec_aligned(),
        chunk@.len() <= MAX_STORED,
    ensures
        final(w).wf(),
        final(w).spec_aligned(),
        final(w).spec_bits() == old(w).spec_bits() + bytes_bits(stored_block(chunk@, is_final)),
{
    let ghost b0 = w.spec_bits();
    let f: u32 = if is_final {
        1
    } else {
        0
    };
    w.write_bits(f, 1);
    w.write_bits(0, 2);
    proof {
        assert(w.spec_bits().len() % 8 == 3);
    }
    w.align_to_byte();
    let len: u16 = chunk.len() as u16;
    let nlen: u16 = 0xFFFF - len;
    let mut head: Vec<u8> = Vec::new();
    head.push((len % 256) as u8);
    head.push((len / 256) as u8);
    head.push((nlen % 256) as u8);
    head.push((nlen / 256) as u8);
    w.write_bytes(head.as_slice());
    w.write_bytes(chunk);
    proof {
        let fb: u8 = if is_final {
            1u8
        } else {
            0u8
        };
        lemma_header_byte(f as nat);
        lemma_bytes_bits_one(fb);
        let block = stored_block(chunk@, is_final);
        assert(block =~= seq![fb] + head@ + chunk@);
        lemma_bytes_bits_concat(seq![fb], head@);
        lemma_bytes_bits_concat(seq![fb] + head@, chunk@);
        assert(w.spec_bits() =~= b0 + (lsb_bits(f as nat, 1) + lsb_bits(0, 2) + zeros(5)) + bytes_bits(
            head@,
        ) + bytes_bits(chunk@));
        assert(w.spec_bits() =~= b0 + bytes_bits(block));
    }
}

/// Writes a Huffman code given MSB-first (`1..=15` bits), reversing it into DEFLATE's order.
pub fn write_code(w: &mut BitWriter, code: u32, len: u32)
    requires
        old(w).wf(),
        1 <= len <= 15,
    ensures
        final(w).wf(),
        final(w).spec_bits() == old(w).spec_bits() + code_bits(code as nat, len as nat),
{
    proof {
        lemma_reversed_bound(code as nat, len as nat);
        vstd::arithmetic::power2::lemma_pow2_strictly_increases(len as nat, 32);
        vstd::arithmetic::div_mod::lemma_small_mod(
            reversed(code as nat, len as nat),
            pow2(32),
        );
    }
    let r = reverse_bits(code, len);
    w.write_bits(r, len);
}

/// Writes `n <= 32` raw extra bits (nothing when `n == 0`).
pub fn write_extra(w: &mut BitWriter, value: u32, n: u32)
    requires
        old(w).wf(),
        n <= 32,
    ensures
        final(w).wf(),
        final(w).spec_bits() == old(w).spec_bits() + lsb_bits(value as nat, n as nat),
{
    w.write_bits(value, n);
    proof {
        if n == 0 {
            assert(lsb_bits(value as nat, 0) =~= Seq::<bool>::empty());
        }
    }
}

/// Writes one token under the fixed codes.
fn write_fixed_token(w: &mut BitWriter, t: Token)
    requires
        old(w).wf(),
        tokens_valid(seq![t]),
    ensures
        final(w).wf(),
        final(w).spec_bits() == old(w).spec_bits() + fixed_token_bits(t),
{
    let ghost b0 = w.spec_bits();
    assert(seq![t][0] == t);
    match t {
        Token::Literal(b) => {
            let (code, len) = fixed_litlen(b as u16);
            write_code(w, code, len);
        },
        Token::Match { len, dist } => {
            let (lsym, lbits, lextra) = length_code(len);
            let (code, clen) = fixed_litlen(lsym);
            write_code(w, code, clen);
            write_extra(w, lextra, lbits);
            let (dsym, dbits, dextra) = distance_code(dist);
            let (dcode, dlen) = fixed_distance(dsym);
            write_code(w, dcode, dlen);
            write_extra(w, dextra, dbits);
            proof {
                let (ls, lb, lv) = length_parts(len as nat);
                let (ds, db, dv) = distance_parts(dist as nat);
                assert(w.spec_bits() =~= b0 + (fixed_symbol_bits(ls) + lsb_bits(lv, lb) + code_bits(
                    ds,
                    5,
                ) + lsb_bits(dv, db)));
            }
        },
    }
}

/// Encodes a token stream as a complete fixed-Huffman DEFLATE body (one final block).
pub fn fixed(tokens: &[Token]) -> (r: Vec<u8>)
    requires
        tokens_valid(tokens@),
    ensures
        r@ == packed(fixed_block_bits(tokens@)),
{
    let mut w = BitWriter::new();
    write_fixed(&mut w, tokens);
    proof {
        assert(Seq::<bool>::empty() + fixed_block_bits(tokens@) =~= fixed_block_bits(tokens@));
    }
    w.finish()
}

/// Writes `tokens` as a single fixed-Huffman block (BTYPE = 01) followed by the end-of-block
/// symbol. `BFINAL` is set (one block covers the whole input).
pub fn write_fixed(w: &mut BitWriter, tokens: &[Token])
    requires
        old(w).wf(),
        tokens_valid(tokens@),
    ensures
        final(w).wf(),
        final(w).spec_bits() == old(w).spec_bits() + fixed_block_bits(tokens@),
{
    let ghost b0 = w.spec_bits();
    w.write_bits(1, 1);
    w.write_bits(1, 2);
    let ghost head = w.spec_bits();
    let mut i: usize = 0;
    proof {
        assert(tokens@.take(0) =~= Seq::<Token>::empty());
        assert(head + Seq::<bool>::empty() =~= head);
    }
    while i < tokens.len()
        invariant
            w.wf(),
            i <= tokens@.len(),
            tokens_valid(tokens@),
            head == b0 + lsb_bits(1, 1) + lsb_bits(1, 2),
            w.spec_bits() == head + fixed_tokens_bits(tokens@.take(i as int)),
        decreases tokens@.len() - i,
    {
        let t = tokens[i];
        proof {
            assert(seq![t][0] == tokens@[i as int]);
        }
        write_fixed_token(w, t);
        proof {
            assert(tokens@.take(i + 1).drop_last() =~= tokens@.take(i as int));
            assert(tokens@.take(i + 1).last() == t);
            assert(w.spec_bits() =~= head + fixed_tokens_bits(tokens@.take(i + 1)));
        }
        i = i + 1;
    }
    let (code, len) = fixed_litlen(256);
    write_code(w, code, len);
    proof {
        assert(tokens@.take(tokens@.len() as int) =~= tokens@);
        assert(w.spec_bits() =~= b0 + fixed_block_bits(tokens@));
    }
}

} // verus!

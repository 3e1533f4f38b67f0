//! LZ77 parsing: a chained-hash longest-match finder over the input bytes (RFC 1951 §4).
//!
//! The parser turns the byte stream into a sequence of [`Token`]s — literals and `(length,
//! distance)` back-references — which a block writer then entropy-codes. Match *correctness* never
//! depends on the hash; candidates are always verified by byte comparison. The hash only affects how
//! many real matches are found, i.e. the ratio. The model of a token stream is the byte string it
//! expands to ([`expand`]); every parse expands back to its input.
use vstd::prelude::*;
use crate::deflate::symbols::{MAX_DISTANCE, MAX_MATCH, MIN_MATCH};

verus! {

/// One element of the LZ77 token stream.
#[derive(Debug, Clone, Copy, PartialEq, Eq, Structural)]
pub enum Token {
    /// A single uncompressed byte.
    Literal(u8),
    /// A back-reference: copy `len` bytes (3..=258) from `dist` (1..=32768) bytes earlier.
    Match { len: u16, dist: u16 },
}

/// A token DEFLATE can code: any literal, or a match of 3..=258 bytes at distance 1..=32768.
pub open spec fn token_valid(t: Token) -> bool {
    match t {
        Token::Literal(_) => true,
        Token::Match { len, dist } => MIN_MATCH <= len <= MAX_MATCH && 1 <= dist <= MAX_DISTANCE,
    }
}

/// Every token of `tokens` is codable.
pub open spec fn tokens_valid(tokens: Seq<Token>) -> bool {
    forall|i: int| 0 <= i < tokens.len() ==> token_valid(#[trigger] tokens[i])
}

/// `out` extended by copying `len` bytes one at a time from `dist` bytes back (the copy may
/// overlap the bytes it produces).
pub open spec fn copy_back(out: Seq<u8>, len: nat, dist: nat) -> Seq<u8>
    decreases len,
{
    if len == 0 {
        out
    } else {
        copy_back(out.push(out[out.len() - dist]), (len - 1) as nat, dist)
    }
}

/// The bytes a token stream stands for: literals as themselves, matches as back-copies.
pub open spec fn expand(tokens: Seq<Token>) -> Seq<u8>
    decreases tokens.len(),
{
    if tokens.len() == 0 {
        Seq::empty()
    } else {
        let before = expand(tokens.drop_last());
        match tokens.last() {
            Token::Literal(b) => before.push(b),
            Token::Match { len, dist } => copy_back(before, len as nat, dist as nat),
        }
    }
}

/// Every match of `tokens` reaches back only into bytes already produced: its distance is at most
/// the length of what the tokens before it expand to.
pub open spec fn expands_within(tokens: Seq<Token>) -> bool {
    forall|i: int|
        0 <= i < tokens.len() ==> (#[trigger] tokens[i] matches Token::Match { dist, .. } ==> dist
            <= expand(tokens.take(i)).len())
}

/// Appending a token appends what it stands for.
pub proof fn lemma_expand_push(tokens: Seq<Token>, t: Token)
    ensures
        expand(tokens.push(t)) == match t {
            Token::Literal(b) => expand(tokens).push(b),
            Token::Match { len, dist } => copy_back(expand(tokens), len as nat, dist as nat),
        },
{
    assert(tokens.push(t).drop_last() =~= tokens);
}

/// A token appended to a stream that expands within itself keeps it so when the token is a
/// literal or reaches back no further than the stream's expansion.
pub proof fn lemma_expands_within_push(tokens: Seq<Token>, t: Token)
    requires
        expands_within(tokens),
        t matches Token::Match { dist, .. } ==> dist <= expand(tokens).len(),
    ensures
        expands_within(tokens.push(t)),
{
    let u = tokens.push(t);
    assert forall|i: int| 0 <= i < u.len() implies (#[trigger] u[i] matches Token::Match {
        dist,
        ..
    } ==> dist <= expand(u.take(i)).len()) by {
        if i < tokens.len() {
            assert(u.take(i) =~= tokens.take(i));
            assert(u[i] == tokens[i]);
        } else {
            assert(u.take(i) =~= tokens);
        }
    }
}

/// A back-copy reproduces bytes that repeat at distance `dist`.
pub proof fn lemma_copy_back(data: Seq<u8>, p: nat, len: nat, dist: nat)
    requires
        1 <= dist <= p,
        p + len <= data.len(),
        forall|k: int| p <= k < p + len ==> #[trigger] data[k] == data[k - dist],
    ensures
        copy_back(data.take(p as int), len, dist) == data.take((p + len) as int),
    decreases len,
{
    if len > 0 {
        let out = data.take(p as int);
        assert(data[p as int] == data[p - dist]);
        assert(out.push(out[out.len() - dist]) =~= data.take((p + 1) as int));
        lemma_copy_back(data, p + 1, (len - 1) as nat, dist);
    } else {
        assert(data.take(p as int) =~= data.take((p + len) as int));
    }
}

/// Number of hash buckets.
pub const HASH_SIZE: usize = 32768;

/// The sliding window is the maximum back-reference distance; `prev` is indexed modulo it.
pub const WINDOW: usize = 32768;

/// Mask for the power-of-two window.
pub const WMASK: usize = 32767;

/// The largest position the chains can hold (they store positions as `i32`).
pub const MAX_INDEXED: usize = 0x7fff_ffff;

/// A chained-hash index over already-seen 3-byte sequences, used to find back-references.
///
/// `head[h]` is the most recent position whose 3-byte hash is `h`; `prev[pos & WMASK]` chains to the
/// next-older position in the same bucket. Both store absolute positions (`-1` = empty). Entries
/// older than the window are pruned by the distance check during search.
pub struct Matcher {
    head: Vec<i32>,
    prev: Vec<i32>,
}

/// The hash bucket of the three bytes `b0 b1 b2`: the 24-bit key `b0 b1 b2` (big-endian)
/// multiplied by `0x9E3779B1` modulo `2^32`, keeping its top 15 bits.
pub open spec fn bucket(b0: u8, b1: u8, b2: u8) -> usize {
    let key = (b0 as nat) * 65536 + (b1 as nat) * 256 + (b2 as nat);
    (((key * 0x9E37_79B1) % 0x1_0000_0000) / 0x2_0000) as usize
}

/// The `k`-th match candidate of the chain from bucket `h`: the bucket's most recent position,
/// then each candidate's next-older position in the same bucket; `-1` once the chain ends.
pub open spec fn chain_candidate(head: Seq<i32>, prev: Seq<i32>, h: int, k: nat) -> int
    decreases k,
{
    if k == 0 {
        head[h] as int
    } else {
        let c = chain_candidate(head, prev, h, (k - 1) as nat);
        if c < 0 {
            -1
        } else {
            prev[c % (WINDOW as int)] as int
        }
    }
}

/// How many bytes from `c + i` on equal those from `pos + i` on, counted from `i`, up to `max`:
/// the length of the common run starting at offset `i`, plus `i`.
pub open spec fn common_from(data: Seq<u8>, c: int, pos: int, i: nat, max: nat) -> nat
    decreases max - i,
{
    if i >= max || data[c + i] != data[pos + i] {
        i
    } else {
        common_from(data, c, pos, i + 1, max)
    }
}

/// The search along the chain from its `k`-th candidate, with the best `(length, distance)` so
/// far: at most `limit` candidates in all, none older than `lowest`; a candidate replaces the
/// best only with a strictly longer match, and a match of `max_len` ends the search.
pub open spec fn chain_search(
    head: Seq<i32>,
    prev: Seq<i32>,
    data: Seq<u8>,
    pos: int,
    max_len: nat,
    lowest: int,
    limit: nat,
    h: int,
    k: nat,
    best: (nat, nat),
) -> (nat, nat)
    decreases limit - k,
{
    if k >= limit {
        best
    } else {
        let c = chain_candidate(head, prev, h, k);
        if c < 0 || c < lowest {
            best
        } else {
            let len = common_from(data, c, pos, 0, max_len);
            let next = if len > best.0 {
                (len, (pos - c) as nat)
            } else {
                best
            };
            if next.0 >= max_len {
                next
            } else {
                chain_search(head, prev, data, pos, max_len, lowest, limit, h, k + 1, next)
            }
        }
    }
}

/// What [`Matcher::find`] returns at `pos` with a search depth of `max_chain`: nothing when fewer
/// than 3 bytes remain; otherwise the longest match (up to 258 bytes and the data's end) found
/// walking the bucket's chain of the 3 bytes at `pos` for at most `max_chain` candidates (at
/// least one) within the window, the most recent candidate among equally long ones, if it is 3
/// bytes or more.
pub open spec fn find_result(head: Seq<i32>, prev: Seq<i32>, data: Seq<u8>, pos: int, max_chain: nat) -> Option<
    (u16, u16),
> {
    let n = data.len();
    if n < MIN_MATCH || pos > n - MIN_MATCH {
        None
    } else {
        let max_len: nat = if n - pos < MAX_MATCH {
            (n - pos) as nat
        } else {
            MAX_MATCH as nat
        };
        let lowest: int = if pos >= WINDOW {
            pos - WINDOW
        } else {
            0
        };
        let limit: nat = if max_chain >= 1 {
            max_chain
        } else {
            1
        };
        let h = bucket(data[pos], data[pos + 1], data[pos + 2]) as int;
        let best = chain_search(head, prev, data, pos, max_len, lowest, limit, h, 0, (2, 0));
        if best.0 >= MIN_MATCH {
            Some((best.0 as u16, best.1 as u16))
        } else {
            None
        }
    }
}

/// The index after positions `0..p` of `data` were recorded in turn: the bucket heads and chain
/// links, both empty (`-1`) at first; recording a position that can start a match makes it its
/// bucket's head and links it to the previous head.
pub open spec fn index_after(data: Seq<u8>, p: nat) -> (Seq<i32>, Seq<i32>)
    decreases p,
{
    if p == 0 {
        (Seq::new(HASH_SIZE as nat, |i: int| -1i32), Seq::new(WINDOW as nat, |i: int| -1i32))
    } else {
        let (head, prev) = index_after(data, (p - 1) as nat);
        let q = (p - 1) as nat;
        if data.len() < MIN_MATCH || q > data.len() - MIN_MATCH || q > MAX_INDEXED {
            (head, prev)
        } else {
            let h = bucket(data[q as int], data[q + 1int], data[q + 2int]) as int;
            (head.update(h, q as i32), prev.update(q as int % (WINDOW as int), head[h]))
        }
    }
}

/// The match [`Matcher::find`] gives at `pos` once positions `0..pos` are recorded.
pub open spec fn match_at(data: Seq<u8>, pos: nat, max_chain: nat) -> Option<(u16, u16)> {
    find_result(index_after(data, pos).0, index_after(data, pos).1, data, pos as int, max_chain)
}

/// The tokens [`parse`] gives for `data` from `pos` on: where a match is found at `pos`, that
/// match, unless lazy matching defers it because the next position starts a longer one; a
/// literal otherwise.
pub open spec fn parse_from(data: Seq<u8>, max_chain: nat, lazy: bool, pos: nat) -> Seq<Token>
    decreases data.len() - pos,
{
    if pos >= data.len() {
        Seq::empty()
    } else {
        match match_at(data, pos, max_chain) {
            None => seq![Token::Literal(data[pos as int])] + parse_from(data, max_chain, lazy, pos + 1),
            Some((len, dist)) => {
                proof {
                    lemma_match_at(data, pos, max_chain);
                }
                let defer = lazy && (len as nat) < MAX_MATCH && pos + 1 < data.len() && match match_at(
                    data,
                    pos + 1,
                    max_chain,
                ) {
                    Some((next_len, _)) => next_len > len,
                    None => false,
                };
                if defer {
                    seq![Token::Literal(data[pos as int])] + parse_from(data, max_chain, lazy, pos + 1)
                } else {
                    seq![Token::Match { len, dist }] + parse_from(
                        data,
                        max_chain,
                        lazy,
                        pos + len as nat,
                    )
                }
            },
        }
    }
}

/// The chain search never ends with a length past `max_len`, starting from one within it.
proof fn lemma_chain_search_bound(
    head: Seq<i32>,
    prev: Seq<i32>,
    data: Seq<u8>,
    pos: int,
    max_len: nat,
    lowest: int,
    limit: nat,
    h: int,
    k: nat,
    best: (nat, nat),
)
    requires
        best.0 <= max_len,
    ensures
        chain_search(head, prev, data, pos, max_len, lowest, limit, h, k, best).0 <= max_len,
    decreases limit - k,
{
    if k < limit {
        let c = chain_candidate(head, prev, h, k);
        if !(c < 0 || c < lowest) {
            lemma_common_from(data, c, pos, 0, max_len);
            let len = common_from(data, c, pos, 0, max_len);
            let next = if len > best.0 {
                (len, (pos - c) as nat)
            } else {
                best
            };
            if next.0 < max_len {
                lemma_chain_search_bound(head, prev, data, pos, max_len, lowest, limit, h, k + 1, next);
            }
        }
    }
}

/// A match found at `pos` is 3 to 258 bytes long and ends within the data.
pub proof fn lemma_match_at(data: Seq<u8>, pos: nat, max_chain: nat)
    ensures
        match_at(data, pos, max_chain) matches Some((len, _)) ==> MIN_MATCH <= len <= MAX_MATCH
            && pos + len <= data.len(),
{
    let n = data.len();
    if !(n < MIN_MATCH || pos > n - MIN_MATCH) {
        let max_len: nat = if n - pos < MAX_MATCH {
            (n - pos) as nat
        } else {
            MAX_MATCH as nat
        };
        let lowest: int = if pos >= WINDOW {
            pos - WINDOW
        } else {
            0
        };
        let limit: nat = if max_chain >= 1 {
            max_chain
        } else {
            1
        };
        let (head, prev) = index_after(data, pos);
        let h = bucket(data[pos as int], data[pos + 1int], data[pos + 2int]) as int;
        lemma_chain_search_bound(head, prev, data, pos as int, max_len, lowest, limit, h, 0, (2, 0));
    }
}

/// A common run counted from `i` reaches at most `max` and its bytes agree.
proof fn lemma_common_from(data: Seq<u8>, c: int, pos: int, i: nat, max: nat)
    requires
        i <= max,
    ensures
        i <= common_from(data, c, pos, i, max) <= max,
        forall|j: int|
            i <= j < common_from(data, c, pos, i, max) ==> #[trigger] data[c + j] == data[pos + j],
    decreases max - i,
{
    if !(i >= max || data[c + i] != data[pos + i]) {
        lemma_common_from(data, c, pos, i + 1, max);
    }
}

impl Matcher {
    /// The bucket heads: each bucket's most recent position, or `-1`.
    pub closed spec fn spec_head(&self) -> Seq<i32> {
        self.head@
    }

    /// The chain links: the next-older position of each position's bucket, by position modulo
    /// the window, or `-1`.
    pub closed spec fn spec_prev(&self) -> Seq<i32> {
        self.prev@
    }

    /// Both tables have their sizes, and every entry is empty or a position before `next`.
    pub closed spec fn wf(&self, next: int) -> bool {
        &&& self.head@.len() == HASH_SIZE
        &&& self.prev@.len() == WINDOW
        &&& forall|i: int| 0 <= i < HASH_SIZE ==> -1 <= #[trigger] self.head@[i] < next
        &&& forall|i: int| 0 <= i < WINDOW ==> -1 <= #[trigger] self.prev@[i] < next
    }

    /// An index whose entries precede `a` has entries preceding any later `b`.
    pub proof fn lemma_wf_weaken(&self, a: int, b: int)
        requires
            self.wf(a),
            a <= b,
        ensures
            self.wf(b),
    {
    }

    /// An index that knows no positions yet.
    pub fn new() -> (r: Self)
        ensures
            r.wf(0),
            (r.spec_head(), r.spec_prev()) == index_after(Seq::empty(), 0),
    {
        let head = vec![-1i32; HASH_SIZE];
        let prev = vec![-1i32; WINDOW];
        let r = Self { head, prev };
        assert(r.spec_head() =~= Seq::new(HASH_SIZE as nat, |i: int| -1i32));
        assert(r.spec_prev() =~= Seq::new(WINDOW as nat, |i: int| -1i32));
        r
    }

    /// Hashes the 3 bytes at `pos` into a bucket.
    fn hash(data: &[u8], pos: usize) -> (r: usize)
        requires
            pos + 3 <= data@.len(),
        ensures
            r == bucket(data@[pos as int], data@[pos + 1], data@[pos + 2]),
            r < HASH_SIZE,
    {
        let b0 = data[pos];
        let b1 = data[pos + 1];
        let b2 = data[pos + 2];
        let key: u32 = ((b0 as u32) << 16u32) | ((b1 as u32) << 8u32) | (b2 as u32);
        assert(key == (b0 as u32) * 65536 + (b1 as u32) * 256 + (b2 as u32)) by (bit_vector)
            requires
                key == ((b0 as u32) << 16u32) | ((b1 as u32) << 8u32) | (b2 as u32),
        ;
        let mixed: u32 = key.wrapping_mul(0x9E37_79B1);
        let h: usize = ((mixed >> 17u32) as usize) & (HASH_SIZE - 1);
        assert(((mixed >> 17u32) as usize) & 32767 == mixed / 0x2_0000) by (bit_vector);
        assert(mixed / 0x2_0000 < 32768) by (bit_vector);
        h
    }

    /// Records `pos` as a future match candidate: it becomes its bucket's most recent position,
    /// chained to the one that was (positions too close to the end to start a match, or past
    /// `MAX_INDEXED`, are not recorded).
    pub fn insert(&mut self, data: &[u8], pos: usize)
        requires
            old(self).wf(pos + 1),
        ensures
            final(self).wf(pos + 1),
            if data@.len() < MIN_MATCH || pos > data@.len() - MIN_MATCH || pos > MAX_INDEXED {
                final(self).spec_head() == old(self).spec_head() && final(self).spec_prev() == old(
                    self,
                ).spec_prev()
            } else {
                let h = bucket(data@[pos as int], data@[pos + 1], data@[pos + 2]) as int;
                &&& final(self).spec_head() == old(self).spec_head().update(h, pos as i32)
                &&& final(self).spec_prev() == old(self).spec_prev().update(
                    pos as int % (WINDOW as int),
                    old(self).spec_head()[h],
                )
            },
    {
        if data.len() < MIN_MATCH || pos > data.len() - MIN_MATCH || pos > MAX_INDEXED {
            return;
        }
        let h = Self::hash(data, pos);
        let older = self.head[h];
        let slot = pos & WMASK;
        assert(pos & 32767 == pos % 32768) by (bit_vector);
        self.prev.set(slot, older);
        self.head.set(h, pos as i32);
    }

    /// Finds a back-reference for the bytes at `pos`, walking at most `max_chain` candidates
    /// (at least one), and keeps the longest seen: the result is [`find_result`]. A found match
    /// is a true repeat: its `len` bytes (3..=258, within the data) equal those `dist`
    /// (1..=32768, at most `pos`) bytes back.
    pub fn find(&self, data: &[u8], pos: usize, max_chain: usize) -> (r: Option<(u16, u16)>)
        requires
            self.wf(pos as int),
        ensures
            r == find_result(self.spec_head(), self.spec_prev(), data@, pos as int, max_chain as nat),
            match r {
                Some((len, dist)) => {
                    &&& MIN_MATCH <= len <= MAX_MATCH
                    &&& pos + len <= data@.len()
                    &&& 1 <= dist <= MAX_DISTANCE
                    &&& dist <= pos
                    &&& forall|k: int|
                        pos <= k < pos + len ==> #[trigger] data@[k] == data@[k - dist]
                },
                None => true,
            },
    {
        let n = data.len();
        if n < MIN_MATCH || pos > n - MIN_MATCH {
            return None;
        }
        let max_len: usize = if n - pos < MAX_MATCH {
            n - pos
        } else {
            MAX_MATCH
        };
        let lowest: usize = pos.saturating_sub(WINDOW);
        let ghost limit: nat = if max_chain >= 1 {
            max_chain as nat
        } else {
            1
        };
        let h = Self::hash(data, pos);
        let ghost head = self.spec_head();
        let ghost prev = self.spec_prev();
        let ghost answer = chain_search(
            head,
            prev,
            data@,
            pos as int,
            max_len as nat,
            lowest as int,
            limit,
            h as int,
            0,
            (2, 0),
        );
        let mut best_len: usize = MIN_MATCH - 1;
        let mut best_dist: usize = 0;
        let mut cand: i32 = self.head[h];
        let mut chain: usize = 0;
        while cand >= 0
            invariant_except_break
                chain == 0 || chain < max_chain,
                cand == chain_candidate(head, prev, h as int, chain as nat),
                answer == chain_search(
                    head,
                    prev,
                    data@,
                    pos as int,
                    max_len as nat,
                    lowest as int,
                    limit,
                    h as int,
                    chain as nat,
                    (best_len as nat, best_dist as nat),
                ),
                best_len < max_len,
            invariant
                self.wf(pos as int),
                head == self.spec_head(),
                prev == self.spec_prev(),
                h < HASH_SIZE,
                limit == (if max_chain >= 1 {
                    max_chain as nat
                } else {
                    1
                }),
                n == data@.len(),
                pos + 3 <= n,
                3 <= max_len <= MAX_MATCH,
                pos + max_len <= n,
                lowest == if pos >= WINDOW {
                    (pos - WINDOW) as usize
                } else {
                    0usize
                },
                -1 <= cand < pos,
                2 <= best_len <= max_len,
                best_len >= 3 ==> {
                    &&& 1 <= best_dist <= WINDOW
                    &&& best_dist <= pos
                    &&& forall|k: int|
                        pos <= k < pos + best_len ==> #[trigger] data@[k] == data@[k - best_dist]
                },
            ensures
                answer == (best_len as nat, best_dist as nat),
            decreases max_chain + 1 - chain,
        {
            let c = cand as usize;
            if c < lowest {
                proof {
                    assert(chain_candidate(head, prev, h as int, chain as nat) < lowest as int);
                    assert(chain_search(
                        head,
                        prev,
                        data@,
                        pos as int,
                        max_len as nat,
                        lowest as int,
                        limit,
                        h as int,
                        chain as nat,
                        (best_len as nat, best_dist as nat),
                    ) == (best_len as nat, best_dist as nat));
                }
                break;
            }
            let ghost common = common_from(data@, c as int, pos as int, 0, max_len as nat);
            proof {
                lemma_common_from(data@, c as int, pos as int, 0, max_len as nat);
            }
            let ghost before = (best_len as nat, best_dist as nat);
            if best_len < max_len && data[c + best_len] == data[pos + best_len] {
                let mut len: usize = 0;
                while len < max_len && data[c + len] == data[pos + len]
                    invariant
                        n == data@.len(),
                        c < pos,
                        pos + max_len <= n,
                        len <= max_len,
                        common == common_from(data@, c as int, pos as int, len as nat, max_len as nat),
                        forall|k: int|
                            pos <= k < pos + len ==> #[trigger] data@[k] == data@[k - (pos - c)],
                    decreases max_len - len,
                {
                    proof {
                        assert(data@[pos + len] == data@[pos + len - (pos - c)]);
                    }
                    len = len + 1;
                }
                assert(common == len);
                if len > best_len {
                    best_len = len;
                    best_dist = pos - c;
                    if len >= max_len {
                        break;
                    }
                }
            } else {
                assert(common <= best_len) by {
                    if common > best_len {
                        assert(data@[c + best_len] == data@[pos + best_len]);
                    }
                }
            }
            assert(answer == chain_search(
                head,
                prev,
                data@,
                pos as int,
                max_len as nat,
                lowest as int,
                limit,
                h as int,
                (chain + 1) as nat,
                (best_len as nat, best_dist as nat),
            ));
            chain = chain + 1;
            if chain >= max_chain {
                assert(chain as nat >= limit);
                assert(chain_search(
                    head,
                    prev,
                    data@,
                    pos as int,
                    max_len as nat,
                    lowest as int,
                    limit,
                    h as int,
                    chain as nat,
                    (best_len as nat, best_dist as nat),
                ) == (best_len as nat, best_dist as nat));
                break;
            }
            let slot = c & WMASK;
            assert(c & 32767 < 32768) by (bit_vector);
            assert(c & 32767 == c % 32768) by (bit_vector);
            cand = self.prev[slot];
        }
        if best_len >= MIN_MATCH {
            Some((best_len as u16, best_dist as u16))
        } else {
            None
        }
    }
}

/// Parses `data` into an LZ77 token stream, searching up to `max_chain` candidates per position.
///
/// With `lazy` set, the parser uses lazy matching (RFC 1951 §4): after finding a match it checks
/// whether the next position starts a longer one and, if so, defers — emitting the current byte as a
/// literal. Whatever the choices, the stream is lossless: it expands back to `data`, and every
/// token is one DEFLATE can code.
pub fn parse(data: &[u8], max_chain: usize, lazy: bool) -> (tokens: Vec<Token>)
    ensures
        tokens@ == parse_from(data@, max_chain as nat, lazy, 0),
        expand(tokens@) == data@,
        tokens_valid(tokens@),
        expands_within(tokens@),
{
    let mut tokens: Vec<Token> = Vec::new();
    let mut matcher = Matcher::new();
    let n = data.len();
    let mut pos: usize = 0;
    proof {
        assert(data@.take(0) =~= Seq::<u8>::empty());
        assert(tokens@ + parse_from(data@, max_chain as nat, lazy, 0) =~= parse_from(
            data@,
            max_chain as nat,
            lazy,
            0,
        ));
    }
    while pos < n
        invariant
            pos <= n,
            n == data@.len(),
            matcher.wf(pos as int),
            (matcher.spec_head(), matcher.spec_prev()) == index_after(data@, pos as nat),
            tokens@ + parse_from(data@, max_chain as nat, lazy, pos as nat) == parse_from(
                data@,
                max_chain as nat,
                lazy,
                0,
            ),
            expand(tokens@) == data@.take(pos as int),
            tokens_valid(tokens@),
            expands_within(tokens@),
        decreases n - pos,
    {
        let current = matcher.find(data, pos, max_chain);
        proof {
            matcher.lemma_wf_weaken(pos as int, pos + 1);
            lemma_match_at(data@, pos as nat, max_chain as nat);
            lemma_match_at(data@, (pos + 1) as nat, max_chain as nat);
        }
        matcher.insert(data, pos);
        assert((matcher.spec_head(), matcher.spec_prev()) == index_after(data@, (pos + 1) as nat));
        let mut take_literal = true;
        let mut found: (u16, u16) = (0, 0);
        match current {
            Some((len, dist)) => {
                take_literal = false;
                found = (len, dist);
                if lazy && (len as usize) < MAX_MATCH && pos + 1 < n {
                    match matcher.find(data, pos + 1, max_chain) {
                        Some((next_len, _)) => {
                            if next_len > len {
                                take_literal = true;
                            }
                        },
                        None => {},
                    }
                }
            },
            None => {},
        }
        if take_literal {
            let b = data[pos];
            proof {
                lemma_expand_push(tokens@, Token::Literal(b));
                assert(data@.take(pos as int).push(b) =~= data@.take(pos + 1));
                lemma_expands_within_push(tokens@, Token::Literal(b));
                assert(parse_from(data@, max_chain as nat, lazy, pos as nat) == seq![
                    Token::Literal(b),
                ] + parse_from(data@, max_chain as nat, lazy, (pos + 1) as nat));
                assert(tokens@.push(Token::Literal(b)) + parse_from(
                    data@,
                    max_chain as nat,
                    lazy,
                    (pos + 1) as nat,
                ) =~= tokens@ + parse_from(data@, max_chain as nat, lazy, pos as nat));
            }
            tokens.push(Token::Literal(b));
            pos = pos + 1;
        } else {
            let (len, dist) = found;
            proof {
                lemma_expand_push(tokens@, Token::Match { len, dist });
                lemma_copy_back(data@, pos as nat, len as nat, dist as nat);
                lemma_expands_within_push(tokens@, Token::Match { len, dist });
                assert(parse_from(data@, max_chain as nat, lazy, pos as nat) == seq![
                    Token::Match { len, dist },
                ] + parse_from(data@, max_chain as nat, lazy, (pos + len) as nat));
                assert(tokens@.push(Token::Match { len, dist }) + parse_from(
                    data@,
                    max_chain as nat,
                    lazy,
                    (pos + len) as nat,
                ) =~= tokens@ + parse_from(data@, max_chain as nat, lazy, pos as nat));
            }
            tokens.push(Token::Match { len, dist });
            let end: usize = pos + len as usize;
            let mut p: usize = pos + 1;
            while p < end
                invariant
                    pos < p <= end,
                    end <= n,
                    n == data@.len(),
                    matcher.wf(p as int),
                    (matcher.spec_head(), matcher.spec_prev()) == index_after(data@, p as nat),
                decreases end - p,
            {
                proof {
                    matcher.lemma_wf_weaken(p as int, p + 1);
                }
                matcher.insert(data, p);
                p = p + 1;
            }
            pos = end;
        }
    }
    proof {
        assert(data@.take(n as int) =~= data@);
    }
    tokens
}

} // verus!

//! The prefix code for the upper six bits of a match position.

use vstd::prelude::*;

use crate::lzhuf::bits;
use crate::lzhuf::bits::{BitReader, BitWriter, Source};

verus! {

/// Code length for the upper six bits of a position.
pub open spec fn p_len(u: int) -> int {
    if u < 1 {
        3
    } else if u < 4 {
        4
    } else if u < 12 {
        5
    } else if u < 24 {
        6
    } else if u < 48 {
        7
    } else {
        8
    }
}

/// The code, left-aligned in eight bits. The codes are handed out in order,
/// so each starts where the one before it ends.
pub open spec fn p_code(u: int) -> int
    decreases u,
{
    if u <= 0 {
        0
    } else {
        p_code(u - 1) + bits::pow2((8 - p_len(u - 1)) as nat)
    }
}

/// Closed form of the codes.
pub proof fn lemma_p_code(u: int)
    requires
        0 <= u <= 64,
    ensures
        p_code(u) == (if u < 1 {
            0
        } else if u <= 4 {
            32 + (u - 1) * 16
        } else if u <= 12 {
            0x50 + (u - 4) * 8
        } else if u <= 24 {
            0x90 + (u - 12) * 4
        } else if u <= 48 {
            0xC0 + (u - 24) * 2
        } else {
            0xF0 + (u - 48)
        }),
    decreases u,
{
    bits::lemma_pow2_small();
    if u > 0 {
        lemma_p_code(u - 1);
    }
}

/// Which position an eight-bit window starts the code of.
pub open spec fn p_window(i: int) -> int {
    if i < 0x20 {
        0
    } else if i < 0x50 {
        1 + (i - 0x20) / 16
    } else if i < 0x90 {
        4 + (i - 0x50) / 8
    } else if i < 0xC0 {
        12 + (i - 0x90) / 4
    } else if i < 0xF0 {
        24 + (i - 0xC0) / 2
    } else {
        48 + (i - 0xF0)
    }
}

/// Every window that starts with the code of `u` belongs to `u`.
pub proof fn lemma_p_window(u: int, k: int)
    requires
        0 <= u < 64,
        0 <= k < bits::pow2((8 - p_len(u)) as nat),
    ensures
        0 <= p_code(u) + k < 256,
        p_window(p_code(u) + k) == u,
{
    bits::lemma_pow2_small();
    lemma_p_code(u);
    lemma_p_code(u + 1);
}

/// Code lengths for the upper six bits of a match position.
pub fn p_len_table() -> (r: Vec<u8>)
    ensures
        r@.len() == 64,
        forall|u: int| 0 <= u < 64 ==> #[trigger] r@[u] == p_len(u),
{
    let mut table: Vec<u8> = Vec::new();
    for u in 0..64usize
        invariant
            table@.len() == u,
            forall|v: int| 0 <= v < u ==> #[trigger] table@[v] == p_len(v),
    {
        let len: u8 = if u < 1 {
            3
        } else if u < 4 {
            4
        } else if u < 12 {
            5
        } else if u < 24 {
            6
        } else if u < 48 {
            7
        } else {
            8
        };
        table.push(len);
    }
    table
}

/// Left-aligned eight-bit codes for the upper six bits of a match position.
pub fn p_code_table() -> (r: Vec<u8>)
    ensures
        r@.len() == 64,
        forall|u: int| 0 <= u < 64 ==> #[trigger] r@[u] == p_code(u),
{
    let lens = p_len_table();
    let mut table: Vec<u8> = Vec::new();
    let mut code: u32 = 0;
    for u in 0..64usize
        invariant
            table@.len() == u,
            lens@.len() == 64,
            forall|v: int| 0 <= v < 64 ==> #[trigger] lens@[v] == p_len(v),
            forall|v: int| 0 <= v < u ==> #[trigger] table@[v] == p_code(v),
            code == p_code(u as int),
    {
        proof {
            lemma_p_code(u as int);
            lemma_p_code(u + 1);
            bits::lemma_pow2_small();
            assert(1u32 << 5 == 32 && 1u32 << 4 == 16 && 1u32 << 3 == 8 && 1u32 << 2 == 4
                && 1u32 << 1 == 2 && 1u32 << 0 == 1) by (bit_vector);
        }
        table.push(code as u8);
        let span: u32 = 1u32 << (8 - lens[u]);
        code = code + span;
    }
    table
}

/// Decoding tables indexed by the next eight bits of the stream: the upper
/// six bits of the position, and the length of its code.
pub fn d_tables() -> (r: (Vec<u8>, Vec<u8>))
    ensures
        r.0@.len() == 256,
        r.1@.len() == 256,
        forall|i: int| 0 <= i < 256 ==> #[trigger] r.0@[i] == p_window(i),
        forall|i: int| 0 <= i < 256 ==> #[trigger] r.1@[i] == p_len(p_window(i)),
{
    let lens = p_len_table();
    let codes = p_code_table();
    let mut d_code: Vec<u8> = Vec::new();
    let mut d_len: Vec<u8> = Vec::new();
    for u in 0..64usize
        invariant
            lens@.len() == 64,
            codes@.len() == 64,
            forall|v: int| 0 <= v < 64 ==> #[trigger] lens@[v] == p_len(v),
            d_code@.len() == p_code(u as int),
            d_len@.len() == p_code(u as int),
            forall|i: int| 0 <= i < d_code@.len() ==> #[trigger] d_code@[i] == p_window(i),
            forall|i: int| 0 <= i < d_len@.len() ==> #[trigger] d_len@[i] == p_len(p_window(i)),
    {
        proof {
            bits::lemma_pow2_small();
            lemma_p_code(u as int);
            lemma_p_code(u + 1);
            assert(1u32 << 5 == 32 && 1u32 << 4 == 16 && 1u32 << 3 == 8 && 1u32 << 2 == 4
                && 1u32 << 1 == 2 && 1u32 << 0 == 1) by (bit_vector);
        }
        let span: u32 = 1u32 << (8 - lens[u]);
        for k in 0..span
            invariant
                u < 64,
                lens@.len() == 64,
                lens@[u as int] == p_len(u as int),
                span == bits::pow2((8 - p_len(u as int)) as nat),
                d_code@.len() == p_code(u as int) + k,
                d_len@.len() == p_code(u as int) + k,
                forall|i: int| 0 <= i < d_code@.len() ==> #[trigger] d_code@[i] == p_window(i),
                forall|i: int| 0 <= i < d_len@.len() ==> #[trigger] d_len@[i] == p_len(p_window(i)),
        {
            proof {
                lemma_p_window(u as int, k as int);
            }
            d_code.push(u as u8);
            d_len.push(lens[u]);
        }
    }
    proof {
        lemma_p_code(64);
    }
    (d_code, d_len)
}

/// The code itself: the upper bits of the left-aligned code.
pub open spec fn p_short(u: int) -> nat {
    (if u < 1 {
        0
    } else if u < 4 {
        u + 1
    } else if u < 12 {
        u + 6
    } else if u < 24 {
        u + 24
    } else if u < 48 {
        u + 72
    } else {
        u + 192
    }) as nat
}

/// The bits of a position: the code of its upper six bits, then its lower
/// six bits.
pub open spec fn position_bits(position: nat) -> Seq<bool> {
    let u = (position / 64) as int;
    bits::bits_of(p_len(u) as nat, p_short(u)) + bits::bits_of(
        6,
        position % 64,
    )
}

/// Reads a position: an eight-bit window tells the upper bits and how many
/// bits are still to come; the last six bits read are the lower bits.
pub open spec fn read_position(s: Source) -> (nat, Source) {
    let (w, s1) = bits::next_bits(s, 8, 0);
    let u = p_window(w as int);
    let (v, s2) = bits::next_bits(s1, (p_len(u) - 2) as nat, w);
    ((u * 64 + v % 64) as nat, s2)
}

/// A code aligned to the left is the short code times its span.
pub proof fn lemma_short_code(u: int)
    requires
        0 <= u < 64,
    ensures
        ({
            let len = p_len(u);
            let span = bits::pow2((8 - len) as nat);
            &&& p_short(u) * span == p_code(u)
            &&& p_short(u) < bits::pow2(len as nat)
            &&& span * bits::pow2((len - 2) as nat) == 64
            &&& bits::pow2((len - 2) as nat) > 0
        }),
{
    bits::lemma_pow2_small();
    lemma_p_code(u);
    let len = p_len(u);
    let x = p_short(u) as int;
    let span = bits::pow2((8 - len) as nat) as int;
    let q = bits::pow2((len - 2) as nat) as int;
    let (c, d) = if u < 1 {
        (32int, 2int)
    } else if u < 4 {
        (16int, 4int)
    } else if u < 12 {
        (8int, 8int)
    } else if u < 24 {
        (4int, 16int)
    } else if u < 48 {
        (2int, 32int)
    } else {
        (1int, 64int)
    };
    assert(span == c && q == d);
    assert(c == 32 || c == 16 || c == 8 || c == 4 || c == 2 || c == 1);
    assert(x * span == p_code(u)) by {
        if c == 32 {
            assert(x * span == x * 32) by (nonlinear_arith) requires span == 32;
        } else if c == 16 {
            assert(x * span == x * 16) by (nonlinear_arith) requires span == 16;
        } else if c == 8 {
            assert(x * span == x * 8) by (nonlinear_arith) requires span == 8;
        } else if c == 4 {
            assert(x * span == x * 4) by (nonlinear_arith) requires span == 4;
        } else if c == 2 {
            assert(x * span == x * 2) by (nonlinear_arith) requires span == 2;
        } else {
            assert(x * span == x) by (nonlinear_arith) requires span == 1;
        }
    }
    assert(span * q == 64) by (nonlinear_arith)
        requires
            span == c,
            q == d,
            c == 32 && d == 2 || c == 16 && d == 4 || c == 8 && d == 8 || c == 4 && d == 16 || c == 2
                && d == 32 || c == 1 && d == 64,
    ;
}

/// A position is read back as it was written.
pub proof fn lemma_position_roundtrip(position: nat, tail: Seq<bool>, over: bool)
    requires
        position < 4096,
    ensures
        read_position(Source { rest: position_bits(position) + tail, overrun: over }) == (
            position,
            Source { rest: tail, overrun: over },
        ),
{
    bits::lemma_pow2_small();
    let u = (position / 64) as int;
    let low = position % 64;
    let len = p_len(u);
    let k = (8 - len) as nat;
    let span = bits::pow2(k);
    lemma_p_code(u);
    let code = p_short(u);
    lemma_short_code(u);
    // All len + 6 bits as one number, then as the window and what follows.
    bits::lemma_bits_of_split(len as nat, 6, code, low);
    let m = (len - 2) as nat;
    let q = bits::pow2(m);
    let all = code * 64 + low;
    let hi = (low / q) as nat;
    let lo = (low % q) as nat;
    let w = (p_code(u) + hi) as nat;
    assert(low == hi * q + lo && lo < q) by (nonlinear_arith)
        requires
            q > 0,
            hi == low / q,
            lo == low % q,
    ;
    assert(hi < span) by (nonlinear_arith)
        requires
            low < 64,
            low == hi * q + lo,
            span * q == 64,
            q > 0,
    ;
    assert(all == w * q + lo) by (nonlinear_arith)
        requires
            all == code * 64 + low,
            low == hi * q + lo,
            code * span == p_code(u),
            w == p_code(u) + hi,
            span * q == 64,
    ;
    bits::lemma_bits_of_split(8, m, w, lo);
    assert(8 + m == len as nat + 6);
    assert(position_bits(position) == bits::bits_of(8, w) + bits::bits_of(m, lo));
    let s = Source { rest: position_bits(position) + tail, overrun: over };
    assert(s.rest =~= bits::bits_of(8, w) + (bits::bits_of(m, lo) + tail));
    lemma_p_window(u, hi as int);
    bits::lemma_next_bits_of(8, w, bits::bits_of(m, lo) + tail, 0, over);
    bits::lemma_next_bits_of(m, lo, tail, w, over);
    assert(w * q + lo == code * 64 + low);
    assert((code * 64 + low) % 64 == low);
    assert(u * 64 + low == position);
}

/// The tables that positions are written with.
pub struct PositionEncoder {
    lens: Vec<u8>,
    codes: Vec<u8>,
}

impl PositionEncoder {
    pub closed spec fn inv(&self) -> bool {
        &&& self.lens@.len() == 64
        &&& self.codes@.len() == 64
        &&& forall|u: int| 0 <= u < 64 ==> #[trigger] self.lens@[u] == p_len(u)
        &&& forall|u: int| 0 <= u < 64 ==> #[trigger] self.codes@[u] == p_code(u)
    }

    pub fn new() -> (r: PositionEncoder)
        ensures
            r.inv(),
    {
        PositionEncoder { lens: p_len_table(), codes: p_code_table() }
    }

    /// Writes a position.
    pub fn encode_position(&self, out: &mut BitWriter, position: usize)
        requires
            self.inv(),
            old(out).inv(),
            position < 4096,
        ensures
            final(out).inv(),
            final(out).written() == old(out).written() + position_bits(position as nat),
    {
        let u: usize = position / 64;
        let len: u8 = self.lens[u];
        let code: u8 = self.codes[u];
        proof {
            bits::lemma_pow2_small();
            lemma_p_code(u as int);
            assert(code >> 5 == code / 32 && code >> 4 == code / 16 && code >> 3 == code / 8 && code
                >> 2 == code / 4 && code >> 1 == code / 2 && code >> 0 == code) by (bit_vector);
        }
        let short: u8 = code >> (8 - len);
        proof {
            lemma_short_code(u as int);
            assert(short as nat == p_short(u as int));
        }
        out.put(len as u32, short as u64);
        out.put(6, (position % 64) as u64);
        assert(out.written() =~= old(out).written() + position_bits(position as nat));
    }
}

/// The tables that positions are read with.
pub struct PositionDecoder {
    uppers: Vec<u8>,
    lens: Vec<u8>,
}

impl PositionDecoder {
    pub closed spec fn inv(&self) -> bool {
        &&& self.uppers@.len() == 256
        &&& self.lens@.len() == 256
        &&& forall|i: int| 0 <= i < 256 ==> #[trigger] self.uppers@[i] == p_window(i)
        &&& forall|i: int| 0 <= i < 256 ==> #[trigger] self.lens@[i] == p_len(p_window(i))
    }

    pub fn new() -> (r: PositionDecoder)
        ensures
            r.inv(),
    {
        let (uppers, lens) = d_tables();
        PositionDecoder { uppers, lens }
    }

    /// Reads a position.
    pub fn decode_position(&self, input: &mut BitReader) -> (r: usize)
        requires
            self.inv(),
            old(input).inv(),
        ensures
            final(input).inv(),
            (r as nat, final(input).source()) == read_position(old(input).source()),
            r < 4096,
    {
        proof {
            bits::lemma_next_bits_bound(input.source(), 8, 0);
            bits::lemma_pow2_small();
        }
        let w = input.get(8);
        let u: usize = self.uppers[w as usize] as usize;
        let more: u32 = self.lens[w as usize] as u32 - 2;
        let mut v: u32 = w;
        let mut k: u32 = 0;
        let ghost mid = input.source();
        while k < more
            invariant
                k <= more <= 6,
                input.inv(),
                v < 0x100 * bits::pow2(k as nat),
                bits::next_bits(mid, more as nat, w as nat) == bits::next_bits(
                    input.source(),
                    (more - k) as nat,
                    v as nat,
                ),
            decreases more - k,
        {
            proof {
                bits::lemma_pow2_small();
            }
            let b = input.bit();
            v = 2 * v + if b {
                1
            } else {
                0
            };
            k += 1;
        }
        u * 64 + (v % 64) as usize
    }
}

} // verus!

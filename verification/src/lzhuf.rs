//! LZHUF compression in the FBB "B2" container used by Winlink.
//!
//! The stream is classic LZHUF (LZSS back-references coded with an adaptive
//! Huffman tree) with the FBB parameters: 2 KiB window, 60-byte lookahead.
//! The B2 container prepends a CRC-16/XMODEM (little-endian) computed over
//! everything that follows it, then the uncompressed length (u32 LE).
//!
//! The encoder uses hash chains with one-step lazy matching; which matches it
//! chooses is its own affair, and does not touch the bit format.

use vstd::prelude::*;

use crate::lzhuf::bits::{BitReader, BitWriter, Source};
use crate::lzhuf::matcher::{Matcher, F, THRESHOLD};
use crate::lzhuf::position::{PositionDecoder, PositionEncoder};
use crate::lzhuf::tree::{Shape, Tree};
use crate::text;

pub mod bits;
pub mod crc;
pub mod laws;
pub mod matcher;
pub mod position;
pub mod stream_laws;
pub mod tree;
pub mod tree_laws;

pub use crate::lzhuf::crc::crc16;

verus! {

/// Refuse absurd length headers instead of allocating them.
pub const MAX_UNCOMPRESSED: usize = 67108864;

/// Window of the decoder.
pub const N: usize = 2048;

// ---------------------------------------------------------------------
// Reading

/// What a decoder takes to stand before the first byte.
pub open spec fn window() -> Seq<u8> {
    Seq::new(F as nat, |i: int| 0u8) + Seq::new((N - F) as nat, |i: int| 32u8)
}

/// Appends `n` bytes to `h`, each the one that stands `dist` before its end.
pub open spec fn copied(h: Seq<u8>, dist: nat, n: nat) -> Seq<u8>
    decreases n,
{
    if n == 0 {
        h
    } else {
        copied(h.push(h[h.len() - dist]), dist, (n - 1) as nat)
    }
}

/// Reads symbols until the window and what came out fill `goal` bytes.
pub open spec fn unpacked(t: Shape, s: Source, h: Seq<u8>, goal: nat) -> Result<
    Seq<u8>,
    Seq<char>,
>
    decreases goal - h.len(),
{
    if h.len() >= goal {
        Ok(h.skip(N as int))
    } else {
        let (symbol, s1) = tree::walk(t.son, tree::R as int, s);
        let t1 = tree::updated(t, symbol);
        if symbol < 256 {
            if s1.overrun {
                Err("compressed data ends early"@)
            } else {
                unpacked(t1, s1, h.push(symbol as u8), goal)
            }
        } else {
            let (position, s2) = position::read_position(s1);
            let dist = position % (N as nat) + 1;
            let len = (symbol - 253) as nat;
            if h.len() + len > goal {
                Err("compressed data runs past the declared length"@)
            } else if s2.overrun {
                Err("compressed data ends early"@)
            } else {
                proof {
                    lemma_copied_len(h, dist, len);
                }
                unpacked(t1, s2, copied(h, dist, len), goal)
            }
        }
    }
}

/// The `size` bytes that a raw LZHUF stream decodes to.
pub open spec fn decompressed(stream: Seq<u8>, size: nat) -> Result<Seq<u8>, Seq<char>> {
    unpacked(
        tree::initial(),
        Source { rest: bits::bits_in(stream), overrun: false },
        window(),
        N as nat + size,
    )
}

pub proof fn lemma_copied_len(h: Seq<u8>, dist: nat, n: nat)
    ensures
        copied(h, dist, n).len() == h.len() + n,
    decreases n,
{
    if n > 0 {
        lemma_copied_len(h.push(h[h.len() - dist]), dist, (n - 1) as nat);
    }
}

/// The texts of a result.
pub open spec fn plain(r: Result<Vec<u8>, String>) -> Result<Seq<u8>, Seq<char>> {
    match r {
        Ok(v) => Ok(v@),
        Err(e) => Err(e@),
    }
}

/// The byte that stands `dist` before the end of the window and `out`.
fn back(out: &Vec<u8>, dist: usize) -> (r: u8)
    requires
        1 <= dist <= N,
    ensures
        r == (window() + out@)[N + out@.len() - dist],
{
    let n: usize = out.len();
    if dist <= n {
        out[n - dist]
    } else if dist - n <= N - F {
        32
    } else {
        0
    }
}

/// Decodes `size` bytes from a raw LZHUF stream.
pub fn decompress(stream: &[u8], size: usize) -> (r: Result<Vec<u8>, String>)
    ensures
        plain(r) == decompressed(stream@, size as nat),
{
    let mut tree = Tree::new();
    let mut input = BitReader::new(stream);
    let positions = PositionDecoder::new();
    let mut out: Vec<u8> = Vec::new();
    let ghost goal = N as nat + size as nat;
    assert(window() + out@ =~= window());
    while out.len() < size
        invariant
            tree.inv(),
            input.inv(),
            positions.inv(),
            goal == N as nat + size as nat,
            out@.len() <= size,
            !input.source().overrun,
            decompressed(stream@, size as nat) == unpacked(
                tree.shape(),
                input.source(),
                window() + out@,
                goal,
            ),
        decreases size - out@.len(),
    {
        let ghost h = window() + out@;
        let symbol = tree.decode_symbol(&mut input);
        if symbol < 256 {
            out.push(symbol as u8);
            assert(window() + out@ =~= h.push(symbol as u8));
        } else {
            let position = positions.decode_position(&mut input);
            let dist: usize = position % N + 1;
            let len: usize = symbol - 253;
            if len > size - out.len() {
                return Err("compressed data runs past the declared length".to_owned());
            }
            let ghost whole = copied(h, dist as nat, len as nat);
            proof {
                lemma_copied_len(h, dist as nat, len as nat);
            }
            let ghost start = out@.len();
            for k in 0..len
                invariant
                    1 <= dist <= N,
                    out@.len() == start + k,
                    whole == copied(window() + out@, dist as nat, (len - k) as nat),
            {
                let ghost before = window() + out@;
                let byte = back(&out, dist);
                out.push(byte);
                assert(window() + out@ =~= before.push(byte));
            }
        }
        if input.is_overrun() {
            return Err("compressed data ends early".to_owned());
        }
    }
    assert((window() + out@).skip(N as int) =~= out@);
    Ok(out)
}

// ---------------------------------------------------------------------
// Writing

/// What is written next.
pub enum Token {
    Literal(u8),
    Match { len: nat, dist: nat },
}

/// The choice at `pos`: the longest match, unless a literal now buys a longer
/// match next.
pub open spec fn next_token(data: Seq<u8>, pos: int) -> Token {
    let (len, dist) = matcher::found(data, pos);
    if len <= THRESHOLD {
        Token::Literal(data[pos])
    } else if len < F && pos + 1 < data.len() && matcher::found(data, pos + 1).0 > len {
        Token::Literal(data[pos])
    } else {
        Token::Match { len, dist }
    }
}

/// The bits of `data` from `pos` on.
pub open spec fn stream_bits(t: Shape, data: Seq<u8>, pos: int) -> Seq<bool>
    decreases data.len() - pos,
{
    if !(0 <= pos < data.len()) {
        seq![]
    } else {
        proof {
            matcher::lemma_found(data, pos);
        }
        match next_token(data, pos) {
            Token::Literal(b) => tree::symbol_bits(t, b as int) + stream_bits(
                tree::updated(t, b as int),
                data,
                pos + 1,
            ),
            Token::Match { len, dist } => tree::symbol_bits(t, 253int + len)
                + position::position_bits((dist - 1) as nat) + stream_bits(
                tree::updated(t, 253int + len),
                data,
                pos + len,
            ),
        }
    }
}

/// The raw LZHUF stream of `data`.
pub open spec fn compressed(data: Seq<u8>) -> Seq<u8> {
    bits::packed(stream_bits(tree::initial(), data, 0))
}

/// Raw LZHUF stream (no container).
pub fn compress(data: &[u8]) -> (r: Vec<u8>)
    ensures
        r@ == compressed(data@),
{
    let mut tree = Tree::new();
    let mut out = BitWriter::new();
    let positions = PositionEncoder::new();
    let mut matcher = Matcher::new(data);
    let mut pos: usize = 0;
    let ghost goal = stream_bits(tree::initial(), data@, 0);
    assert(goal =~= out.written() + goal);
    while pos < data.len()
        invariant
            tree.inv(),
            out.inv(),
            positions.inv(),
            matcher.inv(),
            matcher.data() == data@,
            matcher.upto() <= pos <= data@.len(),
            goal == out.written() + stream_bits(tree.shape(), data@, pos as int),
        decreases data@.len() - pos,
    {
        let ghost done = out.written();
        let ghost t = tree.shape();
        let ghost here = pos as int;
        let (len, dist) = matcher.find(pos);
        let mut lazy = false;
        if len > THRESHOLD && len < F && pos + 1 < data.len() {
            let (next_len, _) = matcher.find(pos + 1);
            lazy = next_len > len;
        }
        if len > THRESHOLD && !lazy {
            tree.encode_symbol(&mut out, 253 + len);
            positions.encode_position(&mut out, dist - 1);
            pos += len;
        } else {
            tree.encode_symbol(&mut out, data[pos] as usize);
            pos += 1;
        }
        assert(done + stream_bits(t, data@, here) =~= out.written() + stream_bits(
            tree.shape(),
            data@,
            pos as int,
        ));
    }
    assert(out.written() =~= goal);
    out.finish()
}

// ---------------------------------------------------------------------
// What was written is read back

/// Copying a match appends what stands at `pos`.
proof fn lemma_copied_match(data: Seq<u8>, pos: int, k: int, len: nat, dist: nat)
    requires
        0 <= pos < data.len(),
        len > 0,
        matcher::is_match(data, pos, len, dist),
        0 <= k <= len,
    ensures
        copied(window() + data.take(pos + k), dist, (len - k) as nat) == window() + data.take(
            pos + len,
        ),
    decreases len - k,
{
    if k < len {
        let h = window() + data.take(pos + k);
        lemma_copied_match(data, pos, k + 1, len, dist);
        assert(data[pos + k] == data[pos + k - dist]);
        assert(h[h.len() - dist] == data[pos + k]);
        assert(h.push(data[pos + k]) =~= window() + data.take(pos + k + 1));
    }
}

/// One step back from a literal.
proof fn lemma_unpack_literal(t: Shape, h: Seq<u8>, b: u8, more: Seq<bool>, goal: nat)
    requires
        tree::wf(t),
        h.len() < goal,
    ensures
        unpacked(
            t,
            Source { rest: tree::symbol_bits(t, b as int) + more, overrun: false },
            h,
            goal,
        ) == unpacked(
            tree::updated(t, b as int),
            Source { rest: more, overrun: false },
            h.push(b),
            goal,
        ),
{
    tree::lemma_symbol_roundtrip(t, b as int, more, false);
}

/// One step back from a match.
proof fn lemma_unpack_match(
    t: Shape,
    h: Seq<u8>,
    len: nat,
    dist: nat,
    more: Seq<bool>,
    goal: nat,
)
    requires
        tree::wf(t),
        3 <= len <= F,
        1 <= dist <= N,
        h.len() + len <= goal,
    ensures
        unpacked(
            t,
            Source {
                rest: tree::symbol_bits(t, 253int + len) + (position::position_bits(
                    (dist - 1) as nat,
                ) + more),
                overrun: false,
            },
            h,
            goal,
        ) == unpacked(
            tree::updated(t, 253int + len),
            Source { rest: more, overrun: false },
            copied(h, dist, len),
            goal,
        ),
{
    let mid = position::position_bits((dist - 1) as nat) + more;
    tree::lemma_symbol_roundtrip(t, 253int + len, mid, false);
    position::lemma_position_roundtrip((dist - 1) as nat, more, false);
}

proof fn lemma_unpacked_stream(t: Shape, data: Seq<u8>, pos: int, tail: Seq<bool>)
    requires
        tree::wf(t),
        0 <= pos <= data.len(),
    ensures
        unpacked(
            t,
            Source { rest: stream_bits(t, data, pos) + tail, overrun: false },
            window() + data.take(pos),
            N as nat + data.len(),
        ) == Ok::<Seq<u8>, Seq<char>>(data),
    decreases data.len() - pos,
{
    let h = window() + data.take(pos);
    let goal = N as nat + data.len();
    if pos >= data.len() {
        assert(h.skip(N as int) =~= data);
    } else {
        matcher::lemma_found(data, pos);
        let rest = stream_bits(t, data, pos) + tail;
        match next_token(data, pos) {
            Token::Literal(b) => {
                let t1 = tree::updated(t, b as int);
                let more = stream_bits(t1, data, pos + 1) + tail;
                assert(rest =~= tree::symbol_bits(t, b as int) + more);
                lemma_unpack_literal(t, h, b, more, goal);
                tree::lemma_updated(t, b as int);
                lemma_unpacked_stream(t1, data, pos + 1, tail);
                assert(h.push(b) =~= window() + data.take(pos + 1));
            },
            Token::Match { len, dist } => {
                let symbol = 253int + len;
                let t1 = tree::updated(t, symbol);
                let more = stream_bits(t1, data, pos + len) + tail;
                let mid = position::position_bits((dist - 1) as nat) + more;
                assert(rest =~= tree::symbol_bits(t, symbol) + mid);
                lemma_unpack_match(t, h, len, dist, more, goal);
                tree::lemma_updated(t, symbol);
                lemma_copied_match(data, pos, 0, len, dist);
                lemma_unpacked_stream(t1, data, pos + len, tail);
            },
        }
    }
}

/// Whatever is compressed decompresses to what it was.
pub proof fn law_decompress_compress(data: Seq<u8>)
    ensures
        decompressed(compressed(data), data.len()) == Ok::<Seq<u8>, Seq<char>>(data),
{
    let all = stream_bits(tree::initial(), data, 0);
    bits::lemma_packed(all);
    tree::lemma_initial();
    lemma_unpacked_stream(
        tree::initial(),
        data,
        0,
        bits::zeros(((8 - all.len() % 8) % 8) as nat),
    );
    assert(window() + data.take(0) =~= window());
}

// ---------------------------------------------------------------------
// The container

pub open spec fn le16(v: int) -> Seq<u8> {
    seq![(v % 256) as u8, (v / 256 % 256) as u8]
}

/// Four bytes, least significant first; `v` is taken modulo 2^32.
pub open spec fn le32(v: int) -> Seq<u8> {
    seq![
        (v % 256) as u8,
        (v / 256 % 256) as u8,
        (v / 65536 % 256) as u8,
        (v / 16777216 % 256) as u8,
    ]
}

/// The number that four bytes spell, least significant first.
pub open spec fn from_le32(b: Seq<u8>) -> nat {
    (b[0] + 256 * b[1] + 65536 * b[2] + 16777216 * b[3]) as nat
}

pub fn le32_bytes(v: usize) -> (r: Vec<u8>)
    ensures
        r@ == le32(v as int),
{
    let mut out: Vec<u8> = Vec::new();
    out.push((v % 256) as u8);
    out.push((v / 256 % 256) as u8);
    out.push((v / 65536 % 256) as u8);
    out.push((v / 16777216 % 256) as u8);
    assert(out@ =~= le32(v as int));
    out
}

/// The number that four bytes spell, least significant first.
pub fn read_le32(a: u8, b: u8, c: u8, d: u8) -> (r: usize)
    ensures
        r == from_le32(seq![a, b, c, d]),
        r <= 0xffff_ffff,
{
    a as usize + 256 * (b as usize) + 65536 * (c as usize) + 16777216 * (d as usize)
}

/// What the checksum covers: the length, then the stream.
pub open spec fn container_body(data: Seq<u8>) -> Seq<u8> {
    le32(data.len() as int) + compressed(data)
}

/// The B2 container of `data`.
pub open spec fn container(data: Seq<u8>) -> Seq<u8> {
    le16(crc::crc(container_body(data)) as int) + container_body(data)
}

/// Compresses `data` into the B2 container sent in B2F `FC` proposals.
pub fn encode_b2(data: &[u8]) -> (r: Vec<u8>)
    ensures
        r@ == container(data@),
{
    let mut body = le32_bytes(data.len());
    let stream = compress(data);
    body.extend_from_slice(&stream);
    assert(body@ =~= container_body(data@));
    let sum: u16 = crc16(&body);
    let mut out: Vec<u8> = Vec::new();
    out.push((sum % 256) as u8);
    out.push((sum / 256) as u8);
    out.extend_from_slice(&body);
    assert(out@ =~= container(data@));
    out
}

/// What a B2 container holds, or why it is refused: too short, a wrong
/// checksum, an absurd length, or a stream that does not fit the length.
pub open spec fn opened(data: Seq<u8>) -> Result<Seq<u8>, Seq<char>> {
    if data.len() < 6 {
        Err("compressed message too short ("@ + text::decimal(data.len()) + " bytes)"@)
    } else {
        let stored = data[0] + 256 * data[1];
        let actual = crc::crc(data.skip(2));
        let size = from_le32(data.subrange(2, 6));
        if stored != actual {
            Err(
                "compressed message CRC mismatch (header "@ + text::hex(stored as nat, 4)
                    + ", data "@ + text::hex(actual as nat, 4) + ")"@,
            )
        } else if size > MAX_UNCOMPRESSED {
            Err("message claims "@ + text::decimal(size) + " bytes uncompressed; refusing"@)
        } else {
            decompressed(data.skip(6), size)
        }
    }
}

/// Verifies and decompresses a B2 container.
pub fn decode_b2(data: &[u8]) -> (r: Result<Vec<u8>, String>)
    ensures
        plain(r) == opened(data@),
{
    if data.len() < 6 {
        return Err(
            text::cat3(
                "compressed message too short (",
                &text::size_text(data.len()),
                " bytes)",
            ),
        );
    }
    let stored: u64 = data[0] as u64 + 256 * (data[1] as u64);
    let body = &data[2..data.len()];
    assert(body@ =~= data@.skip(2));
    let actual: u64 = crc16(body) as u64;
    if stored != actual {
        return Err(
            text::cat5(
                "compressed message CRC mismatch (header ",
                &text::string(&text::hex_chars(stored, 4)),
                ", data ",
                &text::string(&text::hex_chars(actual, 4)),
                ")",
            ),
        );
    }
    let size = read_le32(data[2], data[3], data[4], data[5]);
    assert(data@.subrange(2, 6) =~= seq![data@[2], data@[3], data@[4], data@[5]]);
    if size > MAX_UNCOMPRESSED {
        return Err(
            text::cat3("message claims ", &text::size_text(size), " bytes uncompressed; refusing"),
        );
    }
    let stream = &data[6..data.len()];
    assert(stream@ =~= data@.skip(6));
    decompress(stream, size)
}

/// A container opens to what was put in, as long as its length is one that
/// readers accept.
pub proof fn law_container_roundtrip(data: Seq<u8>)
    requires
        data.len() <= MAX_UNCOMPRESSED,
    ensures
        opened(container(data)) == Ok::<Seq<u8>, Seq<char>>(data),
{
    let c = container(data);
    let body = container_body(data);
    assert(c.skip(2) =~= body);
    assert(c.skip(6) =~= compressed(data));
    assert(c.subrange(2, 6) =~= le32(data.len() as int));
    let sum = crc::crc(body);
    assert(c[0] + 256 * c[1] == sum);
    let n = data.len() as int;
    assert(from_le32(le32(n)) == n) by {
        assert(n % 256 + 256 * (n / 256 % 256) + 65536 * (n / 65536 % 256) + 16777216 * (n
            / 16777216 % 256) == n) by (nonlinear_arith)
            requires
                0 <= n <= 67108864,
        ;
    }
    law_decompress_compress(data);
}

} // verus!

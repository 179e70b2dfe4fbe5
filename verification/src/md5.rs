//! MD5 (RFC 1321), for message identifiers and the secure login.

use vstd::prelude::*;

verus! {

/// `floor(2^32 * abs(sin(i + 1)))`.
pub const SINES: [u32; 64] = [
    0xd76aa478, 0xe8c7b756, 0x242070db, 0xc1bdceee, 0xf57c0faf, 0x4787c62a,
    0xa8304613, 0xfd469501, 0x698098d8, 0x8b44f7af, 0xffff5bb1, 0x895cd7be,
    0x6b901122, 0xfd987193, 0xa679438e, 0x49b40821, 0xf61e2562, 0xc040b340,
    0x265e5a51, 0xe9b6c7aa, 0xd62f105d, 0x02441453, 0xd8a1e681, 0xe7d3fbc8,
    0x21e1cde6, 0xc33707d6, 0xf4d50d87, 0x455a14ed, 0xa9e3e905, 0xfcefa3f8,
    0x676f02d9, 0x8d2a4c8a, 0xfffa3942, 0x8771f681, 0x6d9d6122, 0xfde5380c,
    0xa4beea44, 0x4bdecfa9, 0xf6bb4b60, 0xbebfbc70, 0x289b7ec6, 0xeaa127fa,
    0xd4ef3085, 0x04881d05, 0xd9d4d039, 0xe6db99e5, 0x1fa27cf8, 0xc4ac5665,
    0xf4292244, 0x432aff97, 0xab9423a7, 0xfc93a039, 0x655b59c3, 0x8f0ccc92,
    0xffeff47d, 0x85845dd1, 0x6fa87e4f, 0xfe2ce6e0, 0xa3014314, 0x4e0811a1,
    0xf7537e82, 0xbd3af235, 0x2ad7d2bb, 0xeb86d391,
];

/// Rotations, four to each round.
pub const TURNS: [u32; 16] = [7, 12, 17, 22, 5, 9, 14, 20, 4, 11, 16, 23, 6, 10, 15, 21];

/// The four words of the state.
#[derive(Clone, Copy)]
pub struct State {
    pub a: u32,
    pub b: u32,
    pub c: u32,
    pub d: u32,
}

/// Modular sum.
pub open spec fn plus(x: u32, y: u32) -> u32 {
    x.wrapping_add(y)
}

pub open spec fn rotated(x: u32, n: u32) -> u32 {
    (x << n) | (x >> ((32 - n) as u32))
}

/// The function of the round that step `i` belongs to.
pub open spec fn mixed(i: int, b: u32, c: u32, d: u32) -> u32 {
    if i < 16 {
        (b & c) | (!b & d)
    } else if i < 32 {
        (d & b) | (!d & c)
    } else if i < 48 {
        b ^ c ^ d
    } else {
        c ^ (b | !d)
    }
}

/// The word of the block that step `i` takes in.
pub open spec fn word_at(i: int) -> int {
    if i < 16 {
        i
    } else if i < 32 {
        (5 * i + 1) % 16
    } else if i < 48 {
        (3 * i + 5) % 16
    } else {
        (7 * i) % 16
    }
}

/// Step `i`.
pub open spec fn stepped(s: State, m: Seq<u32>, i: int) -> State {
    let sum = plus(
        plus(s.a, mixed(i, s.b, s.c, s.d)),
        plus(SINES@[i], m[word_at(i)]),
    );
    State { a: s.d, b: plus(s.b, rotated(sum, TURNS@[i / 16 * 4 + i % 4])), c: s.b, d: s.c }
}

/// The first `n` steps.
pub open spec fn steps(s: State, m: Seq<u32>, n: nat) -> State
    decreases n,
{
    if n == 0 {
        s
    } else {
        stepped(steps(s, m, (n - 1) as nat), m, n - 1)
    }
}

/// A little-endian word.
pub open spec fn word(b: Seq<u8>, at: int) -> u32 {
    (b[at] + 256 * b[at + 1] + 65536 * b[at + 2] + 16777216 * b[at + 3]) as u32
}

/// The sixteen words of the 64 bytes from `at` on.
pub open spec fn block(b: Seq<u8>, at: int) -> Seq<u32> {
    Seq::new(16, |i: int| word(b, at + 4 * i))
}

/// All 64 steps on one block, added to what was there before.
pub open spec fn absorbed(s: State, m: Seq<u32>) -> State {
    let t = steps(s, m, 64);
    State { a: plus(s.a, t.a), b: plus(s.b, t.b), c: plus(s.c, t.c), d: plus(s.d, t.d) }
}

pub open spec fn start() -> State {
    State { a: 0x67452301, b: 0xefcdab89, c: 0x98badcfe, d: 0x10325476 }
}

/// The state after the first `n` blocks.
pub open spec fn hashed(b: Seq<u8>, n: nat) -> State
    decreases n,
{
    if n == 0 {
        start()
    } else {
        absorbed(hashed(b, (n - 1) as nat), block(b, 64 * (n - 1)))
    }
}

/// `n` bytes of `v`, least significant first.
pub open spec fn le_bytes(v: int, n: nat) -> Seq<u8>
    decreases n,
{
    if n == 0 {
        seq![]
    } else {
        seq![(v % 256) as u8] + le_bytes(v / 256, (n - 1) as nat)
    }
}

/// The message, a one bit, zeros up to eight bytes short of whole blocks, and
/// the length in bits (modulo 2^64).
pub open spec fn filled(msg: Seq<u8>) -> Seq<u8> {
    msg + seq![0x80u8] + Seq::new(((119 - msg.len() % 64) % 64) as nat, |i: int| 0u8) + le_bytes(
        8int * msg.len(),
        8,
    )
}

/// The 16 bytes of the digest.
pub open spec fn md5(msg: Seq<u8>) -> Seq<u8> {
    let f = filled(msg);
    let s = hashed(f, f.len() / 64);
    le_bytes(s.a as int, 4) + le_bytes(s.b as int, 4) + le_bytes(s.c as int, 4) + le_bytes(
        s.d as int,
        4,
    )
}

fn push_le(out: &mut Vec<u8>, v: u64, n: usize)
    ensures
        final(out)@ == old(out)@ + le_bytes(v as int, n as nat),
    decreases n,
{
    if n > 0 {
        let ghost before = out@;
        out.push((v % 256) as u8);
        push_le(out, v / 256, n - 1);
        assert(out@ =~= before + le_bytes(v as int, n as nat));
    } else {
        assert(out@ =~= out@ + le_bytes(v as int, 0));
    }
}

fn step(s: State, m: &Vec<u32>, i: usize) -> (r: State)
    requires
        i < 64,
        m@.len() == 16,
    ensures
        r == stepped(s, m@, i as int),
{
    let f: u32 = if i < 16 {
        (s.b & s.c) | (!s.b & s.d)
    } else if i < 32 {
        (s.d & s.b) | (!s.d & s.c)
    } else if i < 48 {
        s.b ^ s.c ^ s.d
    } else {
        s.c ^ (s.b | !s.d)
    };
    let g: usize = if i < 16 {
        i
    } else if i < 32 {
        (5 * i + 1) % 16
    } else if i < 48 {
        (3 * i + 5) % 16
    } else {
        (7 * i) % 16
    };
    let sines = SINES;
    let turns = TURNS;
    let n: u32 = turns[i / 16 * 4 + i % 4];
    assert(4 <= n <= 23) by {
        let k = i / 16 * 4 + i % 4;
        assert(0 <= k < 16);
        assert(TURNS@[0] == 7 && TURNS@[1] == 12 && TURNS@[2] == 17 && TURNS@[3] == 22 && TURNS@[4]
            == 5 && TURNS@[5] == 9 && TURNS@[6] == 14 && TURNS@[7] == 20 && TURNS@[8] == 4
            && TURNS@[9] == 11 && TURNS@[10] == 16 && TURNS@[11] == 23 && TURNS@[12] == 6
            && TURNS@[13] == 10 && TURNS@[14] == 15 && TURNS@[15] == 21);
    }
    let sum: u32 = s.a.wrapping_add(f).wrapping_add(sines[i].wrapping_add(m[g]));
    let turned: u32 = (sum << n) | (sum >> (32 - n));
    State { a: s.d, b: s.b.wrapping_add(turned), c: s.b, d: s.c }
}

/// The message filled up to whole blocks.
fn fill(msg: &[u8]) -> (r: Vec<u8>)
    ensures
        r@ == filled(msg@),
        r@.len() % 64 == 0,
{
    let mut data: Vec<u8> = Vec::new();
    data.extend_from_slice(msg);
    data.push(0x80);
    let zeros: usize = (119 - msg.len() % 64) % 64;
    for i in 0..zeros
        invariant
            data@ == msg@ + seq![0x80u8] + Seq::new(i as nat, |j: int| 0u8),
    {
        data.push(0);
        assert(data@ =~= msg@ + seq![0x80u8] + Seq::new((i + 1) as nat, |j: int| 0u8));
    }
    let bits: u64 = (msg.len() as u64).wrapping_mul(8);
    push_le(&mut data, bits, 8);
    proof {
        lemma_le_bytes_mod(8int * msg@.len(), 8);
        lemma_le_bytes_len(8int * msg@.len(), 8);
        assert(0x1_0000_0000_0000_0000 == pow256(8)) by {
            reveal_with_fuel(pow256, 9);
        }
        assert(data@ =~= filled(msg@));
    }
    data
}

/// The words of one block.
fn words(data: &Vec<u8>, n: usize) -> (m: Vec<u32>)
    requires
        64 * n + 64 <= data@.len(),
    ensures
        m@ == block(data@, 64 * n),
        m@.len() == 16,
{
    let mut m: Vec<u32> = Vec::new();
    let total: usize = data.len();
    for i in 0..16usize
        invariant
            total == data@.len(),
            64 * n + 64 <= total,
            m@ == block(data@, 64 * n).take(i as int),
    {
        let at: usize = 64 * n + 4 * i;
        let w: u32 = data[at] as u32 + 256 * (data[at + 1] as u32) + 65536 * (data[at + 2] as u32)
            + 16777216 * (data[at + 3] as u32);
        m.push(w);
        assert(block(data@, 64 * n).take(i + 1) =~= block(data@, 64 * n).take(i as int).push(w));
    }
    assert(m@ =~= block(data@, 64 * n));
    m
}

/// All 64 steps on one block.
fn absorb(before: State, m: &Vec<u32>) -> (r: State)
    requires
        m@.len() == 16,
    ensures
        r == absorbed(before, m@),
{
    let mut s = before;
    for i in 0..64usize
        invariant
            m@.len() == 16,
            s == steps(before, m@, i as nat),
    {
        s = step(s, m, i);
    }
    State {
        a: before.a.wrapping_add(s.a),
        b: before.b.wrapping_add(s.b),
        c: before.c.wrapping_add(s.c),
        d: before.d.wrapping_add(s.d),
    }
}

/// The MD5 digest, 16 bytes.
pub fn digest(msg: &[u8]) -> (r: Vec<u8>)
    ensures
        r@ == md5(msg@),
        r@.len() == 16,
{
    let data = fill(msg);
    let mut s = State { a: 0x67452301, b: 0xefcdab89, c: 0x98badcfe, d: 0x10325476 };
    let blocks: usize = data.len() / 64;
    for n in 0..blocks
        invariant
            data@.len() == 64 * blocks,
            s == hashed(data@, n as nat),
    {
        let m = words(&data, n);
        s = absorb(s, &m);
    }
    let mut out: Vec<u8> = Vec::new();
    push_le(&mut out, s.a as u64, 4);
    push_le(&mut out, s.b as u64, 4);
    push_le(&mut out, s.c as u64, 4);
    push_le(&mut out, s.d as u64, 4);
    proof {
        lemma_md5_len(msg@);
        assert(out@ =~= md5(msg@));
    }
    out
}

/// A digest has 16 bytes.
pub proof fn lemma_md5_len(msg: Seq<u8>)
    ensures
        md5(msg).len() == 16,
{
    let f = filled(msg);
    let s = hashed(f, f.len() / 64);
    lemma_le_bytes_len(s.a as int, 4);
    lemma_le_bytes_len(s.b as int, 4);
    lemma_le_bytes_len(s.c as int, 4);
    lemma_le_bytes_len(s.d as int, 4);
}

pub proof fn lemma_le_bytes_len(v: int, n: nat)
    ensures
        le_bytes(v, n).len() == n,
    decreases n,
{
    if n > 0 {
        lemma_le_bytes_len(v / 256, (n - 1) as nat);
    }
}

spec fn pow256(n: nat) -> int
    decreases n,
{
    if n == 0 {
        1
    } else {
        256 * pow256((n - 1) as nat)
    }
}

/// Only the low bytes count.
proof fn lemma_le_bytes_mod(v: int, n: nat)
    requires
        v >= 0,
    ensures
        le_bytes(v, n) == le_bytes(v % pow256(n), n),
        pow256(n) > 0,
    decreases n,
{
    if n > 0 {
        let p = pow256((n - 1) as nat);
        lemma_le_bytes_mod(v / 256, (n - 1) as nat);
        let w = v % (256 * p);
        vstd::arithmetic::div_mod::lemma_mod_breakdown(v, 256, p);
        // w == 256 * ((v / 256) % p) + v % 256
        assert(w / 256 == (v / 256) % p);
        assert(w % 256 == v % 256);
    }
}

} // verus!

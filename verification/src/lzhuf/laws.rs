//! Laws of the bit format that stations exchange.

use vstd::arithmetic::div_mod::*;
use vstd::arithmetic::power2::{lemma2_to64, lemma_pow2_pos, lemma_pow2_unfold, pow2};
use vstd::prelude::*;

use crate::lzhuf::bits;
use crate::lzhuf::bits::Source;
use crate::lzhuf::position;

verus! {

// ---------------------------------------------------------------------
// Bits and bytes

proof fn lemma_digit(n: nat, v: nat, i: int)
    requires
        0 <= i < n,
    ensures
        bits::bits_of(n, v)[i] == ((v as int / pow2((n - 1 - i) as nat) as int) % 2 == 1),
    decreases n,
{
    lemma_pow2_pos((n - 1 - i) as nat);
    bits::lemma_bits_of_len((n - 1) as nat, v / 2);
    if i == n - 1 {
        lemma2_to64();
        assert(v as int / 1 == v);
    } else {
        let k = (n - 2 - i) as nat;
        lemma_digit((n - 1) as nat, v / 2, i);
        lemma_pow2_pos(k);
        lemma_pow2_unfold(k + 1);
        lemma_div_denominator(v as int, 2, pow2(k) as int);
    }
}

/// A stream is read byte by byte, and each byte from its most significant bit
/// on.
pub proof fn law_most_significant_first(bytes: Seq<u8>, k: int, j: int)
    requires
        0 <= k < bytes.len(),
        0 <= j < 8,
    ensures
        bits::bits_in(bytes).len() == 8 * bytes.len(),
        bits::bits_in(bytes)[8 * k + j] == ((bytes[k] as int / pow2((7 - j) as nat) as int) % 2
            == 1),
    decreases bytes.len(),
{
    bits::lemma_bits_in_len(bytes);
    bits::lemma_bits_in_len(bytes.drop_last());
    bits::lemma_bits_of_len(8, bytes.last() as nat);
    if k == bytes.len() - 1 {
        lemma_digit(8, bytes.last() as nat, j);
    } else {
        law_most_significant_first(bytes.drop_last(), k, j);
    }
}

/// Bits are written in the same order, into as few bytes as hold them; what
/// is left of the last byte is zero.
pub proof fn law_bits_fill_bytes(b: Seq<bool>, i: int)
    requires
        0 <= i < 8 * bits::packed(b).len(),
    ensures
        b.len() <= 8 * bits::packed(b).len() < b.len() + 8,
        ((bits::packed(b)[i / 8] as int / pow2((7 - i % 8) as nat) as int) % 2 == 1) == (i < b.len()
            && b[i]),
{
    bits::lemma_packed(b);
    bits::lemma_bits_in_len(bits::packed(b));
    law_most_significant_first(bits::packed(b), i / 8, i % 8);
    assert(8 * (i / 8) + i % 8 == i);
}

/// Bits are read in order; behind the last one zeros are read, and the reader
/// knows.
pub proof fn law_bits_come_in_order(s: Source)
    ensures
        s.rest.len() > 0 ==> bits::next_bit(s) == (
            s.rest[0],
            Source { rest: s.rest.skip(1), overrun: s.overrun },
        ),
        s.rest.len() == 0 ==> !bits::next_bit(s).0 && bits::next_bit(s).1.overrun,
{
    assert(s.rest.len() > 0 ==> s.rest.drop_first() =~= s.rest.skip(1));
}

// ---------------------------------------------------------------------
// Positions

/// The number that bits spell, the most significant first.
pub open spec fn number(b: Seq<bool>) -> nat
    decreases b.len(),
{
    if b.len() == 0 {
        0
    } else {
        (if b[0] {
            pow2((b.len() - 1) as nat)
        } else {
            0
        }) + number(b.drop_first())
    }
}

proof fn lemma_number_push(b: Seq<bool>, x: bool)
    ensures
        number(b.push(x)) == 2 * number(b) + (if x {
            1nat
        } else {
            0
        }),
    decreases b.len(),
{
    lemma2_to64();
    if b.len() == 0 {
        assert(b.push(x).drop_first() =~= b);
    } else {
        lemma_number_push(b.drop_first(), x);
        assert(b.push(x).drop_first() =~= b.drop_first().push(x));
        lemma_pow2_unfold(b.len());
    }
}

proof fn lemma_number_of(n: nat, v: nat)
    requires
        v < bits::pow2(n),
    ensures
        number(bits::bits_of(n, v)) == v,
    decreases n,
{
    if n > 0 {
        lemma_number_of((n - 1) as nat, v / 2);
        lemma_number_push(bits::bits_of((n - 1) as nat, v / 2), v % 2 == 1);
    }
}

/// The last six bits of a position are its binary digits, the rest is the
/// code of what is above them. It takes 3 bits for the 64 nearest positions,
/// and up to 8 for the farthest.
pub proof fn law_position_digits(p: nat)
    requires
        p < 4096,
    ensures
        ({
            let b = position::position_bits(p);
            let n = b.len() as int;
            &&& n == 6 + (if p < 64 {
                3int
            } else if p < 256 {
                4
            } else if p < 768 {
                5
            } else if p < 1536 {
                6
            } else if p < 3072 {
                7
            } else {
                8
            })
            &&& b[n - 1] == (p % 2 == 1)
            &&& b[n - 2] == (p / 2 % 2 == 1)
            &&& b[n - 3] == (p / 4 % 2 == 1)
            &&& b[n - 4] == (p / 8 % 2 == 1)
            &&& b[n - 5] == (p / 16 % 2 == 1)
            &&& b[n - 6] == (p / 32 % 2 == 1)
            &&& number(b.skip(n - 6)) == p % 64
        }),
{
    let u = (p / 64) as int;
    let low = p % 64;
    let b = position::position_bits(p);
    let n = b.len() as int;
    bits::lemma_bits_of_len(position::p_len(u) as nat, position::p_short(u));
    bits::lemma_bits_of_len(6, low);
    bits::lemma_pow2_small();
    let six = bits::bits_of(6, low);
    assert(b.skip(n - 6) =~= six);
    assert(b[n - 1] == six[5] && b[n - 2] == six[4] && b[n - 3] == six[3] && b[n - 4] == six[2]
        && b[n - 5] == six[1] && b[n - 6] == six[0]);
    lemma2_to64();
    lemma_digit(6, low, 5);
    lemma_digit(6, low, 4);
    lemma_digit(6, low, 3);
    lemma_digit(6, low, 2);
    lemma_digit(6, low, 1);
    lemma_digit(6, low, 0);
    lemma_number_of(6, low);
    lemma_low_digits(u, low as int);
    assert(p == 64 * u + low);
}

proof fn lemma_low_digits(u: int, low: int)
    requires
        0 <= u,
        0 <= low < 64,
    ensures
        ({
            let p = 64 * u + low;
            &&& p % 2 == low % 2
            &&& p / 2 % 2 == low / 2 % 2
            &&& p / 4 % 2 == low / 4 % 2
            &&& p / 8 % 2 == low / 8 % 2
            &&& p / 16 % 2 == low / 16 % 2
            &&& p / 32 % 2 == low / 32 % 2
        }),
{
    lemma_digit_kept(low, 32 * u, 1);
    lemma_digit_kept(low, 16 * u, 2);
    lemma_digit_kept(low, 8 * u, 4);
    lemma_digit_kept(low, 4 * u, 8);
    lemma_digit_kept(low, 2 * u, 16);
    lemma_digit_kept(low, u, 32);
}

/// Adding an even multiple of `d` keeps the digit.
proof fn lemma_digit_kept(x: int, j: int, d: nat)
    requires
        d > 0,
    ensures
        (x + 2 * j * d) / (d as int) % 2 == x / (d as int) % 2,
{
    lemma_hoist_over_denominator(x, 2 * j, d);
    assert((x / (d as int) + 2 * j) % 2 == x / (d as int) % 2);
}

/// The codes of what is above the last six bits are handed out in order:
/// filled up to eight bits, each begins where the one before it ends, and the
/// first is zero.
pub proof fn law_position_codes(p: nat, q: nat)
    requires
        p < 4096,
        q < 4096,
        q / 64 == p / 64 + 1,
    ensures
        ({
            let a = position::position_bits(p);
            let b = position::position_bits(q);
            let m = (a.len() - 6) as nat;
            let n = (b.len() - 6) as nat;
            &&& p < 64 ==> number(a.take(m as int)) == 0
            &&& number(b.take(n as int)) * pow2((8 - n) as nat) == (number(a.take(m as int)) + 1)
                * pow2((8 - m) as nat)
        }),
{
    let (u, w) = ((p / 64) as int, (q / 64) as int);
    lemma_code_number(p);
    lemma_code_number(q);
    bits::lemma_pow2_small();
    lemma2_to64();
    position::lemma_p_code(u);
    position::lemma_p_code(w);
    position::lemma_short_code(u);
    position::lemma_short_code(w);
    let x = position::p_short(u) as int;
    let c = bits::pow2((8 - position::p_len(u)) as nat) as int;
    assert((x + 1) * c == x * c + c) by (nonlinear_arith);
}

proof fn lemma_code_number(p: nat)
    requires
        p < 4096,
    ensures
        ({
            let a = position::position_bits(p);
            let u = (p / 64) as int;
            &&& a.len() == position::p_len(u) + 6
            &&& number(a.take(a.len() - 6)) == position::p_short(u)
        }),
{
    let u = (p / 64) as int;
    let n = position::p_len(u) as nat;
    let a = position::position_bits(p);
    bits::lemma_bits_of_len(n, position::p_short(u));
    bits::lemma_bits_of_len(6, p % 64);
    assert(a.take(a.len() - 6) =~= bits::bits_of(n, position::p_short(u)));
    position::lemma_short_code(u);
    lemma_number_of(n, position::p_short(u));
}

/// A position is read from the bits that are written for it, whatever stream
/// they stand in: no other bits are used, and no more.
pub proof fn law_position_read(s: Source)
    requires
        s.rest.len() >= 14,
    ensures
        ({
            let (p, after) = position::read_position(s);
            let b = position::position_bits(p);
            &&& p < 4096
            &&& b == s.rest.take(b.len() as int)
            &&& after == Source { rest: s.rest.skip(b.len() as int), overrun: s.overrun }
        }),
{
    bits::lemma_pow2_small();
    let first = s.rest.take(8);
    bits::lemma_bits_of_value_of(first);
    let w = bits::value_of(first);
    let u = position::p_window(w as int);
    let len = position::p_len(u);
    let m = (len - 2) as nat;
    let more = s.rest.subrange(8, 8 + m as int);
    bits::lemma_bits_of_value_of(more);
    let lo = bits::value_of(more);
    let tail = s.rest.skip(8 + m as int);
    let q = bits::pow2(m);
    assert(s.rest =~= bits::bits_of(8, w) + (bits::bits_of(m, lo) + tail));
    assert(s == Source { rest: s.rest, overrun: s.overrun });
    bits::lemma_next_bits_of(8, w, bits::bits_of(m, lo) + tail, 0, s.overrun);
    bits::lemma_next_bits_of(m, lo, tail, w, s.overrun);
    position::lemma_p_code(u);
    position::lemma_p_code(u + 1);
    position::lemma_short_code(u);
    let span = bits::pow2((8 - len) as nat);
    let hi = (w - position::p_code(u)) as nat;
    assert(0 <= w - position::p_code(u) < span);
    let code = position::p_short(u);
    let low = hi * q + lo;
    assert(low < 64) by (nonlinear_arith)
        requires
            low == hi * q + lo,
            hi + 1 <= span,
            lo < q,
            span * q == 64,
    ;
    assert(w * q + lo == code * 64 + low) by (nonlinear_arith)
        requires
            w == code * span + hi,
            span * q == 64,
            low == hi * q + lo,
    ;
    assert((code * 64 + low) % 64 == low);
    let p = position::read_position(s).0;
    assert(p == u * 64 + low);
    assert(p / 64 == u && p % 64 == low);
    bits::lemma_bits_of_split(len as nat, 6, code, low);
    bits::lemma_bits_of_split(8, m, w, lo);
    assert(8 + m == len as nat + 6);
    let b = position::position_bits(p);
    assert(b == bits::bits_of(8, w) + bits::bits_of(m, lo));
    bits::lemma_bits_of_len(8, w);
    bits::lemma_bits_of_len(m, lo);
    assert(b =~= s.rest.take(b.len() as int));
    assert(tail =~= s.rest.skip(b.len() as int));
}

} // verus!

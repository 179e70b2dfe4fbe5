//! Times and the numbers that keep message IDs apart. The clock itself is
//! read by the caller.

use vstd::arithmetic::div_mod::*;
use vstd::prelude::*;

verus! {

/// Spreads consecutive numbers over all bits. It is odd, so that no two
/// numbers are mapped to one.
pub const SPREAD: u64 = 0x9E37_79B9_7F4A_7C15;

/// The whole seconds of a time in milliseconds.
pub fn now_secs(now_ms: u64) -> (r: i64)
    ensures
        r == now_ms / 1000,
{
    (now_ms / 1000) as i64
}

/// The number that a seed and a count give.
pub open spec fn mixed(seed: u64, n: u64) -> u64 {
    seed ^ n.wrapping_mul(SPREAD)
}

/// Not cryptographic: just enough to keep message IDs unique. `n` counts the
/// calls in one run of the program.
pub fn entropy(seed: u64, n: u64) -> (r: u64)
    ensures
        r == mixed(seed, n),
{
    seed ^ n.wrapping_mul(SPREAD)
}

/// A seed out of the clock's nanoseconds and the process ID.
pub fn seed(nanos: u64, process: u32) -> (r: u64)
    ensures
        r == nanos ^ ((process as u64) << 32),
{
    nanos ^ ((process as u64) << 32)
}

/// A seed out of a random number and the clock, its bits turned by 21
/// places.
pub fn web_seed(random: u64, now_ms: u64) -> (r: u64)
    ensures
        r == random ^ ((now_ms << 21) | (now_ms >> 43)),
{
    random ^ ((now_ms << 21) | (now_ms >> 43))
}

/// Undoes the multiplication by [`SPREAD`].
proof fn lemma_spread(n: u64)
    ensures
        (n.wrapping_mul(SPREAD) * 0xF1DE_83E1_9937_733D) % 0x1_0000_0000_0000_0000 == n,
{
    let m: int = 0x1_0000_0000_0000_0000;
    let inverse: int = 0xF1DE_83E1_9937_733D;
    let product = n as int * SPREAD as int;
    assert(n.wrapping_mul(SPREAD) == product % m);
    lemma_mul_mod_noop_left(product, inverse, m);
    assert(product * inverse == n * (SPREAD * inverse)) by (nonlinear_arith)
        requires
            product == n * SPREAD,
    ;
    let whole: int = (SPREAD * inverse) / m;
    assert(SPREAD * inverse == m * whole + 1) by (nonlinear_arith)
        requires
            SPREAD == 0x9E37_79B9_7F4A_7C15u64,
            inverse == 0xF1DE_83E1_9937_733D,
            m == 0x1_0000_0000_0000_0000,
            whole == (SPREAD * inverse) / m,
    ;
    assert(n * (m * whole + 1) == m * (n * whole) + n) by (nonlinear_arith);
    lemma_fundamental_div_mod_converse_mod(product * inverse, m, n * whole, n as int);
}

/// With one seed, every count gives another number.
pub proof fn law_entropy_is_distinct(seed: u64, a: u64, b: u64)
    requires
        a != b,
    ensures
        mixed(seed, a) != mixed(seed, b),
{
    let (x, y) = (a.wrapping_mul(SPREAD), b.wrapping_mul(SPREAD));
    lemma_spread(a);
    lemma_spread(b);
    assert(seed ^ x == seed ^ y ==> x == y) by (bit_vector);
}

} // verus!

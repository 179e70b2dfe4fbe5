//! Two message IDs worked out: that the same station gets different IDs at
//! one time for noise 2 and noise 3 is seen by going through the digests of
//! both, step by step.

use vstd::prelude::*;
use vstd::utf8::*;

use crate::md5;
use crate::md5::{block, filled, plus, start, stepped, steps, word_at, State, SINES, TURNS};
use crate::message::body;
use crate::text;

verus! {

spec fn state(a: u32, b: u32, c: u32, d: u32) -> State {
    State { a, b, c, d }
}

/// The new word of a step, from the state and from `k`, the sum of the step's
/// constant and its word of the message. The function is that of the round.
spec fn turned(f: u32, a: u32, b: u32, k: u32, n: u32) -> u32 {
    (b + ((((a + f + k) as u32) << n) | (((a + f + k) as u32) >> ((32 - n) as u32)))) as u32
}

spec fn turned_1(a: u32, b: u32, c: u32, d: u32, k: u32, n: u32) -> u32 {
    turned((b & c) | (!b & d), a, b, k, n)
}

spec fn turned_2(a: u32, b: u32, c: u32, d: u32, k: u32, n: u32) -> u32 {
    turned((d & b) | (!d & c), a, b, k, n)
}

spec fn turned_3(a: u32, b: u32, c: u32, d: u32, k: u32, n: u32) -> u32 {
    turned(b ^ c ^ d, a, b, k, n)
}

spec fn turned_4(a: u32, b: u32, c: u32, d: u32, k: u32, n: u32) -> u32 {
    turned(c ^ (b | !d), a, b, k, n)
}

proof fn lemma_plus(x: u32, y: u32)
    ensures
        plus(x, y) == (x + y) as u32,
{
    assert(x + y <= 0xffff_ffff ==> (x + y) as u32 == x + y) by (bit_vector);
    assert(x + y > 0xffff_ffff ==> (x + y) as u32 == x + y - 0x1_0000_0000) by (bit_vector);
}

proof fn lemma_sum(a: u32, f: u32, k: u32)
    ensures
        plus(plus(a, f), k) == (a + f + k) as u32,
{
    lemma_plus(a, f);
    lemma_plus(plus(a, f), k);
    assert((((a + f) as u32) + k) as u32 == (a + f + k) as u32) by (bit_vector);
}

/// One more step from a known state.
proof fn lemma_step(m: Seq<u32>, i: nat, s: State, k: u32, n: u32, x: u32)
    requires
        i < 64,
        steps(start(), m, i) == s,
        k == plus(SINES@[i as int], m[word_at(i as int)]),
        n == TURNS@[i as int / 16 * 4 + i as int % 4],
        0 < n < 32,
        x == (if i < 16 {
            turned_1(s.a, s.b, s.c, s.d, k, n)
        } else if i < 32 {
            turned_2(s.a, s.b, s.c, s.d, k, n)
        } else if i < 48 {
            turned_3(s.a, s.b, s.c, s.d, k, n)
        } else {
            turned_4(s.a, s.b, s.c, s.d, k, n)
        }),
    ensures
        steps(start(), m, i + 1) == state(s.d, x, s.b, s.c),
{
    let f = md5::mixed(i as int, s.b, s.c, s.d);
    lemma_sum(s.a, f, k);
    lemma_plus(s.b, md5::rotated(plus(plus(s.a, f), k), n));
    assert(steps(start(), m, i + 1) == stepped(s, m, i as int));
}

/// The block of `1-SA0KAM-` and one more character, which `third` holds.
spec fn words_with(third: u32) -> Seq<u32> {
    Seq::new(
        16,
        |i: int|
            if i == 0 {
                0x41532d31u32
            } else if i == 1 {
                0x4d414b30u32
            } else if i == 2 {
                third
            } else if i == 14 {
                0x50u32
            } else {
                0u32
            },
    )
}

proof fn lemma_words(third: u32)
    ensures
        words_with(third)[0] == 0x41532d31,
        words_with(third)[1] == 0x4d414b30,
        words_with(third)[2] == third,
        words_with(third)[14] == 0x50,
        forall|i: int| 3 <= i < 16 && i != 14 ==> #[trigger] words_with(third)[i] == 0,
{
}

proof fn lemma_two_values_1()
    by (bit_vector)
    ensures
        turned_1(0x67452301, 0xefcdab89, 0x98badcfe, 0x10325476, 0x18bdd1a9, 7) == 0x4eb67f95,
        turned_1(0x10325476, 0x4eb67f95, 0xefcdab89, 0x98badcfe, 0x36090286, 12) == 0xcee4f1e1,
        turned_1(0x98badcfe, 0xcee4f1e1, 0x4eb67f95, 0xefcdab89, 0x24a0a308, 17) == 0xc6034bf2,
        turned_1(0xefcdab89, 0xc6034bf2, 0xcee4f1e1, 0x4eb67f95, 0xc1bdceee, 22) == 0xdd235bee,
        turned_1(0x4eb67f95, 0xdd235bee, 0xc6034bf2, 0xcee4f1e1, 0xf57c0faf, 7) == 0x5a60ef73,
        turned_1(0xcee4f1e1, 0x5a60ef73, 0xdd235bee, 0xc6034bf2, 0x4787c62a, 12) == 0x5a9fce9c,
        turned_1(0xc6034bf2, 0x5a9fce9c, 0x5a60ef73, 0xdd235bee, 0xa8304613, 17) == 0x3d8e6944,
        turned_1(0xdd235bee, 0x3d8e6944, 0x5a9fce9c, 0x5a60ef73, 0xfd469501, 22) == 0x071bbf73,
        turned_1(0x5a60ef73, 0x071bbf73, 0x3d8e6944, 0x5a9fce9c, 0x698098d8, 7) == 0xbf14cb03,
        turned_1(0x5a9fce9c, 0xbf14cb03, 0x071bbf73, 0x3d8e6944, 0x8b44f7af, 12) == 0xb62df9da,
        turned_1(0x3d8e6944, 0xb62df9da, 0xbf14cb03, 0x071bbf73, 0xffff5bb1, 17) == 0xde5fe323,
        turned_1(0x071bbf73, 0xde5fe323, 0xb62df9da, 0xbf14cb03, 0x895cd7be, 22) == 0xeb31c4c3,
        turned_1(0xbf14cb03, 0xeb31c4c3, 0xde5fe323, 0xb62df9da, 0x6b901122, 7) == 0x4c9c64c7,
        turned_1(0xb62df9da, 0x4c9c64c7, 0xeb31c4c3, 0xde5fe323, 0xfd987193, 12) == 0xefd16da8,
        turned_1(0xde5fe323, 0xefd16da8, 0x4c9c64c7, 0xeb31c4c3, 0xa67943de, 17) == 0x075b10bc,
        turned_1(0xeb31c4c3, 0x075b10bc, 0xefd16da8, 0x4c9c64c7, 0x49b40821, 22) == 0x7b3c3f88,
{
}

#[verifier::spinoff_prover]
proof fn lemma_two_round_1(m: Seq<u32>)
    requires
        m == words_with(0x0080322d),
    ensures
        steps(start(), m, 16) == state(0x4c9c64c7, 0x7b3c3f88, 0x075b10bc, 0xefd16da8),
{
    lemma_words(0x0080322d);
    lemma_two_values_1();
    lemma_step(m, 0, state(0x67452301, 0xefcdab89, 0x98badcfe, 0x10325476), 0x18bdd1a9, 7, 0x4eb67f95);
    lemma_step(m, 1, state(0x10325476, 0x4eb67f95, 0xefcdab89, 0x98badcfe), 0x36090286, 12, 0xcee4f1e1);
    lemma_step(m, 2, state(0x98badcfe, 0xcee4f1e1, 0x4eb67f95, 0xefcdab89), 0x24a0a308, 17, 0xc6034bf2);
    lemma_step(m, 3, state(0xefcdab89, 0xc6034bf2, 0xcee4f1e1, 0x4eb67f95), 0xc1bdceee, 22, 0xdd235bee);
    lemma_step(m, 4, state(0x4eb67f95, 0xdd235bee, 0xc6034bf2, 0xcee4f1e1), 0xf57c0faf, 7, 0x5a60ef73);
    lemma_step(m, 5, state(0xcee4f1e1, 0x5a60ef73, 0xdd235bee, 0xc6034bf2), 0x4787c62a, 12, 0x5a9fce9c);
    lemma_step(m, 6, state(0xc6034bf2, 0x5a9fce9c, 0x5a60ef73, 0xdd235bee), 0xa8304613, 17, 0x3d8e6944);
    lemma_step(m, 7, state(0xdd235bee, 0x3d8e6944, 0x5a9fce9c, 0x5a60ef73), 0xfd469501, 22, 0x071bbf73);
    lemma_step(m, 8, state(0x5a60ef73, 0x071bbf73, 0x3d8e6944, 0x5a9fce9c), 0x698098d8, 7, 0xbf14cb03);
    lemma_step(m, 9, state(0x5a9fce9c, 0xbf14cb03, 0x071bbf73, 0x3d8e6944), 0x8b44f7af, 12, 0xb62df9da);
    lemma_step(m, 10, state(0x3d8e6944, 0xb62df9da, 0xbf14cb03, 0x071bbf73), 0xffff5bb1, 17, 0xde5fe323);
    lemma_step(m, 11, state(0x071bbf73, 0xde5fe323, 0xb62df9da, 0xbf14cb03), 0x895cd7be, 22, 0xeb31c4c3);
    lemma_step(m, 12, state(0xbf14cb03, 0xeb31c4c3, 0xde5fe323, 0xb62df9da), 0x6b901122, 7, 0x4c9c64c7);
    lemma_step(m, 13, state(0xb62df9da, 0x4c9c64c7, 0xeb31c4c3, 0xde5fe323), 0xfd987193, 12, 0xefd16da8);
    lemma_step(m, 14, state(0xde5fe323, 0xefd16da8, 0x4c9c64c7, 0xeb31c4c3), 0xa67943de, 17, 0x075b10bc);
    lemma_step(m, 15, state(0xeb31c4c3, 0x075b10bc, 0xefd16da8, 0x4c9c64c7), 0x49b40821, 22, 0x7b3c3f88);
}

proof fn lemma_two_values_2()
    by (bit_vector)
    ensures
        turned_2(0x4c9c64c7, 0x7b3c3f88, 0x075b10bc, 0xefd16da8, 0x435f7092, 5) == 0xddfe9e47,
        turned_2(0xefd16da8, 0xddfe9e47, 0x7b3c3f88, 0x075b10bc, 0xc040b340, 9) == 0xfebe76a2,
        turned_2(0x075b10bc, 0xfebe76a2, 0xddfe9e47, 0x7b3c3f88, 0x265e5a51, 14) == 0x073381d0,
        turned_2(0x7b3c3f88, 0x073381d0, 0xfebe76a2, 0xddfe9e47, 0x2b09f4db, 20) == 0x5b705961,
        turned_2(0xddfe9e47, 0x5b705961, 0x073381d0, 0xfebe76a2, 0xd62f105d, 5) == 0x47605be2,
        turned_2(0xfebe76a2, 0x47605be2, 0x5b705961, 0x073381d0, 0x02441453, 9) == 0x0d2a08a2,
        turned_2(0x073381d0, 0x0d2a08a2, 0x47605be2, 0x5b705961, 0xd8a1e681, 14) == 0x69e703df,
        turned_2(0x5b705961, 0x69e703df, 0x0d2a08a2, 0x47605be2, 0xe7d3fbc8, 20) == 0xf89fcec4,
        turned_2(0x47605be2, 0xf89fcec4, 0x69e703df, 0x0d2a08a2, 0x21e1cde6, 5) == 0x3ac6837e,
        turned_2(0x0d2a08a2, 0x3ac6837e, 0xf89fcec4, 0x69e703df, 0xc3370826, 9) == 0xba86d090,
        turned_2(0x69e703df, 0xba86d090, 0x3ac6837e, 0xf89fcec4, 0xf4d50d87, 14) == 0x6f4ed6f0,
        turned_2(0xf89fcec4, 0x6f4ed6f0, 0xba86d090, 0x3ac6837e, 0x455a14ed, 20) == 0xd96d5afb,
        turned_2(0x3ac6837e, 0xd96d5afb, 0x6f4ed6f0, 0xba86d090, 0xa9e3e905, 5) == 0x1845c973,
        turned_2(0xba86d090, 0x1845c973, 0xd96d5afb, 0x6f4ed6f0, 0xfd6fd625, 9) == 0xd1242a13,
        turned_2(0x6f4ed6f0, 0xd1242a13, 0x1845c973, 0xd96d5afb, 0x676f02d9, 14) == 0x6a5b540b,
        turned_2(0xd96d5afb, 0x6a5b540b, 0xd1242a13, 0x1845c973, 0x8d2a4c8a, 20) == 0x02de539b,
{
}

#[verifier::spinoff_prover]
proof fn lemma_two_round_2(m: Seq<u32>)
    requires
        m == words_with(0x0080322d),
    ensures
        steps(start(), m, 32) == state(0x1845c973, 0x02de539b, 0x6a5b540b, 0xd1242a13),
{
    lemma_words(0x0080322d);
    lemma_two_values_2();
    lemma_two_round_1(m);
    lemma_step(m, 16, state(0x4c9c64c7, 0x7b3c3f88, 0x075b10bc, 0xefd16da8), 0x435f7092, 5, 0xddfe9e47);
    lemma_step(m, 17, state(0xefd16da8, 0xddfe9e47, 0x7b3c3f88, 0x075b10bc), 0xc040b340, 9, 0xfebe76a2);
    lemma_step(m, 18, state(0x075b10bc, 0xfebe76a2, 0xddfe9e47, 0x7b3c3f88), 0x265e5a51, 14, 0x073381d0);
    lemma_step(m, 19, state(0x7b3c3f88, 0x073381d0, 0xfebe76a2, 0xddfe9e47), 0x2b09f4db, 20, 0x5b705961);
    lemma_step(m, 20, state(0xddfe9e47, 0x5b705961, 0x073381d0, 0xfebe76a2), 0xd62f105d, 5, 0x47605be2);
    lemma_step(m, 21, state(0xfebe76a2, 0x47605be2, 0x5b705961, 0x073381d0), 0x02441453, 9, 0x0d2a08a2);
    lemma_step(m, 22, state(0x073381d0, 0x0d2a08a2, 0x47605be2, 0x5b705961), 0xd8a1e681, 14, 0x69e703df);
    lemma_step(m, 23, state(0x5b705961, 0x69e703df, 0x0d2a08a2, 0x47605be2), 0xe7d3fbc8, 20, 0xf89fcec4);
    lemma_step(m, 24, state(0x47605be2, 0xf89fcec4, 0x69e703df, 0x0d2a08a2), 0x21e1cde6, 5, 0x3ac6837e);
    lemma_step(m, 25, state(0x0d2a08a2, 0x3ac6837e, 0xf89fcec4, 0x69e703df), 0xc3370826, 9, 0xba86d090);
    lemma_step(m, 26, state(0x69e703df, 0xba86d090, 0x3ac6837e, 0xf89fcec4), 0xf4d50d87, 14, 0x6f4ed6f0);
    lemma_step(m, 27, state(0xf89fcec4, 0x6f4ed6f0, 0xba86d090, 0x3ac6837e), 0x455a14ed, 20, 0xd96d5afb);
    lemma_step(m, 28, state(0x3ac6837e, 0xd96d5afb, 0x6f4ed6f0, 0xba86d090), 0xa9e3e905, 5, 0x1845c973);
    lemma_step(m, 29, state(0xba86d090, 0x1845c973, 0xd96d5afb, 0x6f4ed6f0), 0xfd6fd625, 9, 0xd1242a13);
    lemma_step(m, 30, state(0x6f4ed6f0, 0xd1242a13, 0x1845c973, 0xd96d5afb), 0x676f02d9, 14, 0x6a5b540b);
    lemma_step(m, 31, state(0xd96d5afb, 0x6a5b540b, 0xd1242a13, 0x1845c973), 0x8d2a4c8a, 20, 0x02de539b);
}

proof fn lemma_two_values_3()
    by (bit_vector)
    ensures
        turned_3(0x1845c973, 0x02de539b, 0x6a5b540b, 0xd1242a13, 0xfffa3942, 4) == 0x20f15728,
        turned_3(0xd1242a13, 0x20f15728, 0x02de539b, 0x6a5b540b, 0x8771f681, 11) == 0x747bbc30,
        turned_3(0x6a5b540b, 0x747bbc30, 0x20f15728, 0x02de539b, 0x6d9d6122, 16) == 0xe22bea7d,
        turned_3(0x02de539b, 0xe22bea7d, 0x747bbc30, 0x20f15728, 0xfde5385c, 23) == 0x90879cc3,
        turned_3(0x20f15728, 0x90879cc3, 0xe22bea7d, 0x747bbc30, 0xf2003574, 4) == 0x2d1d0f64,
        turned_3(0x747bbc30, 0x2d1d0f64, 0x90879cc3, 0xe22bea7d, 0x4bdecfa9, 11) == 0x8d4aa864,
        turned_3(0xe22bea7d, 0x8d4aa864, 0x2d1d0f64, 0x90879cc3, 0xf6bb4b60, 16) == 0xfeeab21b,
        turned_3(0x90879cc3, 0xfeeab21b, 0x8d4aa864, 0x2d1d0f64, 0xbebfbc70, 23) == 0x2641b452,
        turned_3(0x2d1d0f64, 0x2641b452, 0xfeeab21b, 0x8d4aa864, 0x289b7ec6, 4) == 0xdfe579cc,
        turned_3(0x8d4aa864, 0xdfe579cc, 0x2641b452, 0xfeeab21b, 0x2bf4552b, 11) == 0x4bce1fd0,
        turned_3(0xfeeab21b, 0x4bce1fd0, 0xdfe579cc, 0x2641b452, 0xd4ef3085, 16) == 0x00bca614,
        turned_3(0x2641b452, 0x00bca614, 0x4bce1fd0, 0xdfe579cc, 0x04881d05, 23) == 0xb09c56dc,
        turned_3(0xdfe579cc, 0xb09c56dc, 0x00bca614, 0x4bce1fd0, 0xd9d4d039, 4) == 0x0b2fe8b7,
        turned_3(0x4bce1fd0, 0x0b2fe8b7, 0xb09c56dc, 0x00bca614, 0xe6db99e5, 11) == 0xd1c19024,
        turned_3(0x00bca614, 0xd1c19024, 0x0b2fe8b7, 0xb09c56dc, 0x1fa27cf8, 16) == 0x231d1af5,
        turned_3(0xb09c56dc, 0x231d1af5, 0xd1c19024, 0x0b2fe8b7, 0xc52c8892, 23) == 0x0d54f915,
{
}

#[verifier::spinoff_prover]
proof fn lemma_two_round_3(m: Seq<u32>)
    requires
        m == words_with(0x0080322d),
    ensures
        steps(start(), m, 48) == state(0x0b2fe8b7, 0x0d54f915, 0x231d1af5, 0xd1c19024),
{
    lemma_words(0x0080322d);
    lemma_two_values_3();
    lemma_two_round_2(m);
    lemma_step(m, 32, state(0x1845c973, 0x02de539b, 0x6a5b540b, 0xd1242a13), 0xfffa3942, 4, 0x20f15728);
    lemma_step(m, 33, state(0xd1242a13, 0x20f15728, 0x02de539b, 0x6a5b540b), 0x8771f681, 11, 0x747bbc30);
    lemma_step(m, 34, state(0x6a5b540b, 0x747bbc30, 0x20f15728, 0x02de539b), 0x6d9d6122, 16, 0xe22bea7d);
    lemma_step(m, 35, state(0x02de539b, 0xe22bea7d, 0x747bbc30, 0x20f15728), 0xfde5385c, 23, 0x90879cc3);
    lemma_step(m, 36, state(0x20f15728, 0x90879cc3, 0xe22bea7d, 0x747bbc30), 0xf2003574, 4, 0x2d1d0f64);
    lemma_step(m, 37, state(0x747bbc30, 0x2d1d0f64, 0x90879cc3, 0xe22bea7d), 0x4bdecfa9, 11, 0x8d4aa864);
    lemma_step(m, 38, state(0xe22bea7d, 0x8d4aa864, 0x2d1d0f64, 0x90879cc3), 0xf6bb4b60, 16, 0xfeeab21b);
    lemma_step(m, 39, state(0x90879cc3, 0xfeeab21b, 0x8d4aa864, 0x2d1d0f64), 0xbebfbc70, 23, 0x2641b452);
    lemma_step(m, 40, state(0x2d1d0f64, 0x2641b452, 0xfeeab21b, 0x8d4aa864), 0x289b7ec6, 4, 0xdfe579cc);
    lemma_step(m, 41, state(0x8d4aa864, 0xdfe579cc, 0x2641b452, 0xfeeab21b), 0x2bf4552b, 11, 0x4bce1fd0);
    lemma_step(m, 42, state(0xfeeab21b, 0x4bce1fd0, 0xdfe579cc, 0x2641b452), 0xd4ef3085, 16, 0x00bca614);
    lemma_step(m, 43, state(0x2641b452, 0x00bca614, 0x4bce1fd0, 0xdfe579cc), 0x04881d05, 23, 0xb09c56dc);
    lemma_step(m, 44, state(0xdfe579cc, 0xb09c56dc, 0x00bca614, 0x4bce1fd0), 0xd9d4d039, 4, 0x0b2fe8b7);
    lemma_step(m, 45, state(0x4bce1fd0, 0x0b2fe8b7, 0xb09c56dc, 0x00bca614), 0xe6db99e5, 11, 0xd1c19024);
    lemma_step(m, 46, state(0x00bca614, 0xd1c19024, 0x0b2fe8b7, 0xb09c56dc), 0x1fa27cf8, 16, 0x231d1af5);
    lemma_step(m, 47, state(0xb09c56dc, 0x231d1af5, 0xd1c19024, 0x0b2fe8b7), 0xc52c8892, 23, 0x0d54f915);
}

proof fn lemma_two_values_4()
    by (bit_vector)
    ensures
        turned_4(0x0b2fe8b7, 0x0d54f915, 0x231d1af5, 0xd1c19024, 0x357c4f75, 6) == 0x515c4ea8,
        turned_4(0xd1c19024, 0x515c4ea8, 0x0d54f915, 0x231d1af5, 0x432aff97, 10) == 0xabf63a3e,
        turned_4(0x231d1af5, 0xabf63a3e, 0x515c4ea8, 0x0d54f915, 0xab9423f7, 15) == 0x039776e8,
        turned_4(0x0d54f915, 0x039776e8, 0xabf63a3e, 0x515c4ea8, 0xfc93a039, 21) == 0xe5793c34,
        turned_4(0x515c4ea8, 0xe5793c34, 0x039776e8, 0xabf63a3e, 0x655b59c3, 6) == 0x4f061e5f,
        turned_4(0xabf63a3e, 0x4f061e5f, 0xe5793c34, 0x039776e8, 0x8f0ccc92, 10) == 0xb9af0bb3,
        turned_4(0x039776e8, 0xb9af0bb3, 0x4f061e5f, 0xe5793c34, 0xffeff47d, 15) == 0x5a3407cb,
        turned_4(0xe5793c34, 0x5a3407cb, 0xb9af0bb3, 0x4f061e5f, 0xd2c5a901, 21) == 0x8bf37a05,
        turned_4(0x4f061e5f, 0x8bf37a05, 0x5a3407cb, 0xb9af0bb3, 0x6fa87e4f, 6) == 0xa999071a,
        turned_4(0xb9af0bb3, 0xa999071a, 0x8bf37a05, 0x5a3407cb, 0xfe2ce6e0, 10) == 0xbb784292,
        turned_4(0x5a3407cb, 0xbb784292, 0xa999071a, 0x8bf37a05, 0xa3014314, 15) == 0x4157ec9f,
        turned_4(0x8bf37a05, 0x4157ec9f, 0xbb784292, 0xa999071a, 0x4e0811a1, 21) == 0x83d0ae08,
        turned_4(0xa999071a, 0x83d0ae08, 0x4157ec9f, 0xbb784292, 0xf7537e82, 6) == 0x5f071191,
{
}

#[verifier::spinoff_prover]
proof fn lemma_two_round_4(m: Seq<u32>)
    requires
        m == words_with(0x0080322d),
    ensures
        steps(start(), m, 61) == state(0xbb784292, 0x5f071191, 0x83d0ae08, 0x4157ec9f),
{
    lemma_words(0x0080322d);
    lemma_two_values_4();
    lemma_two_round_3(m);
    lemma_step(m, 48, state(0x0b2fe8b7, 0x0d54f915, 0x231d1af5, 0xd1c19024), 0x357c4f75, 6, 0x515c4ea8);
    lemma_step(m, 49, state(0xd1c19024, 0x515c4ea8, 0x0d54f915, 0x231d1af5), 0x432aff97, 10, 0xabf63a3e);
    lemma_step(m, 50, state(0x231d1af5, 0xabf63a3e, 0x515c4ea8, 0x0d54f915), 0xab9423f7, 15, 0x039776e8);
    lemma_step(m, 51, state(0x0d54f915, 0x039776e8, 0xabf63a3e, 0x515c4ea8), 0xfc93a039, 21, 0xe5793c34);
    lemma_step(m, 52, state(0x515c4ea8, 0xe5793c34, 0x039776e8, 0xabf63a3e), 0x655b59c3, 6, 0x4f061e5f);
    lemma_step(m, 53, state(0xabf63a3e, 0x4f061e5f, 0xe5793c34, 0x039776e8), 0x8f0ccc92, 10, 0xb9af0bb3);
    lemma_step(m, 54, state(0x039776e8, 0xb9af0bb3, 0x4f061e5f, 0xe5793c34), 0xffeff47d, 15, 0x5a3407cb);
    lemma_step(m, 55, state(0xe5793c34, 0x5a3407cb, 0xb9af0bb3, 0x4f061e5f), 0xd2c5a901, 21, 0x8bf37a05);
    lemma_step(m, 56, state(0x4f061e5f, 0x8bf37a05, 0x5a3407cb, 0xb9af0bb3), 0x6fa87e4f, 6, 0xa999071a);
    lemma_step(m, 57, state(0xb9af0bb3, 0xa999071a, 0x8bf37a05, 0x5a3407cb), 0xfe2ce6e0, 10, 0xbb784292);
    lemma_step(m, 58, state(0x5a3407cb, 0xbb784292, 0xa999071a, 0x8bf37a05), 0xa3014314, 15, 0x4157ec9f);
    lemma_step(m, 59, state(0x8bf37a05, 0x4157ec9f, 0xbb784292, 0xa999071a), 0x4e0811a1, 21, 0x83d0ae08);
    lemma_step(m, 60, state(0xa999071a, 0x83d0ae08, 0x4157ec9f, 0xbb784292), 0xf7537e82, 6, 0x5f071191);
}

proof fn lemma_three_values_1()
    by (bit_vector)
    ensures
        turned_1(0x67452301, 0xefcdab89, 0x98badcfe, 0x10325476, 0x18bdd1a9, 7) == 0x4eb67f95,
        turned_1(0x10325476, 0x4eb67f95, 0xefcdab89, 0x98badcfe, 0x36090286, 12) == 0xcee4f1e1,
        turned_1(0x98badcfe, 0xcee4f1e1, 0x4eb67f95, 0xefcdab89, 0x24a0a408, 17) == 0xc8034bf2,
        turned_1(0xefcdab89, 0xc8034bf2, 0xcee4f1e1, 0x4eb67f95, 0xc1bdceee, 22) == 0xdf235bee,
        turned_1(0x4eb67f95, 0xdf235bee, 0xc8034bf2, 0xcee4f1e1, 0xf57c0faf, 7) == 0x5c60ef74,
        turned_1(0xcee4f1e1, 0x5c60ef74, 0xdf235bee, 0xc8034bf2, 0x4787c62a, 12) == 0x5ca00e9d,
        turned_1(0xc8034bf2, 0x5ca00e9d, 0x5c60ef74, 0xdf235bee, 0xa8304613, 17) == 0x3f96ad4a,
        turned_1(0xdf235bee, 0x3f96ad4a, 0x5ca00e9d, 0x5c60ef74, 0xfd469501, 22) == 0x0a64ffd9,
        turned_1(0x5c60ef74, 0x0a64ffd9, 0x3f96ad4a, 0x5ca00e9d, 0x698098d8, 7) == 0x3d7fcbeb,
        turned_1(0x5ca00e9d, 0x3d7fcbeb, 0x0a64ffd9, 0x3f96ad4a, 0x8b44f7af, 12) == 0xdce12b17,
        turned_1(0x3f96ad4a, 0xdce12b17, 0x3d7fcbeb, 0x0a64ffd9, 0xffff5bb1, 17) == 0xae6de70e,
        turned_1(0x0a64ffd9, 0xae6de70e, 0xdce12b17, 0x3d7fcbeb, 0x895cd7be, 22) == 0x8dfa344e,
        turned_1(0x3d7fcbeb, 0x8dfa344e, 0xae6de70e, 0xdce12b17, 0x6b901122, 7) == 0x4a804a90,
        turned_1(0xdce12b17, 0x4a804a90, 0x8dfa344e, 0xae6de70e, 0xfd987193, 12) == 0xbe9bd306,
        turned_1(0xae6de70e, 0xbe9bd306, 0x4a804a90, 0x8dfa344e, 0xa67943de, 17) == 0xe1049495,
        turned_1(0x8dfa344e, 0xe1049495, 0xbe9bd306, 0x4a804a90, 0x49b40821, 22) == 0x7de5205a,
{
}

#[verifier::spinoff_prover]
proof fn lemma_three_round_1(m: Seq<u32>)
    requires
        m == words_with(0x0080332d),
    ensures
        steps(start(), m, 16) == state(0x4a804a90, 0x7de5205a, 0xe1049495, 0xbe9bd306),
{
    lemma_words(0x0080332d);
    lemma_three_values_1();
    lemma_step(m, 0, state(0x67452301, 0xefcdab89, 0x98badcfe, 0x10325476), 0x18bdd1a9, 7, 0x4eb67f95);
    lemma_step(m, 1, state(0x10325476, 0x4eb67f95, 0xefcdab89, 0x98badcfe), 0x36090286, 12, 0xcee4f1e1);
    lemma_step(m, 2, state(0x98badcfe, 0xcee4f1e1, 0x4eb67f95, 0xefcdab89), 0x24a0a408, 17, 0xc8034bf2);
    lemma_step(m, 3, state(0xefcdab89, 0xc8034bf2, 0xcee4f1e1, 0x4eb67f95), 0xc1bdceee, 22, 0xdf235bee);
    lemma_step(m, 4, state(0x4eb67f95, 0xdf235bee, 0xc8034bf2, 0xcee4f1e1), 0xf57c0faf, 7, 0x5c60ef74);
    lemma_step(m, 5, state(0xcee4f1e1, 0x5c60ef74, 0xdf235bee, 0xc8034bf2), 0x4787c62a, 12, 0x5ca00e9d);
    lemma_step(m, 6, state(0xc8034bf2, 0x5ca00e9d, 0x5c60ef74, 0xdf235bee), 0xa8304613, 17, 0x3f96ad4a);
    lemma_step(m, 7, state(0xdf235bee, 0x3f96ad4a, 0x5ca00e9d, 0x5c60ef74), 0xfd469501, 22, 0x0a64ffd9);
    lemma_step(m, 8, state(0x5c60ef74, 0x0a64ffd9, 0x3f96ad4a, 0x5ca00e9d), 0x698098d8, 7, 0x3d7fcbeb);
    lemma_step(m, 9, state(0x5ca00e9d, 0x3d7fcbeb, 0x0a64ffd9, 0x3f96ad4a), 0x8b44f7af, 12, 0xdce12b17);
    lemma_step(m, 10, state(0x3f96ad4a, 0xdce12b17, 0x3d7fcbeb, 0x0a64ffd9), 0xffff5bb1, 17, 0xae6de70e);
    lemma_step(m, 11, state(0x0a64ffd9, 0xae6de70e, 0xdce12b17, 0x3d7fcbeb), 0x895cd7be, 22, 0x8dfa344e);
    lemma_step(m, 12, state(0x3d7fcbeb, 0x8dfa344e, 0xae6de70e, 0xdce12b17), 0x6b901122, 7, 0x4a804a90);
    lemma_step(m, 13, state(0xdce12b17, 0x4a804a90, 0x8dfa344e, 0xae6de70e), 0xfd987193, 12, 0xbe9bd306);
    lemma_step(m, 14, state(0xae6de70e, 0xbe9bd306, 0x4a804a90, 0x8dfa344e), 0xa67943de, 17, 0xe1049495);
    lemma_step(m, 15, state(0x8dfa344e, 0xe1049495, 0xbe9bd306, 0x4a804a90), 0x49b40821, 22, 0x7de5205a);
}

proof fn lemma_three_values_2()
    by (bit_vector)
    ensures
        turned_2(0x4a804a90, 0x7de5205a, 0xe1049495, 0xbe9bd306, 0x435f7092, 5) == 0xea7d16fb,
        turned_2(0xbe9bd306, 0xea7d16fb, 0x7de5205a, 0xe1049495, 0xc040b340, 9) == 0x6df359f2,
        turned_2(0xe1049495, 0x6df359f2, 0xea7d16fb, 0x7de5205a, 0x265e5a51, 14) == 0x6f69d7c9,
        turned_2(0x7de5205a, 0x6f69d7c9, 0x6df359f2, 0xea7d16fb, 0x2b09f4db, 20) == 0xbf4b6570,
        turned_2(0xea7d16fb, 0xbf4b6570, 0x6f69d7c9, 0x6df359f2, 0xd62f105d, 5) == 0xbe493fad,
        turned_2(0x6df359f2, 0xbe493fad, 0xbf4b6570, 0x6f69d7c9, 0x02441453, 9) == 0xc3953c0a,
        turned_2(0x6f69d7c9, 0xc3953c0a, 0xbe493fad, 0xbf4b6570, 0xd8a1e681, 14) == 0x02cb2ecd,
        turned_2(0xbf4b6570, 0x02cb2ecd, 0xc3953c0a, 0xbe493fad, 0xe7d3fbc8, 20) == 0xff49de95,
        turned_2(0xbe493fad, 0xff49de95, 0x02cb2ecd, 0xc3953c0a, 0x21e1cde6, 5) == 0x6e0f69a9,
        turned_2(0xc3953c0a, 0x6e0f69a9, 0xff49de95, 0x02cb2ecd, 0xc3370826, 9) == 0x1e88fcb4,
        turned_2(0x02cb2ecd, 0x1e88fcb4, 0x6e0f69a9, 0xff49de95, 0xf4d50d87, 14) == 0xed0d021f,
        turned_2(0xff49de95, 0xed0d021f, 0x1e88fcb4, 0x6e0f69a9, 0x455a14ed, 20) == 0x67091537,
        turned_2(0x6e0f69a9, 0x67091537, 0xed0d021f, 0x1e88fcb4, 0xa9e3e905, 5) == 0x471632f6,
        turned_2(0x1e88fcb4, 0x471632f6, 0x67091537, 0xed0d021f, 0xfd6fd725, 9) == 0x40ec51bb,
        turned_2(0xed0d021f, 0x40ec51bb, 0x471632f6, 0x67091537, 0x676f02d9, 14) == 0xcf2736e1,
        turned_2(0x67091537, 0xcf2736e1, 0x40ec51bb, 0x471632f6, 0x8d2a4c8a, 20) == 0x29caf8fe,
{
}

#[verifier::spinoff_prover]
proof fn lemma_three_round_2(m: Seq<u32>)
    requires
        m == words_with(0x0080332d),
    ensures
        steps(start(), m, 32) == state(0x471632f6, 0x29caf8fe, 0xcf2736e1, 0x40ec51bb),
{
    lemma_words(0x0080332d);
    lemma_three_values_2();
    lemma_three_round_1(m);
    lemma_step(m, 16, state(0x4a804a90, 0x7de5205a, 0xe1049495, 0xbe9bd306), 0x435f7092, 5, 0xea7d16fb);
    lemma_step(m, 17, state(0xbe9bd306, 0xea7d16fb, 0x7de5205a, 0xe1049495), 0xc040b340, 9, 0x6df359f2);
    lemma_step(m, 18, state(0xe1049495, 0x6df359f2, 0xea7d16fb, 0x7de5205a), 0x265e5a51, 14, 0x6f69d7c9);
    lemma_step(m, 19, state(0x7de5205a, 0x6f69d7c9, 0x6df359f2, 0xea7d16fb), 0x2b09f4db, 20, 0xbf4b6570);
    lemma_step(m, 20, state(0xea7d16fb, 0xbf4b6570, 0x6f69d7c9, 0x6df359f2), 0xd62f105d, 5, 0xbe493fad);
    lemma_step(m, 21, state(0x6df359f2, 0xbe493fad, 0xbf4b6570, 0x6f69d7c9), 0x02441453, 9, 0xc3953c0a);
    lemma_step(m, 22, state(0x6f69d7c9, 0xc3953c0a, 0xbe493fad, 0xbf4b6570), 0xd8a1e681, 14, 0x02cb2ecd);
    lemma_step(m, 23, state(0xbf4b6570, 0x02cb2ecd, 0xc3953c0a, 0xbe493fad), 0xe7d3fbc8, 20, 0xff49de95);
    lemma_step(m, 24, state(0xbe493fad, 0xff49de95, 0x02cb2ecd, 0xc3953c0a), 0x21e1cde6, 5, 0x6e0f69a9);
    lemma_step(m, 25, state(0xc3953c0a, 0x6e0f69a9, 0xff49de95, 0x02cb2ecd), 0xc3370826, 9, 0x1e88fcb4);
    lemma_step(m, 26, state(0x02cb2ecd, 0x1e88fcb4, 0x6e0f69a9, 0xff49de95), 0xf4d50d87, 14, 0xed0d021f);
    lemma_step(m, 27, state(0xff49de95, 0xed0d021f, 0x1e88fcb4, 0x6e0f69a9), 0x455a14ed, 20, 0x67091537);
    lemma_step(m, 28, state(0x6e0f69a9, 0x67091537, 0xed0d021f, 0x1e88fcb4), 0xa9e3e905, 5, 0x471632f6);
    lemma_step(m, 29, state(0x1e88fcb4, 0x471632f6, 0x67091537, 0xed0d021f), 0xfd6fd725, 9, 0x40ec51bb);
    lemma_step(m, 30, state(0xed0d021f, 0x40ec51bb, 0x471632f6, 0x67091537), 0x676f02d9, 14, 0xcf2736e1);
    lemma_step(m, 31, state(0x67091537, 0xcf2736e1, 0x40ec51bb, 0x471632f6), 0x8d2a4c8a, 20, 0x29caf8fe);
}

proof fn lemma_three_values_3()
    by (bit_vector)
    ensures
        turned_3(0x471632f6, 0x29caf8fe, 0xcf2736e1, 0x40ec51bb, 0xfffa3942, 4) == 0xfaebb6cc,
        turned_3(0x40ec51bb, 0xfaebb6cc, 0x29caf8fe, 0xcf2736e1, 0x8771f681, 11) == 0x20f435ef,
        turned_3(0xcf2736e1, 0x20f435ef, 0xfaebb6cc, 0x29caf8fe, 0x6d9d6122, 16) == 0x34d46689,
        turned_3(0x29caf8fe, 0x34d46689, 0x20f435ef, 0xfaebb6cc, 0xfde5385c, 23) == 0xb6dfa494,
        turned_3(0xfaebb6cc, 0xb6dfa494, 0x34d46689, 0x20f435ef, 0xf2003574, 4) == 0xb59de7bc,
        turned_3(0x20f435ef, 0xb59de7bc, 0xb6dfa494, 0x34d46689, 0x4bdecfa9, 11) == 0xfef7b4df,
        turned_3(0x34d46689, 0xfef7b4df, 0xb59de7bc, 0xb6dfa494, 0xf6bb4b60, 16) == 0xa8d7de24,
        turned_3(0xb6dfa494, 0xa8d7de24, 0xfef7b4df, 0xb59de7bc, 0xbebfbc70, 23) == 0xce848c9b,
        turned_3(0xb59de7bc, 0xce848c9b, 0xa8d7de24, 0xfef7b4df, 0x289b7ec6, 4) == 0x3c695ac2,
        turned_3(0xfef7b4df, 0x3c695ac2, 0xce848c9b, 0xa8d7de24, 0x2bf4552b, 11) == 0x6cfd96eb,
        turned_3(0xa8d7de24, 0x6cfd96eb, 0x3c695ac2, 0xce848c9b, 0xd4ef3085, 16) == 0xbc58b2c2,
        turned_3(0xce848c9b, 0xbc58b2c2, 0x6cfd96eb, 0x3c695ac2, 0x04881d05, 23) == 0x02389f56,
        turned_3(0x3c695ac2, 0x02389f56, 0xbc58b2c2, 0x6cfd96eb, 0xd9d4d039, 4) == 0x8ff70704,
        turned_3(0x6cfd96eb, 0x8ff70704, 0x02389f56, 0xbc58b2c2, 0xe6db99e5, 11) == 0x12d20b2f,
        turned_3(0xbc58b2c2, 0x12d20b2f, 0x8ff70704, 0x02389f56, 0x1fa27cf8, 16) == 0xd6098647,
        turned_3(0x02389f56, 0xd6098647, 0x12d20b2f, 0x8ff70704, 0xc52c8992, 23) == 0x8012cf20,
{
}

#[verifier::spinoff_prover]
proof fn lemma_three_round_3(m: Seq<u32>)
    requires
        m == words_with(0x0080332d),
    ensures
        steps(start(), m, 48) == state(0x8ff70704, 0x8012cf20, 0xd6098647, 0x12d20b2f),
{
    lemma_words(0x0080332d);
    lemma_three_values_3();
    lemma_three_round_2(m);
    lemma_step(m, 32, state(0x471632f6, 0x29caf8fe, 0xcf2736e1, 0x40ec51bb), 0xfffa3942, 4, 0xfaebb6cc);
    lemma_step(m, 33, state(0x40ec51bb, 0xfaebb6cc, 0x29caf8fe, 0xcf2736e1), 0x8771f681, 11, 0x20f435ef);
    lemma_step(m, 34, state(0xcf2736e1, 0x20f435ef, 0xfaebb6cc, 0x29caf8fe), 0x6d9d6122, 16, 0x34d46689);
    lemma_step(m, 35, state(0x29caf8fe, 0x34d46689, 0x20f435ef, 0xfaebb6cc), 0xfde5385c, 23, 0xb6dfa494);
    lemma_step(m, 36, state(0xfaebb6cc, 0xb6dfa494, 0x34d46689, 0x20f435ef), 0xf2003574, 4, 0xb59de7bc);
    lemma_step(m, 37, state(0x20f435ef, 0xb59de7bc, 0xb6dfa494, 0x34d46689), 0x4bdecfa9, 11, 0xfef7b4df);
    lemma_step(m, 38, state(0x34d46689, 0xfef7b4df, 0xb59de7bc, 0xb6dfa494), 0xf6bb4b60, 16, 0xa8d7de24);
    lemma_step(m, 39, state(0xb6dfa494, 0xa8d7de24, 0xfef7b4df, 0xb59de7bc), 0xbebfbc70, 23, 0xce848c9b);
    lemma_step(m, 40, state(0xb59de7bc, 0xce848c9b, 0xa8d7de24, 0xfef7b4df), 0x289b7ec6, 4, 0x3c695ac2);
    lemma_step(m, 41, state(0xfef7b4df, 0x3c695ac2, 0xce848c9b, 0xa8d7de24), 0x2bf4552b, 11, 0x6cfd96eb);
    lemma_step(m, 42, state(0xa8d7de24, 0x6cfd96eb, 0x3c695ac2, 0xce848c9b), 0xd4ef3085, 16, 0xbc58b2c2);
    lemma_step(m, 43, state(0xce848c9b, 0xbc58b2c2, 0x6cfd96eb, 0x3c695ac2), 0x04881d05, 23, 0x02389f56);
    lemma_step(m, 44, state(0x3c695ac2, 0x02389f56, 0xbc58b2c2, 0x6cfd96eb), 0xd9d4d039, 4, 0x8ff70704);
    lemma_step(m, 45, state(0x6cfd96eb, 0x8ff70704, 0x02389f56, 0xbc58b2c2), 0xe6db99e5, 11, 0x12d20b2f);
    lemma_step(m, 46, state(0xbc58b2c2, 0x12d20b2f, 0x8ff70704, 0x02389f56), 0x1fa27cf8, 16, 0xd6098647);
    lemma_step(m, 47, state(0x02389f56, 0xd6098647, 0x12d20b2f, 0x8ff70704), 0xc52c8992, 23, 0x8012cf20);
}

proof fn lemma_three_values_4()
    by (bit_vector)
    ensures
        turned_4(0x8ff70704, 0x8012cf20, 0xd6098647, 0x12d20b2f, 0x357c4f75, 6) == 0xaa86db20,
        turned_4(0x12d20b2f, 0xaa86db20, 0x8012cf20, 0xd6098647, 0x432aff97, 10) == 0x2f845527,
        turned_4(0xd6098647, 0x2f845527, 0xaa86db20, 0x8012cf20, 0xab9423f7, 15) == 0xdc1300ab,
        turned_4(0x8012cf20, 0xdc1300ab, 0x2f845527, 0xaa86db20, 0xfc93a039, 21) == 0x0240f567,
        turned_4(0xaa86db20, 0x0240f567, 0xdc1300ab, 0x2f845527, 0x655b59c3, 6) == 0x950e032e,
        turned_4(0x2f845527, 0x950e032e, 0x0240f567, 0xdc1300ab, 0x8f0ccc92, 10) == 0x91bd4cfe,
        turned_4(0xdc1300ab, 0x91bd4cfe, 0x950e032e, 0x0240f567, 0xffeff47d, 15) == 0xb3396f58,
        turned_4(0x0240f567, 0xb3396f58, 0x91bd4cfe, 0x950e032e, 0xd2c5a901, 21) == 0xe52158c2,
        turned_4(0x950e032e, 0xe52158c2, 0xb3396f58, 0x91bd4cfe, 0x6fa87e4f, 6) == 0x2966deda,
        turned_4(0x91bd4cfe, 0x2966deda, 0xe52158c2, 0xb3396f58, 0xfe2ce6e0, 10) == 0xf04f4b3c,
        turned_4(0xb3396f58, 0xf04f4b3c, 0x2966deda, 0xe52158c2, 0xa3014314, 15) == 0xe278e035,
        turned_4(0xe52158c2, 0xe278e035, 0xf04f4b3c, 0x2966deda, 0x4e0811a1, 21) == 0x70001c37,
        turned_4(0x2966deda, 0x70001c37, 0xe278e035, 0xf04f4b3c, 0xf7537e82, 6) == 0x10aea3e6,
{
}

#[verifier::spinoff_prover]
proof fn lemma_three_round_4(m: Seq<u32>)
    requires
        m == words_with(0x0080332d),
    ensures
        steps(start(), m, 61) == state(0xf04f4b3c, 0x10aea3e6, 0x70001c37, 0xe278e035),
{
    lemma_words(0x0080332d);
    lemma_three_values_4();
    lemma_three_round_3(m);
    lemma_step(m, 48, state(0x8ff70704, 0x8012cf20, 0xd6098647, 0x12d20b2f), 0x357c4f75, 6, 0xaa86db20);
    lemma_step(m, 49, state(0x12d20b2f, 0xaa86db20, 0x8012cf20, 0xd6098647), 0x432aff97, 10, 0x2f845527);
    lemma_step(m, 50, state(0xd6098647, 0x2f845527, 0xaa86db20, 0x8012cf20), 0xab9423f7, 15, 0xdc1300ab);
    lemma_step(m, 51, state(0x8012cf20, 0xdc1300ab, 0x2f845527, 0xaa86db20), 0xfc93a039, 21, 0x0240f567);
    lemma_step(m, 52, state(0xaa86db20, 0x0240f567, 0xdc1300ab, 0x2f845527), 0x655b59c3, 6, 0x950e032e);
    lemma_step(m, 53, state(0x2f845527, 0x950e032e, 0x0240f567, 0xdc1300ab), 0x8f0ccc92, 10, 0x91bd4cfe);
    lemma_step(m, 54, state(0xdc1300ab, 0x91bd4cfe, 0x950e032e, 0x0240f567), 0xffeff47d, 15, 0xb3396f58);
    lemma_step(m, 55, state(0x0240f567, 0xb3396f58, 0x91bd4cfe, 0x950e032e), 0xd2c5a901, 21, 0xe52158c2);
    lemma_step(m, 56, state(0x950e032e, 0xe52158c2, 0xb3396f58, 0x91bd4cfe), 0x6fa87e4f, 6, 0x2966deda);
    lemma_step(m, 57, state(0x91bd4cfe, 0x2966deda, 0xe52158c2, 0xb3396f58), 0xfe2ce6e0, 10, 0xf04f4b3c);
    lemma_step(m, 58, state(0xb3396f58, 0xf04f4b3c, 0x2966deda, 0xe52158c2), 0xa3014314, 15, 0xe278e035);
    lemma_step(m, 59, state(0xe52158c2, 0xe278e035, 0xf04f4b3c, 0x2966deda), 0x4e0811a1, 21, 0x70001c37);
    lemma_step(m, 60, state(0x2966deda, 0x70001c37, 0xe278e035, 0xf04f4b3c), 0xf7537e82, 6, 0x10aea3e6);
}

/// The block that the seed of an ID fills.
proof fn lemma_block(noise: nat, third: u32)
    requires
        noise == 2 && third == 0x0080322d || noise == 3 && third == 0x0080332d,
    ensures
        ({
            let msg = encode_utf8(body::mid_seed("SA0KAM"@, 1, noise));
            filled(msg).len() == 64 && block(filled(msg), 0) == words_with(third)
        }),
{
    reveal_strlit("-");
    reveal_strlit("SA0KAM");
    let last = if noise == 2 {
        '2'
    } else {
        '3'
    };
    assert(text::decimal(1) =~= seq!['1']);
    assert(text::decimal(noise) =~= seq![last]);
    let seed = body::mid_seed("SA0KAM"@, 1, noise);
    assert(seed =~= seq!['1', '-', 'S', 'A', '0', 'K', 'A', 'M', '-', last]);
    assert(is_ascii_chars(seed));
    text::lemma_utf8_ascii(seed);
    let msg = encode_utf8(seed);
    assert(msg =~= seq![0x31u8, 0x2d, 0x53, 0x41, 0x30, 0x4b, 0x41, 0x4d, 0x2d, last as u8]);
    let f = filled(msg);
    md5::lemma_le_bytes_len(80, 8);
    assert(md5::le_bytes(80, 8) =~= seq![80u8, 0, 0, 0, 0, 0, 0, 0]) by {
        reveal_with_fuel(md5::le_bytes, 9);
    }
    assert(f.len() == 64);
    assert forall|i: int| 11 <= i < 64 && i != 56 implies #[trigger] f[i] == 0 by {}
    assert(f[10] == 0x80 && f[56] == 80);
    assert forall|i: int| 0 <= i < 16 implies #[trigger] block(f, 0)[i] == words_with(third)[i] by {
        assert(block(f, 0)[i] == md5::word(f, 4 * i));
        if i >= 3 {
            assert(f[4 * i + 1] == 0 && f[4 * i + 2] == 0 && f[4 * i + 3] == 0);
        }
    }
    assert(block(f, 0) =~= words_with(third));
}

/// The first byte of a digest.
proof fn lemma_first_byte(noise: nat, third: u32, x: u32, first: u8)
    requires
        noise == 2 && third == 0x0080322d || noise == 3 && third == 0x0080332d,
        steps(start(), words_with(third), 61).b == x,
        plus(0x67452301, x) % 256 == first,
    ensures
        md5::md5(encode_utf8(body::mid_seed("SA0KAM"@, 1, noise)))[0] == first,
{
    let msg = encode_utf8(body::mid_seed("SA0KAM"@, 1, noise));
    let m = words_with(third);
    lemma_block(noise, third);
    reveal_with_fuel(steps, 4);
    assert(steps(start(), m, 64).a == x);
    reveal_with_fuel(md5::hashed, 2);
    let s = md5::hashed(filled(msg), 1);
    assert(s == md5::absorbed(start(), m));
    assert(s.a == plus(0x67452301, x));
    md5::lemma_le_bytes_len(s.a as int, 4);
    assert(md5::le_bytes(s.a as int, 4)[0] == (s.a as int % 256) as u8);
}

/// A greater first byte makes a greater number.
proof fn lemma_big_endian_first(bytes: Seq<u8>, scale: nat)
    requires
        bytes.len() > 0,
        scale == body::power(256, (bytes.len() - 1) as nat),
    ensures
        bytes[0] * scale <= body::big_endian(bytes) < (bytes[0] + 1) * scale,
    decreases bytes.len(),
{
    let less = bytes.drop_last();
    if bytes.len() == 1 {
        assert(less =~= seq![]);
        assert(body::big_endian(less) == 0);
        assert(scale == 1);
    } else {
        let part = body::power(256, (less.len() - 1) as nat);
        lemma_big_endian_first(less, part);
        assert(scale == 256 * part);
        assert(bytes[0] * scale == 256 * (bytes[0] * part)) by (nonlinear_arith)
            requires
                scale == 256 * part,
        ;
        assert((bytes[0] + 1) * scale == 256 * ((bytes[0] + 1) * part)) by (nonlinear_arith)
            requires
                scale == 256 * part,
        ;
    }
}

/// The IDs that SA0KAM gets at time 1 for noise 2 and for noise 3 differ.
pub proof fn known_ids_differ()
    ensures
        body::mid_for("SA0KAM"@, 1, 2) != body::mid_for("SA0KAM"@, 1, 3),
{
    lemma_two_round_4(words_with(0x0080322d));
    lemma_three_round_4(words_with(0x0080332d));
    lemma_first_byte(2, 0x0080322d, 0x5f071191, 0x92);
    lemma_first_byte(3, 0x0080332d, 0x10aea3e6, 0xe7);
    let (a, b) = (body::mid_seed("SA0KAM"@, 1, 2), body::mid_seed("SA0KAM"@, 1, 3));
    let (x, y) = (md5::md5(encode_utf8(a)).take(8), md5::md5(encode_utf8(b)).take(8));
    md5::lemma_md5_len(encode_utf8(a));
    md5::lemma_md5_len(encode_utf8(b));
    assert(body::power(256, 7) == 0x100_0000_0000_0000) by {
        reveal_with_fuel(body::power, 8);
    }
    lemma_big_endian_first(x, 0x100_0000_0000_0000);
    lemma_big_endian_first(y, 0x100_0000_0000_0000);
    body::law_mids_tell_digests_apart("SA0KAM"@, 1, 2, "SA0KAM"@, 1, 3);
}

} // verus!

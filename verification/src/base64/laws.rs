//! Laws of base64 as others read and write it.

use vstd::prelude::*;

use crate::base64;

verus! {

/// The place of a character in the alphabet: the capitals, the small letters,
/// the digits, `+` and `/`.
pub open spec fn place(c: char) -> int {
    if 'A' <= c && c <= 'Z' {
        c as int - 'A' as int
    } else if 'a' <= c && c <= 'z' {
        26 + c as int - 'a' as int
    } else if '0' <= c && c <= '9' {
        52 + c as int - '0' as int
    } else if c == '+' {
        62
    } else if c == '/' {
        63
    } else {
        -1
    }
}

proof fn lemma_place(v: int)
    requires
        0 <= v < 64,
    ensures
        place(base64::sextet_char(v)) == v,
{
}

/// Every three bytes are four characters, which spell the same 24 bits, the
/// most significant first.
pub proof fn law_groups(a: u8, b: u8, c: u8, rest: Seq<u8>)
    ensures
        ({
            let s = base64::encoded(seq![a, b, c] + rest);
            &&& s.len() == 4 + base64::encoded(rest).len()
            &&& s.skip(4) == base64::encoded(rest)
            &&& 0 <= place(s[0]) < 64 && 0 <= place(s[1]) < 64
            &&& 0 <= place(s[2]) < 64 && 0 <= place(s[3]) < 64
            &&& place(s[0]) * 262144 + place(s[1]) * 4096 + place(s[2]) * 64 + place(s[3]) == a
                * 65536 + b * 256 + c
        }),
{
    let all = seq![a, b, c] + rest;
    let (x, y, z) = (a as int, b as int, c as int);
    let q = base64::quad(seq![a, b, c]);
    lemma_place(x / 4);
    lemma_place(x % 4 * 16 + y / 16);
    lemma_place(y % 16 * 4 + z / 64);
    lemma_place(z % 64);
    assert(x / 4 * 262144 + (x % 4 * 16 + y / 16) * 4096 + (y % 16 * 4 + z / 64) * 64 + z % 64 == x
        * 65536 + y * 256 + z);
    if rest.len() == 0 {
        assert(all =~= seq![a, b, c]);
        assert(base64::encoded(rest) =~= seq![]);
        assert(base64::encoded(all).skip(4) =~= seq![]);
    } else {
        assert(all.take(3) =~= seq![a, b, c]);
        assert(all.skip(3) =~= rest);
        assert(base64::encoded(all) =~= q + base64::encoded(rest));
        assert(base64::encoded(all).skip(4) =~= base64::encoded(rest));
    }
}

/// What is left at the end is padded with `=` to four characters.
pub proof fn law_padding(a: u8, b: u8)
    ensures
        ({
            let one = base64::encoded(seq![a]);
            let two = base64::encoded(seq![a, b]);
            &&& one.len() == 4 && one[2] == '=' && one[3] == '='
            &&& place(one[0]) * 64 + place(one[1]) == a * 16
            &&& two.len() == 4 && two[3] == '='
            &&& place(two[0]) * 4096 + place(two[1]) * 64 + place(two[2]) == a * 1024 + b * 4
        }),
{
    let (x, y) = (a as int, b as int);
    lemma_place(x / 4);
    lemma_place(x % 4 * 16);
    lemma_place(x % 4 * 16 + y / 16);
    lemma_place(y % 16 * 4);
}

} // verus!

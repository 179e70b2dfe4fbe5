//! Winlink secure login: the gateway sends `;PQ: <challenge>`, the client
//! answers `;PR: <8 digits>` derived from MD5(challenge, password, salt).
//! The password itself never goes over the air.

use vstd::prelude::*;
use vstd::utf8::*;

use crate::md5;
use crate::text;

verus! {

pub const SALT: [u8; 64] = [
    77, 197, 101, 206, 190, 249, 93, 200, 51, 243, 93, 237, 71, 94, 239, 138, 68, 108, 70, 185, 225,
    137, 217, 16, 51, 122, 193, 48, 194, 195, 198, 175, 172, 169, 70, 84, 61, 62, 104, 186, 114, 52,
    61, 168, 66, 129, 192, 208, 187, 249, 232, 193, 41, 113, 41, 45, 240, 16, 29, 228, 208, 228, 61,
    20,
];

/// What is hashed.
pub open spec fn login_payload(challenge: Seq<char>, password: Seq<char>) -> Seq<u8> {
    encode_utf8(challenge) + encode_utf8(password) + SALT@
}

/// The first four bytes of the hash as a little-endian number of 30 bits.
pub open spec fn login_number(sum: Seq<u8>) -> nat {
    (sum[0] + 256 * sum[1] + 65536 * sum[2] + 16777216 * (sum[3] % 64)) as nat
}

/// The answer to a challenge: the last eight decimal digits of the number.
pub open spec fn login_answer(challenge: Seq<char>, password: Seq<char>) -> Seq<char> {
    text::low_digits(login_number(md5::md5(login_payload(challenge, password))), 8)
}

/// The answer to a challenge; always eight digits.
pub fn login_response(challenge: &str, password: &str) -> (r: String)
    ensures
        r@ == login_answer(challenge@, password@),
        r@.len() == 8,
        forall|i: int| 0 <= i < 8 ==> '0' <= #[trigger] r@[i] && r@[i] <= '9',
{
    let mut payload = text::utf8_bytes(challenge);
    payload.extend_from_slice(&text::utf8_bytes(password));
    let salt = SALT;
    for i in 0..64usize
        invariant
            salt == SALT,
            payload@ == encode_utf8(challenge@) + encode_utf8(password@) + SALT@.take(i as int),
    {
        payload.push(salt[i]);
        assert(SALT@.take(i + 1) =~= SALT@.take(i as int).push(SALT@[i as int]));
    }
    assert(SALT@.take(64) =~= SALT@);
    let sum = md5::digest(&payload);
    let value: u64 = sum[0] as u64 + 256 * (sum[1] as u64) + 65536 * (sum[2] as u64) + 16777216 * ((
    sum[3] % 64) as u64);
    proof {
        text::lemma_low_digits(value as nat, 8);
    }
    text::string(&text::low_digit_chars(value, 8))
}

} // verus!

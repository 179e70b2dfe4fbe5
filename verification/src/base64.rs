//! Base64 (RFC 4648), with padding.

use vstd::prelude::*;

use crate::text;

pub mod laws;

verus! {

/// The character for six bits.
pub open spec fn sextet_char(v: int) -> char {
    if v < 26 {
        ((65 + v) as u32) as char
    } else if v < 52 {
        ((71 + v) as u32) as char
    } else if v < 62 {
        ((v - 4) as u32) as char
    } else if v == 62 {
        '+'
    } else {
        '/'
    }
}

/// The six bits that a character stands for.
pub open spec fn sextet(c: char) -> Option<int> {
    if 'A' <= c && c <= 'Z' {
        Some(c as int - 65)
    } else if 'a' <= c && c <= 'z' {
        Some(c as int - 71)
    } else if '0' <= c && c <= '9' {
        Some(c as int + 4)
    } else if c == '+' {
        Some(62)
    } else if c == '/' {
        Some(63)
    } else {
        None
    }
}

/// The four characters of up to three bytes.
pub open spec fn quad(b: Seq<u8>) -> Seq<char> {
    let x = b[0] as int;
    let y = if b.len() > 1 {
        b[1] as int
    } else {
        0
    };
    let z = if b.len() > 2 {
        b[2] as int
    } else {
        0
    };
    seq![
        sextet_char(x / 4),
        sextet_char(x % 4 * 16 + y / 16),
        if b.len() > 1 {
            sextet_char(y % 16 * 4 + z / 64)
        } else {
            '='
        },
        if b.len() > 2 {
            sextet_char(z % 64)
        } else {
            '='
        },
    ]
}

/// The text of some bytes.
pub open spec fn encoded(b: Seq<u8>) -> Seq<char>
    decreases b.len(),
{
    if b.len() == 0 {
        seq![]
    } else if b.len() <= 3 {
        quad(b)
    } else {
        quad(b.take(3)) + encoded(b.skip(3))
    }
}

/// The bytes of four characters; padding may stand at the end only.
pub open spec fn unquad(s: Seq<char>) -> Option<Seq<u8>> {
    match (sextet(s[0]), sextet(s[1])) {
        (Some(p), Some(q)) => {
            let x = (p * 4 + q / 16) as u8;
            if s[2] == '=' && s[3] == '=' {
                Some(seq![x])
            } else {
                match sextet(s[2]) {
                    Some(r) => {
                        let y = (q % 16 * 16 + r / 4) as u8;
                        if s[3] == '=' {
                            Some(seq![x, y])
                        } else {
                            match sextet(s[3]) {
                                Some(t) => Some(seq![x, y, (r % 4 * 64 + t) as u8]),
                                None => None,
                            }
                        }
                    },
                    None => None,
                }
            }
        },
        _ => None,
    }
}

/// The bytes of a text: groups of four characters, only the last one padded.
pub open spec fn decoded(s: Seq<char>) -> Option<Seq<u8>>
    decreases s.len(),
{
    if s.len() == 0 {
        Some(seq![])
    } else if s.len() < 4 {
        None
    } else {
        match (unquad(s.take(4)), decoded(s.skip(4))) {
            (Some(b), Some(rest)) => if b.len() == 3 || s.len() == 4 {
                Some(b + rest)
            } else {
                None
            },
            _ => None,
        }
    }
}

fn to_char(v: u8) -> (r: char)
    requires
        v < 64,
    ensures
        r == sextet_char(v as int),
{
    if v < 26 {
        (65 + v) as char
    } else if v < 52 {
        (71 + v) as char
    } else if v < 62 {
        (v - 4) as char
    } else if v == 62 {
        '+'
    } else {
        '/'
    }
}

fn from_char(c: char) -> (r: Option<u8>)
    ensures
        r is Some <==> sextet(c) is Some,
        r matches Some(v) ==> sextet(c) == Some(v as int) && v < 64,
{
    if 'A' <= c && c <= 'Z' {
        Some(c as u8 - 65)
    } else if 'a' <= c && c <= 'z' {
        Some(c as u8 - 71)
    } else if '0' <= c && c <= '9' {
        Some(c as u8 + 4)
    } else if c == '+' {
        Some(62)
    } else if c == '/' {
        Some(63)
    } else {
        None
    }
}

/// Encodes bytes as text.
pub fn encode(data: &[u8]) -> (r: String)
    ensures
        r@ == encoded(data@),
{
    let mut out: Vec<char> = Vec::new();
    let mut at: usize = 0;
    assert(data@.skip(0) =~= data@);
    assert(encoded(data@) =~= out@ + encoded(data@));
    while at < data.len()
        invariant
            at <= data@.len(),
            encoded(data@) == out@ + encoded(data@.skip(at as int)),
        decreases data@.len() - at,
    {
        let left: usize = data.len() - at;
        let x: u8 = data[at];
        let y: u8 = if left > 1 {
            data[at + 1]
        } else {
            0
        };
        let z: u8 = if left > 2 {
            data[at + 2]
        } else {
            0
        };
        let ghost before = out@;
        let ghost rest = data@.skip(at as int);
        out.push(to_char(x / 4));
        out.push(to_char(x % 4 * 16 + y / 16));
        if left > 1 {
            out.push(to_char(y % 16 * 4 + z / 64));
        } else {
            out.push('=');
        }
        if left > 2 {
            out.push(to_char(z % 64));
        } else {
            out.push('=');
        }
        if left <= 3 {
            at = data.len();
            assert(out@ =~= before + quad(rest));
            assert(data@.skip(at as int) =~= seq![]);
            assert(out@ + encoded(data@.skip(at as int)) =~= out@);
        } else {
            at += 3;
            assert(rest.skip(3) =~= data@.skip(at as int));
            assert(out@ =~= before + quad(rest.take(3)));
            assert(out@ + encoded(data@.skip(at as int)) =~= before + encoded(rest));
        }
    }
    assert(data@.skip(at as int) =~= seq![]);
    assert(out@ =~= encoded(data@));
    text::string(&out)
}

fn decode_quad(a: char, b: char, c: char, d: char) -> (r: Option<Vec<u8>>)
    ensures
        r is Some <==> unquad(seq![a, b, c, d]) is Some,
        r matches Some(v) ==> unquad(seq![a, b, c, d]) == Some(v@),
{
    let mut out: Vec<u8> = Vec::new();
    if let (Some(p), Some(q)) = (from_char(a), from_char(b)) {
        let x: u8 = p * 4 + q / 16;
        out.push(x);
        if c == '=' && d == '=' {
            assert(out@ =~= seq![x]);
            return Some(out);
        }
        if let Some(r) = from_char(c) {
            let y: u8 = q % 16 * 16 + r / 4;
            out.push(y);
            if d == '=' {
                assert(out@ =~= seq![x, y]);
                return Some(out);
            }
            if let Some(t) = from_char(d) {
                let z: u8 = r % 4 * 64 + t;
                out.push(z);
                assert(out@ =~= seq![x, y, z]);
                return Some(out);
            }
        }
    }
    None
}

/// Decodes text; `None` if it is not Base64.
pub fn decode_chars(s: &[char]) -> (r: Option<Vec<u8>>)
    ensures
        r is Some <==> decoded(s@) is Some,
        r matches Some(v) ==> decoded(s@) == Some(v@),
{
    let mut out: Vec<u8> = Vec::new();
    let mut at: usize = 0;
    assert(s@.skip(0) =~= s@);
    while at < s.len()
        invariant
            at <= s@.len(),
            decoded(s@) is Some <==> decoded(s@.skip(at as int)) is Some,
            decoded(s@.skip(at as int)) matches Some(rest) ==> decoded(s@) == Some(out@ + rest),
        decreases s@.len() - at,
    {
        let ghost rest = s@.skip(at as int);
        let ghost before = out@;
        if s.len() - at < 4 {
            return None;
        }
        assert(rest.take(4) =~= seq![
            s@[at as int],
            s@[at + 1],
            s@[at + 2],
            s@[at + 3],
        ]);
        assert(rest.skip(4) =~= s@.skip(at + 4));
        match decode_quad(s[at], s[at + 1], s[at + 2], s[at + 3]) {
            None => {
                return None;
            },
            Some(b) => {
                if b.len() != 3 && s.len() - at != 4 {
                    return None;
                }
                out.extend_from_slice(&b);
                proof {
                    if let Some(more) = decoded(s@.skip(at + 4)) {
                        assert(before + (b@ + more) =~= out@ + more);
                    }
                }
            },
        }
        at += 4;
    }
    assert(s@.skip(at as int) =~= seq![]);
    assert(out@ =~= out@ + seq![]);
    Some(out)
}

/// Decodes text.
pub fn decode(s: &str) -> (r: Result<Vec<u8>, String>)
    ensures
        r is Ok <==> decoded(s@) is Some,
        r matches Ok(v) ==> decoded(s@) == Some(v@),
        r matches Err(e) ==> e@ == "invalid base64"@,
{
    match decode_chars(&text::chars(s)) {
        Some(v) => Ok(v),
        None => Err("invalid base64".to_owned()),
    }
}

pub proof fn lemma_sextet(v: int)
    requires
        0 <= v < 64,
    ensures
        sextet(sextet_char(v)) == Some(v),
        sextet_char(v) != '=',
{
}

proof fn lemma_quad(b: Seq<u8>)
    requires
        1 <= b.len() <= 3,
    ensures
        unquad(quad(b)) == Some(b),
{
    let x = b[0] as int;
    let y = if b.len() > 1 {
        b[1] as int
    } else {
        0
    };
    let z = if b.len() > 2 {
        b[2] as int
    } else {
        0
    };
    lemma_sextet(x / 4);
    lemma_sextet(x % 4 * 16 + y / 16);
    lemma_sextet(y % 16 * 4 + z / 64);
    lemma_sextet(z % 64);
    assert(unquad(quad(b))->0 =~= b);
}

/// What was encoded decodes to what it was.
pub proof fn law_base64_roundtrip(b: Seq<u8>)
    ensures
        decoded(encoded(b)) == Some(b),
    decreases b.len(),
{
    let s = encoded(b);
    if b.len() == 0 {
        assert(b =~= seq![]);
    } else if b.len() <= 3 {
        lemma_quad(b);
        assert(s.take(4) =~= s);
        assert(s.skip(4) =~= seq![]);
        assert(decoded(s.skip(4)) == Some(Seq::<u8>::empty()));
        assert(b + Seq::<u8>::empty() =~= b);
    } else {
        lemma_quad(b.take(3));
        law_base64_roundtrip(b.skip(3));
        assert(s.take(4) =~= quad(b.take(3)));
        assert(s.skip(4) =~= encoded(b.skip(3)));
        assert(b.take(3) + b.skip(3) =~= b);
    }
}

} // verus!

//! Text encodings used on the wire.
//!
//! Winlink programs send ISO-8859-1 bodies and RFC 2047 encoded headers.
//! Text that does not fit in Latin-1 (Polish letters, for example) is sent
//! as UTF-8 with the charset declared, which Pat and modern mail clients
//! decode; older Winlink programs may show it garbled.

use vstd::prelude::*;
use vstd::utf8::*;

use crate::base64;
use crate::text;
use crate::text::Class;
use crate::unicode;

pub mod laws;

verus! {

pub const LATIN1: &'static str = "ISO-8859-1";

pub const UTF8: &'static str = "UTF-8";

// ---------------------------------------------------------------------
// Text

/// Every character has a place in ISO-8859-1.
pub open spec fn fits_latin1(s: Seq<char>) -> bool {
    forall|i: int| 0 <= i < s.len() ==> (#[trigger] s[i] as u32) < 0x100
}

/// One byte per character.
pub open spec fn latin1_bytes(s: Seq<char>) -> Seq<u8> {
    Seq::new(s.len(), |i: int| s[i] as u8)
}

/// A text on the wire: ISO-8859-1 where it fits, else UTF-8.
pub open spec fn encoded_text(s: Seq<char>) -> Seq<u8> {
    if fits_latin1(s) {
        latin1_bytes(s)
    } else {
        encode_utf8(s)
    }
}

/// The charset that a text is sent in.
pub open spec fn text_charset(s: Seq<char>) -> Seq<char> {
    if fits_latin1(s) {
        LATIN1@
    } else {
        UTF8@
    }
}

pub open spec fn is_utf8_name(cs: Seq<char>) -> bool {
    cs == "utf-8"@ || cs == "utf8"@
}

pub open spec fn is_latin_name(cs: Seq<char>) -> bool {
    ||| cs == "iso-8859-1"@
    ||| cs == "iso8859-1"@
    ||| cs == "latin1"@
    ||| cs == "latin-1"@
    ||| cs == "us-ascii"@
    ||| cs == "ascii"@
    ||| cs == "windows-1252"@
    ||| cs == "cp1252"@
}

/// Bytes read in a charset; an unknown one is taken for UTF-8 where that is
/// valid, else for ISO-8859-1.
pub open spec fn decoded_text(bytes: Seq<u8>, charset: Seq<char>) -> Seq<char> {
    let cs = text::ascii_lower(text::trim(charset));
    if is_utf8_name(cs) {
        unicode::decoded_lossy(bytes)
    } else if !is_latin_name(cs) && valid_utf8(bytes) {
        decode_utf8(bytes)
    } else {
        text::latin1(bytes)
    }
}

fn all_latin1(s: &[char]) -> (r: bool)
    ensures
        r == fits_latin1(s@),
{
    for i in 0..s.len()
        invariant
            fits_latin1(s@.take(i as int)),
    {
        if s[i] as u32 >= 0x100 {
            assert(!fits_latin1(s@));
            return false;
        }
        assert forall|j: int| 0 <= j < i + 1 implies (#[trigger] s@.take(i + 1)[j] as u32)
            < 0x100 by {
            if j < i {
                assert(s@.take(i as int)[j] == s@.take(i + 1)[j]);
            }
        }
    }
    assert(s@.take(s@.len() as int) =~= s@);
    true
}

fn to_latin1(s: &[char]) -> (r: Vec<u8>)
    requires
        fits_latin1(s@),
    ensures
        r@ == latin1_bytes(s@),
{
    let mut out: Vec<u8> = Vec::new();
    for i in 0..s.len()
        invariant
            fits_latin1(s@),
            out@ == latin1_bytes(s@).take(i as int),
    {
        out.push(s[i] as u8);
        assert(latin1_bytes(s@).take(i + 1) =~= latin1_bytes(s@).take(i as int).push(
            s@[i as int] as u8,
        ));
    }
    assert(latin1_bytes(s@).take(s@.len() as int) =~= latin1_bytes(s@));
    out
}

/// Can the text be sent as ISO-8859-1?
pub fn is_latin1(text: &str) -> (r: bool)
    ensures
        r == fits_latin1(text@),
{
    all_latin1(&text::chars(text))
}

/// Encodes text as ISO-8859-1 when possible, otherwise UTF-8.
pub fn encode_text(text: &str) -> (r: (Vec<u8>, &'static str))
    ensures
        r.0@ == encoded_text(text@),
        r.1@ == text_charset(text@),
{
    let cs = text::chars(text);
    if all_latin1(&cs) {
        (to_latin1(&cs), LATIN1)
    } else {
        (text::utf8_bytes(text), UTF8)
    }
}

/// Decodes bytes in the given charset (unknown charsets fall back to UTF-8
/// when valid, else Latin-1).
pub fn decode_text(bytes: &[u8], charset: &str) -> (r: String)
    ensures
        r@ == decoded_text(bytes@, charset@),
{
    let cs = text::chars(charset);
    let cs = text::to_ascii_lower(text::trimmed(&cs));
    if text::equals_str(&cs, "utf-8") || text::equals_str(&cs, "utf8") {
        return unicode::decode_lossy(bytes);
    }
    let latin = text::equals_str(&cs, "iso-8859-1") || text::equals_str(&cs, "iso8859-1")
        || text::equals_str(&cs, "latin1") || text::equals_str(&cs, "latin-1")
        || text::equals_str(&cs, "us-ascii") || text::equals_str(&cs, "ascii")
        || text::equals_str(&cs, "windows-1252") || text::equals_str(&cs, "cp1252");
    if !latin {
        if let Some(s) = unicode::decode_strict(bytes) {
            return s;
        }
    }
    text::string(&text::latin1_chars(bytes))
}

// ---------------------------------------------------------------------
// Encoded words

/// Printable ASCII: goes into a header as it is.
pub open spec fn is_plain(s: Seq<char>) -> bool {
    forall|i: int| 0 <= i < s.len() ==> ' ' <= #[trigger] s[i] && s[i] <= '~'
}

/// The bytes that stand for themselves in a Q-encoded word.
pub open spec fn is_q_literal(b: u8) -> bool {
    ||| 0x41 <= b <= 0x5a
    ||| 0x61 <= b <= 0x7a
    ||| 0x30 <= b <= 0x39
    ||| b == 0x21
    ||| b == 0x2a
    ||| b == 0x2b
    ||| b == 0x2d
    ||| b == 0x2f
}

/// One byte, Q-encoded.
pub open spec fn q_byte(b: u8) -> Seq<char> {
    if is_q_literal(b) {
        seq![b as char]
    } else if b == 0x20 {
        seq!['_']
    } else {
        seq!['='] + text::hex(b as nat, 2)
    }
}

/// Some bytes, Q-encoded.
pub open spec fn q_encoded(bytes: Seq<u8>) -> Seq<char>
    decreases bytes.len(),
{
    if bytes.len() == 0 {
        seq![]
    } else {
        q_encoded(bytes.drop_last()) + q_byte(bytes.last())
    }
}

/// Some characters on the wire, in ISO-8859-1 or UTF-8.
pub open spec fn wire_bytes(s: Seq<char>, latin: bool) -> Seq<u8> {
    if latin {
        latin1_bytes(s)
    } else {
        encode_utf8(s)
    }
}

/// The payloads of the encoded words for `s`: as many characters in each as
/// fit in `max`, none split. The last one is apart, for it is still open.
pub open spec fn q_words(s: Seq<char>, latin: bool, max: nat) -> (Seq<Seq<char>>, Seq<char>)
    decreases s.len(),
{
    if s.len() == 0 {
        (seq![], seq![])
    } else {
        let (done, word) = q_words(s.drop_last(), latin, max);
        let piece = q_encoded(wire_bytes(seq![s.last()], latin));
        if word.len() + piece.len() > max {
            (done.push(word), piece)
        } else {
            (done, word + piece)
        }
    }
}

/// What an encoded word starts with.
pub open spec fn word_prefix(charset: Seq<char>) -> Seq<char> {
    "=?"@ + charset + "?Q?"@
}

/// An encoded word.
pub open spec fn encoded_word(charset: Seq<char>, payload: Seq<char>) -> Seq<char> {
    word_prefix(charset) + payload + "?="@
}

/// The encoded words for these payloads.
pub open spec fn encoded_words(charset: Seq<char>, payloads: Seq<Seq<char>>) -> Seq<Seq<char>> {
    Seq::new(payloads.len(), |i: int| encoded_word(charset, payloads[i]))
}

/// The payloads with the open one, if there is anything in it.
pub open spec fn closed_words(w: (Seq<Seq<char>>, Seq<char>)) -> Seq<Seq<char>> {
    if w.1.len() > 0 {
        w.0.push(w.1)
    } else {
        w.0
    }
}

/// A header value on the wire: printable ASCII as it is, anything else as
/// Q-encoded words of at most 75 characters.
pub open spec fn encoded_header(s: Seq<char>) -> Seq<char> {
    if is_plain(s) {
        s
    } else {
        let charset = text_charset(s);
        let max = (75 - word_prefix(charset).len() - 2) as nat;
        text::join(
            encoded_words(charset, closed_words(q_words(s, fits_latin1(s), max))),
            " "@,
        )
    }
}

fn all_plain(s: &[char]) -> (r: bool)
    ensures
        r == is_plain(s@),
{
    for i in 0..s.len()
        invariant
            forall|j: int| 0 <= j < i ==> ' ' <= #[trigger] s@[j] && s@[j] <= '~',
    {
        if !(' ' <= s[i] && s[i] <= '~') {
            return false;
        }
    }
    true
}

fn push_q_bytes(out: &mut Vec<char>, bytes: &[u8])
    ensures
        final(out)@ == old(out)@ + q_encoded(bytes@),
{
    assert(bytes@.take(0) =~= seq![]);
    assert(out@ + q_encoded(seq![]) =~= out@);
    for i in 0..bytes.len()
        invariant
            out@ == old(out)@ + q_encoded(bytes@.take(i as int)),
    {
        let b = bytes[i];
        assert(bytes@.take(i + 1).drop_last() =~= bytes@.take(i as int));
        assert(bytes@.take(i + 1).last() == b);
        let ghost before = out@;
        if (0x41 <= b && b <= 0x5a) || (0x61 <= b && b <= 0x7a) || (0x30 <= b && b <= 0x39) || b
            == 0x21 || b == 0x2a || b == 0x2b || b == 0x2d || b == 0x2f {
            out.push(b as char);
        } else if b == 0x20 {
            out.push('_');
        } else {
            out.push('=');
            let hex = text::hex_chars(b as u64, 2);
            out.extend_from_slice(&hex);
        }
        assert(out@ =~= before + q_byte(b));
        assert(out@ =~= old(out)@ + q_encoded(bytes@.take(i + 1)));
    }
    assert(bytes@.take(bytes@.len() as int) =~= bytes@);
}

fn char_bytes(c: char, latin: bool) -> (r: Vec<u8>)
    requires
        latin ==> (c as u32) < 0x100,
    ensures
        r@ == wire_bytes(seq![c], latin),
{
    if latin {
        let mut v: Vec<u8> = Vec::new();
        v.push(c as u8);
        assert(v@ =~= latin1_bytes(seq![c]));
        v
    } else {
        let mut s = String::new();
        s.push(c);
        assert(s@ =~= seq![c]);
        text::utf8_bytes(&s)
    }
}

fn close_word(words: &mut Vec<String>, charset: &str, payload: &[char])
    ensures
        text::texts(final(words)@) == text::texts(old(words)@).push(
            encoded_word(charset@, payload@),
        ),
{
    let word = text::cat5("=?", charset, "?Q?", &text::string(payload), "?=");
    assert(word@ =~= encoded_word(charset@, payload@));
    words.push(word);
    assert(text::texts(words@) =~= text::texts(old(words)@).push(encoded_word(charset@, payload@)));
}

proof fn lemma_prefix_len(s: Seq<char>)
    ensures
        word_prefix(text_charset(s)).len() == if fits_latin1(s) {
            15int
        } else {
            10
        },
{
    reveal_strlit("=?");
    reveal_strlit("?Q?");
    reveal_strlit("ISO-8859-1");
    reveal_strlit("UTF-8");
}

/// Header value safe for the wire: ASCII as-is, anything else as one or more
/// RFC 2047 Q-encoded words.
pub fn encode_header(value: &str) -> (r: String)
    ensures
        r@ == encoded_header(value@),
{
    let cs = text::chars(value);
    if all_plain(&cs) {
        return value.to_owned();
    }
    let latin = all_latin1(&cs);
    let charset = if latin {
        LATIN1
    } else {
        UTF8
    };
    let max: usize = if latin {
        58
    } else {
        63
    };
    proof {
        lemma_prefix_len(value@);
    }
    let mut words: Vec<String> = Vec::new();
    let mut word: Vec<char> = Vec::new();
    let ghost mut done: Seq<Seq<char>> = seq![];
    assert(cs@.take(0) =~= seq![]);
    assert(text::texts(words@) =~= encoded_words(charset@, done));
    assert(word@ =~= seq![]);
    for i in 0..cs.len()
        invariant
            cs@ == value@,
            latin == fits_latin1(cs@),
            max == 58 || max == 63,
            q_words(cs@.take(i as int), latin, max as nat) == (done, word@),
            text::texts(words@) == encoded_words(charset@, done),
            word@.len() <= max,
    {
        assert(cs@.take(i + 1).drop_last() =~= cs@.take(i as int));
        assert(cs@.take(i + 1).last() == cs@[i as int]);
        let bytes = char_bytes(cs[i], latin);
        let mut piece: Vec<char> = Vec::new();
        push_q_bytes(&mut piece, &bytes);
        let ghost p = q_encoded(wire_bytes(seq![cs@[i as int]], latin));
        assert(piece@ =~= p);
        proof {
            lemma_piece_len(cs@[i as int], latin);
        }
        if word.len() + piece.len() > max {
            close_word(&mut words, charset, &word);
            proof {
                done = done.push(word@);
                assert(text::texts(words@) =~= encoded_words(charset@, done));
            }
            word = piece;
        } else {
            word.extend_from_slice(&piece);
        }
    }
    assert(cs@.take(cs@.len() as int) =~= cs@);
    if word.len() > 0 {
        close_word(&mut words, charset, &word);
        assert(text::texts(words@) =~= encoded_words(charset@, done.push(word@)));
    }
    text::joined(&words, " ")
}

/// A character takes at most four bytes, each of them three characters.
proof fn lemma_piece_len(c: char, latin: bool)
    ensures
        0 < q_encoded(wire_bytes(seq![c], latin)).len() <= 12,
{
    let b = wire_bytes(seq![c], latin);
    if !latin {
        assert(seq![c].drop_first() =~= seq![]);
        reveal_with_fuel(encode_utf8, 2);
    }
    assert(1 <= b.len() <= 4);
    lemma_q_len(b);
}

proof fn lemma_q_len(b: Seq<u8>)
    ensures
        b.len() <= q_encoded(b).len() <= 3 * b.len(),
    decreases b.len(),
{
    if b.len() > 0 {
        lemma_q_len(b.drop_last());
        lemma_hex2(b.last());
    }
}

/// A byte is read back from its two hexadecimal digits.
proof fn lemma_hex2(b: u8)
    ensures
        text::hex(b as nat, 2) == seq![text::hex_digit(b as nat / 16), text::hex_digit(b as nat % 16)],
        text::parse_unsigned(text::hex(b as nat, 2), 16, 255) == Some(b as nat),
{
    let h = text::hex(b as nat, 2);
    reveal_with_fuel(text::hex, 3);
    assert(h =~= seq![text::hex_digit(b as nat / 16), text::hex_digit(b as nat % 16)]);
    reveal_with_fuel(text::digits_value, 3);
    assert(h.drop_last() =~= seq![h[0]]);
    assert(h.drop_last().drop_last() =~= seq![]);
}

/// Q encoding undone: `_` is a space, `=` and two hexadecimal digits are a
/// byte.
pub open spec fn q_decoded(raw: Seq<u8>) -> Option<Seq<u8>>
    decreases raw.len(),
{
    if raw.len() == 0 {
        Some(seq![])
    } else if raw[0] == 0x3d && raw.len() > 2 {
        match (
            text::parse_unsigned(text::latin1(raw.subrange(1, 3)), 16, 255),
            q_decoded(raw.skip(3)),
        ) {
            (Some(v), Some(rest)) => Some(seq![v as u8] + rest),
            _ => None,
        }
    } else {
        match q_decoded(raw.skip(1)) {
            Some(rest) => Some(
                seq![if raw[0] == 0x5f {
                    0x20
                } else {
                    raw[0]
                }] + rest,
            ),
            None => None,
        }
    }
}

/// The payload of an encoded word as bytes, by its encoding letter.
pub open spec fn payload_bytes(encoding: Seq<char>, payload: Seq<char>) -> Option<Seq<u8>> {
    if encoding == "Q"@ || encoding == "q"@ {
        q_decoded(encode_utf8(payload))
    } else if encoding == "B"@ || encoding == "b"@ {
        base64::decoded(payload)
    } else {
        None
    }
}

/// The text of the `=?charset?encoding?payload?=` that `s` starts with, and
/// the number of characters it takes. A language after `*` in the charset is
/// left off.
pub open spec fn decoded_word(s: Seq<char>) -> Option<(Seq<char>, int)> {
    match text::strip_prefix(s, "=?"@) {
        None => None,
        Some(body) => match text::split_once(body, Class::One('?')) {
            None => None,
            Some((charset, rest)) => match text::split_once(rest, Class::One('?')) {
                None => None,
                Some((encoding, more)) => match text::find(more, "?="@) {
                    None => None,
                    Some(end) => match payload_bytes(encoding, more.take(end)) {
                        None => None,
                        Some(bytes) => Some(
                            (
                                decoded_text(
                                    bytes,
                                    charset.take(text::first(charset, Class::One('*')) as int),
                                ),
                                6 + charset.len() + encoding.len() + end,
                            ),
                        ),
                    },
                },
            },
        },
    }
}

pub proof fn lemma_find(s: Seq<char>, p: Seq<char>)
    ensures
        text::find(s, p) matches Some(n) ==> 0 <= n <= s.len() - p.len() && text::starts_with(
            s.skip(n),
            p,
        ),
    decreases s.len(),
{
    if text::starts_with(s, p) {
        assert(s.skip(0) =~= s);
    } else if s.len() > 0 {
        lemma_find(s.drop_first(), p);
        if let Some(n) = text::find(s.drop_first(), p) {
            assert(s.drop_first().skip(n) =~= s.skip(n + 1));
        }
    }
}

pub proof fn lemma_word_used(s: Seq<char>)
    ensures
        decoded_word(s) matches Some(p) ==> 0 < p.1 <= s.len(),
{
    reveal_strlit("=?");
    reveal_strlit("?=");
    if let Some(body) = text::strip_prefix(s, "=?"@) {
        text::lemma_first(body, Class::One('?'));
        if let Some((charset, rest)) = text::split_once(body, Class::One('?')) {
            text::lemma_first(rest, Class::One('?'));
            if let Some((encoding, more)) = text::split_once(rest, Class::One('?')) {
                lemma_find(more, "?="@);
            }
        }
    }
}

/// A header value with its encoded words decoded. White space between two
/// of them is dropped; `after_word` says that one ends where `rest` starts.
pub open spec fn decoded_rest(rest: Seq<char>, after_word: bool) -> Seq<char>
    decreases rest.len(),
{
    match text::find(rest, "=?"@) {
        None => rest,
        Some(start) => {
            proof {
                reveal_strlit("=?");
                lemma_find(rest, "=?"@);
                lemma_word_used(rest.skip(start));
            }
            let before = rest.take(start);
            let after = rest.skip(start);
            match decoded_word(after) {
                Some((word, used)) => {
                    let kept = if after_word && text::trim(before).len() == 0 {
                        seq![]
                    } else {
                        before
                    };
                    kept + word + decoded_rest(after.skip(used), true)
                },
                None => before + "=?"@ + decoded_rest(after.skip(2), false),
            }
        },
    }
}

/// A header value with its encoded words decoded.
pub open spec fn decoded_header(s: Seq<char>) -> Seq<char> {
    decoded_rest(s, false)
}

fn decode_q(raw: &[u8]) -> (r: Option<Vec<u8>>)
    ensures
        r is Some <==> q_decoded(raw@) is Some,
        r matches Some(v) ==> q_decoded(raw@) == Some(v@),
{
    let mut out: Vec<u8> = Vec::new();
    let mut i: usize = 0;
    assert(raw@.skip(0) =~= raw@);
    while i < raw.len()
        invariant
            i <= raw@.len(),
            q_decoded(raw@) == (match q_decoded(raw@.skip(i as int)) {
                Some(rest) => Some(out@ + rest),
                None => None,
            }),
        decreases raw@.len() - i,
    {
        let ghost rest = raw@.skip(i as int);
        let ghost before = out@;
        if raw[i] == 0x3d && raw.len() - i > 2 {
            let hex = text::latin1_chars(&raw[i + 1..i + 3]);
            assert(raw@.subrange(i + 1, i + 3) =~= rest.subrange(1, 3));
            assert(raw@.skip(i + 3) =~= rest.skip(3));
            match text::unsigned(&hex, 16, 255) {
                Some(v) => {
                    out.push(v as u8);
                    i += 3;
                    assert forall|t: Seq<u8>| #[trigger] (out@ + t) =~= before + (seq![v as u8]
                        + t) by {}
                },
                None => {
                    return None;
                },
            }
        } else {
            let b = if raw[i] == 0x5f {
                0x20
            } else {
                raw[i]
            };
            out.push(b);
            assert(raw@.skip(i + 1) =~= rest.skip(1));
            i += 1;
            assert forall|t: Seq<u8>| #[trigger] (out@ + t) =~= before + (seq![b] + t) by {}
        }
    }
    assert(raw@.skip(i as int) =~= seq![]);
    assert(out@ + seq![] =~= out@);
    Some(out)
}

/// Parses one `=?charset?enc?text?=` at the start of `s`.
fn decode_word(s: &[char]) -> (r: Option<(String, usize)>)
    ensures
        r is Some <==> decoded_word(s@) is Some,
        r matches Some(p) ==> decoded_word(s@) == Some((p.0@, p.1 as int)),
{
    proof {
        reveal_strlit("=?");
        reveal_strlit("?=");
        lemma_word_used(s@);
    }
    let body = match text::without_prefix(s, "=?") {
        Some(b) => b,
        None => {
            return None;
        },
    };
    let (charset, rest) = match text::split_in_two(body, Class::One('?')) {
        Some(p) => p,
        None => {
            return None;
        },
    };
    proof {
        text::lemma_first(body@, Class::One('?'));
        text::lemma_first(rest@, Class::One('?'));
    }
    let (encoding, more) = match text::split_in_two(rest, Class::One('?')) {
        Some(p) => p,
        None => {
            return None;
        },
    };
    let end: usize = match text::find_str(more, "?=") {
        Some(n) => n,
        None => {
            return None;
        },
    };
    let payload = &more[0..end];
    assert(payload@ =~= more@.take(end as int));
    let bytes = if text::equals_str(encoding, "Q") || text::equals_str(encoding, "q") {
        decode_q(&text::utf8_bytes(&text::string(payload)))
    } else if text::equals_str(encoding, "B") || text::equals_str(encoding, "b") {
        base64::decode_chars(payload)
    } else {
        None
    };
    match bytes {
        Some(bytes) => {
            let n = text::find_first(charset, Class::One('*'));
            let name = &charset[0..n];
            assert(name@ =~= charset@.take(n as int));
            let total: usize = s.len();
            assert(6 + charset@.len() + encoding@.len() + end <= total);
            Some(
                (
                    decode_text(&bytes, &text::string(name)),
                    6 + charset.len() + encoding.len() + end,
                ),
            )
        },
        None => None,
    }
}

/// What is read next of a header value: plain text up to an encoded word,
/// and that word. Gives how much was taken and whether a word ends there;
/// nothing where the rest is plain.
#[verifier::spinoff_prover]
fn decode_piece(rest: &[char], after_word: bool, out: &mut String) -> (r: Option<(usize, bool)>)
    ensures
        match r {
            None => old(out)@ + decoded_rest(rest@, after_word) == final(out)@,
            Some((n, word)) => 0 < n <= rest@.len() && old(out)@ + decoded_rest(rest@, after_word)
                == final(out)@ + decoded_rest(rest@.skip(n as int), word),
        },
{
    proof {
        reveal_strlit("=?");
    }
    let start: usize = match text::find_str(rest, "=?") {
        Some(n) => n,
        None => {
            out.append(&text::string(rest));
            return None;
        },
    };
    let before = &rest[0..start];
    let after = &rest[start..rest.len()];
    assert(before@ =~= rest@.take(start as int));
    assert(after@ =~= rest@.skip(start as int));
    let ghost so_far = out@;
    proof {
        lemma_word_used(after@);
    }
    match decode_word(after) {
        Some((word, used)) => {
            let ghost kept = if after_word && text::trim(before@).len() == 0 {
                seq![]
            } else {
                before@
            };
            if !(after_word && text::trimmed(before).len() == 0) {
                out.append(&text::string(before));
            }
            assert(out@ =~= so_far + kept);
            out.append(&word);
            assert(after@.skip(used as int) =~= rest@.skip(start + used));
            let ghost tail = decoded_rest(rest@.skip(start + used), true);
            assert(so_far + (kept + word@ + tail) =~= so_far + kept + word@ + tail);
            Some((start + used, true))
        },
        None => {
            out.append(&text::string(before));
            out.append("=?");
            assert(after@.skip(2) =~= rest@.skip(start + 2));
            let ghost tail = decoded_rest(rest@.skip(start + 2), false);
            assert(so_far + (before@ + "=?"@ + tail) =~= so_far + before@ + "=?"@ + tail);
            Some((start + 2, false))
        },
    }
}

/// Decodes RFC 2047 encoded words (Q or B) anywhere in a header value.
/// Whitespace between two adjacent encoded words is dropped.
pub fn decode_header(value: &str) -> (r: String)
    ensures
        r@ == decoded_header(value@),
{
    let cs = text::chars(value);
    let mut out = String::new();
    let mut at: usize = 0;
    let mut after_word = false;
    let ghost goal = decoded_header(value@);
    assert(cs@.skip(0) =~= cs@);
    assert(out@ + decoded_rest(cs@, false) =~= decoded_rest(cs@, false));
    loop
        invariant
            at <= cs@.len(),
            goal == decoded_header(value@),
            goal == out@ + decoded_rest(cs@.skip(at as int), after_word),
        decreases cs@.len() - at,
    {
        let rest = &cs[at..cs.len()];
        assert(rest@ =~= cs@.skip(at as int));
        match decode_piece(rest, after_word, &mut out) {
            None => {
                return out;
            },
            Some((n, word)) => {
                assert(rest@.skip(n as int) =~= cs@.skip(at + n));
                at = at + n;
                after_word = word;
            },
        }
    }
}

// ---------------------------------------------------------------------
// Laws

/// A text is read back from what it is sent as.
pub proof fn law_text_roundtrip(s: Seq<char>)
    ensures
        decoded_text(encoded_text(s), text_charset(s)) == s,
{
    lemma_charset_names();
    if fits_latin1(s) {
        lemma_latin1_undone(s);
    } else {
        encode_utf8_valid_utf8(s);
        encode_utf8_decode_utf8(s);
    }
}

proof fn lemma_latin1_char(c: char)
    requires
        (c as u32) < 0x100,
    ensures
        (c as u8) as char == c,
{
}

proof fn lemma_latin1_undone(s: Seq<char>)
    requires
        fits_latin1(s),
    ensures
        text::latin1(latin1_bytes(s)) == s,
{
    assert forall|i: int| 0 <= i < s.len() implies text::latin1(latin1_bytes(s))[i] == s[i] by {
        lemma_latin1_char(s[i]);
    }
    assert(text::latin1(latin1_bytes(s)) =~= s);
}

proof fn lemma_charset_names()
    ensures
        text::ascii_lower(text::trim(LATIN1@)) == "iso-8859-1"@,
        text::ascii_lower(text::trim(UTF8@)) == "utf-8"@,
        !is_utf8_name("iso-8859-1"@),
        text::free_of(LATIN1@, Class::Two('*', '?')),
        text::free_of(UTF8@, Class::Two('*', '?')),
{
    reveal_strlit("ISO-8859-1");
    reveal_strlit("iso-8859-1");
    reveal_strlit("UTF-8");
    reveal_strlit("utf-8");
    reveal_strlit("utf8");
    text::lemma_trim_id(LATIN1@, Class::Space);
    text::lemma_trim_id(UTF8@, Class::Space);
    assert(text::ascii_lower(LATIN1@) =~= "iso-8859-1"@);
    assert(text::ascii_lower(UTF8@) =~= "utf-8"@);
    assert("iso-8859-1"@.len() != "utf-8"@.len());
    assert("iso-8859-1"@.len() != "utf8"@.len());
}

proof fn lemma_q_concat(a: Seq<u8>, b: Seq<u8>)
    ensures
        q_encoded(a + b) == q_encoded(a) + q_encoded(b),
    decreases b.len(),
{
    if b.len() == 0 {
        assert(a + b =~= a);
        assert(q_encoded(a) + q_encoded(b) =~= q_encoded(a));
    } else {
        lemma_q_concat(a, b.drop_last());
        assert((a + b).drop_last() =~= a + b.drop_last());
        assert((q_encoded(a) + q_encoded(b.drop_last())) + q_byte(b.last()) =~= q_encoded(a) + (
        q_encoded(b.drop_last()) + q_byte(b.last())));
    }
}

/// Only characters that keep their meaning in a Q-encoded word.
pub open spec fn is_q_text(s: Seq<char>) -> bool {
    forall|i: int|
        0 <= i < s.len() ==> '!' <= #[trigger] s[i] && s[i] <= '~' && s[i] != '?'
}

proof fn lemma_q_text(b: Seq<u8>)
    ensures
        is_q_text(q_encoded(b)),
    decreases b.len(),
{
    if b.len() > 0 {
        lemma_q_text(b.drop_last());
        lemma_hex2(b.last());
    }
}

/// One byte per character.
proof fn lemma_ascii_bytes(s: Seq<char>)
    requires
        is_q_text(s),
    ensures
        encode_utf8(s) == latin1_bytes(s),
{
    assert(is_ascii_chars(s));
    is_ascii_chars_encode_utf8(s);
    assert(encode_utf8(s) =~= latin1_bytes(s));
}

/// Q encoding is undone.
proof fn lemma_q_roundtrip(b: Seq<u8>)
    ensures
        q_decoded(encode_utf8(q_encoded(b))) == Some(b),
{
    lemma_q_text(b);
    lemma_ascii_bytes(q_encoded(b));
    lemma_q_undone(b);
}

proof fn lemma_q_undone(b: Seq<u8>)
    ensures
        q_decoded(latin1_bytes(q_encoded(b))) == Some(b),
    decreases b.len(),
{
    if b.len() == 0 {
        assert(latin1_bytes(q_encoded(b)) =~= seq![]);
        assert(b =~= seq![]);
    } else {
        let head = seq![b[0]];
        let tail = b.drop_first();
        lemma_q_undone(tail);
        lemma_q_concat(head, tail);
        assert(head + tail =~= b);
        assert(head.drop_last() =~= seq![]);
        assert(q_encoded(head) =~= q_byte(b[0])) by {
            reveal_with_fuel(q_encoded, 2);
        }
        lemma_hex2(b[0]);
        let raw = latin1_bytes(q_encoded(b));
        let rest = latin1_bytes(q_encoded(tail));
        if is_q_literal(b[0]) {
            assert(raw.skip(1) =~= rest);
            assert((b[0] as char) as u8 == b[0]);
        } else if b[0] == 0x20 {
            assert(raw.skip(1) =~= rest);
        } else {
            assert(raw.skip(3) =~= rest);
            assert(text::latin1(raw.subrange(1, 3)) =~= text::hex(b[0] as nat, 2));
        }
        assert(seq![b[0]] + tail =~= b);
    }
}

/// The parts of an encoded word, as the reader finds them.
#[verifier::spinoff_prover]
proof fn lemma_word_parts(charset: Seq<char>, payload: Seq<char>, tail: Seq<char>)
    requires
        text::free_of(charset, Class::Two('*', '?')),
        is_q_text(payload),
    ensures
        ({
            let all = encoded_word(charset, payload) + tail;
            let more = payload + "?="@ + tail;
            let rest = "Q"@ + seq!['?'] + more;
            let body = charset + seq!['?'] + rest;
            &&& text::strip_prefix(all, "=?"@) == Some(body)
            &&& text::starts_with(all, "=?"@)
            &&& text::split_once(body, Class::One('?')) == Some((charset, rest))
            &&& text::split_once(rest, Class::One('?')) == Some(("Q"@, more))
            &&& text::find(more, "?="@) == Some(payload.len() as int)
            &&& more.take(payload.len() as int) == payload
            &&& text::first(charset, Class::One('*')) == charset.len()
            &&& encoded_word(charset, payload).len() == 7 + charset.len() + payload.len()
        }),
{
    reveal_strlit("=?");
    reveal_strlit("?=");
    reveal_strlit("?Q?");
    reveal_strlit("Q");
    let all = encoded_word(charset, payload) + tail;
    let more = payload + "?="@ + tail;
    let rest = "Q"@ + seq!['?'] + more;
    let body = charset + seq!['?'] + rest;
    assert(all =~= "=?"@ + body);
    assert(all.take(2) =~= "=?"@);
    assert(all.skip(2) =~= body);
    assert(text::free_of(charset, Class::One('?'))) by {
        assert(text::free_of(charset, Class::Two('*', '?')));
    }
    text::lemma_split_at(charset, '?', rest, Class::One('?'));
    text::lemma_split_at("Q"@, '?', more, Class::One('?'));
    lemma_find_end(payload, tail);
    assert(more.take(payload.len() as int) =~= payload);
    assert(text::free_of(charset, Class::One('*'))) by {
        assert(text::free_of(charset, Class::Two('*', '?')));
    }
    text::lemma_free_of_first(charset, Class::One('*'));
}

/// The bytes of a text are decoded to it.
proof fn lemma_wire_bytes_undone(charset: Seq<char>, s: Seq<char>, latin: bool)
    requires
        charset == if latin {
            LATIN1@
        } else {
            UTF8@
        },
        latin ==> fits_latin1(s),
    ensures
        decoded_text(wire_bytes(s, latin), charset) == s,
        text::free_of(charset, Class::Two('*', '?')),
{
    lemma_charset_names();
    if latin {
        lemma_latin1_undone(s);
    } else {
        encode_utf8_valid_utf8(s);
        encode_utf8_decode_utf8(s);
    }
}

/// An encoded word is read back, whatever follows it.
proof fn lemma_word_undone(charset: Seq<char>, s: Seq<char>, latin: bool, tail: Seq<char>)
    requires
        charset == if latin {
            LATIN1@
        } else {
            UTF8@
        },
        latin ==> fits_latin1(s),
    ensures
        ({
            let word = encoded_word(charset, q_encoded(wire_bytes(s, latin)));
            &&& decoded_word(word + tail) == Some((s, word.len() as int))
            &&& text::starts_with(word + tail, "=?"@)
        }),
{
    let bytes = wire_bytes(s, latin);
    let payload = q_encoded(bytes);
    lemma_q_text(bytes);
    lemma_q_roundtrip(bytes);
    lemma_wire_bytes_undone(charset, s, latin);
    lemma_word_parts(charset, payload, tail);
    assert(charset.take(charset.len() as int) =~= charset);
    reveal_strlit("Q");
}

/// The payload ends at the first `?=`.
proof fn lemma_find_end(payload: Seq<char>, tail: Seq<char>)
    requires
        is_q_text(payload),
    ensures
        text::find(payload + "?="@ + tail, "?="@) == Some(payload.len() as int),
    decreases payload.len(),
{
    reveal_strlit("?=");
    let s = payload + "?="@ + tail;
    if payload.len() == 0 {
        assert(s.take(2) =~= "?="@);
    } else {
        lemma_find_end(payload.drop_first(), tail);
        assert(s.drop_first() =~= payload.drop_first() + "?="@ + tail);
        assert(s.take(2)[0] == payload[0]);
    }
}

/// The payloads that these runs of characters give.
pub open spec fn q_payloads(runs: Seq<Seq<char>>, latin: bool) -> Seq<Seq<char>> {
    Seq::new(runs.len(), |i: int| q_encoded(wire_bytes(runs[i], latin)))
}

/// The runs of characters one after another.
pub open spec fn together(runs: Seq<Seq<char>>) -> Seq<char>
    decreases runs.len(),
{
    if runs.len() == 0 {
        seq![]
    } else {
        runs[0] + together(runs.drop_first())
    }
}

proof fn lemma_together_push(runs: Seq<Seq<char>>, run: Seq<char>)
    ensures
        together(runs.push(run)) == together(runs) + run,
    decreases runs.len(),
{
    if runs.len() == 0 {
        assert(runs.push(run).drop_first() =~= seq![]);
        assert(together(seq![]) =~= Seq::<char>::empty());
        assert(together(runs.push(run)) =~= run);
        assert(together(runs) + run =~= run);
    } else {
        lemma_together_push(runs.drop_first(), run);
        assert(runs.push(run).drop_first() =~= runs.drop_first().push(run));
        assert(runs[0] + (together(runs.drop_first()) + run) =~= (runs[0] + together(
            runs.drop_first(),
        )) + run);
    }
}

proof fn lemma_wire_concat(a: Seq<char>, c: char, latin: bool)
    ensures
        wire_bytes(a.push(c), latin) == wire_bytes(a, latin) + wire_bytes(seq![c], latin),
{
    if latin {
        assert(latin1_bytes(a.push(c)) =~= latin1_bytes(a) + latin1_bytes(seq![c]));
    } else {
        text::lemma_utf8_concat(a, seq![c]);
        assert(a + seq![c] =~= a.push(c));
    }
}

/// The words hold the characters of `s` in runs, in order.
proof fn lemma_q_words(s: Seq<char>, latin: bool, max: nat) -> (r: (Seq<Seq<char>>, Seq<char>))
    requires
        max >= 12,
    ensures
        q_words(s, latin, max).0 == q_payloads(r.0, latin),
        q_words(s, latin, max).1 == q_encoded(wire_bytes(r.1, latin)),
        together(r.0) + r.1 == s,
        s.len() > 0 ==> r.1.len() > 0 && q_words(s, latin, max).1.len() > 0,
    decreases s.len(),
{
    if s.len() == 0 {
        let r = (Seq::<Seq<char>>::empty(), Seq::<char>::empty());
        assert(q_words(s, latin, max).0 =~= q_payloads(r.0, latin));
        assert(wire_bytes(r.1, latin) =~= seq![]);
        assert(q_words(s, latin, max).1 =~= q_encoded(wire_bytes(r.1, latin)));
        assert(together(r.0) + r.1 =~= s);
        r
    } else {
        let c = s.last();
        let (runs, run) = lemma_q_words(s.drop_last(), latin, max);
        let (done, word) = q_words(s.drop_last(), latin, max);
        let piece = q_encoded(wire_bytes(seq![c], latin));
        lemma_piece_len(c, latin);
        assert(s =~= s.drop_last().push(c));
        if word.len() + piece.len() > max {
            let r = (runs.push(run), seq![c]);
            assert(done.push(word) =~= q_payloads(r.0, latin));
            lemma_together_push(runs, run);
            assert(together(r.0) + r.1 =~= s);
            r
        } else {
            let r = (runs, run.push(c));
            lemma_wire_concat(run, c, latin);
            lemma_q_concat(wire_bytes(run, latin), wire_bytes(seq![c], latin));
            assert(together(r.0) + r.1 =~= (together(runs) + run).push(c));
            r
        }
    }
}

proof fn lemma_join_front(parts: Seq<Seq<char>>, sep: Seq<char>)
    requires
        parts.len() >= 2,
    ensures
        text::join(parts, sep) == parts[0] + sep + text::join(parts.drop_first(), sep),
    decreases parts.len(),
{
    if parts.len() == 2 {
        assert(parts.drop_last() =~= seq![parts[0]]);
        assert(parts.drop_first() =~= seq![parts[1]]);
        assert(text::join(parts.drop_last(), sep) =~= parts[0]);
    } else {
        let last = parts.last();
        lemma_join_front(parts.drop_last(), sep);
        assert(parts.drop_last().drop_first() =~= parts.drop_first().drop_last());
        assert(text::join(parts, sep) =~= parts[0] + sep + (text::join(
            parts.drop_first().drop_last(),
            sep,
        ) + sep + last));
    }
}

/// A space between two encoded words is dropped.
proof fn lemma_space_dropped(wire: Seq<char>)
    requires
        text::starts_with(wire, "=?"@),
        decoded_word(wire) is Some,
    ensures
        decoded_rest(" "@ + wire, true) == decoded_rest(wire, true),
{
    reveal_strlit(" ");
    reveal_strlit("=?");
    let spaced = " "@ + wire;
    assert(!text::starts_with(spaced, "=?"@)) by {
        if text::starts_with(spaced, "=?"@) {
            assert(spaced.take(2)[0] == "=?"@[0]);
        }
    }
    assert(spaced.drop_first() =~= wire);
    assert(text::find(wire, "=?"@) == Some(0int));
    assert(text::find(spaced, "=?"@) == Some(1int));
    assert(spaced.skip(1) =~= wire);
    assert(spaced.take(1) =~= " "@);
    text::lemma_trim_around(" "@, Seq::<char>::empty(), Seq::<char>::empty(), Class::Space);
    assert(" "@ + Seq::<char>::empty() + Seq::<char>::empty() =~= " "@);
    assert(wire.skip(0) =~= wire);
    assert(wire.take(0) =~= seq![]);
    assert(text::trim(Seq::<char>::empty()).len() == 0);
    assert(decoded_rest(spaced, true) =~= decoded_rest(wire, true));
}

/// Encoded words are read back, with the space between them dropped.
#[verifier::spinoff_prover]
#[verifier::rlimit(40)]
proof fn lemma_words_undone(charset: Seq<char>, runs: Seq<Seq<char>>, latin: bool, after_word: bool)
    requires
        charset == if latin {
            LATIN1@
        } else {
            UTF8@
        },
        latin ==> fits_latin1(together(runs)),
        runs.len() > 0,
    ensures
        ({
            let wire = text::join(encoded_words(charset, q_payloads(runs, latin)), " "@);
            &&& decoded_rest(wire, after_word) == together(runs)
            &&& decoded_rest(" "@ + wire, true) == together(runs)
        }),
    decreases runs.len(),
{
    reveal_strlit(" ");
    reveal_strlit("=?");
    let words = encoded_words(charset, q_payloads(runs, latin));
    let wire = text::join(words, " "@);
    let more = runs.drop_first();
    let tail = if runs.len() == 1 {
        seq![]
    } else {
        " "@ + text::join(encoded_words(charset, q_payloads(more, latin)), " "@)
    };
    assert(together(runs) == runs[0] + together(more));
    assert(latin ==> fits_latin1(runs[0]) && fits_latin1(together(more))) by {
        if latin {
            assert forall|i: int| 0 <= i < runs[0].len() implies (#[trigger] runs[0][i] as u32)
                < 0x100 by {
                assert(together(runs)[i] == runs[0][i]);
            }
            assert forall|i: int| 0 <= i < together(more).len() implies (#[trigger] together(
                more,
            )[i] as u32) < 0x100 by {
                assert(together(runs)[i + runs[0].len()] == together(more)[i]);
            }
        }
    }
    if runs.len() > 1 {
        lemma_words_undone(charset, more, latin, true);
        lemma_join_front(words, " "@);
        assert(words.drop_first() =~= encoded_words(charset, q_payloads(more, latin)));
    } else {
        assert(together(more) =~= seq![]);
        lemma_find(Seq::<char>::empty(), "=?"@);
    }
    let word = words[0];
    assert(wire =~= word + tail);
    lemma_word_undone(charset, runs[0], latin, tail);
    assert(decoded_rest(tail, true) =~= together(more));
    assert(wire.skip(0) =~= wire);
    assert(wire.take(0) =~= seq![]);
    assert(text::trim(Seq::<char>::empty()).len() == 0);
    assert(wire.skip(word.len() as int) =~= tail);
    assert(decoded_rest(wire, after_word) =~= together(runs));
    lemma_space_dropped(wire);
    assert(decoded_rest(" "@ + wire, true) =~= together(runs));
}

/// Does an encoded word stand somewhere in the text?
pub open spec fn holds_word(s: Seq<char>) -> bool {
    exists|n: int| 0 <= n <= s.len() && decoded_word(#[trigger] s.skip(n)) is Some
}

/// A text without an encoded word is read as it is.
proof fn lemma_no_word(s: Seq<char>, after_word: bool)
    requires
        !holds_word(s),
    ensures
        decoded_rest(s, after_word) == s,
    decreases s.len(),
{
    if let Some(start) = text::find(s, "=?"@) {
        reveal_strlit("=?");
        lemma_find(s, "=?"@);
        let after = s.skip(start);
        assert(decoded_word(s.skip(start)) is None);
        let rest = after.skip(2);
        assert(rest =~= s.skip(start + 2));
        assert(!holds_word(rest)) by {
            if holds_word(rest) {
                let n = choose|n: int|
                    0 <= n <= rest.len() && decoded_word(#[trigger] rest.skip(n)) is Some;
                assert(rest.skip(n) =~= s.skip(start + 2 + n));
            }
        }
        lemma_no_word(rest, false);
        assert(after.take(2) == "=?"@);
        assert(s.take(start) + "=?"@ + rest =~= s) by {
            assert(after[0] == after.take(2)[0] && after[1] == after.take(2)[1]);
            assert(s[start] == after[0] && s[start + 1] == after[1]);
        }
    }
}

/// A header value is read back from what it is sent as. Printable ASCII is
/// sent as it is, so no encoded word may stand in it.
pub proof fn law_header_roundtrip(s: Seq<char>)
    requires
        is_plain(s) ==> !holds_word(s),
    ensures
        decoded_header(encoded_header(s)) == s,
{
    if is_plain(s) {
        lemma_no_word(s, false);
    } else {
        let latin = fits_latin1(s);
        let charset = text_charset(s);
        lemma_prefix_len(s);
        let max = (75 - word_prefix(charset).len() - 2) as nat;
        let (runs, run) = lemma_q_words(s, latin, max);
        let w = q_words(s, latin, max);
        let all = runs.push(run);
        lemma_together_push(runs, run);
        assert(closed_words(w) =~= q_payloads(all, latin));
        lemma_words_undone(charset, all, latin, false);
    }
}

/// What is sent is printable ASCII.
pub proof fn law_header_is_plain(s: Seq<char>)
    ensures
        is_plain(encoded_header(s)),
{
    if !is_plain(s) {
        reveal_strlit(" ");
        let charset = text_charset(s);
        lemma_prefix_len(s);
        let max = (75 - word_prefix(charset).len() - 2) as nat;
        let latin = fits_latin1(s);
        let (runs, run) = lemma_q_words(s, latin, max);
        let words = encoded_words(charset, closed_words(q_words(s, latin, max)));
        assert forall|i: int| 0 <= i < words.len() implies is_plain(#[trigger] words[i]) by {
            let payload = closed_words(q_words(s, latin, max))[i];
            reveal_strlit("=?");
            reveal_strlit("?=");
            reveal_strlit("?Q?");
            reveal_strlit("ISO-8859-1");
            reveal_strlit("UTF-8");
            if i < runs.len() {
                lemma_q_text(wire_bytes(runs[i], latin));
            } else {
                lemma_q_text(wire_bytes(run, latin));
            }
            assert(is_q_text(payload));
        }
        lemma_join_plain(words, " "@);
    }
}

proof fn lemma_char_len(c: char, latin: bool)
    ensures
        wire_bytes(seq![c], latin).len() <= 4,
{
    reveal_with_fuel(encode_utf8, 2);
    assert(seq![c].drop_first() =~= Seq::<char>::empty());
}

proof fn lemma_payload_len(s: Seq<char>, latin: bool, max: nat)
    requires
        max >= 12,
    ensures
        ({
            let (done, word) = q_words(s, latin, max);
            &&& word.len() <= max
            &&& forall|i: int| 0 <= i < done.len() ==> (#[trigger] done[i]).len() <= max
        }),
    decreases s.len(),
{
    if s.len() > 0 {
        lemma_payload_len(s.drop_last(), latin, max);
        lemma_char_len(s.last(), latin);
        lemma_q_len(wire_bytes(seq![s.last()], latin));
    }
}

/// The encoded words of a header value that is not printable ASCII.
pub open spec fn header_words(s: Seq<char>) -> Seq<Seq<char>> {
    let charset = text_charset(s);
    let max = (75 - word_prefix(charset).len() - 2) as nat;
    encoded_words(charset, closed_words(q_words(s, fits_latin1(s), max)))
}

/// No encoded word is longer than 75 characters, and the value is these
/// words with a space between them.
pub proof fn law_words_are_short(s: Seq<char>)
    requires
        !is_plain(s),
    ensures
        encoded_header(s) == text::join(header_words(s), " "@),
        forall|i: int| 0 <= i < header_words(s).len() ==> (#[trigger] header_words(s)[i]).len()
            <= 75,
{
    reveal_strlit("?=");
    lemma_prefix_len(s);
    let charset = text_charset(s);
    let max = (75 - word_prefix(charset).len() - 2) as nat;
    let latin = fits_latin1(s);
    lemma_payload_len(s, latin, max);
    let payloads = closed_words(q_words(s, latin, max));
    assert forall|i: int| 0 <= i < header_words(s).len() implies (#[trigger] header_words(
        s,
    )[i]).len() <= 75 by {
        assert(header_words(s)[i] == encoded_word(charset, payloads[i]));
        assert(payloads[i].len() <= max);
    }
}

proof fn lemma_join_plain(parts: Seq<Seq<char>>, sep: Seq<char>)
    requires
        forall|i: int| 0 <= i < parts.len() ==> is_plain(#[trigger] parts[i]),
        is_plain(sep),
    ensures
        is_plain(text::join(parts, sep)),
    decreases parts.len(),
{
    if parts.len() > 1 {
        lemma_join_plain(parts.drop_last(), sep);
        assert(is_plain(parts.last()));
    }
}

/// Encoded words start and end with `=`.
pub proof fn lemma_words_ends(s: Seq<char>)
    requires
        !is_plain(s),
    ensures
        encoded_header(s).len() > 0,
        encoded_header(s)[0] == '=',
        encoded_header(s).last() == '=',
{
    reveal_strlit("=?");
    reveal_strlit("?=");
    let charset = text_charset(s);
    lemma_prefix_len(s);
    let max = (75 - word_prefix(charset).len() - 2) as nat;
    let (runs, run) = lemma_q_words(s, fits_latin1(s), max);
    let words = encoded_words(charset, closed_words(q_words(s, fits_latin1(s), max)));
    assert forall|i: int| 0 <= i < words.len() implies (#[trigger] words[i]).len() > 0
        && words[i][0] == '=' && words[i].last() == '=' by {}
    assert(words.len() > 0);
    lemma_join_ends(words, " "@);
}

proof fn lemma_join_ends(parts: Seq<Seq<char>>, sep: Seq<char>)
    requires
        parts.len() > 0,
        forall|i: int|
            0 <= i < parts.len() ==> (#[trigger] parts[i]).len() > 0 && parts[i][0] == '='
                && parts[i].last() == '=',
    ensures
        text::join(parts, sep).len() > 0,
        text::join(parts, sep)[0] == '=',
        text::join(parts, sep).last() == '=',
    decreases parts.len(),
{
    assert(parts[0].len() > 0);
    if parts.len() > 1 {
        lemma_join_ends(parts.drop_last(), sep);
        assert(parts[parts.len() - 1].len() > 0);
        let all = text::join(parts, sep);
        assert(all[0] == text::join(parts.drop_last(), sep)[0]);
        assert(all.last() == parts.last().last());
    }
}

} // verus!

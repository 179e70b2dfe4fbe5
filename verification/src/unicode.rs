//! The parts of text handling that rest on the standard library's Unicode
//! tables and formatting.

use vstd::prelude::*;
use vstd::utf8::*;

verus! {

/// `String::push` appends one character at the end.
pub assume_specification [String::push](s: &mut String, c: char)
    ensures
        final(s)@ == old(s)@.push(c),
;

/// `a`-`z` to `A`-`Z`; every other character is unchanged.
pub open spec fn upper_char(c: char) -> char {
    if 'a' <= c && c <= 'z' {
        ((c as u32 - 32) as u32) as char
    } else {
        c
    }
}

/// ASCII upper case of a text.
pub open spec fn ascii_upper(s: Seq<char>) -> Seq<char> {
    Seq::new(s.len(), |i: int| upper_char(s[i]))
}

/// What `str::to_uppercase` gives for a text.
pub uninterp spec fn uppercase(s: Seq<char>) -> Seq<char>;

/// A text without a line feed.
pub open spec fn is_unbroken(s: Seq<char>) -> bool {
    forall|i: int| 0 <= i < s.len() ==> #[trigger] s[i] != '\n'
}

/// The text without its line feeds.
pub open spec fn unbroken(s: Seq<char>) -> Seq<char>
    decreases s.len(),
{
    if s.len() == 0 {
        seq![]
    } else if s.last() == '\n' {
        unbroken(s.drop_last())
    } else {
        unbroken(s.drop_last()).push(s.last())
    }
}

/// Upper case: the ASCII mapping on ASCII text, the full Unicode mapping on
/// any other. Upper case brings no line feed into a text that has none.
pub open spec fn upper(s: Seq<char>) -> Seq<char> {
    if is_ascii_chars(s) {
        ascii_upper(s)
    } else if is_unbroken(s) {
        unbroken(uppercase(s))
    } else {
        uppercase(s)
    }
}

/// `str::to_uppercase`, the full Unicode mapping. On ASCII text it is the
/// ASCII mapping. No character but a line feed has one in its upper case: a
/// line feed has no case and is the upper case of nothing else.
#[verifier::external_body]
fn full_uppercase(s: &str) -> (r: String)
    ensures
        r@ == (if is_ascii_chars(s@) {
            ascii_upper(s@)
        } else {
            uppercase(s@)
        }),
        is_unbroken(s@) ==> is_unbroken(r@),
{
    s.to_uppercase()
}

/// A text in upper case.
pub(crate) fn to_uppercase(s: &str) -> (r: String)
    ensures
        r@ == upper(s@),
{
    let r = full_uppercase(s);
    proof {
        if is_unbroken(r@) {
            lemma_unbroken_is(r@);
        }
    }
    r
}

proof fn lemma_unbroken_is(s: Seq<char>)
    requires
        is_unbroken(s),
    ensures
        unbroken(s) == s,
    decreases s.len(),
{
    if s.len() > 0 {
        assert(s[s.len() - 1] != '\n');
        assert forall|i: int| 0 <= i < s.len() - 1 implies #[trigger] s.drop_last()[i] != '\n' by {
            assert(s[i] != '\n');
        }
        lemma_unbroken_is(s.drop_last());
        assert(s.drop_last().push(s.last()) =~= s);
    } else {
        assert(unbroken(s) =~= s);
    }
}

proof fn lemma_unbroken(s: Seq<char>)
    ensures
        is_unbroken(unbroken(s)),
    decreases s.len(),
{
    if s.len() > 0 {
        lemma_unbroken(s.drop_last());
    }
}

/// A text without a line feed has none in upper case.
pub proof fn law_upper_is_unbroken(s: Seq<char>)
    requires
        is_unbroken(s),
    ensures
        is_unbroken(upper(s)),
{
    if is_ascii_chars(s) {
        assert forall|i: int| 0 <= i < s.len() implies #[trigger] upper(s)[i] != '\n' by {
            assert(s[i] != '\n');
        }
    } else {
        lemma_unbroken(uppercase(s));
    }
}

/// What `String::from_utf8_lossy` gives for some bytes.
pub uninterp spec fn lossy(bytes: Seq<u8>) -> Seq<char>;

/// UTF-8 decoded: the plain decoding where the bytes are valid, else with
/// U+FFFD in place of what is not.
pub open spec fn decoded_lossy(bytes: Seq<u8>) -> Seq<char> {
    if valid_utf8(bytes) {
        decode_utf8(bytes)
    } else {
        lossy(bytes)
    }
}

/// `String::from_utf8_lossy`: decodes UTF-8, with U+FFFD in place of what is
/// not valid. On valid UTF-8 it is the plain decoding.
#[verifier::external_body]
pub(crate) fn decode_lossy(bytes: &[u8]) -> (r: String)
    ensures
        r@ == (if valid_utf8(bytes@) {
            decode_utf8(bytes@)
        } else {
            lossy(bytes@)
        }),
{
    String::from_utf8_lossy(bytes).into_owned()
}

/// `std::str::from_utf8`: the decoded text, exactly when the bytes are valid
/// UTF-8.
#[verifier::external_body]
pub(crate) fn decode_strict(bytes: &[u8]) -> (r: Option<String>)
    ensures
        r is Some <==> valid_utf8(bytes@),
        r is Some ==> r->0@ == decode_utf8(bytes@),
{
    match std::str::from_utf8(bytes) {
        Ok(s) => Some(s.to_owned()),
        Err(_) => None,
    }
}

/// What the `{:?}` format gives for a text.
pub uninterp spec fn quoted(s: Seq<char>) -> Seq<char>;

/// The `{:?}` format of a text: quoted, with escapes.
#[verifier::external_body]
pub(crate) fn quote(s: &str) -> (r: String)
    ensures
        r@ == quoted(s@),
{
    format!("{s:?}")
}

/// What the `{:?}` format gives for one character.
pub uninterp spec fn quoted_char(c: char) -> Seq<char>;

/// The `{:?}` format of one character: quoted, with escapes.
#[verifier::external_body]
pub(crate) fn quote_char(c: char) -> (r: String)
    ensures
        r@ == quoted_char(c),
{
    format!("{c:?}")
}

} // verus!

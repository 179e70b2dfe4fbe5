//! Text as sequences of characters: the searching, trimming, splitting and
//! number formats that the wire formats are described with.

use vstd::prelude::*;
use vstd::slice::slice_to_vec;
use vstd::utf8::*;

use crate::unicode;

pub mod laws;

verus! {

/// A class of characters to search for, trim or split at.
#[derive(Clone, Copy)]
pub enum Class {
    /// Unicode `White_Space`.
    Space,
    /// `White_Space`, or NUL.
    SpaceOrNul,
    /// This one character.
    One(char),
    /// One of two characters.
    Two(char, char),
    /// One of three characters.
    Three(char, char, char),
}

/// The Unicode property `White_Space`.
pub open spec fn is_space(c: char) -> bool {
    ||| '\u{9}' <= c && c <= '\u{d}'
    ||| c == ' '
    ||| c == '\u{85}'
    ||| c == '\u{a0}'
    ||| c == '\u{1680}'
    ||| '\u{2000}' <= c && c <= '\u{200a}'
    ||| c == '\u{2028}'
    ||| c == '\u{2029}'
    ||| c == '\u{202f}'
    ||| c == '\u{205f}'
    ||| c == '\u{3000}'
}

/// The Unicode category `Cc`.
pub open spec fn is_control(c: char) -> bool {
    ||| c <= '\u{1f}'
    ||| '\u{7f}' <= c && c <= '\u{9f}'
}

/// Does `c` belong to the class?
pub open spec fn is_in(k: Class, c: char) -> bool {
    match k {
        Class::Space => is_space(c),
        Class::SpaceOrNul => is_space(c) || c == '\0',
        Class::One(a) => c == a,
        Class::Two(a, b) => c == a || c == b,
        Class::Three(a, b, d) => c == a || c == b || c == d,
    }
}

pub fn char_is_space(c: char) -> (r: bool)
    ensures
        r == is_space(c),
{
    ('\u{9}' <= c && c <= '\u{d}') || c == ' ' || c == '\u{85}' || c == '\u{a0}' || c == '\u{1680}'
        || ('\u{2000}' <= c && c <= '\u{200a}') || c == '\u{2028}' || c == '\u{2029}' || c
        == '\u{202f}' || c == '\u{205f}' || c == '\u{3000}'
}

pub fn char_is_control(c: char) -> (r: bool)
    ensures
        r == is_control(c),
{
    c <= '\u{1f}' || ('\u{7f}' <= c && c <= '\u{9f}')
}

pub fn char_is_in(k: Class, c: char) -> (r: bool)
    ensures
        r == is_in(k, c),
{
    match k {
        Class::Space => char_is_space(c),
        Class::SpaceOrNul => char_is_space(c) || c == '\0',
        Class::One(a) => c == a,
        Class::Two(a, b) => c == a || c == b,
        Class::Three(a, b, d) => c == a || c == b || c == d,
    }
}

// ---------------------------------------------------------------------
// Conversions

/// The characters of a string.
pub fn chars(s: &str) -> (r: Vec<char>)
    ensures
        r@ == s@,
{
    let mut out: Vec<char> = Vec::new();
    for c in it: s.chars()
        invariant
            out@ == it.seq().take(it.index()),
    {
        out.push(c);
    }
    assert(out@ == s@);
    out
}

/// The string of some characters.
pub fn string(s: &[char]) -> (r: String)
    ensures
        r@ == s@,
{
    let mut out = String::new();
    for i in 0..s.len()
        invariant
            out@ == s@.take(i as int),
    {
        out.push(s[i]);
    }
    assert(s@.take(s@.len() as int) == s@);
    out
}

/// The UTF-8 bytes of a string.
pub fn utf8_bytes(s: &str) -> (r: Vec<u8>)
    ensures
        r@ == encode_utf8(s@),
{
    slice_to_vec(s.as_bytes())
}

/// The length of a string in bytes of UTF-8.
pub fn byte_len(s: &str) -> (r: usize)
    ensures
        r == encode_utf8(s@).len(),
{
    s.as_bytes().len()
}

/// Each byte as the character with that code (ISO-8859-1).
pub open spec fn latin1(bytes: Seq<u8>) -> Seq<char> {
    Seq::new(bytes.len(), |i: int| bytes[i] as char)
}

pub fn latin1_chars(bytes: &[u8]) -> (r: Vec<char>)
    ensures
        r@ == latin1(bytes@),
{
    let mut out: Vec<char> = Vec::new();
    for i in 0..bytes.len()
        invariant
            out@ == latin1(bytes@).take(i as int),
    {
        out.push(bytes[i] as char);
        assert(latin1(bytes@).take(i + 1) =~= latin1(bytes@).take(i as int).push(bytes@[i as int] as char));
    }
    assert(latin1(bytes@).take(bytes@.len() as int) =~= latin1(bytes@));
    out
}

/// Two texts, one after the other.
pub fn cat2(a: &str, b: &str) -> (r: String)
    ensures
        r@ == a@ + b@,
{
    let mut s = a.to_owned();
    s.append(b);
    s
}

/// Three texts, one after the other.
pub fn cat3(a: &str, b: &str, c: &str) -> (r: String)
    ensures
        r@ == a@ + b@ + c@,
{
    let mut s = cat2(a, b);
    s.append(c);
    s
}

/// Four texts, one after the other.
pub fn cat4(a: &str, b: &str, c: &str, d: &str) -> (r: String)
    ensures
        r@ == a@ + b@ + c@ + d@,
{
    let mut s = cat3(a, b, c);
    s.append(d);
    s
}

/// Five texts, one after the other.
pub fn cat5(a: &str, b: &str, c: &str, d: &str, e: &str) -> (r: String)
    ensures
        r@ == a@ + b@ + c@ + d@ + e@,
{
    let mut s = cat4(a, b, c, d);
    s.append(e);
    s
}

/// A number as text.
pub fn size_text(n: usize) -> (r: String)
    ensures
        r@ == decimal(n as nat),
{
    number(n as u64)
}

// ---------------------------------------------------------------------
// Case

/// `A`-`Z` to `a`-`z`; every other character is unchanged.
pub open spec fn lower_char(c: char) -> char {
    if 'A' <= c && c <= 'Z' {
        ((c as u32 + 32) as u32) as char
    } else {
        c
    }
}

/// ASCII lower case of a text.
pub open spec fn ascii_lower(s: Seq<char>) -> Seq<char> {
    Seq::new(s.len(), |i: int| lower_char(s[i]))
}

/// Equality that takes no notice of ASCII case.
pub open spec fn same_text(a: Seq<char>, b: Seq<char>) -> bool {
    ascii_lower(a) == ascii_lower(b)
}

pub fn to_lower_char(c: char) -> (r: char)
    ensures
        r == lower_char(c),
{
    if 'A' <= c && c <= 'Z' {
        (c as u8 + 32) as char
    } else {
        c
    }
}

pub fn to_upper_char(c: char) -> (r: char)
    ensures
        r == unicode::upper_char(c),
{
    if 'a' <= c && c <= 'z' {
        (c as u8 - 32) as char
    } else {
        c
    }
}

pub fn to_ascii_lower(s: &[char]) -> (r: Vec<char>)
    ensures
        r@ == ascii_lower(s@),
{
    let mut out: Vec<char> = Vec::new();
    for i in 0..s.len()
        invariant
            out@ == ascii_lower(s@).take(i as int),
    {
        out.push(to_lower_char(s[i]));
        assert(ascii_lower(s@).take(i + 1) =~= ascii_lower(s@).take(i as int).push(lower_char(s@[i as int])));
    }
    assert(ascii_lower(s@).take(s@.len() as int) =~= ascii_lower(s@));
    out
}

pub fn equal(a: &[char], b: &[char]) -> (r: bool)
    ensures
        r == (a@ == b@),
{
    if a.len() != b.len() {
        return false;
    }
    for i in 0..a.len()
        invariant
            a@.len() == b@.len(),
            a@.take(i as int) == b@.take(i as int),
    {
        if a[i] != b[i] {
            return false;
        }
        assert(a@.take(i + 1) =~= a@.take(i as int).push(a@[i as int]));
        assert(b@.take(i + 1) =~= b@.take(i as int).push(b@[i as int]));
    }
    assert(a@.take(a@.len() as int) == a@);
    assert(b@.take(b@.len() as int) == b@);
    true
}

/// Is this text the string `b`?
pub fn equals_str(a: &[char], b: &str) -> (r: bool)
    ensures
        r == (a@ == b@),
{
    let b = chars(b);
    equal(a, &b)
}

/// Are these two strings the same?
pub fn same(a: &str, b: &str) -> (r: bool)
    ensures
        r == (a@ == b@),
{
    let a = chars(a);
    equals_str(&a, b)
}

pub fn equal_ignoring_case(a: &[char], b: &[char]) -> (r: bool)
    ensures
        r == same_text(a@, b@),
{
    let a = to_ascii_lower(a);
    let b = to_ascii_lower(b);
    equal(&a, &b)
}

// ---------------------------------------------------------------------
// Trimming

/// How many characters of the class `s` starts with.
pub open spec fn leading(s: Seq<char>, k: Class) -> nat
    decreases s.len(),
{
    if s.len() > 0 && is_in(k, s[0]) {
        1 + leading(s.drop_first(), k)
    } else {
        0
    }
}

/// How many characters of the class `s` ends with.
pub open spec fn trailing(s: Seq<char>, k: Class) -> nat
    decreases s.len(),
{
    if s.len() > 0 && is_in(k, s.last()) {
        1 + trailing(s.drop_last(), k)
    } else {
        0
    }
}

pub open spec fn trim_start(s: Seq<char>, k: Class) -> Seq<char> {
    s.skip(leading(s, k) as int)
}

pub open spec fn trim_end(s: Seq<char>, k: Class) -> Seq<char> {
    s.take(s.len() - trailing(s, k))
}

/// `s` without the characters of the class at both ends.
pub open spec fn trim_both(s: Seq<char>, k: Class) -> Seq<char> {
    trim_end(trim_start(s, k), k)
}

/// `s` without white space at both ends.
pub open spec fn trim(s: Seq<char>) -> Seq<char> {
    trim_both(s, Class::Space)
}

pub proof fn lemma_leading(s: Seq<char>, k: Class)
    ensures
        leading(s, k) <= s.len(),
        forall|i: int| 0 <= i < leading(s, k) ==> is_in(k, #[trigger] s[i]),
        leading(s, k) < s.len() ==> !is_in(k, s[leading(s, k) as int]),
    decreases s.len(),
{
    if s.len() > 0 && is_in(k, s[0]) {
        let t = s.drop_first();
        lemma_leading(t, k);
        assert forall|i: int| 0 <= i < leading(s, k) implies is_in(k, #[trigger] s[i]) by {
            if i > 0 {
                assert(s[i] == t[i - 1]);
            }
        }
        if leading(s, k) < s.len() {
            assert(s[leading(s, k) as int] == t[leading(t, k) as int]);
        }
    }
}

/// The count of leading characters is the one with these properties.
pub proof fn lemma_leading_is(s: Seq<char>, k: Class, n: int)
    requires
        0 <= n <= s.len(),
        forall|i: int| 0 <= i < n ==> is_in(k, #[trigger] s[i]),
        n < s.len() ==> !is_in(k, s[n]),
    ensures
        leading(s, k) == n,
{
    lemma_leading(s, k);
    let m = leading(s, k) as int;
    if m < n {
        assert(is_in(k, s[m]));
    } else if n < m {
        assert(is_in(k, s[n]));
    }
}

pub proof fn lemma_trailing(s: Seq<char>, k: Class)
    ensures
        trailing(s, k) <= s.len(),
        forall|i: int| s.len() - trailing(s, k) <= i < s.len() ==> is_in(k, #[trigger] s[i]),
        trailing(s, k) < s.len() ==> !is_in(k, s[s.len() - trailing(s, k) - 1]),
    decreases s.len(),
{
    if s.len() > 0 && is_in(k, s.last()) {
        let t = s.drop_last();
        lemma_trailing(t, k);
        assert forall|i: int| s.len() - trailing(s, k) <= i < s.len() implies is_in(
            k,
            #[trigger] s[i],
        ) by {
            if i < t.len() {
                assert(s[i] == t[i]);
            }
        }
    }
}

pub proof fn lemma_trailing_is(s: Seq<char>, k: Class, n: int)
    requires
        0 <= n <= s.len(),
        forall|i: int| s.len() - n <= i < s.len() ==> is_in(k, #[trigger] s[i]),
        n < s.len() ==> !is_in(k, s[s.len() - n - 1]),
    ensures
        trailing(s, k) == n,
{
    lemma_trailing(s, k);
    let m = trailing(s, k) as int;
    if m < n {
        assert(is_in(k, s[s.len() - m - 1]));
    } else if n < m {
        assert(is_in(k, s[s.len() - n - 1]));
    }
}

pub fn trimmed_start(s: &[char], k: Class) -> (r: &[char])
    ensures
        r@ == trim_start(s@, k),
{
    let mut n: usize = 0;
    while n < s.len() && char_is_in(k, s[n])
        invariant
            n <= s@.len(),
            forall|i: int| 0 <= i < n ==> is_in(k, #[trigger] s@[i]),
        decreases s@.len() - n,
    {
        n += 1;
    }
    proof {
        lemma_leading_is(s@, k, n as int);
    }
    &s[n..s.len()]
}

pub fn trimmed_end(s: &[char], k: Class) -> (r: &[char])
    ensures
        r@ == trim_end(s@, k),
{
    let mut n: usize = s.len();
    while n > 0 && char_is_in(k, s[n - 1])
        invariant
            n <= s@.len(),
            forall|i: int| n <= i < s@.len() ==> is_in(k, #[trigger] s@[i]),
        decreases n,
    {
        n -= 1;
    }
    proof {
        lemma_trailing_is(s@, k, s@.len() - n);
    }
    &s[0..n]
}

pub fn trimmed_both(s: &[char], k: Class) -> (r: &[char])
    ensures
        r@ == trim_both(s@, k),
{
    trimmed_end(trimmed_start(s, k), k)
}

pub fn trimmed(s: &[char]) -> (r: &[char])
    ensures
        r@ == trim(s@),
{
    trimmed_both(s, Class::Space)
}

/// The string without white space at both ends.
pub fn trim_str(s: &str) -> (r: String)
    ensures
        r@ == trim(s@),
{
    let cs = chars(s);
    string(trimmed(&cs))
}

// ---------------------------------------------------------------------
// Searching and splitting

/// Index of the first character of the class, or the length of `s`.
pub open spec fn first(s: Seq<char>, k: Class) -> nat
    decreases s.len(),
{
    if s.len() == 0 || is_in(k, s[0]) {
        0
    } else {
        1 + first(s.drop_first(), k)
    }
}

pub proof fn lemma_first(s: Seq<char>, k: Class)
    ensures
        first(s, k) <= s.len(),
        forall|i: int| 0 <= i < first(s, k) ==> !is_in(k, #[trigger] s[i]),
        first(s, k) < s.len() ==> is_in(k, s[first(s, k) as int]),
    decreases s.len(),
{
    if s.len() > 0 && !is_in(k, s[0]) {
        let t = s.drop_first();
        lemma_first(t, k);
        assert forall|i: int| 0 <= i < first(s, k) implies !is_in(k, #[trigger] s[i]) by {
            if i > 0 {
                assert(s[i] == t[i - 1]);
            }
        }
        if first(s, k) < s.len() {
            assert(s[first(s, k) as int] == t[first(t, k) as int]);
        }
    }
}

pub proof fn lemma_first_is(s: Seq<char>, k: Class, n: int)
    requires
        0 <= n <= s.len(),
        forall|i: int| 0 <= i < n ==> !is_in(k, #[trigger] s[i]),
        n < s.len() ==> is_in(k, s[n]),
    ensures
        first(s, k) == n,
{
    lemma_first(s, k);
    let m = first(s, k) as int;
    if m < n {
        assert(!is_in(k, s[m]));
    } else if n < m {
        assert(!is_in(k, s[n]));
    }
}

pub fn find_first(s: &[char], k: Class) -> (r: usize)
    ensures
        r == first(s@, k),
        r <= s@.len(),
{
    let mut n: usize = 0;
    while n < s.len() && !char_is_in(k, s[n])
        invariant
            n <= s@.len(),
            forall|i: int| 0 <= i < n ==> !is_in(k, #[trigger] s@[i]),
        decreases s@.len() - n,
    {
        n += 1;
    }
    proof {
        lemma_first_is(s@, k, n as int);
    }
    n
}

/// Does `s` hold a character of the class?
pub open spec fn has(s: Seq<char>, k: Class) -> bool {
    first(s, k) < s.len()
}

pub fn has_any(s: &[char], k: Class) -> (r: bool)
    ensures
        r == has(s@, k),
{
    find_first(s, k) < s.len()
}

/// What stands before and after the first character of the class.
pub open spec fn split_once(s: Seq<char>, k: Class) -> Option<(Seq<char>, Seq<char>)> {
    let n = first(s, k) as int;
    if n < s.len() {
        Some((s.take(n), s.skip(n + 1)))
    } else {
        None
    }
}

pub fn split_in_two(s: &[char], k: Class) -> (r: Option<(&[char], &[char])>)
    ensures
        r is Some <==> split_once(s@, k) is Some,
        r matches Some(p) ==> split_once(s@, k) == Some((p.0@, p.1@)),
{
    let n = find_first(s, k);
    if n < s.len() {
        Some((&s[0..n], &s[n + 1..s.len()]))
    } else {
        None
    }
}

/// The pieces of `s` between the characters of the class.
pub open spec fn split(s: Seq<char>, k: Class) -> Seq<Seq<char>>
    decreases s.len(),
{
    let n = first(s, k) as int;
    if n < s.len() {
        seq![s.take(n)] + split(s.skip(n + 1), k)
    } else {
        seq![s]
    }
}

/// The texts held by a vector of character vectors.
pub open spec fn views(v: Seq<Vec<char>>) -> Seq<Seq<char>> {
    Seq::new(v.len(), |i: int| v[i]@)
}

/// The texts held by a vector of strings.
pub open spec fn texts(v: Seq<String>) -> Seq<Seq<char>> {
    Seq::new(v.len(), |i: int| v[i]@)
}

pub fn pieces(s: &[char], k: Class) -> (r: Vec<Vec<char>>)
    ensures
        views(r@) == split(s@, k),
{
    let mut out: Vec<Vec<char>> = Vec::new();
    let mut at: usize = 0;
    assert(s@.skip(0) =~= s@);
    assert(views(out@) + split(s@, k) =~= split(s@, k));
    loop
        invariant
            at <= s@.len(),
            split(s@, k) == views(out@) + split(s@.skip(at as int), k),
        decreases s@.len() - at,
    {
        let rest = &s[at..s.len()];
        assert(rest@ =~= s@.skip(at as int));
        let n = find_first(rest, k);
        let ghost before = views(out@);
        let piece = slice_to_vec(&rest[0..n]);
        out.push(piece);
        assert(views(out@) =~= before.push(rest@.take(n as int)));
        if n == rest.len() {
            assert(rest@.take(n as int) =~= rest@);
            assert(views(out@) =~= before + seq![rest@]);
            return out;
        }
        assert(rest@.skip(n + 1) =~= s@.skip(at + n + 1));
        assert(before + (seq![rest@.take(n as int)] + split(rest@.skip(n + 1), k)) =~= views(out@)
            + split(s@.skip(at + n + 1), k));
        at = at + n + 1;
    }
}

/// The non-empty texts, in order.
pub open spec fn non_empty(s: Seq<Seq<char>>) -> Seq<Seq<char>>
    decreases s.len(),
{
    if s.len() == 0 {
        seq![]
    } else if s.last().len() == 0 {
        non_empty(s.drop_last())
    } else {
        non_empty(s.drop_last()).push(s.last())
    }
}

/// The words between white space.
pub open spec fn split_words(s: Seq<char>) -> Seq<Seq<char>> {
    non_empty(split(s, Class::Space))
}

/// Drops the empty pieces.
pub fn keep_non_empty(v: Vec<Vec<char>>) -> (r: Vec<Vec<char>>)
    ensures
        views(r@) == non_empty(views(v@)),
{
    let mut out: Vec<Vec<char>> = Vec::new();
    assert(views(v@).take(0) =~= seq![]);
    assert(views(out@) =~= seq![]);
    for i in 0..v.len()
        invariant
            views(out@) == non_empty(views(v@).take(i as int)),
    {
        let ghost before = views(out@);
        assert(views(v@).take(i + 1).drop_last() =~= views(v@).take(i as int));
        if v[i].len() > 0 {
            let w = slice_to_vec(&v[i]);
            out.push(w);
            assert(views(out@) =~= before.push(v@[i as int]@));
        }
    }
    assert(views(v@).take(v@.len() as int) =~= views(v@));
    out
}

pub fn words(s: &[char]) -> (r: Vec<Vec<char>>)
    ensures
        views(r@) == split_words(s@),
{
    keep_non_empty(pieces(s, Class::Space))
}

/// Some texts as strings.
pub fn strings(v: &[Vec<char>]) -> (r: Vec<String>)
    ensures
        texts(r@) == views(v@),
{
    let mut out: Vec<String> = Vec::new();
    for i in 0..v.len()
        invariant
            texts(out@) == views(v@).take(i as int),
    {
        let ghost before = texts(out@);
        out.push(string(&v[i]));
        assert(texts(out@) =~= before.push(v@[i as int]@));
    }
    assert(views(v@).take(v@.len() as int) =~= views(v@));
    out
}

/// The words between white space, as strings.
pub fn word_strings(s: &str) -> (r: Vec<String>)
    ensures
        texts(r@) == split_words(s@),
{
    let s = chars(s);
    strings(&words(&s))
}

/// What follows the last character of the class (all of `s` if there is
/// none).
pub open spec fn after_last(s: Seq<char>, k: Class) -> Seq<char>
    decreases s.len(),
{
    if s.len() == 0 || is_in(k, s.last()) {
        seq![]
    } else {
        after_last(s.drop_last(), k).push(s.last())
    }
}

pub proof fn lemma_after_last(s: Seq<char>, k: Class, n: int)
    requires
        0 <= n <= s.len(),
        forall|i: int| n <= i < s.len() ==> !is_in(k, #[trigger] s[i]),
        n > 0 ==> is_in(k, s[n - 1]),
    ensures
        after_last(s, k) == s.skip(n),
    decreases s.len(),
{
    if s.len() == 0 || is_in(k, s.last()) {
        assert(n == s.len());
        assert(s.skip(n) =~= seq![]);
    } else {
        lemma_after_last(s.drop_last(), k, n);
        assert(s.skip(n) =~= s.drop_last().skip(n).push(s.last()));
    }
}

pub fn part_after_last(s: &[char], k: Class) -> (r: &[char])
    ensures
        r@ == after_last(s@, k),
{
    let mut n: usize = s.len();
    while n > 0 && !char_is_in(k, s[n - 1])
        invariant
            n <= s@.len(),
            forall|i: int| n <= i < s@.len() ==> !is_in(k, #[trigger] s@[i]),
        decreases n,
    {
        n -= 1;
    }
    proof {
        lemma_after_last(s@, k, n as int);
    }
    let r = &s[n..s.len()];
    assert(r@ =~= s@.skip(n as int));
    r
}

pub open spec fn starts_with(s: Seq<char>, p: Seq<char>) -> bool {
    s.len() >= p.len() && s.take(p.len() as int) == p
}

pub open spec fn ends_with(s: Seq<char>, p: Seq<char>) -> bool {
    s.len() >= p.len() && s.skip(s.len() - p.len()) == p
}

pub fn has_prefix(s: &[char], p: &str) -> (r: bool)
    ensures
        r == starts_with(s@, p@),
        r ==> s@.len() >= p@.len(),
{
    let p = chars(p);
    if s.len() < p.len() {
        false
    } else {
        equal(&s[0..p.len()], &p)
    }
}

pub fn has_suffix(s: &[char], p: &str) -> (r: bool)
    ensures
        r == ends_with(s@, p@),
{
    let p = chars(p);
    if s.len() < p.len() {
        false
    } else {
        let t = &s[s.len() - p.len()..s.len()];
        assert(t@ =~= s@.skip(s@.len() - p@.len()));
        equal(t, &p)
    }
}

/// What follows the prefix `p`, if `s` starts with it.
pub open spec fn strip_prefix(s: Seq<char>, p: Seq<char>) -> Option<Seq<char>> {
    if starts_with(s, p) {
        Some(s.skip(p.len() as int))
    } else {
        None
    }
}

pub fn without_prefix<'a>(s: &'a [char], p: &str) -> (r: Option<&'a [char]>)
    ensures
        r is Some <==> strip_prefix(s@, p@) is Some,
        r is Some ==> r->0@ == strip_prefix(s@, p@)->0,
{
    let n = chars(p).len();
    if has_prefix(s, p) {
        Some(&s[n..s.len()])
    } else {
        None
    }
}

/// Where `p` first occurs in `s`.
pub open spec fn find(s: Seq<char>, p: Seq<char>) -> Option<int>
    decreases s.len(),
{
    if starts_with(s, p) {
        Some(0)
    } else if s.len() == 0 {
        None
    } else {
        match find(s.drop_first(), p) {
            Some(i) => Some(i + 1),
            None => None,
        }
    }
}

pub open spec fn contains(s: Seq<char>, p: Seq<char>) -> bool {
    find(s, p) is Some
}

pub proof fn lemma_find_step(s: Seq<char>, p: Seq<char>, n: int)
    requires
        0 <= n < s.len(),
        find(s, p) == (match find(s.skip(n), p) {
            Some(i) => Some(i + n),
            None => None,
        }),
        !starts_with(s.skip(n), p),
    ensures
        find(s, p) == (match find(s.skip(n + 1), p) {
            Some(i) => Some(i + n + 1),
            None => None,
        }),
{
    assert(s.skip(n).drop_first() =~= s.skip(n + 1));
}

pub fn find_str(s: &[char], p: &str) -> (r: Option<usize>)
    ensures
        r is Some <==> find(s@, p@) is Some,
        r is Some ==> r->0 as int == find(s@, p@)->0 && r->0 + p@.len() <= s@.len(),
{
    let mut n: usize = 0;
    assert(s@.skip(0) =~= s@);
    loop
        invariant
            n <= s@.len(),
            find(s@, p@) == (match find(s@.skip(n as int), p@) {
                Some(i) => Some(i + n),
                None => None,
            }),
        decreases s@.len() - n,
    {
        let rest = &s[n..s.len()];
        assert(rest@ =~= s@.skip(n as int));
        if has_prefix(rest, p) {
            return Some(n);
        }
        if n == s.len() {
            return None;
        }
        proof {
            lemma_find_step(s@, p@, n as int);
        }
        n += 1;
    }
}

pub fn has_str(s: &[char], p: &str) -> (r: bool)
    ensures
        r == contains(s@, p@),
{
    find_str(s, p).is_some()
}

/// The texts one after another, with `sep` between them.
pub open spec fn join(parts: Seq<Seq<char>>, sep: Seq<char>) -> Seq<char>
    decreases parts.len(),
{
    if parts.len() == 0 {
        seq![]
    } else if parts.len() == 1 {
        parts[0]
    } else {
        join(parts.drop_last(), sep) + sep + parts.last()
    }
}

pub fn joined(parts: &[String], sep: &str) -> (r: String)
    ensures
        r@ == join(texts(parts@), sep@),
{
    let mut out = String::new();
    assert(texts(parts@).take(0) =~= seq![]);
    for i in 0..parts.len()
        invariant
            out@ == join(texts(parts@).take(i as int), sep@),
    {
        assert(texts(parts@).take(i + 1).drop_last() =~= texts(parts@).take(i as int));
        if i > 0 {
            out.append(sep);
        }
        out.append(&parts[i]);
        assert(out@ =~= join(texts(parts@).take(i + 1), sep@));
    }
    assert(texts(parts@).take(parts@.len() as int) =~= texts(parts@));
    out
}

/// The same texts again.
pub fn copied(v: &[String]) -> (r: Vec<String>)
    ensures
        texts(r@) == texts(v@),
{
    let mut out: Vec<String> = Vec::new();
    for i in 0..v.len()
        invariant
            texts(out@) == texts(v@).take(i as int),
    {
        let ghost before = texts(out@);
        out.push(v[i].clone());
        assert(texts(out@) =~= before.push(v@[i as int]@));
    }
    assert(texts(v@).take(v@.len() as int) =~= texts(v@));
    out
}

/// Is the text one of these?
pub fn is_among(v: &[String], s: &[char]) -> (r: bool)
    ensures
        r == texts(v@).contains(s@),
{
    for i in 0..v.len()
        invariant
            forall|j: int| 0 <= j < i ==> #[trigger] v@[j]@ != s@,
    {
        if equals_str(s, &v[i]) {
            assert(texts(v@)[i as int] == s@);
            return true;
        }
    }
    assert forall|j: int| 0 <= j < texts(v@).len() implies texts(v@)[j] != s@ by {
        assert(texts(v@)[j] == v@[j]@);
    }
    false
}

// ---------------------------------------------------------------------
// Order

/// Lexicographic order by code point.
pub open spec fn before(a: Seq<char>, b: Seq<char>) -> bool
    decreases a.len(),
{
    if b.len() == 0 {
        false
    } else if a.len() == 0 {
        true
    } else if a[0] != b[0] {
        a[0] < b[0]
    } else {
        before(a.drop_first(), b.drop_first())
    }
}

pub fn is_before(a: &[char], b: &[char]) -> (r: bool)
    ensures
        r == before(a@, b@),
{
    let mut i: usize = 0;
    assert(a@.skip(0) =~= a@);
    assert(b@.skip(0) =~= b@);
    loop
        invariant
            i <= a@.len(),
            i <= b@.len(),
            before(a@, b@) == before(a@.skip(i as int), b@.skip(i as int)),
        decreases a@.len() - i,
    {
        if i == b.len() {
            return false;
        }
        if i == a.len() {
            return true;
        }
        if a[i] != b[i] {
            return a[i] < b[i];
        }
        assert(a@.skip(i as int).drop_first() =~= a@.skip(i + 1));
        assert(b@.skip(i as int).drop_first() =~= b@.skip(i + 1));
        i += 1;
    }
}

pub proof fn lemma_before_irreflexive(a: Seq<char>)
    ensures
        !before(a, a),
    decreases a.len(),
{
    if a.len() > 0 {
        lemma_before_irreflexive(a.drop_first());
    }
}

pub proof fn lemma_before_total(a: Seq<char>, b: Seq<char>)
    ensures
        a == b || before(a, b) || before(b, a),
        !(before(a, b) && before(b, a)),
    decreases a.len(),
{
    if a.len() > 0 && b.len() > 0 {
        lemma_before_total(a.drop_first(), b.drop_first());
        if a.drop_first() == b.drop_first() && a[0] == b[0] {
            assert(a =~= seq![a[0]] + a.drop_first());
            assert(b =~= seq![b[0]] + b.drop_first());
        }
    } else {
        assert(a.len() == 0 && b.len() == 0 ==> a =~= b);
    }
}

pub proof fn lemma_before_transitive(a: Seq<char>, b: Seq<char>, c: Seq<char>)
    requires
        before(a, b),
        before(b, c),
    ensures
        before(a, c),
    decreases a.len(),
{
    if a.len() > 0 && a[0] == b[0] && b[0] == c[0] {
        lemma_before_transitive(a.drop_first(), b.drop_first(), c.drop_first());
    }
}

// ---------------------------------------------------------------------
// Numbers

pub open spec fn digit(n: nat) -> char {
    ((48 + n) as u32) as char
}

/// `n` in decimal, without leading zeros.
pub open spec fn decimal(n: nat) -> Seq<char>
    decreases n,
{
    if n < 10 {
        seq![digit(n)]
    } else {
        decimal(n / 10).push(digit(n % 10))
    }
}

fn digit_char(n: u8) -> (r: char)
    requires
        n < 10,
    ensures
        r == digit(n as nat),
{
    (48 + n) as char
}

pub fn decimal_chars(n: u64) -> (r: Vec<char>)
    ensures
        r@ == decimal(n as nat),
    decreases n,
{
    if n < 10 {
        let mut v: Vec<char> = Vec::new();
        v.push(digit_char(n as u8));
        assert(v@ =~= decimal(n as nat));
        v
    } else {
        let mut v = decimal_chars(n / 10);
        v.push(digit_char((n % 10) as u8));
        v
    }
}

/// The number in decimal.
pub fn number(n: u64) -> (r: String)
    ensures
        r@ == decimal(n as nat),
{
    string(&decimal_chars(n))
}

/// The last `width` decimal digits of `n`.
pub open spec fn low_digits(n: nat, width: nat) -> Seq<char>
    decreases width,
{
    if width == 0 {
        seq![]
    } else {
        low_digits(n / 10, (width - 1) as nat).push(digit(n % 10))
    }
}

pub proof fn lemma_low_digits(n: nat, width: nat)
    ensures
        low_digits(n, width).len() == width,
        forall|i: int|
            0 <= i < width ==> '0' <= #[trigger] low_digits(n, width)[i] && low_digits(n, width)[i]
                <= '9',
    decreases width,
{
    if width > 0 {
        lemma_low_digits(n / 10, (width - 1) as nat);
    }
}

pub fn low_digit_chars(n: u64, width: usize) -> (r: Vec<char>)
    ensures
        r@ == low_digits(n as nat, width as nat),
    decreases width,
{
    if width == 0 {
        let v: Vec<char> = Vec::new();
        assert(v@ =~= seq![]);
        v
    } else {
        let mut v = low_digit_chars(n / 10, width - 1);
        v.push(digit_char((n % 10) as u8));
        v
    }
}

/// `s` filled up with zeros on the left to `width` characters.
pub open spec fn zero_fill(s: Seq<char>, width: nat) -> Seq<char> {
    if s.len() < width {
        Seq::new((width - s.len()) as nat, |i: int| '0') + s
    } else {
        s
    }
}

pub fn zero_filled(s: &[char], width: usize) -> (r: Vec<char>)
    ensures
        r@ == zero_fill(s@, width as nat),
{
    let mut out: Vec<char> = Vec::new();
    let n: usize = if s.len() < width {
        width - s.len()
    } else {
        0
    };
    for i in 0..n
        invariant
            out@ == Seq::new(i as nat, |j: int| '0'),
    {
        out.push('0');
        assert(out@ =~= Seq::new((i + 1) as nat, |j: int| '0'));
    }
    out.extend_from_slice(s);
    assert(out@ =~= zero_fill(s@, width as nat));
    out
}

/// `n` spaces.
pub open spec fn spaces(n: int) -> Seq<char> {
    Seq::new(
        if n > 0 {
            n as nat
        } else {
            0
        },
        |i: int| ' ',
    )
}

/// A string of `n` spaces.
pub fn blank(n: usize) -> (r: String)
    ensures
        r@ == spaces(n as int),
{
    let mut out = String::new();
    for i in 0..n
        invariant
            out@ == spaces(i as int),
    {
        out.push(' ');
        assert(out@ =~= spaces(i + 1));
    }
    out
}

/// `s` moved to the right in a column of `width` characters.
pub open spec fn right_aligned(s: Seq<char>, width: int) -> Seq<char> {
    spaces(width - s.len()) + s
}

pub fn align_right(s: &str, width: usize) -> (r: String)
    ensures
        r@ == right_aligned(s@, width as int),
{
    let n = chars(s).len();
    let room: usize = if n < width {
        width - n
    } else {
        0
    };
    assert(spaces(room as int) =~= spaces(width - s@.len()));
    cat2(&blank(room), s)
}

/// The lines of a text, without their line ends (LF or CRLF). What follows
/// the last line end is a line if there is anything.
pub open spec fn lines(s: Seq<char>) -> Seq<Seq<char>>
    decreases s.len(),
{
    let n = first(s, Class::One('\n'));
    if s.len() == 0 {
        seq![]
    } else if n >= s.len() {
        seq![s]
    } else {
        seq![without_return(s.take(n as int))] + lines(s.skip(n as int + 1))
    }
}

/// `s` without a carriage return at its end.
pub open spec fn without_return(s: Seq<char>) -> Seq<char> {
    if s.len() > 0 && s.last() == '\r' {
        s.drop_last()
    } else {
        s
    }
}

/// The lines of a text as strings.
pub fn line_strings(s: &str) -> (r: Vec<String>)
    ensures
        texts(r@) == lines(s@),
{
    let all = chars(s);
    let mut out: Vec<String> = Vec::new();
    let mut at: usize = 0;
    assert(all@.skip(0) =~= all@);
    assert(texts(out@) =~= seq![]);
    assert(texts(out@) + lines(all@) =~= lines(all@));
    while at < all.len()
        invariant
            at <= all@.len(),
            texts(out@) + lines(all@.skip(at as int)) == lines(all@),
        decreases all@.len() - at,
    {
        let rest = vstd::slice::slice_subrange(all.as_slice(), at, all.len());
        assert(rest@ =~= all@.skip(at as int));
        let n = find_first(rest, Class::One('\n'));
        let ghost before = texts(out@);
        if n == rest.len() {
            out.push(string(rest));
            assert(texts(out@) =~= before.push(rest@));
            at = all.len();
            assert(all@.skip(at as int) =~= seq![]);
            assert(before + seq![rest@] =~= texts(out@) + lines(seq![]));
        } else {
            let m: usize = if n > 0 && rest[n - 1] == '\r' {
                n - 1
            } else {
                n
            };
            let line = vstd::slice::slice_subrange(rest, 0, m);
            assert(line@ =~= without_return(rest@.take(n as int)));
            out.push(string(line));
            assert(texts(out@) =~= before.push(line@));
            assert(rest@.skip(n + 1) =~= all@.skip(at + n + 1));
            assert(before + (seq![line@] + lines(rest@.skip(n + 1))) =~= texts(out@) + lines(
                all@.skip(at + n + 1),
            ));
            at = at + n + 1;
        }
    }
    assert(all@.skip(all@.len() as int) =~= seq![]);
    assert(texts(out@) + lines(seq![]) =~= texts(out@));
    out
}

/// A hexadecimal digit, upper case.
pub open spec fn hex_digit(n: nat) -> char {
    if n < 10 {
        digit(n)
    } else {
        ((55 + n) as u32) as char
    }
}

/// The low `width` hexadecimal digits of `n`, upper case.
pub open spec fn hex(n: nat, width: nat) -> Seq<char>
    decreases width,
{
    if width == 0 {
        seq![]
    } else {
        hex(n / 16, (width - 1) as nat).push(hex_digit(n % 16))
    }
}

fn hex_digit_char(n: u8) -> (r: char)
    requires
        n < 16,
    ensures
        r == hex_digit(n as nat),
{
    if n < 10 {
        digit_char(n)
    } else {
        (55 + n) as char
    }
}

pub fn hex_chars(n: u64, width: usize) -> (r: Vec<char>)
    ensures
        r@ == hex(n as nat, width as nat),
    decreases width,
{
    if width == 0 {
        let v: Vec<char> = Vec::new();
        assert(v@ =~= seq![]);
        v
    } else {
        let mut v = hex_chars(n / 16, width - 1);
        v.push(hex_digit_char((n % 16) as u8));
        v
    }
}

/// Value of a digit in a radix up to 16, either case.
pub open spec fn digit_value(c: char, radix: nat) -> Option<nat> {
    let v: int = if '0' <= c && c <= '9' {
        c as int - 48
    } else if 'a' <= c && c <= 'f' {
        c as int - 87
    } else if 'A' <= c && c <= 'F' {
        c as int - 55
    } else {
        99
    };
    if v < radix {
        Some(v as nat)
    } else {
        None
    }
}

/// Value of a text made of digits only.
pub open spec fn digits_value(s: Seq<char>, radix: nat) -> Option<nat>
    decreases s.len(),
{
    if s.len() == 0 {
        Some(0)
    } else {
        match (digits_value(s.drop_last(), radix), digit_value(s.last(), radix)) {
            (Some(h), Some(d)) => Some(h * radix + d),
            _ => None,
        }
    }
}

/// An unsigned number up to `max`: digits, with an optional `+` before them.
pub open spec fn parse_unsigned(s: Seq<char>, radix: nat, max: nat) -> Option<nat> {
    let d = if s.len() > 0 && s[0] == '+' {
        s.skip(1)
    } else {
        s
    };
    if d.len() == 0 {
        None
    } else {
        match digits_value(d, radix) {
            Some(v) => if v <= max {
                Some(v)
            } else {
                None
            },
            None => None,
        }
    }
}

/// A signed 64-bit number: digits, with an optional sign before them.
pub open spec fn parse_signed(s: Seq<char>) -> Option<int> {
    if s.len() > 0 && s[0] == '-' {
        let d = s.skip(1);
        if d.len() == 0 {
            None
        } else {
            match digits_value(d, 10) {
                Some(v) => if v <= 0x8000_0000_0000_0000 {
                    Some(-(v as int))
                } else {
                    None
                },
                None => None,
            }
        }
    } else {
        match parse_unsigned(s, 10, 0x7fff_ffff_ffff_ffff) {
            Some(v) => Some(v as int),
            None => None,
        }
    }
}

fn digit_of(c: char, radix: u64) -> (r: Option<u64>)
    requires
        radix <= 16,
    ensures
        r is Some <==> digit_value(c, radix as nat) is Some,
        r matches Some(v) ==> digit_value(c, radix as nat) == Some(v as nat) && v < radix,
{
    let v: u64 = if '0' <= c && c <= '9' {
        c as u64 - 48
    } else if 'a' <= c && c <= 'f' {
        c as u64 - 87
    } else if 'A' <= c && c <= 'F' {
        c as u64 - 55
    } else {
        99
    };
    if v < radix {
        Some(v)
    } else {
        None
    }
}

/// A longer run of digits is no smaller, and not a number if a part is not.
proof fn lemma_digits_prefix(s: Seq<char>, n: int, radix: nat)
    requires
        0 <= n <= s.len(),
        radix >= 1,
    ensures
        digits_value(s.take(n), radix) is None ==> digits_value(s, radix) is None,
        (digits_value(s, radix) matches Some(v) ==> digits_value(s.take(n), radix) matches Some(p)
            && p <= v),
    decreases s.len() - n,
{
    if n == s.len() {
        assert(s.take(n) =~= s);
    } else {
        lemma_digits_prefix(s, n + 1, radix);
        assert(s.take(n + 1).drop_last() =~= s.take(n));
        if let Some(p) = digits_value(s.take(n), radix) {
            assert(p <= p * radix) by (nonlinear_arith)
                requires
                    radix >= 1,
            ;
        }
    }
}

fn digits_number(s: &[char], radix: u64, max: u64) -> (r: Option<u64>)
    requires
        1 <= radix <= 16,
    ensures
        r is Some <==> digits_value(s@, radix as nat) is Some && digits_value(s@, radix as nat)->0
            <= max,
        r matches Some(v) ==> digits_value(s@, radix as nat) == Some(v as nat),
{
    let mut total: u64 = 0;
    assert(s@.take(0) =~= seq![]);
    for i in 0..s.len()
        invariant
            1 <= radix <= 16,
            digits_value(s@.take(i as int), radix as nat) == Some(total as nat),
            total <= max,
    {
        assert(s@.take(i + 1).drop_last() =~= s@.take(i as int));
        proof {
            lemma_digits_prefix(s@, i + 1, radix as nat);
        }
        match digit_of(s[i], radix) {
            Some(d) => {
                match total.checked_mul(radix) {
                    Some(h) => {
                        match h.checked_add(d) {
                            Some(v) => {
                                if v > max {
                                    return None;
                                }
                                total = v;
                            },
                            None => {
                                return None;
                            },
                        }
                    },
                    None => {
                        return None;
                    },
                }
            },
            None => {
                return None;
            },
        }
    }
    assert(s@.take(s@.len() as int) =~= s@);
    Some(total)
}

pub fn unsigned(s: &[char], radix: u64, max: u64) -> (r: Option<u64>)
    requires
        1 <= radix <= 16,
    ensures
        r is Some <==> parse_unsigned(s@, radix as nat, max as nat) is Some,
        r matches Some(v) ==> parse_unsigned(s@, radix as nat, max as nat) == Some(v as nat) && v
            <= max,
{
    if s.len() > 0 && s[0] == '+' {
        let d = &s[1..s.len()];
        assert(d@ =~= s@.skip(1));
        if d.len() == 0 {
            None
        } else {
            digits_number(d, radix, max)
        }
    } else if s.len() == 0 {
        None
    } else {
        digits_number(s, radix, max)
    }
}

pub fn signed(s: &[char]) -> (r: Option<i64>)
    ensures
        r is Some <==> parse_signed(s@) is Some,
        r matches Some(v) ==> parse_signed(s@) == Some(v as int),
{
    if s.len() > 0 && s[0] == '-' {
        let d = &s[1..s.len()];
        assert(d@ =~= s@.skip(1));
        if d.len() == 0 {
            None
        } else {
            match digits_number(d, 10, 0x8000_0000_0000_0000) {
                Some(v) => if v == 0x8000_0000_0000_0000 {
                    Some(i64::MIN)
                } else {
                    Some(-(v as i64))
                },
                None => None,
            }
        }
    } else {
        match unsigned(s, 10, 0x7fff_ffff_ffff_ffff) {
            Some(v) => Some(v as i64),
            None => None,
        }
    }
}

// ---------------------------------------------------------------------
// What putting texts together means for taking them apart

/// No character of the class.
pub open spec fn free_of(s: Seq<char>, k: Class) -> bool {
    forall|i: int| 0 <= i < s.len() ==> !is_in(k, #[trigger] s[i])
}

pub proof fn lemma_free_of_first(s: Seq<char>, k: Class)
    requires
        free_of(s, k),
    ensures
        first(s, k) == s.len(),
        split_once(s, k) is None,
        split(s, k) == seq![s],
{
    lemma_first_is(s, k, s.len() as int);
}

/// The first separator is the one between `a` and `b`.
pub proof fn lemma_split_at(a: Seq<char>, c: char, b: Seq<char>, k: Class)
    requires
        free_of(a, k),
        is_in(k, c),
    ensures
        first(a + seq![c] + b, k) == a.len(),
        split_once(a + seq![c] + b, k) == Some((a, b)),
        split(a + seq![c] + b, k) == seq![a] + split(b, k),
{
    let s = a + seq![c] + b;
    lemma_first_is(s, k, a.len() as int);
    assert(s.take(a.len() as int) =~= a);
    assert(s.skip(a.len() as int + 1) =~= b);
}

/// A text that does not start or end with white space is trimmed already.
pub proof fn lemma_trim_id(s: Seq<char>, k: Class)
    requires
        s.len() > 0 ==> !is_in(k, s[0]) && !is_in(k, s.last()),
    ensures
        trim_both(s, k) == s,
{
    lemma_leading_is(s, k, 0);
    assert(s.skip(0) =~= s);
    if s.len() > 0 {
        lemma_trailing_is(s, k, 0);
    }
    assert(s.take(s.len() as int) =~= s);
}

/// What trimming leaves does not start or end with white space.
pub proof fn lemma_trimmed_ends(s: Seq<char>, k: Class)
    ensures
        ({
            let t = trim_both(s, k);
            &&& t.len() <= s.len()
            &&& t.len() > 0 ==> !is_in(k, t[0]) && !is_in(k, t.last())
            &&& trim_both(t, k) == t
            &&& forall|i: int| 0 <= i < t.len() ==> s.contains(#[trigger] t[i])
        }),
{
    let u = trim_start(s, k);
    let t = trim_both(s, k);
    lemma_leading(s, k);
    lemma_trailing(u, k);
    if t.len() > 0 {
        assert(t[0] == u[0]);
        assert(u[0] == s[leading(s, k) as int]);
        assert(t.last() == u[u.len() - trailing(u, k) - 1]);
    }
    lemma_trim_id(t, k);
    assert forall|i: int| 0 <= i < t.len() implies s.contains(#[trigger] t[i]) by {
        assert(t[i] == s[i + leading(s, k)]);
    }
}

/// White space around a text does not count.
pub proof fn lemma_trim_around(a: Seq<char>, s: Seq<char>, b: Seq<char>, k: Class)
    requires
        forall|i: int| 0 <= i < a.len() ==> is_in(k, #[trigger] a[i]),
        forall|i: int| 0 <= i < b.len() ==> is_in(k, #[trigger] b[i]),
        s.len() > 0 ==> !is_in(k, s[0]) && !is_in(k, s.last()),
    ensures
        trim_both(a + s + b, k) == s,
{
    let all = a + s + b;
    if s.len() > 0 {
        lemma_leading_is(all, k, a.len() as int);
        let u = all.skip(a.len() as int);
        assert(u =~= s + b);
        lemma_trailing_is(u, k, b.len() as int);
        assert(u.take(s.len() as int) =~= s);
    } else {
        assert(all =~= a + b);
        lemma_leading_is(all, k, all.len() as int);
        assert(all.skip(all.len() as int) =~= s);
        assert(trim_end(s, k) =~= s);
    }
}

/// Digits only.
pub open spec fn all_digits(s: Seq<char>) -> bool {
    forall|i: int| 0 <= i < s.len() ==> '0' <= #[trigger] s[i] && s[i] <= '9'
}

/// A number is read back from its decimal text, leading zeros or not.
pub proof fn lemma_decimal(n: nat)
    ensures
        decimal(n).len() > 0,
        all_digits(decimal(n)),
        digits_value(decimal(n), 10) == Some(n),
        n > 9 ==> decimal(n)[0] != '0',
    decreases n,
{
    if n >= 10 {
        lemma_decimal(n / 10);
        assert(decimal(n).drop_last() =~= decimal(n / 10));
    } else {
        reveal_with_fuel(digits_value, 2);
        assert(decimal(n).drop_last() =~= seq![]);
    }
}

proof fn lemma_zeros_value(z: nat, s: Seq<char>)
    requires
        digits_value(s, 10) is Some,
    ensures
        digits_value(Seq::new(z, |i: int| '0') + s, 10) == digits_value(s, 10),
    decreases s.len(),
{
    let zs = Seq::new(z, |i: int| '0');
    let all = zs + s;
    if s.len() == 0 {
        assert(all =~= zs);
        lemma_only_zeros(z);
    } else {
        lemma_zeros_value(z, s.drop_last());
        assert(all.drop_last() =~= zs + s.drop_last());
    }
}

proof fn lemma_only_zeros(z: nat)
    ensures
        digits_value(Seq::new(z, |i: int| '0'), 10) == Some(0nat),
    decreases z,
{
    if z > 0 {
        lemma_only_zeros((z - 1) as nat);
        assert(Seq::new(z, |i: int| '0').drop_last() =~= Seq::new((z - 1) as nat, |i: int| '0'));
    }
}

pub proof fn lemma_zero_fill(n: nat, width: nat)
    ensures
        zero_fill(decimal(n), width).len() > 0,
        all_digits(zero_fill(decimal(n), width)),
        digits_value(zero_fill(decimal(n), width), 10) == Some(n),
        n <= 0x7fff_ffff_ffff_ffff ==> parse_signed(zero_fill(decimal(n), width)) == Some(n as int),
{
    lemma_decimal(n);
    let s = decimal(n);
    if s.len() < width {
        lemma_zeros_value((width - s.len()) as nat, s);
    }
}

/// A size is read back from its decimal text.
pub proof fn lemma_parse_decimal(n: nat, max: nat)
    requires
        n <= max,
    ensures
        parse_unsigned(decimal(n), 10, max) == Some(n),
{
    lemma_decimal(n);
}

/// Ten to the power of `n`.
pub open spec fn power10(n: nat) -> nat
    decreases n,
{
    if n == 0 {
        1
    } else {
        10 * power10((n - 1) as nat)
    }
}

/// A number below a power of ten has no more digits than that.
proof fn lemma_digits_below(n: nat, width: nat)
    requires
        n < power10(width),
        width >= 1,
    ensures
        decimal(n).len() <= width,
    decreases width,
{
    if n >= 10 {
        assert(power10(1) == 10) by {
            reveal_with_fuel(power10, 2);
        }
        lemma_digits_below(n / 10, (width - 1) as nat);
    }
}

/// A machine number has at most 20 digits.
pub proof fn lemma_decimal_len(n: nat)
    requires
        n <= u64::MAX,
    ensures
        decimal(n).len() <= 20,
{
    assert(power10(20) == 100_000_000_000_000_000_000) by {
        reveal_with_fuel(power10, 21);
    }
    lemma_digits_below(n, 20);
}

/// Two digits.
pub proof fn lemma_two_digits(n: nat)
    requires
        n < 100,
    ensures
        zero_fill(decimal(n), 2).len() == 2,
{
    reveal_with_fuel(decimal, 3);
}

// ---------------------------------------------------------------------
// Parts of a string

/// UTF-8 of a text is that of its parts, one after another.
pub proof fn lemma_utf8_concat(a: Seq<char>, b: Seq<char>)
    ensures
        encode_utf8(a + b) == encode_utf8(a) + encode_utf8(b),
    decreases a.len(),
{
    if a.len() == 0 {
        assert(a + b =~= b);
        assert(encode_utf8(a) + encode_utf8(b) =~= encode_utf8(b));
    } else {
        lemma_utf8_concat(a.drop_first(), b);
        assert((a + b).drop_first() =~= a.drop_first() + b);
        assert(encode_utf8(a + b) =~= encode_utf8(a) + encode_utf8(b));
    }
}

/// Different texts have different bytes.
pub proof fn lemma_utf8_injective(a: Seq<char>, b: Seq<char>)
    requires
        encode_utf8(a) == encode_utf8(b),
    ensures
        a == b,
{
    encode_utf8_decode_utf8(a);
    encode_utf8_decode_utf8(b);
}

proof fn lemma_boundary(a: Seq<char>, b: Seq<char>)
    ensures
        is_char_boundary(encode_utf8(a + b), encode_utf8(a).len() as int),
    decreases a.len(),
{
    let all = encode_utf8(a + b);
    encode_utf8_valid_utf8(a + b);
    if a.len() > 0 {
        lemma_utf8_concat(a, b);
        encode_utf8_first_scalar(a + b);
        lemma_boundary(a.drop_first(), b);
        assert((a + b).drop_first() =~= a.drop_first() + b);
        assert(pop_first_scalar(all) =~= encode_utf8(a.drop_first() + b));
    }
}

/// The characters of `s` before and from index `at`.
fn split_str(s: &str, at: usize) -> (r: (&str, &str))
    requires
        at <= s@.len(),
    ensures
        r.0@ == s@.take(at as int),
        r.1@ == s@.skip(at as int),
{
    let cs = chars(s);
    let head = utf8_bytes(&string(&cs[0..at]));
    let ghost (a, b) = (s@.take(at as int), s@.skip(at as int));
    proof {
        assert(cs@.subrange(0, at as int) =~= a);
        assert(a + b =~= s@);
        lemma_boundary(a, b);
        lemma_utf8_concat(a, b);
    }
    let r = s.split_at(head.len());
    proof {
        assert(encode_utf8(r.0@) =~= encode_utf8(a));
        assert(encode_utf8(r.1@) =~= encode_utf8(b));
        lemma_utf8_injective(r.0@, a);
        lemma_utf8_injective(r.1@, b);
    }
    r
}

/// What follows the first `at` characters.
pub fn str_from(s: &str, at: usize) -> (r: &str)
    requires
        at <= s@.len(),
    ensures
        r@ == s@.skip(at as int),
{
    split_str(s, at).1
}

/// The string without white space at both ends, as a part of it.
pub fn trimmed_str(s: &str) -> (r: &str)
    ensures
        r@ == trim(s@),
{
    let cs = chars(s);
    let start = trimmed_start(&cs, Class::Space);
    proof {
        lemma_leading(s@, Class::Space);
        lemma_trailing(start@, Class::Space);
    }
    let at: usize = cs.len() - start.len();
    let tail = str_from(s, at);
    assert(tail@ =~= start@);
    let end = trimmed_end(start, Class::Space);
    split_str(tail, end.len()).0
}

proof fn lemma_scalar_bytes(c: char)
    ensures
        encode_scalar(c as u32).len() > 0,
        forall|i: int|
            0 <= i < encode_scalar(c as u32).len() ==> #[trigger] encode_scalar(c as u32)[i] >= 0x80
                || encode_scalar(c as u32)[i] as char == c,
{
    let u = c as u32;
    assert(u <= 0x7f ==> (u & 0x7f) as u8 == u as u8) by (bit_vector);
    assert(0xC0 | ((u >> 6) & 0x1F) as u8 >= 0x80u8 && 0xE0 | ((u >> 12) & 0x0F) as u8 >= 0x80u8
        && 0xF0 | ((u >> 18) & 0x7) as u8 >= 0x80u8 && 0x80 | (u & 0x3F) as u8 >= 0x80u8 && 0x80 | ((
    u >> 6) & 0x3F) as u8 >= 0x80u8 && 0x80 | ((u >> 12) & 0x3F) as u8 >= 0x80u8) by (bit_vector);
}

/// The bytes below 128 in UTF-8 are the characters with those codes.
pub proof fn lemma_utf8_byte(s: Seq<char>, i: int)
    requires
        0 <= i < encode_utf8(s).len(),
        encode_utf8(s)[i] < 0x80,
    ensures
        exists|j: int| 0 <= j < s.len() && #[trigger] s[j] == encode_utf8(s)[i] as char,
    decreases s.len(),
{
    lemma_scalar_bytes(s[0]);
    let head = encode_scalar(s[0] as u32);
    let tail = s.drop_first();
    if i < head.len() {
        assert(encode_utf8(s)[i] == head[i]);
        assert(s[0] == encode_utf8(s)[i] as char);
    } else {
        assert(encode_utf8(s)[i] == encode_utf8(tail)[i - head.len()]);
        lemma_utf8_byte(tail, i - head.len());
        let j = choose|j: int|
            0 <= j < tail.len() && #[trigger] tail[j] == encode_utf8(tail)[i - head.len()] as char;
        assert(s[j + 1] == encode_utf8(s)[i] as char);
    }
}

/// A text on one line has no line feed among its bytes.
pub proof fn lemma_utf8_one_line(s: Seq<char>)
    requires
        free_of(s, Class::One('\n')),
    ensures
        forall|i: int| 0 <= i < encode_utf8(s).len() ==> #[trigger] encode_utf8(s)[i] != 10,
{
    assert forall|i: int| 0 <= i < encode_utf8(s).len() implies #[trigger] encode_utf8(s)[i]
        != 10 by {
        if encode_utf8(s)[i] == 10 {
            lemma_utf8_byte(s, i);
            let j = choose|j: int| 0 <= j < s.len() && #[trigger] s[j] == encode_utf8(s)[i] as char;
            assert(!is_in(Class::One('\n'), s[j]));
        }
    }
}

/// ASCII text takes a byte per character.
pub proof fn lemma_utf8_ascii(s: Seq<char>)
    requires
        is_ascii_chars(s),
    ensures
        encode_utf8(s) == Seq::new(s.len(), |i: int| s[i] as u8),
{
    is_ascii_chars_encode_utf8(s);
    assert(encode_utf8(s) =~= Seq::new(s.len(), |i: int| s[i] as u8));
}

} // verus!

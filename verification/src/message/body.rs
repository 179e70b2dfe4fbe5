//! The text of a message body, attachment names and message IDs.

use vstd::prelude::*;
use vstd::utf8::*;

use crate::md5;
use crate::text;
use crate::text::Class;

verus! {

pub const MAX_MID_LEN: usize = 12;

/// The longest line, in bytes of UTF-8.
pub const MAX_LINE: usize = 998;

// ---------------------------------------------------------------------
// Body text

/// CRLF as a plain line feed.
pub open spec fn plain_lines(s: Seq<char>) -> Seq<char>
    decreases s.len(),
{
    if s.len() == 0 {
        seq![]
    } else if s.len() >= 2 && s[0] == '\r' && s[1] == '\n' {
        seq!['\n'] + plain_lines(s.skip(2))
    } else {
        seq![s[0]] + plain_lines(s.skip(1))
    }
}

/// How many characters of `s` fit in `room` bytes of UTF-8.
pub open spec fn fitting(s: Seq<char>, room: int) -> nat
    decreases s.len(),
{
    if s.len() == 0 || encode_utf8(seq![s[0]]).len() > room {
        0
    } else {
        1 + fitting(s.drop_first(), room - encode_utf8(seq![s[0]]).len())
    }
}

/// A line, cut where it is too long, each part with CRLF.
pub open spec fn cut_line(s: Seq<char>) -> Seq<char>
    decreases s.len(),
{
    proof {
        lemma_fitting(s, MAX_LINE as int);
    }
    let n = fitting(s, MAX_LINE as int) as int;
    if n >= s.len() {
        s + "\r\n"@
    } else {
        s.take(n) + "\r\n"@ + cut_line(s.skip(n))
    }
}

/// Some lines, cut where they are too long, without carriage returns at the
/// end.
pub open spec fn cut_lines(lines: Seq<Seq<char>>) -> Seq<char>
    decreases lines.len(),
{
    if lines.len() == 0 {
        seq![]
    } else {
        cut_lines(lines.drop_last()) + cut_line(text::trim_end(lines.last(), Class::One('\r')))
    }
}

/// A body text with CRLF line endings, lines of at most 998 bytes, and a
/// final CRLF.
pub open spec fn normalized_body(s: Seq<char>) -> Seq<char> {
    let t = text::trim_end(plain_lines(s), Class::One('\n'));
    if t.len() == 0 {
        "\r\n"@
    } else {
        cut_lines(text::split(t, Class::One('\n')))
    }
}

proof fn lemma_char_len(c: char)
    ensures
        1 <= encode_utf8(seq![c]).len() <= 4,
{
    assert(seq![c].drop_first() =~= seq![]);
    reveal_with_fuel(encode_utf8, 2);
}

pub proof fn lemma_fitting(s: Seq<char>, room: int)
    requires
        room >= 0,
    ensures
        fitting(s, room) <= s.len(),
        s.len() > 0 && room >= 4 ==> fitting(s, room) > 0,
        encode_utf8(s.take(fitting(s, room) as int)).len() <= room,
        fitting(s, room) < s.len() ==> encode_utf8(s.take(fitting(s, room) as int + 1)).len() > room,
    decreases s.len(),
{
    assert(s.take(0) =~= seq![]);
    if s.len() > 0 {
        lemma_char_len(s[0]);
        let n = fitting(s, room);
        if n > 0 {
            let t = s.drop_first();
            let left = room - encode_utf8(seq![s[0]]).len();
            lemma_fitting(t, left);
            assert(s.take(n as int) =~= seq![s[0]] + t.take(n - 1));
            text::lemma_utf8_concat(seq![s[0]], t.take(n - 1));
            if n < s.len() {
                assert(s.take(n as int + 1) =~= seq![s[0]] + t.take(n as int));
                text::lemma_utf8_concat(seq![s[0]], t.take(n as int));
            }
        } else {
            assert(s.take(1) =~= seq![s[0]]);
        }
    }
}

fn char_len(c: char) -> (r: usize)
    ensures
        r == encode_utf8(seq![c]).len(),
        1 <= r <= 4,
{
    let mut s = String::new();
    s.push(c);
    assert(s@ =~= seq![c]);
    proof {
        lemma_char_len(c);
    }
    text::byte_len(&s)
}

fn fit(s: &[char], room: usize) -> (r: usize)
    ensures
        r == fitting(s@, room as int),
        r <= s@.len(),
{
    let mut n: usize = 0;
    let mut left: usize = room;
    assert(s@.skip(0) =~= s@);
    while n < s.len()
        invariant
            n <= s@.len(),
            fitting(s@, room as int) == n + fitting(s@.skip(n as int), left as int),
        decreases s@.len() - n,
    {
        let w = char_len(s[n]);
        let ghost rest = s@.skip(n as int);
        assert(rest[0] == s@[n as int]);
        assert(rest.drop_first() =~= s@.skip(n + 1));
        if w > left {
            return n;
        }
        left -= w;
        n += 1;
    }
    n
}

fn to_plain_lines(s: &[char]) -> (r: Vec<char>)
    ensures
        r@ == plain_lines(s@),
{
    let mut out: Vec<char> = Vec::new();
    let mut i: usize = 0;
    assert(s@.skip(0) =~= s@);
    assert(out@ + plain_lines(s@) =~= plain_lines(s@));
    while i < s.len()
        invariant
            i <= s@.len(),
            plain_lines(s@) == out@ + plain_lines(s@.skip(i as int)),
        decreases s@.len() - i,
    {
        let ghost rest = s@.skip(i as int);
        let ghost before = out@;
        if s.len() - i >= 2 && s[i] == '\r' && s[i + 1] == '\n' {
            assert(rest.skip(2) =~= s@.skip(i + 2));
            out.push('\n');
            assert(before + (seq!['\n'] + plain_lines(rest.skip(2))) =~= out@ + plain_lines(
                s@.skip(i + 2),
            ));
            i += 2;
        } else {
            assert(rest.skip(1) =~= s@.skip(i + 1));
            out.push(s[i]);
            assert(before + (seq![rest[0]] + plain_lines(rest.skip(1))) =~= out@ + plain_lines(
                s@.skip(i + 1),
            ));
            i += 1;
        }
    }
    assert(s@.skip(i as int) =~= seq![]);
    assert(out@ + plain_lines(seq![]) =~= out@);
    out
}

fn push_cut_line(out: &mut Vec<char>, line: &[char])
    ensures
        final(out)@ == old(out)@ + cut_line(line@),
{
    let mut at: usize = 0;
    let breaks = text::chars("\r\n");
    assert(line@.skip(0) =~= line@);
    loop
        invariant
            at <= line@.len(),
            breaks@ == "\r\n"@,
            old(out)@ + cut_line(line@) == out@ + cut_line(line@.skip(at as int)),
        decreases line@.len() - at,
    {
        let rest = &line[at..line.len()];
        assert(rest@ =~= line@.skip(at as int));
        proof {
            lemma_fitting(rest@, MAX_LINE as int);
        }
        let n = fit(rest, MAX_LINE);
        let ghost before = out@;
        out.extend_from_slice(&rest[0..n]);
        out.extend_from_slice(&breaks);
        assert(rest@.subrange(0, n as int) =~= rest@.take(n as int));
        if n == rest.len() {
            assert(rest@.take(n as int) =~= rest@);
            assert(out@ =~= before + (rest@ + "\r\n"@));
            return;
        }
        assert(rest@.skip(n as int) =~= line@.skip(at + n));
        assert(before + (rest@.take(n as int) + "\r\n"@ + cut_line(rest@.skip(n as int))) =~= out@
            + cut_line(line@.skip(at + n)));
        at = at + n;
    }
}

/// CRLF line endings, lines of at most 998 bytes, final CRLF.
pub fn normalize_body(text: &str) -> (r: String)
    ensures
        r@ == normalized_body(text@),
{
    let plain = to_plain_lines(&text::chars(text));
    let t = text::trimmed_end(&plain, Class::One('\n'));
    if t.len() == 0 {
        return "\r\n".to_owned();
    }
    let lines = text::pieces(t, Class::One('\n'));
    let ghost all = text::views(lines@);
    let mut out: Vec<char> = Vec::new();
    assert(all.take(0) =~= seq![]);
    for i in 0..lines.len()
        invariant
            all == text::views(lines@),
            out@ == cut_lines(all.take(i as int)),
    {
        assert(all.take(i + 1).drop_last() =~= all.take(i as int));
        assert(all.take(i + 1).last() == lines@[i as int]@);
        push_cut_line(&mut out, text::trimmed_end(&lines[i], Class::One('\r')));
    }
    assert(all.take(all.len() as int) =~= all);
    text::string(&out)
}

// ---------------------------------------------------------------------
// Attachment names

/// The text without its control characters.
pub open spec fn without_controls(s: Seq<char>) -> Seq<char>
    decreases s.len(),
{
    if s.len() == 0 {
        seq![]
    } else if text::is_control(s.last()) {
        without_controls(s.drop_last())
    } else {
        without_controls(s.drop_last()).push(s.last())
    }
}

/// The last path component, without control characters, surrounding white
/// space and leading dots.
pub open spec fn sanitized(name: Seq<char>) -> Seq<char> {
    let base = text::after_last(name, Class::Two('/', '\\'));
    let clean = text::trim_start(text::trim(without_controls(base)), Class::One('.'));
    if clean.len() == 0 {
        "attachment"@
    } else {
        clean
    }
}

/// Keeps only the last path component and drops control characters.
pub fn sanitize_filename(name: &str) -> (r: String)
    ensures
        r@ == sanitized(name@),
{
    let cs = text::chars(name);
    let base = text::part_after_last(&cs, Class::Two('/', '\\'));
    let mut clean: Vec<char> = Vec::new();
    assert(base@.take(0) =~= seq![]);
    for i in 0..base.len()
        invariant
            clean@ == without_controls(base@.take(i as int)),
    {
        assert(base@.take(i + 1).drop_last() =~= base@.take(i as int));
        if !text::char_is_control(base[i]) {
            clean.push(base[i]);
        }
    }
    assert(base@.take(base@.len() as int) =~= base@);
    let clean = text::trimmed_start(text::trimmed(&clean), Class::One('.'));
    if clean.len() == 0 {
        "attachment".to_owned()
    } else {
        text::string(clean)
    }
}

// ---------------------------------------------------------------------
// Message IDs

/// A digit of base 32: `A`-`Z`, then `2`-`7`.
pub open spec fn base32_digit(v: nat) -> char {
    if v < 26 {
        ((65 + v) as u32) as char
    } else {
        ((24 + v) as u32) as char
    }
}

/// The low `width` digits of `v` in base 32.
pub open spec fn base32(v: nat, width: nat) -> Seq<char>
    decreases width,
{
    if width == 0 {
        seq![]
    } else {
        base32(v / 32, (width - 1) as nat).push(base32_digit(v % 32))
    }
}

/// The number that some bytes are, the most significant first.
pub open spec fn big_endian(bytes: Seq<u8>) -> nat
    decreases bytes.len(),
{
    if bytes.len() == 0 {
        0
    } else {
        big_endian(bytes.drop_last()) * 256 + bytes.last() as nat
    }
}

/// What a message ID is the digest of.
pub open spec fn mid_seed(call: Seq<char>, now_ms: nat, entropy: nat) -> Seq<char> {
    text::decimal(now_ms) + "-"@ + call + "-"@ + text::decimal(entropy)
}

/// The first 60 bits of the MD5 sum of a text.
pub open spec fn digest_bits(seed: Seq<char>) -> nat {
    big_endian(md5::md5(encode_utf8(seed)).take(8)) / 16
}

/// A message ID: the first 60 bits of an MD5 sum in base 32.
pub open spec fn mid_for(call: Seq<char>, now_ms: nat, entropy: nat) -> Seq<char> {
    base32(digest_bits(mid_seed(call, now_ms, entropy)), MAX_MID_LEN as nat)
}

/// A character that a message ID is made of.
pub open spec fn is_base32(c: char) -> bool {
    ||| 'A' <= c && c <= 'Z'
    ||| '2' <= c && c <= '7'
}

fn base32_chars(v: u64, width: usize) -> (r: Vec<char>)
    ensures
        r@ == base32(v as nat, width as nat),
        r@.len() == width,
        forall|i: int| 0 <= i < width ==> is_base32(#[trigger] r@[i]),
    decreases width,
{
    if width == 0 {
        let v: Vec<char> = Vec::new();
        assert(v@ =~= seq![]);
        v
    } else {
        let mut out = base32_chars(v / 32, width - 1);
        let d = (v % 32) as u8;
        out.push(
            if d < 26 {
                (65 + d) as char
            } else {
                (24 + d) as char
            },
        );
        out
    }
}

/// A 12-character message ID (base32 of an MD5 over call, time and noise).
pub fn generate_mid(call: &str, now_ms: u64, entropy: u64) -> (r: String)
    ensures
        r@ == mid_for(call@, now_ms as nat, entropy as nat),
        r@.len() == MAX_MID_LEN,
        forall|i: int| 0 <= i < r@.len() ==> is_base32(#[trigger] r@[i]),
{
    let seed = text::cat5(&text::number(now_ms), "-", call, "-", &text::number(entropy));
    let sum = md5::digest(&text::utf8_bytes(&seed));
    let mut bits: u64 = 0;
    assert(sum@.take(0) =~= seq![]);
    assert(big_endian(seq![]) == 0);
    let ghost mut bound: int = 1;
    for i in 0..8usize
        invariant
            sum@.len() == 16,
            bits == big_endian(sum@.take(i as int)),
            bits < bound,
            i == 0 ==> bound == 1,
            i == 1 ==> bound == 0x100,
            i == 2 ==> bound == 0x1_0000,
            i == 3 ==> bound == 0x100_0000,
            i == 4 ==> bound == 0x1_0000_0000,
            i == 5 ==> bound == 0x100_0000_0000,
            i == 6 ==> bound == 0x1_0000_0000_0000,
            i == 7 ==> bound == 0x100_0000_0000_0000,
    {
        assert(sum@.take(i + 1).drop_last() =~= sum@.take(i as int));
        bits = bits * 256 + sum[i] as u64;
        proof {
            bound = bound * 256;
        }
    }
    text::string(&base32_chars(bits / 16, MAX_MID_LEN))
}

// ---------------------------------------------------------------------
// Laws

proof fn lemma_base32(v: nat, width: nat)
    ensures
        base32(v, width).len() == width,
        forall|i: int| 0 <= i < width ==> is_base32(#[trigger] base32(v, width)[i]),
    decreases width,
{
    if width > 0 {
        let less = base32(v / 32, (width - 1) as nat);
        lemma_base32(v / 32, (width - 1) as nat);
        assert forall|i: int| 0 <= i < width implies is_base32(#[trigger] base32(v, width)[i]) by {
            if i < width - 1 {
                assert(base32(v, width)[i] == less[i]);
            }
        }
    }
}

/// A message ID has 12 characters, each a capital letter or one of the
/// digits 2 to 7.
pub proof fn law_mid_is_valid(call: Seq<char>, now_ms: nat, entropy: nat)
    ensures
        mid_for(call, now_ms, entropy).len() == 12,
        encode_utf8(mid_for(call, now_ms, entropy)).len() == 12,
        forall|i: int|
            0 <= i < 12 ==> is_base32(#[trigger] mid_for(call, now_ms, entropy)[i]),
{
    let mid = mid_for(call, now_ms, entropy);
    lemma_base32(digest_bits(mid_seed(call, now_ms, entropy)), 12);
    assert(is_ascii_chars(mid)) by {
        assert forall|i: int| 0 <= i < mid.len() implies 0 <= (#[trigger] mid[i] as nat) < 128 by {
            assert(is_base32(mid[i]));
        }
    }
    text::lemma_utf8_ascii(mid);
}

/// `base` to the power `n`.
pub open spec fn power(base: nat, n: nat) -> nat
    decreases n,
{
    if n == 0 {
        1
    } else {
        base * power(base, (n - 1) as nat)
    }
}

proof fn lemma_big_endian(bytes: Seq<u8>)
    ensures
        big_endian(bytes) < power(256, bytes.len()),
    decreases bytes.len(),
{
    if bytes.len() > 0 {
        lemma_big_endian(bytes.drop_last());
    }
}

proof fn lemma_base32_distinct(a: nat, b: nat, width: nat)
    requires
        a < power(32, width),
        b < power(32, width),
        base32(a, width) == base32(b, width),
    ensures
        a == b,
    decreases width,
{
    if width > 0 {
        let (x, y) = (base32(a, width), base32(b, width));
        assert(x.last() == y.last());
        assert(x.drop_last() =~= base32(a / 32, (width - 1) as nat));
        assert(y.drop_last() =~= base32(b / 32, (width - 1) as nat));
        assert(base32_digit(a % 32) == base32_digit(b % 32));
        lemma_base32_distinct(a / 32, b / 32, (width - 1) as nat);
    }
}

proof fn lemma_digest_bits(seed: Seq<char>)
    ensures
        digest_bits(seed) < power(32, 12),
{
    let first = md5::md5(encode_utf8(seed)).take(8);
    md5::lemma_md5_len(encode_utf8(seed));
    lemma_big_endian(first);
    assert(power(256, 8) == 0x1_0000_0000_0000_0000) by {
        reveal_with_fuel(power, 9);
    }
    assert(power(32, 12) == 0x1000_0000_0000_0000) by {
        reveal_with_fuel(power, 13);
    }
}

/// Two message IDs are the same exactly if the digests that they are made
/// from begin with the same 60 bits.
pub proof fn law_mids_tell_digests_apart(
    call: Seq<char>,
    now_ms: nat,
    entropy: nat,
    other_call: Seq<char>,
    other_ms: nat,
    other_entropy: nat,
)
    ensures
        mid_for(call, now_ms, entropy) == mid_for(other_call, other_ms, other_entropy)
            <==> digest_bits(mid_seed(call, now_ms, entropy)) == digest_bits(
            mid_seed(other_call, other_ms, other_entropy),
        ),
{
    let a = mid_seed(call, now_ms, entropy);
    let b = mid_seed(other_call, other_ms, other_entropy);
    lemma_digest_bits(a);
    lemma_digest_bits(b);
    if mid_for(call, now_ms, entropy) == mid_for(other_call, other_ms, other_entropy) {
        lemma_base32_distinct(digest_bits(a), digest_bits(b), 12);
    }
}

/// A station makes no two message IDs from the same text, as long as time or
/// noise differ.
pub proof fn law_mid_seeds_differ(
    call: Seq<char>,
    now_ms: nat,
    entropy: nat,
    other_ms: nat,
    other_entropy: nat,
)
    requires
        now_ms != other_ms || entropy != other_entropy,
    ensures
        mid_seed(call, now_ms, entropy) != mid_seed(call, other_ms, other_entropy),
{
    reveal_strlit("-");
    let (n, m) = (text::decimal(now_ms), text::decimal(other_ms));
    let (e, f) = (text::decimal(entropy), text::decimal(other_entropy));
    let a = mid_seed(call, now_ms, entropy);
    let b = mid_seed(call, other_ms, other_entropy);
    text::lemma_decimal(now_ms);
    text::lemma_decimal(other_ms);
    text::lemma_decimal(entropy);
    text::lemma_decimal(other_entropy);
    if a == b {
        if n.len() < m.len() {
            assert(a[n.len() as int] == '-');
            assert(b[n.len() as int] == m[n.len() as int]);
        } else if m.len() < n.len() {
            assert(b[m.len() as int] == '-');
            assert(a[m.len() as int] == n[m.len() as int]);
        } else {
            assert(a.take(n.len() as int) =~= n);
            assert(b.take(n.len() as int) =~= m);
            let k = n.len() + call.len() + 2;
            assert(a.skip(k as int) =~= e);
            assert(b.skip(k as int) =~= f);
        }
    }
}

/// Every body ends in a line break.
pub proof fn law_body_ends(s: Seq<char>)
    ensures
        text::ends_with(normalized_body(s), "\r\n"@),
{
    reveal_strlit("\r\n");
    let t = text::trim_end(plain_lines(s), Class::One('\n'));
    if t.len() == 0 {
        assert("\r\n"@.skip(0) =~= "\r\n"@);
    } else {
        let lines = text::split(t, Class::One('\n'));
        let line = text::trim_end(lines.last(), Class::One('\r'));
        lemma_cut_line_ends(line);
        let b = normalized_body(s);
        let c = cut_line(line);
        assert(b.skip(b.len() - 2) =~= c.skip(c.len() - 2));
    }
}

proof fn lemma_cut_line_ends(s: Seq<char>)
    ensures
        cut_line(s).len() >= 2,
        cut_line(s).skip(cut_line(s).len() - 2) == "\r\n"@,
    decreases s.len(),
{
    reveal_strlit("\r\n");
    lemma_fitting(s, MAX_LINE as int);
    let n = fitting(s, MAX_LINE as int) as int;
    let c = cut_line(s);
    if n >= s.len() {
        assert(c.skip(c.len() - 2) =~= "\r\n"@);
    } else {
        lemma_cut_line_ends(s.skip(n));
        let d = cut_line(s.skip(n));
        assert(c.skip(c.len() - 2) =~= d.skip(d.len() - 2));
    }
}

/// Lines that end in CRLF, of at most 998 bytes each.
pub open spec fn short_lines(s: Seq<char>) -> bool
    decreases s.len(),
{
    let n = text::first(s, Class::One('\n')) as int;
    s.len() == 0 || {
        &&& 1 <= n < s.len()
        &&& s[n - 1] == '\r'
        &&& encode_utf8(s.take(n - 1)).len() <= MAX_LINE
        &&& short_lines(s.skip(n + 1))
    }
}

/// No line of a body is longer than 998 bytes, and each ends in CRLF.
pub proof fn law_body_lines(s: Seq<char>)
    ensures
        short_lines(normalized_body(s)),
{
    let t = text::trim_end(plain_lines(s), Class::One('\n'));
    if t.len() == 0 {
        lemma_short_line(seq![]);
        assert(Seq::<char>::empty() + "\r\n"@ =~= "\r\n"@);
        assert(encode_utf8(Seq::<char>::empty()).len() == 0);
    } else {
        lemma_split_free(t, Class::One('\n'));
        lemma_cut_lines_short(text::split(t, Class::One('\n')));
    }
}

proof fn lemma_split_free(s: Seq<char>, k: Class)
    ensures
        forall|i: int| 0 <= i < text::split(s, k).len() ==> text::free_of(#[trigger] text::split(s, k)[i], k),
    decreases s.len(),
{
    text::lemma_first(s, k);
    let n = text::first(s, k) as int;
    if n < s.len() {
        lemma_split_free(s.skip(n + 1), k);
        let more = text::split(s.skip(n + 1), k);
        assert forall|i: int| 0 <= i < text::split(s, k).len() implies text::free_of(
            #[trigger] text::split(s, k)[i],
            k,
        ) by {
            if i > 0 {
                assert(text::split(s, k)[i] == more[i - 1]);
            }
        }
    }
}

proof fn lemma_short_line(s: Seq<char>)
    requires
        text::free_of(s, Class::One('\n')),
        encode_utf8(s).len() <= MAX_LINE,
    ensures
        short_lines(s + "\r\n"@),
{
    reveal_strlit("\r\n");
    let line = s + "\r\n"@;
    text::lemma_first_is(line, Class::One('\n'), s.len() as int + 1);
    assert(line.take(s.len() as int) =~= s);
    assert(line.skip(s.len() as int + 2) =~= Seq::<char>::empty());
    assert(short_lines(Seq::<char>::empty()));
    assert(line[s.len() as int] == '\r');
    assert(short_lines(line));
}

proof fn lemma_short_concat(a: Seq<char>, b: Seq<char>)
    requires
        short_lines(a),
        short_lines(b),
    ensures
        short_lines(a + b),
    decreases a.len(),
{
    if a.len() == 0 {
        assert(a + b =~= b);
    } else {
        let n = text::first(a, Class::One('\n')) as int;
        text::lemma_first(a, Class::One('\n'));
        text::lemma_first_is(a + b, Class::One('\n'), n);
        lemma_short_concat(a.skip(n + 1), b);
        assert((a + b).take(n - 1) =~= a.take(n - 1));
        assert((a + b).skip(n + 1) =~= a.skip(n + 1) + b);
    }
}

proof fn lemma_cut_line_short(s: Seq<char>)
    requires
        text::free_of(s, Class::One('\n')),
    ensures
        short_lines(cut_line(s)),
    decreases s.len(),
{
    lemma_fitting(s, MAX_LINE as int);
    let n = fitting(s, MAX_LINE as int) as int;
    if n >= s.len() {
        assert(s.take(n) =~= s);
        lemma_short_line(s);
    } else {
        lemma_short_line(s.take(n));
        lemma_cut_line_short(s.skip(n));
        lemma_short_concat(s.take(n) + "\r\n"@, cut_line(s.skip(n)));
    }
}

proof fn lemma_cut_lines_short(lines: Seq<Seq<char>>)
    requires
        forall|i: int|
            0 <= i < lines.len() ==> text::free_of(#[trigger] lines[i], Class::One('\n')),
    ensures
        short_lines(cut_lines(lines)),
    decreases lines.len(),
{
    if lines.len() > 0 {
        lemma_cut_lines_short(lines.drop_last());
        let last = lines.last();
        assert(text::free_of(last, Class::One('\n')));
        text::lemma_trailing(last, Class::One('\r'));
        lemma_cut_line_short(text::trim_end(last, Class::One('\r')));
        lemma_short_concat(
            cut_lines(lines.drop_last()),
            cut_line(text::trim_end(last, Class::One('\r'))),
        );
    }
}

/// An attachment name is never empty, has no path separator and no control
/// character, and does not start with a dot.
pub proof fn law_sanitized(name: Seq<char>)
    ensures
        sanitized(name).len() > 0,
        forall|i: int|
            0 <= i < sanitized(name).len() ==> {
                &&& #[trigger] sanitized(name)[i] != '/'
                &&& sanitized(name)[i] != '\\'
                &&& !text::is_control(sanitized(name)[i])
            },
        sanitized(name)[0] != '.',
        !text::is_space(sanitized(name).last()),
{
    reveal_strlit("attachment");
    let base = text::after_last(name, Class::Two('/', '\\'));
    let clean = without_controls(base);
    let t = text::trim(clean);
    let u = text::trim_start(t, Class::One('.'));
    lemma_after_last_free(name, Class::Two('/', '\\'));
    lemma_without_controls(base);
    text::lemma_trimmed_ends(clean, Class::Space);
    text::lemma_leading(t, Class::One('.'));
    if u.len() > 0 {
        assert forall|i: int| 0 <= i < u.len() implies {
            &&& #[trigger] u[i] != '/'
            &&& u[i] != '\\'
            &&& !text::is_control(u[i])
        } by {
            let j = i + text::leading(t, Class::One('.'));
            assert(u[i] == t[j]);
            assert(clean.contains(t[j]));
            let k = choose|k: int| 0 <= k < clean.len() && clean[k] == t[j];
            assert(base.contains(clean[k]));
            let m = choose|m: int| 0 <= m < base.len() && base[m] == clean[k];
            assert(!text::is_in(Class::Two('/', '\\'), base[m]));
        }
        assert(u.last() == t.last());
    }
}

proof fn lemma_after_last_free(s: Seq<char>, k: Class)
    ensures
        text::free_of(text::after_last(s, k), k),
    decreases s.len(),
{
    if s.len() > 0 && !text::is_in(k, s.last()) {
        lemma_after_last_free(s.drop_last(), k);
    }
}

proof fn lemma_without_controls(s: Seq<char>)
    ensures
        forall|i: int|
            0 <= i < without_controls(s).len() ==> !text::is_control(
                #[trigger] without_controls(s)[i],
            ) && s.contains(without_controls(s)[i]),
    decreases s.len(),
{
    if s.len() > 0 {
        let p = s.drop_last();
        lemma_without_controls(p);
        assert forall|i: int| 0 <= i < without_controls(s).len() implies !text::is_control(
            #[trigger] without_controls(s)[i],
        ) && s.contains(without_controls(s)[i]) by {
            if i < without_controls(p).len() {
                assert(p.contains(without_controls(p)[i]));
                let k = choose|k: int| 0 <= k < p.len() && p[k] == without_controls(p)[i];
                assert(s[k] == p[k]);
            } else {
                assert(s[s.len() - 1] == s.last());
            }
        }
    }
}

/// A text without control characters loses none.
pub proof fn lemma_no_controls(s: Seq<char>)
    requires
        forall|i: int| 0 <= i < s.len() ==> !text::is_control(#[trigger] s[i]),
    ensures
        without_controls(s) == s,
    decreases s.len(),
{
    if s.len() > 0 {
        lemma_no_controls(s.drop_last());
        assert(!text::is_control(s[s.len() - 1]));
        assert(s.drop_last().push(s.last()) =~= s);
    } else {
        assert(s =~= seq![]);
    }
}

} // verus!

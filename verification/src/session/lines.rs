//! The lines and the binary framing of the protocol.

use vstd::prelude::*;
use vstd::slice::slice_to_vec;
use vstd::utf8::*;

use crate::charset;
use crate::text;
use crate::text::Class;
use crate::unicode;

verus! {

/// Proposals per block (protocol limit).
pub const MAX_BLOCK: usize = 5;

/// Data bytes per STX block; fits AX.25 links with PACLEN 128.
pub const MAX_CHUNK: usize = 125;

/// Protocol text lines longer than this are refused.
pub const MAX_LINE: usize = 4096;

/// Longest title on the wire, in bytes.
pub const TITLE_MAX: usize = 80;

pub const SOH: u8 = 1;

pub const STX: u8 = 2;

pub const EOT: u8 = 4;

// ---------------------------------------------------------------------
// Checksums

/// Sum of some bytes, modulo 256.
pub open spec fn byte_sum(b: Seq<u8>) -> int
    decreases b.len(),
{
    if b.len() == 0 {
        0
    } else {
        (byte_sum(b.drop_last()) + b.last()) % 256
    }
}

/// What makes a sum zero, modulo 256.
pub open spec fn complement(sum: int) -> int {
    (256 - sum) % 256
}

/// A proposal checksum with one more line.
pub open spec fn line_sum(sum: int, line: Seq<char>) -> int {
    (sum + byte_sum(encode_utf8(line)) + 13) % 256
}

pub proof fn lemma_byte_sum(b: Seq<u8>)
    ensures
        0 <= byte_sum(b) < 256,
    decreases b.len(),
{
    if b.len() > 0 {
        lemma_byte_sum(b.drop_last());
    }
}

/// Reducing a part of a sum does not change it modulo 256.
#[verifier::spinoff_prover]
proof fn lemma_sum_mod(x: int, y: int, z: int)
    ensures
        ((x + y) % 256 + z) % 256 == (x + (y + z) % 256) % 256,
{
    vstd::arithmetic::div_mod::lemma_add_mod_noop(x + y, z, 256);
    vstd::arithmetic::div_mod::lemma_add_mod_noop_right(z, x + y, 256);
    vstd::arithmetic::div_mod::lemma_add_mod_noop_right(x, y + z, 256);
}

#[verifier::spinoff_prover]
pub proof fn lemma_byte_sum_concat(a: Seq<u8>, b: Seq<u8>)
    ensures
        byte_sum(a + b) == (byte_sum(a) + byte_sum(b)) % 256,
    decreases b.len(),
{
    lemma_byte_sum(a);
    if b.len() == 0 {
        assert(a + b =~= a);
    } else {
        lemma_byte_sum_concat(a, b.drop_last());
        assert((a + b).drop_last() =~= a + b.drop_last());
        lemma_sum_mod(byte_sum(a), byte_sum(b.drop_last()), b.last() as int);
    }
}

pub fn sum_bytes(b: &[u8]) -> (r: u8)
    ensures
        r == byte_sum(b@),
{
    let mut sum: u32 = 0;
    assert(b@.take(0) =~= seq![]);
    for i in 0..b.len()
        invariant
            sum == byte_sum(b@.take(i as int)),
            sum < 256,
    {
        assert(b@.take(i + 1).drop_last() =~= b@.take(i as int));
        sum = (sum + b[i] as u32) % 256;
    }
    assert(b@.take(b@.len() as int) =~= b@);
    sum as u8
}

pub fn add_line(sum: u8, line: &str) -> (r: u8)
    ensures
        r == line_sum(sum as int, line@),
{
    let bytes = text::utf8_bytes(line);
    ((sum as u32 + sum_bytes(&bytes) as u32 + 13) % 256) as u8
}

pub fn complement_of(sum: u8) -> (r: u8)
    ensures
        r == complement(sum as int),
{
    ((256 - sum as u32) % 256) as u8
}

/// A byte as two hexadecimal digits, upper case.
pub fn hex2(b: u8) -> (r: String)
    ensures
        r@ == text::hex(b as nat, 2),
{
    text::string(&text::hex_chars(b as u64, 2))
}

/// A byte as `0x` and two hexadecimal digits, lower case.
pub open spec fn byte_text(b: u8) -> Seq<char> {
    "0x"@ + text::ascii_lower(text::hex(b as nat, 2))
}

pub fn show_byte(b: u8) -> (r: String)
    ensures
        r@ == byte_text(b),
{
    let digits = text::to_ascii_lower(&text::hex_chars(b as u64, 2));
    text::cat2("0x", &text::string(&digits))
}

// ---------------------------------------------------------------------
// Lines

/// Bytes before the first line ending.
pub open spec fn break_at(rx: Seq<u8>) -> nat
    decreases rx.len(),
{
    if rx.len() == 0 || rx[0] == 13 || rx[0] == 10 {
        0
    } else {
        1 + break_at(rx.drop_first())
    }
}

pub proof fn lemma_break_at(rx: Seq<u8>)
    ensures
        break_at(rx) <= rx.len(),
        forall|i: int| 0 <= i < break_at(rx) ==> #[trigger] rx[i] != 13 && rx[i] != 10,
        break_at(rx) < rx.len() ==> rx[break_at(rx) as int] == 13 || rx[break_at(rx) as int] == 10,
    decreases rx.len(),
{
    if rx.len() > 0 && rx[0] != 13 && rx[0] != 10 {
        let t = rx.drop_first();
        lemma_break_at(t);
        assert forall|i: int| 0 <= i < break_at(rx) implies #[trigger] rx[i] != 13 && rx[i]
            != 10 by {
            if i > 0 {
                assert(rx[i] == t[i - 1]);
            }
        }
        if break_at(rx) < rx.len() {
            assert(rx[break_at(rx) as int] == t[break_at(t) as int]);
        }
    }
}

pub proof fn lemma_break_at_is(rx: Seq<u8>, n: int)
    requires
        0 <= n <= rx.len(),
        forall|i: int| 0 <= i < n ==> #[trigger] rx[i] != 13 && rx[i] != 10,
        n < rx.len() ==> rx[n] == 13 || rx[n] == 10,
    ensures
        break_at(rx) == n,
{
    lemma_break_at(rx);
    let m = break_at(rx) as int;
    if m < n {
        assert(rx[m] != 13);
    } else if n < m {
        assert(rx[n] != 13);
    }
}

pub fn find_break(rx: &[u8]) -> (r: usize)
    ensures
        r == break_at(rx@),
        r <= rx@.len(),
{
    let mut n: usize = 0;
    while n < rx.len() && rx[n] != 13 && rx[n] != 10
        invariant
            n <= rx@.len(),
            forall|i: int| 0 <= i < n ==> #[trigger] rx@[i] != 13 && rx@[i] != 10,
        decreases rx@.len() - n,
    {
        n += 1;
    }
    proof {
        lemma_break_at_is(rx@, n as int);
    }
    n
}

/// What looking for a line gives, with the bytes that are left.
pub enum Taken {
    /// A line that is not blank.
    Line(Seq<char>, Seq<u8>),
    /// More bytes are needed.
    More(Seq<u8>),
    /// A line is too long.
    TooLong(Seq<char>),
}

/// The first line that is not blank.
pub open spec fn taken(rx: Seq<u8>) -> Taken
    decreases rx.len(),
{
    proof {
        lemma_break_at(rx);
    }
    let end = break_at(rx) as int;
    if end >= rx.len() {
        if rx.len() > MAX_LINE {
            Taken::TooLong("protocol line longer than 4096 bytes without a line ending"@)
        } else {
            Taken::More(rx)
        }
    } else if end > MAX_LINE {
        Taken::TooLong("protocol line longer than 4096 bytes"@)
    } else {
        let line = text::trim(text::latin1(rx.take(end)));
        let rest = rx.skip(end + 1);
        if line.len() > 0 {
            Taken::Line(line, rest)
        } else {
            taken(rest)
        }
    }
}

/// Drops the first `n` bytes.
pub fn drop_front(v: &mut Vec<u8>, n: usize)
    requires
        n <= old(v)@.len(),
    ensures
        final(v)@ == old(v)@.skip(n as int),
{
    let rest = slice_to_vec(&v[n..v.len()]);
    assert(rest@ =~= v@.skip(n as int));
    *v = rest;
}

/// Takes the first line that is not blank off the front. `Ok(None)` = need
/// more bytes; `Err` = a line past [`MAX_LINE`].
pub fn take_line(rx: &mut Vec<u8>) -> (r: Result<Option<String>, String>)
    ensures
        match r {
            Ok(Some(line)) => taken(old(rx)@) == Taken::Line(line@, final(rx)@),
            Ok(None) => taken(old(rx)@) == Taken::More(final(rx)@),
            Err(e) => taken(old(rx)@) == Taken::TooLong(e@),
        },
{
    loop
        invariant
            taken(old(rx)@) == taken(rx@),
        decreases rx@.len(),
    {
        let end = find_break(rx);
        if end == rx.len() {
            if rx.len() > MAX_LINE {
                return Err(
                    "protocol line longer than 4096 bytes without a line ending".to_owned(),
                );
            }
            return Ok(None);
        }
        if end > MAX_LINE {
            return Err("protocol line longer than 4096 bytes".to_owned());
        }
        let cs = text::latin1_chars(&rx[0..end]);
        assert(rx@.subrange(0, end as int) =~= rx@.take(end as int));
        let line = text::string(text::trimmed(&cs));
        drop_front(rx, end + 1);
        if !line.as_str().is_empty() {
            return Ok(Some(line));
        }
    }
}

/// The text of a `***` line, which carries an error.
pub open spec fn error_in(line: Seq<char>) -> Option<Seq<char>> {
    if line.len() > 0 && line[0] == '*' {
        let t = text::trim(text::trim_start(line, Class::One('*')));
        if t.len() == 0 {
            Some(line)
        } else {
            Some(t)
        }
    } else {
        None
    }
}

/// `*** text` lines carry errors from Winlink servers.
pub fn remote_error(line: &str) -> (r: Option<String>)
    ensures
        r is Some <==> error_in(line@) is Some,
        r matches Some(e) ==> error_in(line@) == Some(e@),
{
    let cs = text::chars(line);
    if cs.len() == 0 || cs[0] != '*' {
        return None;
    }
    let t = text::trimmed(text::trimmed_start(&cs, Class::One('*')));
    if t.len() == 0 {
        Some(line.to_owned())
    } else {
        Some(text::string(t))
    }
}

// ---------------------------------------------------------------------
// Answers to proposals

/// The answer to one proposal.
#[derive(Clone, Copy, Debug, PartialEq, Eq)]
pub enum Answer {
    /// Send it, from this offset on.
    Accept(usize),
    /// The remote has it already.
    Reject,
    /// Later.
    Defer,
}

/// How many decimal digits the bytes start with.
pub open spec fn digit_count(b: Seq<u8>) -> nat
    decreases b.len(),
{
    if b.len() > 0 && 0x30 <= b[0] <= 0x39 {
        1 + digit_count(b.drop_first())
    } else {
        0
    }
}

pub proof fn lemma_digit_count(b: Seq<u8>)
    ensures
        digit_count(b) <= b.len(),
    decreases b.len(),
{
    if b.len() > 0 && 0x30 <= b[0] <= 0x39 {
        lemma_digit_count(b.drop_first());
    }
}

/// The answers that these bytes are; `s` is the whole text, for errors.
pub open spec fn answers(b: Seq<u8>, s: Seq<char>) -> Result<Seq<Answer>, Seq<char>>
    decreases b.len(),
{
    if b.len() == 0 {
        Ok(seq![])
    } else {
        let c = b[0] as char;
        let rest = b.skip(1);
        if c == '+' || c == 'Y' || c == 'y' {
            put(Answer::Accept(0), answers(rest, s))
        } else if c == '-' || c == 'N' || c == 'n' || c == 'R' || c == 'r' {
            put(Answer::Reject, answers(rest, s))
        } else if c == '=' || c == 'L' || c == 'l' || c == 'H' || c == 'h' {
            put(Answer::Defer, answers(rest, s))
        } else if c == '!' || c == 'A' || c == 'a' {
            proof {
                lemma_digit_count(rest);
            }
            let n = digit_count(rest) as int;
            match text::parse_unsigned(text::latin1(rest.take(n)), 10, usize::MAX as nat) {
                Some(v) => put(Answer::Accept(v as usize), answers(rest.skip(n), s)),
                None => Err("proposal answer "@ + unicode::quoted(s) + " lacks an offset"@),
            }
        } else if c == ' ' {
            answers(rest, s)
        } else {
            Err(
                "invalid proposal answer "@ + unicode::quoted_char(c) + " in "@ + unicode::quoted(
                    s,
                ),
            )
        }
    }
}

/// An answer in front of others.
pub open spec fn put(a: Answer, more: Result<Seq<Answer>, Seq<char>>) -> Result<
    Seq<Answer>,
    Seq<char>,
> {
    match more {
        Ok(v) => Ok(seq![a] + v),
        Err(e) => Err(e),
    }
}

/// Answers so far, in front of others.
spec fn after(so_far: Seq<Answer>, more: Result<Seq<Answer>, Seq<char>>) -> Result<
    Seq<Answer>,
    Seq<char>,
> {
    match more {
        Ok(v) => Ok(so_far + v),
        Err(e) => Err(e),
    }
}

proof fn lemma_after(so_far: Seq<Answer>, a: Answer, more: Result<Seq<Answer>, Seq<char>>)
    ensures
        after(so_far, put(a, more)) == after(so_far.push(a), more),
{
    if let Ok(v) = more {
        assert(so_far + (seq![a] + v) =~= so_far.push(a) + v);
    }
}

fn count_digits(b: &[u8]) -> (r: usize)
    ensures
        r == digit_count(b@),
        r <= b@.len(),
{
    let mut n: usize = 0;
    assert(b@.skip(0) =~= b@);
    while n < b.len() && 0x30 <= b[n] && b[n] <= 0x39
        invariant
            n <= b@.len(),
            digit_count(b@) == n + digit_count(b@.skip(n as int)),
        decreases b@.len() - n,
    {
        assert(b@.skip(n as int).drop_first() =~= b@.skip(n + 1));
        n += 1;
    }
    n
}

/// Parses the answers in an `FS` line.
pub fn parse_answers(s: &str) -> (r: Result<Vec<Answer>, String>)
    ensures
        match r {
            Ok(v) => answers(encode_utf8(s@), s@) == Ok::<_, Seq<char>>(v@),
            Err(e) => answers(encode_utf8(s@), s@) == Err::<Seq<Answer>, _>(e@),
        },
{
    let bytes = text::utf8_bytes(s);
    let mut out: Vec<Answer> = Vec::new();
    let mut i: usize = 0;
    let ghost whole = answers(bytes@, s@);
    assert(bytes@.skip(0) =~= bytes@);
    proof {
        if let Ok(v) = whole {
            assert(out@ + v =~= v);
        }
    }
    while i < bytes.len()
        invariant
            i <= bytes@.len(),
            bytes@ == encode_utf8(s@),
            whole == answers(bytes@, s@),
            whole == after(out@, answers(bytes@.skip(i as int), s@)),
        decreases bytes@.len() - i,
    {
        let c = bytes[i] as char;
        let ghost b = bytes@.skip(i as int);
        let ghost before = out@;
        assert(b[0] == bytes@[i as int]);
        assert(b.skip(1) =~= bytes@.skip(i + 1));
        i += 1;
        if c == '+' || c == 'Y' || c == 'y' {
            out.push(Answer::Accept(0));
            proof {
                lemma_after(before, Answer::Accept(0), answers(bytes@.skip(i as int), s@));
            }
        } else if c == '-' || c == 'N' || c == 'n' || c == 'R' || c == 'r' {
            out.push(Answer::Reject);
            proof {
                lemma_after(before, Answer::Reject, answers(bytes@.skip(i as int), s@));
            }
        } else if c == '=' || c == 'L' || c == 'l' || c == 'H' || c == 'h' {
            out.push(Answer::Defer);
            proof {
                lemma_after(before, Answer::Defer, answers(bytes@.skip(i as int), s@));
            }
        } else if c == '!' || c == 'A' || c == 'a' {
            let rest = &bytes[i..bytes.len()];
            assert(rest@ =~= bytes@.skip(i as int));
            let n = count_digits(rest);
            let digits = text::latin1_chars(&rest[0..n]);
            assert(rest@.subrange(0, n as int) =~= rest@.take(n as int));
            assert(rest@.skip(n as int) =~= bytes@.skip(i + n));
            match text::unsigned(&digits, 10, usize::MAX as u64) {
                Some(v) => {
                    out.push(Answer::Accept(v as usize));
                    i += n;
                    proof {
                        lemma_after(
                            before,
                            Answer::Accept(v as usize),
                            answers(bytes@.skip(i as int), s@),
                        );
                    }
                },
                None => {
                    return Err(
                        text::cat3("proposal answer ", &unicode::quote(s), " lacks an offset"),
                    );
                },
            }
        } else if c != ' ' {
            return Err(
                text::cat4(
                    "invalid proposal answer ",
                    &unicode::quote_char(c),
                    " in ",
                    &unicode::quote(s),
                ),
            );
        }
    }
    assert(bytes@.skip(i as int) =~= seq![]);
    assert(out@ + seq![] =~= out@);
    Ok(out)
}

// ---------------------------------------------------------------------
// Proposals

/// What a proposal line says.
#[verifier::ext_equal]
pub struct ProposalView {
    /// The letter after `F`.
    pub code: char,
    pub mid: Seq<char>,
    /// Size of the message.
    pub raw_size: nat,
    /// Size of the message as it is sent.
    pub csize: nat,
}

/// A message that the remote offers.
#[derive(Debug)]
pub struct InProposal {
    pub code: char,
    pub mid: String,
    /// Declared uncompressed size from the FC line.
    pub raw_size: usize,
    pub csize: usize,
}

impl View for InProposal {
    type V = ProposalView;

    open spec fn view(&self) -> ProposalView {
        ProposalView {
            code: self.code,
            mid: self.mid@,
            raw_size: self.raw_size as nat,
            csize: self.csize as nat,
        }
    }
}

/// What some proposals say.
pub open spec fn proposal_views(v: Seq<InProposal>) -> Seq<ProposalView> {
    Seq::new(v.len(), |i: int| v[i]@)
}

/// Reads a proposal line: `F`, a letter, and words.
pub open spec fn proposal(line: Seq<char>) -> Result<ProposalView, Seq<char>> {
    let code = line[1];
    let parts = text::split_words(line.skip(2));
    let quoted = unicode::quoted(line);
    if code == 'C' || code == 'D' {
        if parts.len() < 4 {
            Err("malformed proposal "@ + quoted)
        } else if parts[0] != "EM"@ && parts[0] != "CM"@ {
            Err("unsupported message type in "@ + quoted)
        } else {
            match (
                text::parse_unsigned(parts[2], 10, usize::MAX as nat),
                text::parse_unsigned(parts[3], 10, usize::MAX as nat),
            ) {
                (Some(raw_size), Some(csize)) => Ok(
                    ProposalView { code, mid: parts[1], raw_size, csize },
                ),
                _ => Err("malformed size in "@ + quoted),
            }
        }
    } else {
        Ok(
            ProposalView {
                code,
                mid: if parts.len() > 3 {
                    parts[3]
                } else {
                    "?"@
                },
                raw_size: 0,
                csize: 0,
            },
        )
    }
}

/// Reads a proposal line. The old FBB formats `FA` and `FB` only give a MID,
/// for the log.
pub fn parse_proposal(line: &str) -> (r: Result<InProposal, String>)
    requires
        line@.len() >= 2,
    ensures
        match r {
            Ok(p) => proposal(line@) == Ok::<_, Seq<char>>(p@),
            Err(e) => proposal(line@) == Err::<ProposalView, _>(e@),
        },
{
    let cs = text::chars(line);
    let code = cs[1];
    let tail = &cs[2..cs.len()];
    assert(tail@ =~= line@.skip(2));
    let parts = text::words(tail);
    let ghost all = text::views(parts@);
    assert(all.len() == parts@.len());
    if code == 'C' || code == 'D' {
        if parts.len() < 4 {
            return Err(text::cat2("malformed proposal ", &unicode::quote(line)));
        }
        assert(all[0] == parts@[0]@ && all[1] == parts@[1]@ && all[2] == parts@[2]@ && all[3]
            == parts@[3]@);
        if !text::equals_str(&parts[0], "EM") && !text::equals_str(&parts[0], "CM") {
            return Err(text::cat2("unsupported message type in ", &unicode::quote(line)));
        }
        match (
            text::unsigned(&parts[2], 10, usize::MAX as u64),
            text::unsigned(&parts[3], 10, usize::MAX as u64),
        ) {
            (Some(raw_size), Some(csize)) => Ok(
                InProposal {
                    code,
                    mid: text::string(&parts[1]),
                    raw_size: raw_size as usize,
                    csize: csize as usize,
                },
            ),
            _ => Err(text::cat2("malformed size in ", &unicode::quote(line))),
        }
    } else {
        let mid = if parts.len() > 3 {
            assert(all[3] == parts@[3]@);
            text::string(&parts[3])
        } else {
            "?".to_owned()
        };
        Ok(InProposal { code, mid, raw_size: 0, csize: 0 })
    }
}

// ---------------------------------------------------------------------
// Transfers

/// The label of a transfer: the subject in its header form, shortened until
/// it takes at most 80 bytes.
pub open spec fn title_of(s: Seq<char>) -> Seq<char>
    decreases s.len(),
{
    let e = charset::encoded_header(s);
    if e.len() <= TITLE_MAX {
        e
    } else if s.len() <= 1 {
        e.take(TITLE_MAX as int)
    } else {
        title_of(s.drop_last())
    }
}

/// The label of a message with this subject.
pub open spec fn label(subject: Seq<char>) -> Seq<char> {
    let s = text::trim(subject);
    if s.len() == 0 {
        "No title"@
    } else {
        title_of(s)
    }
}

/// Transfer label: the subject, RFC 2047 encoded like Pat does, at most
/// 80 bytes on the wire.
pub fn proposal_title(subject: &str) -> (r: String)
    ensures
        r@ == label(subject@),
{
    let cs = text::chars(subject);
    let s = text::trimmed(&cs);
    if s.len() == 0 {
        return "No title".to_owned();
    }
    let mut n: usize = s.len();
    assert(s@.take(n as int) =~= s@);
    loop
        invariant
            1 <= n <= s@.len(),
            title_of(s@) == title_of(s@.take(n as int)),
            label(subject@) == title_of(s@),
        decreases n,
    {
        let part = &s[0..n];
        assert(part@ =~= s@.take(n as int));
        let encoded = text::chars(&charset::encode_header(&text::string(part)));
        if encoded.len() <= TITLE_MAX {
            return text::string(&encoded);
        }
        if n <= 1 {
            let short = &encoded[0..TITLE_MAX];
            assert(short@ =~= encoded@.take(TITLE_MAX as int));
            return text::string(short);
        }
        assert(part@.drop_last() =~= s@.take(n - 1));
        n -= 1;
    }
}

/// The precedence that a subject's marker gives; lower is more urgent.
pub open spec fn precedence_of(subject: Seq<char>) -> int {
    if text::contains(subject, "//WL2K Z/"@) {
        0
    } else if text::contains(subject, "//WL2K O/"@) {
        1
    } else if text::contains(subject, "//WL2K P/"@) {
        2
    } else {
        3
    }
}

/// Winlink precedence markers in the subject; lower is more urgent.
pub fn precedence(subject: &str) -> (r: u8)
    ensures
        r == precedence_of(subject@),
{
    let cs = text::chars(subject);
    if text::has_str(&cs, "//WL2K Z/") {
        0
    } else if text::has_str(&cs, "//WL2K O/") {
        1
    } else if text::has_str(&cs, "//WL2K P/") {
        2
    } else {
        3
    }
}

/// The title as it goes into a transfer header.
pub open spec fn title_bytes(title: Seq<char>) -> Seq<u8> {
    let b = encode_utf8(title);
    if b.len() > TITLE_MAX {
        b.take(TITLE_MAX as int)
    } else {
        b
    }
}

/// The header of a transfer: title and offset, each with a NUL behind it.
pub open spec fn transfer_header(title: Seq<char>, offset: nat) -> Seq<u8> {
    title_bytes(title) + seq![0u8] + encode_utf8(text::decimal(offset)) + seq![0u8]
}

/// The data in STX blocks.
pub open spec fn blocks(d: Seq<u8>) -> Seq<u8>
    decreases d.len(),
{
    if d.len() == 0 {
        seq![]
    } else {
        let n = if d.len() < MAX_CHUNK {
            d.len() as int
        } else {
            MAX_CHUNK as int
        };
        seq![STX, n as u8] + d.take(n) + blocks(d.skip(n))
    }
}

/// A message as it is transferred, from an offset on: SOH header, STX
/// blocks, EOT checksum.
pub open spec fn transfer(title: Seq<char>, compressed: Seq<u8>, offset: nat) -> Seq<u8> {
    let header = transfer_header(title, offset);
    let data = compressed.skip(offset as int);
    seq![SOH, header.len() as u8] + header + blocks(data) + seq![
        EOT,
        complement(byte_sum(data)) as u8,
    ]
}

/// SOH header, STX blocks, EOT checksum for one message.
pub fn encode_data(title: &str, compressed: &[u8], offset: usize) -> (r: Vec<u8>)
    requires
        offset <= compressed@.len(),
    ensures
        r@ == transfer(title@, compressed@, offset as nat),
{
    let mut header = text::utf8_bytes(title);
    if header.len() > TITLE_MAX {
        header.truncate(TITLE_MAX);
        assert(header@ =~= encode_utf8(title@).take(TITLE_MAX as int));
    }
    assert(header@ =~= title_bytes(title@));
    header.push(0);
    let digits = text::utf8_bytes(&text::size_text(offset));
    header.extend_from_slice(&digits);
    header.push(0);
    assert(header@ =~= transfer_header(title@, offset as nat));
    proof {
        lemma_offset_len(offset);
    }
    let data = &compressed[offset..compressed.len()];
    assert(data@ =~= compressed@.skip(offset as int));
    let mut out: Vec<u8> = Vec::new();
    out.push(SOH);
    out.push(header.len() as u8);
    out.extend_from_slice(&header);
    let ghost head = out@;
    assert(head =~= seq![SOH, header@.len() as u8] + header@);
    let mut at: usize = 0;
    assert(data@.skip(0) =~= data@);
    while at < data.len()
        invariant
            at <= data@.len(),
            head + blocks(data@) == out@ + blocks(data@.skip(at as int)),
        decreases data@.len() - at,
    {
        let n: usize = if data.len() - at < MAX_CHUNK {
            data.len() - at
        } else {
            MAX_CHUNK
        };
        let ghost before = out@;
        let ghost rest = data@.skip(at as int);
        out.push(STX);
        out.push(n as u8);
        out.extend_from_slice(&data[at..at + n]);
        assert(data@.subrange(at as int, at + n) =~= rest.take(n as int));
        assert(rest.skip(n as int) =~= data@.skip(at + n));
        assert(before + (seq![STX, n as u8] + rest.take(n as int) + blocks(rest.skip(n as int)))
            =~= out@ + blocks(data@.skip(at + n)));
        at += n;
    }
    assert(data@.skip(at as int) =~= seq![]);
    assert(out@ + blocks(seq![]) =~= out@);
    out.push(EOT);
    out.push(complement_of(sum_bytes(data)));
    assert(out@ =~= transfer(title@, compressed@, offset as nat));
    out
}

/// An offset takes at most 20 digits.
proof fn lemma_offset_len(n: usize)
    ensures
        encode_utf8(text::decimal(n as nat)).len() <= 20,
{
    text::lemma_decimal(n as nat);
    assert(is_ascii_chars(text::decimal(n as nat)));
    text::lemma_utf8_ascii(text::decimal(n as nat));
    text::lemma_decimal_len(n as nat);
}

} // verus!

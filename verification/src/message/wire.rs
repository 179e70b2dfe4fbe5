//! The message format on the wire.

use vstd::prelude::*;
use vstd::slice::slice_to_vec;
use vstd::utf8::*;

use crate::charset;
use crate::message::body;
use crate::message::header;
use crate::message::header::Header;
use crate::text;
use crate::text::Class;
use crate::unicode;

verus! {

/// What a message holds: header fields, body, and attachments by name.
#[verifier::ext_equal]
pub struct MessageView {
    pub fields: Seq<(Seq<char>, Seq<char>)>,
    pub body: Seq<u8>,
    pub files: Seq<(Seq<char>, Seq<u8>)>,
}

// ---------------------------------------------------------------------
// Writing

pub open spec fn crlf() -> Seq<u8> {
    seq![13, 10]
}

/// The fields with `x` put in its place by name: behind all that are not
/// after it.
pub open spec fn inserted(f: Seq<(Seq<char>, Seq<char>)>, x: (Seq<char>, Seq<char>)) -> Seq<
    (Seq<char>, Seq<char>),
>
    decreases f.len(),
{
    if f.len() > 0 && text::before(x.0, f.last().0) {
        inserted(f.drop_last(), x).push(f.last())
    } else {
        f.push(x)
    }
}

/// The fields in the order of their names; those of one name keep theirs.
pub open spec fn sorted(f: Seq<(Seq<char>, Seq<char>)>) -> Seq<(Seq<char>, Seq<char>)>
    decreases f.len(),
{
    if f.len() == 0 {
        seq![]
    } else {
        inserted(sorted(f.drop_last()), f.last())
    }
}

/// One header line.
pub open spec fn field_line(x: (Seq<char>, Seq<char>)) -> Seq<u8> {
    encode_utf8(x.0 + ": "@ + text::trim(x.1) + "\r\n"@)
}

pub open spec fn field_lines(f: Seq<(Seq<char>, Seq<char>)>) -> Seq<u8>
    decreases f.len(),
{
    if f.len() == 0 {
        seq![]
    } else {
        field_line(f[0]) + field_lines(f.drop_first())
    }
}

/// The attachments, each with CRLF behind it.
pub open spec fn file_sections(files: Seq<(Seq<char>, Seq<u8>)>) -> Seq<u8>
    decreases files.len(),
{
    if files.len() == 0 {
        seq![]
    } else {
        files[0].1 + crlf() + file_sections(files.drop_first())
    }
}

/// The message ID.
pub open spec fn mid_of(m: MessageView) -> Seq<char> {
    text::trim(header::value_or(m.fields, "Mid"@, ""@))
}

/// A message on the wire: `Mid` first, then the other fields by name, an
/// empty line, the body and the attachments.
pub open spec fn written(m: MessageView) -> Seq<u8> {
    encode_utf8("Mid: "@ + mid_of(m) + "\r\n"@) + field_lines(
        sorted(header::without(m.fields, "Mid"@)),
    ) + crlf() + m.body + crlf() + file_sections(m.files)
}

// ---------------------------------------------------------------------
// Reading

pub open spec fn is_blank(b: u8) -> bool {
    b == 0x20 || b == 9 || b == 13 || b == 10
}

/// What follows the blanks at the start.
pub open spec fn after_blanks(data: Seq<u8>) -> Seq<u8>
    decreases data.len(),
{
    if data.len() > 0 && is_blank(data[0]) {
        after_blanks(data.drop_first())
    } else {
        data
    }
}

/// Bytes before the first line feed.
pub open spec fn line_len(data: Seq<u8>) -> nat
    decreases data.len(),
{
    if data.len() == 0 || data[0] == 10 {
        0
    } else {
        1 + line_len(data.drop_first())
    }
}

pub proof fn lemma_line_len(data: Seq<u8>)
    ensures
        line_len(data) <= data.len(),
        forall|i: int| 0 <= i < line_len(data) ==> #[trigger] data[i] != 10,
        line_len(data) < data.len() ==> data[line_len(data) as int] == 10,
    decreases data.len(),
{
    if data.len() > 0 && data[0] != 10 {
        let t = data.drop_first();
        lemma_line_len(t);
        assert forall|i: int| 0 <= i < line_len(data) implies #[trigger] data[i] != 10 by {
            if i > 0 {
                assert(data[i] == t[i - 1]);
            }
        }
        if line_len(data) < data.len() {
            assert(data[line_len(data) as int] == t[line_len(t) as int]);
        }
    }
}

pub proof fn lemma_line_len_is(data: Seq<u8>, n: int)
    requires
        0 <= n <= data.len(),
        forall|i: int| 0 <= i < n ==> #[trigger] data[i] != 10,
        n < data.len() ==> data[n] == 10,
    ensures
        line_len(data) == n,
{
    lemma_line_len(data);
    let m = line_len(data) as int;
    if m < n {
        assert(data[m] != 10);
    } else if n < m {
        assert(data[n] != 10);
    }
}

/// A line without the carriage return at its end.
pub open spec fn without_cr(line: Seq<u8>) -> Seq<u8> {
    if line.len() > 0 && line.last() == 13 {
        line.drop_last()
    } else {
        line
    }
}

/// Does the line continue the one before it?
pub open spec fn is_continuation(line: Seq<char>) -> bool {
    line.len() > 0 && (line[0] == ' ' || line[0] == '\t')
}

/// Reads header lines up to the empty one: the fields with those added, and
/// the data that follows.
pub open spec fn read_fields(data: Seq<u8>, fields: Seq<(Seq<char>, Seq<char>)>) -> Result<
    (Seq<(Seq<char>, Seq<char>)>, Seq<u8>),
    Seq<char>,
>
    decreases data.len(),
{
    proof {
        lemma_line_len(data);
    }
    let n = line_len(data) as int;
    if n >= data.len() {
        Err("message header is not terminated"@)
    } else {
        let line = without_cr(data.take(n));
        let rest = data.skip(n + 1);
        if line.len() == 0 {
            Ok((fields, rest))
        } else {
            let t = unicode::decoded_lossy(line);
            if is_continuation(t) {
                read_fields(rest, header::folded(fields, text::trim(t)))
            } else {
                match text::split_once(t, Class::One(':')) {
                    None => Err("malformed header line "@ + unicode::quoted(t)),
                    Some((key, value)) => read_fields(
                        rest,
                        header::with_field(fields, key, text::trim(value)),
                    ),
                }
            }
        }
    }
}

/// The data behind the line break that ends a section, if there is one.
pub open spec fn after_break(data: Seq<u8>) -> Seq<u8> {
    if data.len() >= 2 && data[0] == 13 && data[1] == 10 {
        data.skip(2)
    } else if data.len() >= 1 && data[0] == 10 {
        data.skip(1)
    } else {
        data
    }
}

/// Reads the attachments that the `File` values announce.
pub open spec fn read_files(values: Seq<Seq<char>>, data: Seq<u8>) -> Result<
    Seq<(Seq<char>, Seq<u8>)>,
    Seq<char>,
>
    decreases values.len(),
{
    if values.len() == 0 {
        Ok(seq![])
    } else {
        match text::split_once(text::trim(values[0]), Class::One(' ')) {
            None => Err("malformed File header "@ + unicode::quoted(values[0])),
            Some((size, name)) => match text::parse_unsigned(size, 10, usize::MAX as nat) {
                None => Err("malformed File size "@ + unicode::quoted(size)),
                Some(n) => if n > data.len() {
                    Err("message is truncated inside the "@ + "attachment"@)
                } else {
                    match read_files(values.drop_first(), after_break(data.skip(n as int))) {
                        Err(e) => Err(e),
                        Ok(more) => Ok(
                            seq![
                                (
                                    body::sanitized(charset::decoded_header(text::trim(name))),
                                    data.take(n as int),
                                ),
                            ] + more,
                        ),
                    }
                },
            },
        }
    }
}

/// Reads a message.
pub open spec fn read(data: Seq<u8>) -> Result<MessageView, Seq<char>> {
    let data = after_blanks(data);
    if data.len() == 0 {
        Err("empty message"@)
    } else {
        match read_fields(data, seq![]) {
            Err(e) => Err(e),
            Ok((fields, rest)) => match text::parse_unsigned(
                text::trim(header::value_or(fields, "Body"@, "0"@)),
                10,
                usize::MAX as nat,
            ) {
                None => Err("Body: is not a number"@),
                Some(n) => if n > rest.len() {
                    Err("message is truncated inside the "@ + "body"@)
                } else {
                    match read_files(
                        header::values_of(fields, "File"@),
                        after_break(rest.skip(n as int)),
                    ) {
                        Err(e) => Err(e),
                        Ok(files) => {
                            let m = MessageView { fields, body: rest.take(n as int), files };
                            if mid_of(m).len() == 0 {
                                Err("message has no Mid header"@)
                            } else {
                                Ok(m)
                            }
                        },
                    }
                },
            },
        }
    }
}

// ---------------------------------------------------------------------
// Code

/// Puts a field in its place by name.
fn insert_field(out: &mut Vec<(String, String)>, x: (String, String))
    ensures
        header::pair_texts(final(out)@) == inserted(header::pair_texts(old(out)@), (x.0@, x.1@)),
{
    let key = text::chars(&x.0);
    let mut at: usize = out.len();
    let ghost all = header::pair_texts(out@);
    let ghost y = (x.0@, x.1@);
    assert(all.take(all.len() as int) =~= all);
    assert(all.skip(all.len() as int) =~= seq![]);
    assert(inserted(all, y) + seq![] =~= inserted(all, y));
    while at > 0 && text::is_before(&key, &text::chars(&out[at - 1].0))
        invariant
            at <= out@.len(),
            all == header::pair_texts(out@),
            out@ == old(out)@,
            y == (x.0@, x.1@),
            key@ == x.0@,
            inserted(all, y) == inserted(all.take(at as int), y) + all.skip(at as int),
        decreases at,
    {
        let ghost upto = all.take(at as int);
        assert(upto.last() == all[at - 1]);
        assert(upto.drop_last() =~= all.take(at - 1));
        assert(inserted(all.take(at - 1), y).push(all[at - 1]) + all.skip(at as int) =~= inserted(
            all.take(at - 1),
            y,
        ) + all.skip(at - 1));
        at -= 1;
    }
    proof {
        if at > 0 {
            assert(all.take(at as int).last() == all[at - 1]);
        }
        assert(inserted(all, y) =~= all.take(at as int).push(y) + all.skip(at as int));
    }
    out.insert(at, x);
    assert(header::pair_texts(out@) =~= all.take(at as int).push(y) + all.skip(at as int));
}

/// The fields but `Mid`, in the order of their names.
pub fn sorted_fields(header: &Header) -> (r: Vec<(String, String)>)
    ensures
        header::pair_texts(r@) == sorted(header::without(header@, "Mid"@)),
{
    let mut rest = header.clone();
    rest.remove("Mid");
    let fields = rest.iter();
    let mut out: Vec<(String, String)> = Vec::new();
    let ghost all = header::pair_texts(fields@);
    assert(all.take(0) =~= seq![]);
    assert(header::pair_texts(out@) =~= seq![]);
    for i in 0..fields.len()
        invariant
            all == header::pair_texts(fields@),
            header::pair_texts(out@) == sorted(all.take(i as int)),
    {
        assert(all.take(i + 1).drop_last() =~= all.take(i as int));
        insert_field(&mut out, (fields[i].0.clone(), fields[i].1.clone()));
    }
    assert(all.take(all.len() as int) =~= all);
    out
}

/// Appends the header lines of some fields.
pub fn push_field_lines(out: &mut Vec<u8>, fields: &[(String, String)])
    ensures
        final(out)@ == old(out)@ + field_lines(header::pair_texts(fields@)),
{
    let ghost all = header::pair_texts(fields@);
    assert(all.skip(0) =~= all);
    for i in 0..fields.len()
        invariant
            all == header::pair_texts(fields@),
            old(out)@ + field_lines(all) == out@ + field_lines(all.skip(i as int)),
    {
        let line = text::cat4(&fields[i].0, ": ", text::trimmed_str(&fields[i].1), "\r\n");
        let bytes = text::utf8_bytes(&line);
        let ghost before = out@;
        out.extend_from_slice(&bytes);
        assert(all.skip(i as int).drop_first() =~= all.skip(i + 1));
        assert(before + (bytes@ + field_lines(all.skip(i + 1))) =~= out@ + field_lines(
            all.skip(i + 1),
        ));
    }
    assert(all.skip(all.len() as int) =~= seq![]);
    assert(out@ + field_lines(seq![]) =~= out@);
}

/// Skips the blanks at the start.
pub fn blanks(data: &[u8]) -> (r: usize)
    ensures
        r <= data@.len(),
        after_blanks(data@) == data@.skip(r as int),
{
    let mut n: usize = 0;
    assert(data@.skip(0) =~= data@);
    while n < data.len() && (data[n] == 0x20 || data[n] == 9 || data[n] == 13 || data[n] == 10)
        invariant
            n <= data@.len(),
            after_blanks(data@) == after_blanks(data@.skip(n as int)),
        decreases data@.len() - n,
    {
        assert(data@.skip(n as int).drop_first() =~= data@.skip(n + 1));
        n += 1;
    }
    n
}

fn line_end(data: &[u8]) -> (r: usize)
    ensures
        r == line_len(data@),
        r <= data@.len(),
{
    let mut n: usize = 0;
    while n < data.len() && data[n] != 10
        invariant
            n <= data@.len(),
            forall|i: int| 0 <= i < n ==> #[trigger] data@[i] != 10,
        decreases data@.len() - n,
    {
        n += 1;
    }
    proof {
        lemma_line_len_is(data@, n as int);
    }
    n
}

/// Reads the header: the fields, and where the data behind it starts.
pub fn read_header(data: &[u8]) -> (r: Result<(Header, usize), String>)
    ensures
        match r {
            Ok(p) => p.1 <= data@.len() && read_fields(data@, seq![]) == Ok::<_, Seq<char>>(
                (p.0@, data@.skip(p.1 as int)),
            ),
            Err(e) => read_fields(data@, seq![]) == Err::<
                (Seq<(Seq<char>, Seq<char>)>, Seq<u8>),
                _,
            >(e@),
        },
{
    let mut header = Header::default();
    let mut at: usize = 0;
    assert(data@.skip(0) =~= data@);
    assert(header@ =~= seq![]);
    loop
        invariant
            at <= data@.len(),
            read_fields(data@, seq![]) == read_fields(data@.skip(at as int), header@),
        decreases data@.len() - at,
    {
        let rest = &data[at..data.len()];
        assert(rest@ =~= data@.skip(at as int));
        let n = line_end(rest);
        if n == rest.len() {
            return Err("message header is not terminated".to_owned());
        }
        let end = if n > 0 && rest[n - 1] == 13 {
            n - 1
        } else {
            n
        };
        let line = &rest[0..end];
        assert(line@ =~= without_cr(rest@.take(n as int)));
        assert(rest@.skip(n + 1) =~= data@.skip(at + n + 1));
        at = at + n + 1;
        if line.len() == 0 {
            return Ok((header, at));
        }
        let t = unicode::decode_lossy(line);
        let cs = text::chars(&t);
        if cs.len() > 0 && (cs[0] == ' ' || cs[0] == '\t') {
            header.fold(&text::string(text::trimmed(&cs)));
        } else {
            match text::split_in_two(&cs, Class::One(':')) {
                None => {
                    return Err(text::cat2("malformed header line ", &unicode::quote(&t)));
                },
                Some((key, value)) => {
                    header.add(&text::string(key), &text::string(text::trimmed(value)));
                },
            }
        }
    }
}

/// Reads `len` bytes at `at`, then skips the CRLF that ends the section (if
/// any). `None` where there are too few.
pub fn take_section(data: &[u8], at: usize, len: usize) -> (r: Option<(Vec<u8>, usize)>)
    requires
        at <= data@.len(),
    ensures
        r is Some <==> len <= data@.len() - at,
        r matches Some(p) ==> {
            &&& p.0@ == data@.skip(at as int).take(len as int)
            &&& p.1 <= data@.len()
            &&& data@.skip(p.1 as int) == after_break(data@.skip(at as int).skip(len as int))
        },
{
    if len > data.len() - at {
        return None;
    }
    let end: usize = at + len;
    let section = slice_to_vec(&data[at..end]);
    assert(section@ =~= data@.skip(at as int).take(len as int));
    let ghost rest = data@.skip(at as int).skip(len as int);
    assert(rest =~= data@.skip(end as int));
    let next: usize = if data.len() - end >= 2 && data[end] == 13 && data[end + 1] == 10 {
        end + 2
    } else if data.len() - end >= 1 && data[end] == 10 {
        end + 1
    } else {
        end
    };
    assert(data@.skip(next as int) =~= after_break(rest));
    Some((section, next))
}

} // verus!

//! Laws of the message format: a message is read back from what is written.

use vstd::prelude::*;
use vstd::utf8::*;

use crate::charset;
use crate::message;
use crate::message::body;
use crate::message::wire;
use crate::message::wire::MessageView;
use crate::message::header;
use crate::text;
use crate::text::Class;

verus! {

/// A text without a line feed.
pub open spec fn one_line(s: Seq<char>) -> bool {
    text::free_of(s, Class::One('\n'))
}

/// A field that a header line can carry: its name is in canonical form, and
/// neither name nor value breaks the line.
pub open spec fn is_field(x: (Seq<char>, Seq<char>)) -> bool {
    &&& header::canonical(x.0) == x.0
    &&& text::free_of(x.0, Class::Two(':', '\n'))
    &&& one_line(text::trim(x.1))
}

pub open spec fn all_fields(f: Seq<(Seq<char>, Seq<char>)>) -> bool {
    forall|i: int| 0 <= i < f.len() ==> is_field(#[trigger] f[i])
}

/// Does the `File` value announce an attachment of this size?
pub open spec fn announces_size(value: Seq<char>, n: nat) -> bool {
    match text::split_once(text::trim(value), Class::One(' ')) {
        Some((size, _)) => text::parse_unsigned(size, 10, usize::MAX as nat) == Some(n),
        None => false,
    }
}

/// The name in a `File` value, as it is read.
pub open spec fn name_in(value: Seq<char>) -> Seq<char> {
    match text::split_once(text::trim(value), Class::One(' ')) {
        Some((_, name)) => body::sanitized(charset::decoded_header(text::trim(name))),
        None => seq![],
    }
}

/// Does the `File` value announce this attachment?
pub open spec fn announces(value: Seq<char>, file: (Seq<char>, Seq<u8>)) -> bool {
    announces_size(value, file.1.len()) && name_in(value) == file.0
}

/// A message whose header fits on header lines and gives the sizes of body
/// and attachments.
pub open spec fn framed(m: MessageView) -> bool {
    let values = header::values_of(m.fields, "File"@);
    &&& wire::mid_of(m).len() > 0
    &&& one_line(wire::mid_of(m))
    &&& all_fields(header::without(m.fields, "Mid"@))
    &&& text::parse_unsigned(
        text::trim(header::value_or(m.fields, "Body"@, "0"@)),
        10,
        usize::MAX as nat,
    ) == Some(m.body.len())
    &&& values.len() == m.files.len()
    &&& forall|i: int|
        0 <= i < values.len() ==> announces_size(#[trigger] values[i], m.files[i].1.len())
}

/// A message whose header agrees with its body and attachments, and fits
/// on header lines.
pub open spec fn sendable(m: MessageView) -> bool {
    let values = header::values_of(m.fields, "File"@);
    &&& framed(m)
    &&& forall|i: int| 0 <= i < values.len() ==> announces(#[trigger] values[i], m.files[i])
}

/// The fields with their values trimmed.
pub open spec fn trimmed_fields(f: Seq<(Seq<char>, Seq<char>)>) -> Seq<(Seq<char>, Seq<char>)> {
    Seq::new(f.len(), |i: int| (f[i].0, text::trim(f[i].1)))
}

/// The message that arrives: `Mid` first, the other fields by name, values
/// trimmed, body and attachments as they were.
pub open spec fn received(m: MessageView) -> MessageView {
    MessageView {
        fields: seq![("Mid"@, wire::mid_of(m))] + trimmed_fields(
            wire::sorted(header::without(m.fields, "Mid"@)),
        ),
        body: m.body,
        files: m.files,
    }
}

/// The attachments under the names in these `File` values.
pub open spec fn named(values: Seq<Seq<char>>, files: Seq<(Seq<char>, Seq<u8>)>) -> Seq<
    (Seq<char>, Seq<u8>),
> {
    Seq::new(files.len(), |i: int| (name_in(values[i]), files[i].1))
}

/// The message that arrives, whatever the header calls its attachments: they
/// come under the names that are read there.
pub open spec fn arrived(m: MessageView) -> MessageView {
    MessageView {
        files: named(header::values_of(m.fields, "File"@), m.files),
        ..received(m)
    }
}

// ---------------------------------------------------------------------
// Header lines

/// One header line is read back as one field.
proof fn lemma_line_read(
    x: (Seq<char>, Seq<char>),
    tail: Seq<u8>,
    fields: Seq<(Seq<char>, Seq<char>)>,
)
    requires
        is_field(x),
    ensures
        wire::read_fields(wire::field_line(x) + tail, fields) == wire::read_fields(
            tail,
            fields.push((x.0, text::trim(x.1))),
        ),
{
    reveal_strlit(": ");
    reveal_strlit("\r\n");
    let v = text::trim(x.1);
    let t = x.0 + ": "@ + v;
    let bytes = encode_utf8(t);
    let data = wire::field_line(x) + tail;
    text::lemma_utf8_concat(t, "\r\n"@);
    assert(is_ascii_chars("\r\n"@));
    text::lemma_utf8_ascii("\r\n"@);
    assert(wire::field_line(x) =~= bytes + seq![13u8, 10u8]);
    assert(one_line(t)) by {
        assert forall|i: int| 0 <= i < t.len() implies !text::is_in(
            Class::One('\n'),
            #[trigger] t[i],
        ) by {
            if i < x.0.len() {
                assert(!text::is_in(Class::Two(':', '\n'), x.0[i]));
            } else if i >= x.0.len() + 2 {
                assert(!text::is_in(Class::One('\n'), v[i - x.0.len() - 2]));
            }
        }
    }
    text::lemma_utf8_one_line(t);
    let n = bytes.len() as int + 1;
    assert forall|i: int| 0 <= i < n implies #[trigger] data[i] != 10 by {
        if i < bytes.len() {
            assert(data[i] == bytes[i]);
        }
    }
    wire::lemma_line_len_is(data, n);
    assert(data.take(n) =~= bytes.push(13u8));
    assert(wire::without_cr(data.take(n)) =~= bytes);
    assert(data.skip(n + 1) =~= tail);
    encode_utf8_valid_utf8(t);
    encode_utf8_decode_utf8(t);
    assert(bytes.len() > 0) by {
        if bytes.len() == 0 {
            assert(decode_utf8(bytes).len() == 0);
        }
    }
    assert(!wire::is_continuation(t)) by {
        if x.0.len() > 0 {
            text::lemma_trimmed_ends(x.0, Class::Space);
            assert(text::trim(x.0).len() == x.0.len());
            text::lemma_leading(x.0, Class::Space);
            text::lemma_trailing(text::trim_start(x.0, Class::Space), Class::Space);
            assert(text::trim(x.0) =~= x.0);
            assert(!text::is_space(x.0[0]));
            assert(t[0] == x.0[0]);
        }
    }
    assert(t =~= x.0 + seq![':'] + (seq![' '] + v));
    assert(text::free_of(x.0, Class::One(':'))) by {
        assert(text::free_of(x.0, Class::Two(':', '\n')));
    }
    text::lemma_split_at(x.0, ':', seq![' '] + v, Class::One(':'));
    text::lemma_trimmed_ends(x.1, Class::Space);
    text::lemma_trim_around(seq![' '], v, seq![], Class::Space);
    assert(seq![' '] + v + Seq::<char>::empty() =~= seq![' '] + v);
}

/// Header lines are read back up to the empty line.
proof fn lemma_lines_read(
    f: Seq<(Seq<char>, Seq<char>)>,
    tail: Seq<u8>,
    fields: Seq<(Seq<char>, Seq<char>)>,
)
    requires
        all_fields(f),
    ensures
        wire::read_fields(wire::field_lines(f) + wire::crlf() + tail, fields) == Ok::<
            _,
            Seq<char>,
        >((fields + trimmed_fields(f), tail)),
    decreases f.len(),
{
    let data = wire::field_lines(f) + wire::crlf() + tail;
    if f.len() == 0 {
        assert(data =~= wire::crlf() + tail);
        wire::lemma_line_len_is(data, 1);
        assert(data.take(1) =~= seq![13u8]);
        assert(wire::without_cr(data.take(1)) =~= seq![]);
        assert(data.skip(2) =~= tail);
        assert(fields + trimmed_fields(f) =~= fields);
    } else {
        let x = (f[0].0, text::trim(f[0].1));
        let more = wire::field_lines(f.drop_first()) + wire::crlf() + tail;
        assert(is_field(f[0]));
        assert(all_fields(f.drop_first())) by {
            assert forall|i: int| 0 <= i < f.drop_first().len() implies is_field(
                #[trigger] f.drop_first()[i],
            ) by {
                assert(is_field(f[i + 1]));
            }
        }
        lemma_line_read(f[0], more, fields);
        lemma_lines_read(f.drop_first(), tail, fields.push(x));
        assert(data =~= wire::field_line(f[0]) + more);
        assert(fields.push(x) + trimmed_fields(f.drop_first()) =~= fields + trimmed_fields(f));
    }
}

// ---------------------------------------------------------------------
// Order of the fields

/// Names that are the same but for case have the same canonical form.
proof fn lemma_canonical_unique(a: Seq<char>, b: Seq<char>)
    requires
        header::canonical(a) == a,
        header::canonical(b) == b,
        text::same_text(a, b),
    ensures
        a == b,
{
    assert(text::ascii_lower(a).len() == text::ascii_lower(b).len());
    lemma_trimmed(a);
    lemma_trimmed(b);
    assert forall|i: int| 0 <= i < a.len() implies a[i] == b[i] by {
        assert(text::ascii_lower(a)[i] == text::ascii_lower(b)[i]);
        assert(header::canonical(a)[i] == a[i]);
        assert(header::canonical(b)[i] == b[i]);
        if i > 0 {
            assert(text::ascii_lower(a)[i - 1] == text::ascii_lower(b)[i - 1]);
        }
    }
    assert(a =~= b);
}

proof fn lemma_trimmed(key: Seq<char>)
    requires
        header::canonical(key) == key,
    ensures
        text::trim(key) == key,
{
    text::lemma_leading(key, Class::Space);
    text::lemma_trailing(text::trim_start(key, Class::Space), Class::Space);
    assert(text::trim(key).len() == key.len());
    assert(text::trim(key) =~= key);
}

/// Sorting keeps the number of fields, and that they are fields.
proof fn lemma_inserted(f: Seq<(Seq<char>, Seq<char>)>, x: (Seq<char>, Seq<char>), key: Seq<char>)
    requires
        all_fields(f),
        is_field(x),
    ensures
        all_fields(wire::inserted(f, x)),
        header::values_of(wire::inserted(f, x), key) == header::values_of(f.push(x), key),
    decreases f.len(),
{
    reveal_with_fuel(header::values_of, 3);
    if f.len() > 0 && text::before(x.0, f.last().0) {
        let last = f.last();
        let less = f.drop_last();
        assert(all_fields(less)) by {
            assert forall|i: int| 0 <= i < less.len() implies is_field(#[trigger] less[i]) by {
                assert(is_field(f[i]));
            }
        }
        assert(is_field(f[f.len() - 1]));
        lemma_inserted(less, x, key);
        let g = wire::inserted(less, x);
        assert(g.push(last).drop_last() =~= g);
        assert(f.push(x).drop_last() =~= f);
        assert(less.push(x).drop_last() =~= less);
        if text::same_text(last.0, key) && text::same_text(x.0, key) {
            lemma_canonical_unique(x.0, last.0);
            text::lemma_before_irreflexive(x.0);
        }
        assert forall|i: int| 0 <= i < g.push(last).len() implies is_field(
            #[trigger] g.push(last)[i],
        ) by {
            if i < g.len() {
                assert(is_field(g[i]));
            }
        }
    } else {
        assert forall|i: int| 0 <= i < f.push(x).len() implies is_field(#[trigger] f.push(x)[i]) by {
            if i < f.len() {
                assert(is_field(f[i]));
            }
        }
    }
}

proof fn lemma_sorted(f: Seq<(Seq<char>, Seq<char>)>, key: Seq<char>)
    requires
        all_fields(f),
    ensures
        all_fields(wire::sorted(f)),
        header::values_of(wire::sorted(f), key) == header::values_of(f, key),
    decreases f.len(),
{
    if f.len() > 0 {
        let less = f.drop_last();
        assert(all_fields(less)) by {
            assert forall|i: int| 0 <= i < less.len() implies is_field(#[trigger] less[i]) by {
                assert(is_field(f[i]));
            }
        }
        assert(is_field(f[f.len() - 1]));
        lemma_sorted(less, key);
        lemma_inserted(wire::sorted(less), f.last(), key);
        assert(wire::sorted(less).push(f.last()).drop_last() =~= wire::sorted(less));
    }
}

proof fn lemma_trimmed_values(f: Seq<(Seq<char>, Seq<char>)>, key: Seq<char>)
    ensures
        header::values_of(trimmed_fields(f), key) == message::trimmed_all(
            header::values_of(f, key),
        ),
    decreases f.len(),
{
    if f.len() > 0 {
        lemma_trimmed_values(f.drop_last(), key);
        assert(trimmed_fields(f).drop_last() =~= trimmed_fields(f.drop_last()));
        assert(trimmed_fields(f).last() == (f.last().0, text::trim(f.last().1)));
        assert(header::values_of(trimmed_fields(f), key) =~= message::trimmed_all(
            header::values_of(f, key),
        ));
    } else {
        assert(trimmed_fields(f) =~= seq![]);
        assert(header::values_of(trimmed_fields(f), key) =~= message::trimmed_all(
            header::values_of(f, key),
        ));
    }
}

/// A field in front comes first among those of its name.
proof fn lemma_values_front(
    x: (Seq<char>, Seq<char>),
    f: Seq<(Seq<char>, Seq<char>)>,
    key: Seq<char>,
)
    ensures
        header::values_of(seq![x] + f, key) == (if text::same_text(x.0, key) {
            seq![x.1]
        } else {
            seq![]
        }) + header::values_of(f, key),
    decreases f.len(),
{
    let g = seq![x] + f;
    if f.len() == 0 {
        assert(g.drop_last() =~= seq![]);
        assert(g.last() == x);
        assert(header::values_of(seq![], key) =~= Seq::<Seq<char>>::empty());
        assert(f =~= seq![]);
        assert(header::values_of(g, key) =~= (if text::same_text(x.0, key) {
            seq![x.1]
        } else {
            seq![]
        }) + header::values_of(f, key));
    } else {
        lemma_values_front(x, f.drop_last(), key);
        assert(g.drop_last() =~= seq![x] + f.drop_last());
        assert(g.last() == f.last());
        assert(header::values_of(g, key) =~= (if text::same_text(x.0, key) {
            seq![x.1]
        } else {
            seq![]
        }) + header::values_of(f, key));
    }
}

// ---------------------------------------------------------------------
// Reading back

proof fn lemma_mid_name()
    ensures
        is_field(("Mid"@, seq![])),
        !text::same_text("Mid"@, "Body"@),
        !text::same_text("Mid"@, "File"@),
        !text::same_text("Mid"@, "To"@),
        !text::same_text("Mid"@, "Cc"@),
        !text::same_text("Mid"@, "From"@),
        !text::same_text("Mid"@, "Date"@),
        !text::same_text("Mid"@, "Subject"@),
        !text::same_text("Mid"@, "Content-Type"@),
{
    reveal_strlit("Mid");
    reveal_strlit("Body");
    reveal_strlit("File");
    reveal_strlit("To");
    reveal_strlit("Cc");
    reveal_strlit("From");
    reveal_strlit("Date");
    reveal_strlit("Subject");
    reveal_strlit("Content-Type");
    text::lemma_trim_id("Mid"@, Class::Space);
    assert(header::canonical("Mid"@) =~= "Mid"@);
    text::lemma_trim_id(seq![], Class::Space);
    assert(text::ascii_lower("Mid"@).len() == 3);
    assert(text::ascii_lower("Body"@).len() == 4);
    assert(text::ascii_lower("File"@).len() == 4);
    assert(text::ascii_lower("To"@).len() == 2);
    assert(text::ascii_lower("Cc"@).len() == 2);
    assert(text::ascii_lower("From"@).len() == 4);
    assert(text::ascii_lower("Date"@).len() == 4);
    assert(text::ascii_lower("Subject"@).len() == 7);
    assert(text::ascii_lower("Content-Type"@).len() == 12);
}

/// The values of every name but `Mid` arrive as they were sent, trimmed.
pub proof fn law_received_values(m: MessageView, key: Seq<char>)
    requires
        framed(m),
        !text::same_text("Mid"@, key),
    ensures
        header::values_of(received(m).fields, key) == message::trimmed_all(
            header::values_of(m.fields, key),
        ),
{
    let rest = header::without(m.fields, "Mid"@);
    lemma_sorted(rest, key);
    lemma_trimmed_values(wire::sorted(rest), key);
    lemma_values_front(
        ("Mid"@, wire::mid_of(m)),
        trimmed_fields(wire::sorted(rest)),
        key,
    );
    header::lemma_without_other(m.fields, "Mid"@, key);
    assert(header::values_of(received(m).fields, key) =~= message::trimmed_all(
        header::values_of(m.fields, key),
    ));
}

proof fn lemma_received_value(m: MessageView, key: Seq<char>, default: Seq<char>)
    requires
        framed(m),
        !text::same_text("Mid"@, key),
    ensures
        text::trim(header::value_or(received(m).fields, key, default)) == text::trim(
            header::value_or(m.fields, key, default),
        ),
{
    law_received_values(m, key);
    header::lemma_value_of_first(m.fields, key);
    header::lemma_value_of_first(received(m).fields, key);
    if let Some(v) = header::value_of(m.fields, key) {
        text::lemma_trimmed_ends(v, Class::Space);
    }
}

/// The message ID, the recipients, the sender and the date arrive as they
/// were sent.
pub proof fn law_received_parts(m: MessageView)
    requires
        framed(m),
    ensures
        wire::mid_of(received(m)) == wire::mid_of(m),
        message::to_of(received(m)) == message::to_of(m),
        message::cc_of(received(m)) == message::cc_of(m),
        message::from_of(received(m)) == message::from_of(m),
        message::date_of(received(m)) == message::date_of(m),
{
    lemma_mid_name();
    lemma_received_mid(m);
    law_received_values(m, "To"@);
    law_received_values(m, "Cc"@);
    lemma_trimmed_twice(header::values_of(m.fields, "To"@));
    lemma_trimmed_twice(header::values_of(m.fields, "Cc"@));
    lemma_received_value(m, "From"@, ""@);
    lemma_received_value(m, "Date"@, ""@);
}

proof fn lemma_trimmed_twice(v: Seq<Seq<char>>)
    ensures
        message::trimmed_all(message::trimmed_all(v)) == message::trimmed_all(v),
{
    assert forall|i: int| 0 <= i < v.len() implies text::trim(text::trim(#[trigger] v[i]))
        == text::trim(v[i]) by {
        text::lemma_trimmed_ends(v[i], Class::Space);
    }
    assert(message::trimmed_all(message::trimmed_all(v)) =~= message::trimmed_all(v));
}

proof fn lemma_received_mid(m: MessageView)
    ensures
        wire::mid_of(received(m)) == wire::mid_of(m),
{
    let f = received(m).fields;
    assert(f[0] == ("Mid"@, wire::mid_of(m)));
    assert(text::same_text(f[0].0, "Mid"@));
    text::lemma_trimmed_ends(header::value_or(m.fields, "Mid"@, ""@), Class::Space);
}

proof fn lemma_files_read(values: Seq<Seq<char>>, files: Seq<(Seq<char>, Seq<u8>)>)
    requires
        values.len() == files.len(),
        forall|i: int|
            0 <= i < values.len() ==> announces_size(#[trigger] values[i], files[i].1.len()),
    ensures
        wire::read_files(values, wire::file_sections(files)) == Ok::<_, Seq<char>>(
            named(values, files),
        ),
    decreases values.len(),
{
    if values.len() == 0 {
        assert(named(values, files) =~= seq![]);
    } else {
        let more = files.drop_first();
        let data = wire::file_sections(files);
        assert(announces_size(values[0], files[0].1.len()));
        assert forall|i: int| 0 <= i < values.drop_first().len() implies announces_size(
            #[trigger] values.drop_first()[i],
            more[i].1.len(),
        ) by {
            assert(announces_size(values[i + 1], files[i + 1].1.len()));
        }
        lemma_files_read(values.drop_first(), more);
        let n = files[0].1.len() as int;
        let tail = data.skip(n);
        assert(data.take(n) =~= files[0].1);
        assert(tail =~= wire::crlf() + wire::file_sections(more));
        assert(tail.skip(2) =~= wire::file_sections(more));
        assert(seq![(name_in(values[0]), files[0].1)] + named(values.drop_first(), more)
            =~= named(values, files));
    }
}

/// A message is read back from what is written, with its attachments under
/// the names that are read in its header.
pub proof fn law_framed_roundtrip(m: MessageView)
    requires
        framed(m),
    ensures
        wire::read(wire::written(m)) == Ok::<_, Seq<char>>(arrived(m)),
{
    lemma_mid_name();
    let mid = wire::mid_of(m);
    let data = wire::written(m);
    let rest = header::without(m.fields, "Mid"@);
    let f = wire::sorted(rest);
    let x = ("Mid"@, mid);
    lemma_sorted(rest, "Body"@);
    let tail = m.body + wire::crlf() + wire::file_sections(m.files);
    text::lemma_trimmed_ends(header::value_or(m.fields, "Mid"@, ""@), Class::Space);
    let head = encode_utf8("Mid: "@ + mid + "\r\n"@);
    let lines = wire::field_lines(f) + wire::crlf() + tail;
    assert(head == wire::field_line(x)) by {
        reveal_strlit("Mid: ");
        reveal_strlit("Mid");
        reveal_strlit(": ");
        assert("Mid: "@ =~= "Mid"@ + ": "@);
    }
    assert(data =~= head + lines);
    lemma_line_read(x, lines, seq![]);
    lemma_lines_read(f, tail, seq![x]);
    assert(Seq::<(Seq<char>, Seq<char>)>::empty().push(x) =~= seq![x]);
    assert(data[0] == 0x4d && data.len() > 0) by {
        reveal_strlit("Mid: ");
        let rest_of_line = "id: "@;
        reveal_strlit("id: ");
        assert("Mid: "@ + mid + "\r\n"@ =~= seq!['M'] + (rest_of_line + mid + "\r\n"@));
        text::lemma_utf8_concat(seq!['M'], rest_of_line + mid + "\r\n"@);
        assert(is_ascii_chars(seq!['M']));
        text::lemma_utf8_ascii(seq!['M']);
    }
    assert(wire::after_blanks(data) == data);
    lemma_received_value(m, "Body"@, "0"@);
    let n = m.body.len() as int;
    assert(tail.take(n) =~= m.body);
    assert(tail.skip(n) =~= wire::crlf() + wire::file_sections(m.files));
    assert(tail.skip(n).skip(2) =~= wire::file_sections(m.files));
    law_received_values(m, "File"@);
    let values = header::values_of(m.fields, "File"@);
    let got = header::values_of(received(m).fields, "File"@);
    assert forall|i: int| 0 <= i < got.len() implies announces_size(
        #[trigger] got[i],
        m.files[i].1.len(),
    ) && name_in(got[i]) == name_in(values[i]) by {
        text::lemma_trimmed_ends(values[i], Class::Space);
        assert(announces_size(values[i], m.files[i].1.len()));
    }
    lemma_files_read(got, m.files);
    assert(named(got, m.files) =~= named(values, m.files));
    lemma_received_mid(m);
}

/// A message is read back from what is written.
pub proof fn law_message_roundtrip(m: MessageView)
    requires
        sendable(m),
    ensures
        wire::read(wire::written(m)) == Ok::<_, Seq<char>>(received(m)),
{
    let values = header::values_of(m.fields, "File"@);
    law_framed_roundtrip(m);
    assert forall|i: int| 0 <= i < m.files.len() implies named(values, m.files)[i]
        == #[trigger] m.files[i] by {
        assert(announces(values[i], m.files[i]));
    }
    assert(named(values, m.files) =~= m.files);
    assert(arrived(m) =~= received(m));
}

// ---------------------------------------------------------------------
// Writing again

/// No field comes after one that its name should come before.
pub open spec fn ordered(f: Seq<(Seq<char>, Seq<char>)>) -> bool {
    forall|i: int, j: int|
        0 <= i < j < f.len() ==> !text::before((#[trigger] f[j]).0, (#[trigger] f[i]).0)
}

proof fn lemma_inserted_ordered(f: Seq<(Seq<char>, Seq<char>)>, x: (Seq<char>, Seq<char>))
    requires
        ordered(f),
    ensures
        ordered(wire::inserted(f, x)),
        forall|i: int|
            0 <= i < wire::inserted(f, x).len() ==> (#[trigger] wire::inserted(f, x)[i]) == x
                || f.contains(wire::inserted(f, x)[i]),
    decreases f.len(),
{
    let g = wire::inserted(f, x);
    if f.len() > 0 && text::before(x.0, f.last().0) {
        let less = f.drop_last();
        let h = wire::inserted(less, x);
        lemma_inserted_ordered(less, x);
        assert forall|i: int| 0 <= i < g.len() implies (#[trigger] g[i]) == x || f.contains(
            g[i],
        ) by {
            if i < h.len() {
                assert(g[i] == h[i]);
                if h[i] != x {
                    let k = choose|k: int| 0 <= k < less.len() && less[k] == h[i];
                    assert(f[k] == h[i]);
                }
            } else {
                assert(f[f.len() - 1] == g[i]);
            }
        }
        assert forall|i: int, j: int| 0 <= i < j < g.len() implies !text::before(
            (#[trigger] g[j]).0,
            (#[trigger] g[i]).0,
        ) by {
            assert(g[i] == h[i]);
            if j < h.len() {
                assert(g[j] == h[j]);
            } else if h[i] == x {
                text::lemma_before_total(x.0, f.last().0);
            } else {
                let k = choose|k: int| 0 <= k < less.len() && less[k] == h[i];
                assert(f[k] == h[i]);
            }
        }
    } else {
        assert(g =~= f.push(x));
        assert forall|i: int| 0 <= i < g.len() implies (#[trigger] g[i]) == x || f.contains(
            g[i],
        ) by {
            if i < f.len() {
                assert(f[i] == g[i]);
            }
        }
        assert forall|i: int, j: int| 0 <= i < j < g.len() implies !text::before(
            (#[trigger] g[j]).0,
            (#[trigger] g[i]).0,
        ) by {
            if j < f.len() {
                assert(g[j] == f[j] && g[i] == f[i]);
            } else {
                let last = f.last();
                if text::before(x.0, f[i].0) {
                    text::lemma_before_total(f[i].0, last.0);
                    assert(i < f.len() - 1 ==> !text::before(f[f.len() - 1].0, f[i].0));
                    if f[i].0 != last.0 {
                        text::lemma_before_transitive(x.0, f[i].0, last.0);
                    }
                }
            }
        }
    }
}

/// The fields are written in the order of their names.
pub proof fn law_sorted_is_ordered(f: Seq<(Seq<char>, Seq<char>)>)
    ensures
        ordered(wire::sorted(f)),
    decreases f.len(),
{
    if f.len() > 0 {
        law_sorted_is_ordered(f.drop_last());
        lemma_inserted_ordered(wire::sorted(f.drop_last()), f.last());
    }
}

proof fn lemma_sorted_twice(f: Seq<(Seq<char>, Seq<char>)>)
    requires
        ordered(f),
    ensures
        wire::sorted(f) == f,
    decreases f.len(),
{
    if f.len() > 0 {
        let less = f.drop_last();
        assert(ordered(less)) by {
            assert forall|i: int, j: int| 0 <= i < j < less.len() implies !text::before(
                (#[trigger] less[j]).0,
                (#[trigger] less[i]).0,
            ) by {
                assert(!text::before(f[j].0, f[i].0));
            }
        }
        lemma_sorted_twice(less);
        if less.len() > 0 {
            assert(!text::before(f[f.len() - 1].0, f[f.len() - 2].0));
            assert(less.last() == f[f.len() - 2]);
        }
        assert(less.push(f.last()) =~= f);
    } else {
        assert(f =~= seq![]);
    }
}

/// No field of that name.
pub open spec fn lacks(f: Seq<(Seq<char>, Seq<char>)>, key: Seq<char>) -> bool {
    forall|i: int| 0 <= i < f.len() ==> !text::same_text((#[trigger] f[i]).0, key)
}

proof fn lemma_without_lacks(f: Seq<(Seq<char>, Seq<char>)>, key: Seq<char>)
    ensures
        lacks(header::without(f, key), key),
    decreases f.len(),
{
    if f.len() > 0 {
        lemma_without_lacks(f.drop_last(), key);
    }
}

proof fn lemma_sorted_lacks(f: Seq<(Seq<char>, Seq<char>)>, key: Seq<char>)
    requires
        lacks(f, key),
    ensures
        lacks(wire::sorted(f), key),
    decreases f.len(),
{
    if f.len() > 0 {
        let less = f.drop_last();
        assert(lacks(less, key)) by {
            assert forall|i: int| 0 <= i < less.len() implies !text::same_text(
                (#[trigger] less[i]).0,
                key,
            ) by {
                assert(!text::same_text(f[i].0, key));
            }
        }
        lemma_sorted_lacks(less, key);
        law_sorted_is_ordered(less);
        lemma_inserted_ordered(wire::sorted(less), f.last());
        let g = wire::sorted(f);
        assert forall|i: int| 0 <= i < g.len() implies !text::same_text((#[trigger] g[i]).0, key) by {
            assert(!text::same_text(f[f.len() - 1].0, key));
        }
    }
}

proof fn lemma_without_front(x: (Seq<char>, Seq<char>), f: Seq<(Seq<char>, Seq<char>)>, key: Seq<char>)
    requires
        text::same_text(x.0, key),
        lacks(f, key),
    ensures
        header::without(seq![x] + f, key) == f,
    decreases f.len(),
{
    let g = seq![x] + f;
    reveal_with_fuel(header::without, 2);
    if f.len() == 0 {
        assert(g.drop_last() =~= seq![]);
        assert(f =~= seq![]);
    } else {
        assert(!text::same_text(f[f.len() - 1].0, key));
        assert(g.drop_last() =~= seq![x] + f.drop_last());
        assert(lacks(f.drop_last(), key)) by {
            assert forall|i: int| 0 <= i < f.drop_last().len() implies !text::same_text(
                (#[trigger] f.drop_last()[i]).0,
                key,
            ) by {
                assert(!text::same_text(f[i].0, key));
            }
        }
        lemma_without_front(x, f.drop_last(), key);
        assert(f.drop_last().push(f.last()) =~= f);
    }
}

proof fn lemma_lines_trimmed(f: Seq<(Seq<char>, Seq<char>)>)
    ensures
        wire::field_lines(trimmed_fields(f)) == wire::field_lines(f),
    decreases f.len(),
{
    if f.len() > 0 {
        lemma_lines_trimmed(f.drop_first());
        text::lemma_trimmed_ends(f[0].1, Class::Space);
        assert(trimmed_fields(f).drop_first() =~= trimmed_fields(f.drop_first()));
    } else {
        assert(trimmed_fields(f) =~= f);
    }
}

/// The names of attachments are not written with them.
proof fn lemma_sections_alike(a: Seq<(Seq<char>, Seq<u8>)>, b: Seq<(Seq<char>, Seq<u8>)>)
    requires
        a.len() == b.len(),
        forall|i: int| 0 <= i < a.len() ==> (#[trigger] a[i]).1 == b[i].1,
    ensures
        wire::file_sections(a) == wire::file_sections(b),
    decreases a.len(),
{
    if a.len() > 0 {
        assert(a[0].1 == b[0].1);
        lemma_sections_alike(a.drop_first(), b.drop_first());
    }
}

/// What arrived is written again just as it was.
pub proof fn law_written_again(m: MessageView)
    ensures
        wire::written(received(m)) == wire::written(m),
        wire::written(arrived(m)) == wire::written(m),
{
    lemma_sections_alike(arrived(m).files, m.files);
    let rest = header::without(m.fields, "Mid"@);
    let f = wire::sorted(rest);
    let g = trimmed_fields(f);
    lemma_without_lacks(m.fields, "Mid"@);
    lemma_sorted_lacks(rest, "Mid"@);
    assert(lacks(g, "Mid"@)) by {
        assert forall|i: int| 0 <= i < g.len() implies !text::same_text(
            (#[trigger] g[i]).0,
            "Mid"@,
        ) by {
            assert(!text::same_text(f[i].0, "Mid"@));
        }
    }
    lemma_without_front(("Mid"@, wire::mid_of(m)), g, "Mid"@);
    law_sorted_is_ordered(rest);
    assert(ordered(g)) by {
        assert forall|i: int, j: int| 0 <= i < j < g.len() implies !text::before(
            (#[trigger] g[j]).0,
            (#[trigger] g[i]).0,
        ) by {
            assert(!text::before(f[j].0, f[i].0));
        }
    }
    lemma_sorted_twice(g);
    lemma_lines_trimmed(f);
    lemma_received_mid(m);
}

} // verus!

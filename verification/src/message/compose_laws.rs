//! Laws of composed messages: what is composed arrives.

use vstd::prelude::*;
use vstd::utf8::*;

use crate::charset;
use crate::date;
use crate::message;
use crate::message::address;
use crate::message::body;
use crate::message::header;
use crate::message::laws;
use crate::message::laws::{all_fields, arrived, framed, is_field, one_line, received, sendable};
use crate::message::wire;
use crate::message::{Draft, DraftView, MessageView};
use crate::text;
use crate::text::Class;
use crate::unicode;

verus! {

// ---------------------------------------------------------------------
// Field names

/// A field name as the header holds it.
pub open spec fn is_name(key: Seq<char>) -> bool {
    &&& key.len() >= 2
    &&& text::trim(key) == key
    &&& header::canonical(key) == key
    &&& text::free_of(key, Class::Two(':', '\n'))
}

/// What tells the field names apart: length and second letter.
pub open spec fn mark(key: Seq<char>) -> (nat, char) {
    (key.len(), text::lower_char(key[1]))
}

proof fn lemma_marks(a: Seq<char>, b: Seq<char>)
    requires
        a.len() >= 2,
        mark(a) != mark(b),
    ensures
        !text::same_text(a, b),
{
    if text::same_text(a, b) {
        assert(text::ascii_lower(a).len() == text::ascii_lower(b).len());
        assert(text::ascii_lower(a)[1] == text::ascii_lower(b)[1]);
    }
}

proof fn lemma_is_name(key: Seq<char>)
    requires
        key.len() >= 2,
        !text::is_space(key[0]),
        !text::is_space(key.last()),
        forall|i: int|
            0 <= i < key.len() ==> {
                &&& #[trigger] key[i] != ':'
                &&& key[i] != '\n'
                &&& key[i] == (if i == 0 || key[i - 1] == '-' {
                    unicode::upper_char(key[i])
                } else {
                    text::lower_char(key[i])
                })
            },
    ensures
        is_name(key),
{
    text::lemma_trim_id(key, Class::Space);
    assert(header::canonical(key) =~= key);
}

proof fn lemma_short_names()
    ensures
        is_name("Mid"@) && mark("Mid"@) == (3nat, 'i'),
        is_name("Mbo"@) && mark("Mbo"@) == (3nat, 'b'),
        is_name("Date"@) && mark("Date"@) == (4nat, 'a'),
        is_name("Type"@) && mark("Type"@) == (4nat, 'y'),
        is_name("From"@) && mark("From"@) == (4nat, 'r'),
        is_name("Body"@) && mark("Body"@) == (4nat, 'o'),
        is_name("File"@) && mark("File"@) == (4nat, 'i'),
        is_name("To"@) && mark("To"@) == (2nat, 'o'),
        is_name("Cc"@) && mark("Cc"@) == (2nat, 'c'),
{
    reveal_strlit("Mid");
    reveal_strlit("Mbo");
    reveal_strlit("Date");
    reveal_strlit("Type");
    reveal_strlit("From");
    reveal_strlit("Body");
    reveal_strlit("File");
    reveal_strlit("To");
    reveal_strlit("Cc");
    lemma_is_name("Mid"@);
    lemma_is_name("Mbo"@);
    lemma_is_name("Date"@);
    lemma_is_name("Type"@);
    lemma_is_name("From"@);
    lemma_is_name("Body"@);
    lemma_is_name("File"@);
    lemma_is_name("To"@);
    lemma_is_name("Cc"@);
}

proof fn lemma_long_names()
    ensures
        is_name("Subject"@) && mark("Subject"@) == (7nat, 'u'),
        is_name("Content-Type"@) && mark("Content-Type"@) == (12nat, 'o'),
        is_name("Content-Transfer-Encoding"@) && mark("Content-Transfer-Encoding"@) == (
            25nat,
            'o',
        ),
{
    reveal_strlit("Subject");
    reveal_strlit("Content-Type");
    reveal_strlit("Content-Transfer-Encoding");
    lemma_is_name("Subject"@);
    lemma_is_name("Content-Type"@);
    lemma_is_name("Content-Transfer-Encoding"@);
}

// ---------------------------------------------------------------------
// Building the header

proof fn lemma_fields_part(f: Seq<(Seq<char>, Seq<char>)>, key: Seq<char>)
    requires
        all_fields(f),
    ensures
        all_fields(header::without(f, key)),
    decreases f.len(),
{
    if f.len() > 0 {
        let less = f.drop_last();
        assert(all_fields(less)) by {
            assert forall|i: int| 0 <= i < less.len() implies is_field(#[trigger] less[i]) by {
                assert(is_field(f[i]));
            }
        }
        lemma_fields_part(less, key);
        let g = header::without(less, key);
        assert(is_field(f[f.len() - 1]));
        assert forall|i: int| 0 <= i < g.push(f.last()).len() implies is_field(
            #[trigger] g.push(f.last())[i],
        ) by {
            if i < g.len() {
                assert(is_field(g[i]));
            }
        }
    }
}

proof fn lemma_fields_more(f: Seq<(Seq<char>, Seq<char>)>, key: Seq<char>, value: Seq<char>)
    requires
        all_fields(f),
        is_name(key),
        one_line(text::trim(value)),
    ensures
        all_fields(header::with_field(f, key, value)),
{
    let g = header::with_field(f, key, value);
    assert forall|i: int| 0 <= i < g.len() implies is_field(#[trigger] g[i]) by {
        if i < f.len() {
            assert(is_field(f[i]));
        }
    }
}

/// Setting a value: what is held afterwards.
proof fn lemma_set(
    f: Seq<(Seq<char>, Seq<char>)>,
    key: Seq<char>,
    value: Seq<char>,
    asked: Seq<char>,
)
    requires
        all_fields(f),
        is_name(key),
        is_name(asked),
        key == asked || mark(key) != mark(asked),
        one_line(value) || one_line(text::trim(value)),
    ensures
        all_fields(header::with_value(f, key, value)),
        header::values_of(header::with_value(f, key, value), asked) == if key == asked {
            seq![value]
        } else {
            header::values_of(f, asked)
        },
{
    if one_line(value) {
        lemma_one_line_trim(value);
    }
    lemma_fields_part(f, key);
    lemma_fields_more(header::without(f, key), key, value);
    if key == asked {
        header::law_set_get(f, key, value, asked);
    } else {
        lemma_marks(key, asked);
        header::law_set_keeps_others(f, key, value, asked);
    }
}

proof fn lemma_add_all(
    f: Seq<(Seq<char>, Seq<char>)>,
    key: Seq<char>,
    values: Seq<Seq<char>>,
    asked: Seq<char>,
)
    requires
        all_fields(f),
        is_name(key),
        is_name(asked),
        key == asked || mark(key) != mark(asked),
        forall|i: int| 0 <= i < values.len() ==> one_line(#[trigger] values[i]),
    ensures
        all_fields(message::with_all(f, key, values)),
        header::values_of(message::with_all(f, key, values), asked) == if key == asked {
            header::values_of(f, asked) + values
        } else {
            header::values_of(f, asked)
        },
    decreases values.len(),
{
    if values.len() == 0 {
        assert(values =~= seq![]);
        assert(header::values_of(f, asked) + values =~= header::values_of(f, asked));
    } else {
        let less = values.drop_last();
        let v = values.last();
        assert forall|i: int| 0 <= i < less.len() implies one_line(#[trigger] less[i]) by {
            assert(one_line(values[i]));
        }
        assert(one_line(values[values.len() - 1]));
        lemma_add_all(f, key, less, asked);
        let g = message::with_all(f, key, less);
        lemma_one_line_trim(v);
        lemma_fields_more(g, key, v);
        assert(header::with_field(g, key, v).drop_last() =~= g);
        if key == asked {
            assert(header::values_of(f, asked) + values =~= (header::values_of(f, asked)
                + less).push(v));
        } else {
            lemma_marks(key, asked);
        }
    }
}

pub proof fn lemma_one_line_trim(s: Seq<char>)
    requires
        one_line(s),
    ensures
        one_line(text::trim(s)),
{
    let t = text::trim(s);
    text::lemma_trimmed_ends(s, Class::Space);
    assert forall|i: int| 0 <= i < t.len() implies !text::is_in(
        Class::One('\n'),
        #[trigger] t[i],
    ) by {
        assert(s.contains(t[i]));
        let k = choose|k: int| 0 <= k < s.len() && s[k] == t[i];
        assert(!text::is_in(Class::One('\n'), s[k]));
    }
}

proof fn lemma_plain_one_line(s: Seq<char>)
    requires
        charset::is_plain(s),
    ensures
        one_line(s),
{
}

proof fn lemma_file_values_one_line(files: Seq<(Seq<char>, Seq<u8>)>)
    ensures
        forall|i: int|
            0 <= i < files.len() ==> one_line(#[trigger] message::file_values(files)[i]),
{
    reveal_strlit(" ");
    assert forall|i: int| 0 <= i < files.len() implies one_line(
        #[trigger] message::file_values(files)[i],
    ) by {
        let n = body::sanitized(files[i].0);
        charset::law_header_is_plain(n);
        lemma_plain_one_line(charset::encoded_header(n));
        text::lemma_decimal(files[i].1.len());
    }
}

/// The ID and the sender of a draft take one line each.
pub open spec fn one_line_draft(d: DraftView) -> bool {
    one_line(text::trim(d.mid)) && one_line(text::trim(d.from))
}

/// The sizes of a draft are numbers that a header can give.
pub open spec fn sizes_fit(d: DraftView) -> bool {
    &&& charset::encoded_text(body::normalized_body(d.body)).len() <= usize::MAX
    &&& forall|i: int| 0 <= i < d.files.len() ==> (#[trigger] d.files[i]).1.len() <= usize::MAX
}

/// Every value that the draft itself gives takes one line.
spec fn one_line_values(d: DraftView, to: Seq<Seq<char>>, cc: Seq<Seq<char>>) -> bool {
    &&& one_line(text::trim(d.mid))
    &&& one_line(unicode::upper(text::trim(d.from)))
    &&& forall|i: int| 0 <= i < to.len() ==> one_line(#[trigger] to[i])
    &&& forall|i: int| 0 <= i < cc.len() ==> one_line(#[trigger] cc[i])
}

/// What a draft's header holds under these names.
pub open spec fn expected(d: DraftView, to: Seq<Seq<char>>, cc: Seq<Seq<char>>, asked: Seq<char>) -> Seq<
    Seq<char>,
> {
    let text = body::normalized_body(d.body);
    if asked == "Mid"@ {
        seq![d.mid]
    } else if asked == "Date"@ {
        seq![date::formatted(d.date)]
    } else if asked == "From"@ {
        seq![unicode::upper(text::trim(d.from))]
    } else if asked == "To"@ {
        to
    } else if asked == "Cc"@ {
        cc
    } else if asked == "Subject"@ {
        seq![charset::encoded_header(text::trim(d.subject))]
    } else if asked == "Content-Type"@ {
        seq!["text/plain; charset="@ + charset::text_charset(text)]
    } else if asked == "Body"@ {
        seq![text::decimal(charset::encoded_text(text).len())]
    } else if asked == "File"@ {
        message::file_values(d.files)
    } else if asked == "Type"@ {
        seq!["Private"@]
    } else if asked == "Mbo"@ {
        seq![unicode::upper(text::trim(d.from))]
    } else {
        seq!["8bit"@]
    }
}

#[verifier::spinoff_prover]
#[verifier::rlimit(60)]
proof fn lemma_drafted(d: DraftView, to: Seq<Seq<char>>, cc: Seq<Seq<char>>, asked: Seq<char>)
    requires
        one_line_values(d, to, cc),
        asked == "Mid"@ || asked == "Date"@ || asked == "From"@ || asked == "To"@ || asked == "Cc"@
            || asked == "Subject"@ || asked == "Content-Type"@ || asked == "Body"@ || asked
            == "File"@ || asked == "Type"@ || asked == "Mbo"@ || asked
            == "Content-Transfer-Encoding"@,
    ensures
        all_fields(message::drafted(d, to, cc).fields),
        header::values_of(message::drafted(d, to, cc).fields, asked) == expected(d, to, cc, asked),
{
    lemma_short_names();
    lemma_long_names();
    let text = body::normalized_body(d.body);
    let from = unicode::upper(text::trim(d.from));
    let subject = charset::encoded_header(text::trim(d.subject));
    let kind = "text/plain; charset="@ + charset::text_charset(text);
    let size = text::decimal(charset::encoded_text(text).len());
    let e = Seq::<(Seq<char>, Seq<char>)>::empty();
    lemma_fixed_values(d, text);
    let f1 = header::with_value(e, "Mid"@, d.mid);
    let f2 = header::with_value(f1, "Date"@, date::formatted(d.date));
    let f3 = header::with_value(f2, "Type"@, "Private"@);
    let f4 = header::with_value(f3, "From"@, from);
    let f5 = header::with_value(f4, "Mbo"@, from);
    let f6 = message::with_all(f5, "To"@, to);
    let f7 = message::with_all(f6, "Cc"@, cc);
    let f8 = header::with_value(f7, "Subject"@, subject);
    let f9 = header::with_value(f8, "Content-Type"@, kind);
    let f10 = header::with_value(f9, "Content-Transfer-Encoding"@, "8bit"@);
    let f11 = header::with_value(f10, "Body"@, size);
    assert(all_fields(e));
    assert(header::values_of(e, asked) == Seq::<Seq<char>>::empty());
    lemma_set(e, "Mid"@, d.mid, asked);
    lemma_set(f1, "Date"@, date::formatted(d.date), asked);
    lemma_set(f2, "Type"@, "Private"@, asked);
    lemma_set(f3, "From"@, from, asked);
    lemma_set(f4, "Mbo"@, from, asked);
    lemma_add_all(f5, "To"@, to, asked);
    lemma_add_all(f6, "Cc"@, cc, asked);
    lemma_set(f7, "Subject"@, subject, asked);
    lemma_set(f8, "Content-Type"@, kind, asked);
    lemma_set(f9, "Content-Transfer-Encoding"@, "8bit"@, asked);
    lemma_set(f10, "Body"@, size, asked);
    lemma_file_values_one_line(d.files);
    lemma_add_all(f11, "File"@, message::file_values(d.files), asked);
    assert(header::values_of(message::drafted(d, to, cc).fields, asked) =~= expected(
        d,
        to,
        cc,
        asked,
    ));
}

/// The values that a draft's header is filled with take one line each.
proof fn lemma_fixed_values(d: DraftView, text: Seq<char>)
    ensures
        one_line(date::formatted(d.date)),
        one_line("Private"@),
        one_line("8bit"@),
        one_line(charset::encoded_header(text::trim(d.subject))),
        one_line("text/plain; charset="@ + charset::text_charset(text)),
        one_line(text::decimal(charset::encoded_text(text).len())),
{
    reveal_strlit("Private");
    reveal_strlit("8bit");
    reveal_strlit("text/plain; charset=");
    reveal_strlit("ISO-8859-1");
    reveal_strlit("UTF-8");
    charset::law_header_is_plain(text::trim(d.subject));
    lemma_plain_one_line(charset::encoded_header(text::trim(d.subject)));
    text::lemma_decimal(charset::encoded_text(text).len());
    date::lemma_formatted_plain(d.date);
}

// ---------------------------------------------------------------------
// Attachment names

/// A name that arrives as it is sent: no white space is left in front of it,
/// and it is not sent as it is with an encoded word in it.
pub open spec fn is_sendable_name(name: Seq<char>) -> bool {
    let n = body::sanitized(name);
    &&& !text::is_space(n[0])
    &&& charset::is_plain(n) ==> !charset::holds_word(n)
}

proof fn lemma_sanitized_twice(name: Seq<char>)
    requires
        !text::is_space(body::sanitized(name)[0]),
    ensures
        body::sanitized(body::sanitized(name)) == body::sanitized(name),
{
    let n = body::sanitized(name);
    body::law_sanitized(name);
    text::lemma_after_last(n, Class::Two('/', '\\'), 0);
    assert(n.skip(0) =~= n);
    body::lemma_no_controls(n);
    text::lemma_trim_id(n, Class::Space);
    text::lemma_leading_is(n, Class::One('.'), 0);
}

/// An encoded header value has white space at an end only if the value has.
proof fn lemma_encoded_ends(s: Seq<char>)
    requires
        s.len() > 0,
        !text::is_space(s.last()),
    ensures
        charset::encoded_header(s).len() > 0,
        !text::is_space(s[0]) ==> !text::is_space(charset::encoded_header(s)[0]),
        !text::is_space(charset::encoded_header(s).last()),
{
    if !charset::is_plain(s) {
        charset::lemma_words_ends(s);
    }
}

/// The parts of a `File` value.
proof fn lemma_file_value(file: (Seq<char>, Seq<u8>))
    requires
        file.1.len() <= usize::MAX,
    ensures
        text::split_once(text::trim(message::file_value(file)), Class::One(' ')) == Some(
            (text::decimal(file.1.len()), charset::encoded_header(body::sanitized(file.0))),
        ),
        laws::announces_size(message::file_value(file), file.1.len()),
{
    reveal_strlit(" ");
    let n = body::sanitized(file.0);
    let enc = charset::encoded_header(n);
    let size = text::decimal(file.1.len());
    let value = message::file_value(file);
    body::law_sanitized(file.0);
    lemma_encoded_ends(n);
    text::lemma_decimal(file.1.len());
    text::lemma_parse_decimal(file.1.len(), usize::MAX as nat);
    assert(value =~= size + seq![' '] + enc);
    assert(value[0] == size[0]);
    assert(value.last() == enc.last());
    text::lemma_trim_id(value, Class::Space);
    assert(text::free_of(size, Class::One(' ')));
    text::lemma_split_at(size, ' ', enc, Class::One(' '));
}

proof fn lemma_announced(file: (Seq<char>, Seq<u8>))
    requires
        is_sendable_name(file.0),
        file.1.len() <= usize::MAX,
    ensures
        laws::announces(message::file_value(file), (body::sanitized(file.0), file.1)),
{
    let n = body::sanitized(file.0);
    let enc = charset::encoded_header(n);
    lemma_file_value(file);
    body::law_sanitized(file.0);
    lemma_encoded_ends(n);
    text::lemma_trim_id(enc, Class::Space);
    charset::law_header_roundtrip(n);
    lemma_sanitized_twice(file.0);
}

// ---------------------------------------------------------------------
// Laws

/// The message that a draft makes.
pub open spec fn made(d: DraftView) -> MessageView {
    (message::composed(d)->Ok_0).0
}

proof fn lemma_made(d: DraftView)
    requires
        message::composed(d) is Ok,
        one_line_draft(d),
    ensures
        address::addresses(d.to) is Ok,
        address::addresses(d.cc) is Ok,
        made(d) == message::drafted(
            d,
            address::addresses(d.to)->Ok_0,
            address::addresses(d.cc)->Ok_0,
        ),
        one_line_values(d, address::addresses(d.to)->Ok_0, address::addresses(d.cc)->Ok_0),
{
    law_addresses_one_line(d.to);
    law_addresses_one_line(d.cc);
    lemma_upper_one_line(text::trim(d.from));
}

proof fn lemma_framed(d: DraftView)
    requires
        message::composed(d) is Ok,
        one_line_draft(d),
        sizes_fit(d),
    ensures
        framed(made(d)),
        header::values_of(made(d).fields, "File"@) == message::file_values(d.files),
{
    lemma_made(d);
    let (to, cc) = (address::addresses(d.to)->Ok_0, address::addresses(d.cc)->Ok_0);
    let m = made(d);
    lemma_short_names();
    lemma_drafted(d, to, cc, "Mid"@);
    lemma_drafted(d, to, cc, "Body"@);
    lemma_drafted(d, to, cc, "File"@);
    lemma_names_apart();
    header::lemma_value_of_first(m.fields, "Mid"@);
    header::lemma_value_of_first(m.fields, "Body"@);
    lemma_fields_part(m.fields, "Mid"@);
    let size = text::decimal(m.body.len());
    text::lemma_decimal(m.body.len());
    text::lemma_trim_id(size, Class::Space);
    text::lemma_parse_decimal(m.body.len(), usize::MAX as nat);
    let values = header::values_of(m.fields, "File"@);
    assert(values == message::file_values(d.files));
    assert forall|i: int| 0 <= i < values.len() implies laws::announces_size(
        #[trigger] values[i],
        m.files[i].1.len(),
    ) by {
        assert(d.files[i].1.len() <= usize::MAX);
        lemma_file_value(d.files[i]);
    }
}

/// What is composed can be sent, and is read back: the header agrees with
/// body and attachments.
pub proof fn law_composed_is_sendable(d: DraftView)
    requires
        message::composed(d) is Ok,
        one_line_draft(d),
        sizes_fit(d),
        forall|i: int| 0 <= i < d.files.len() ==> is_sendable_name((#[trigger] d.files[i]).0),
    ensures
        sendable(made(d)),
{
    lemma_made(d);
    lemma_framed(d);
    let m = made(d);
    let values = header::values_of(m.fields, "File"@);
    assert forall|i: int| 0 <= i < values.len() implies laws::announces(
        #[trigger] values[i],
        m.files[i],
    ) by {
        assert(is_sendable_name(d.files[i].0));
        assert(d.files[i].1.len() <= usize::MAX);
        lemma_announced(d.files[i]);
    }
}

/// Whatever the attachments and the subject are called, what was composed is
/// read back: ID, recipients, body and body text, and the data of the
/// attachments in order; and what was read is written again just as it was.
/// The ID stands in the first line, the other fields follow by name.
pub proof fn law_composed_reads_back(d: DraftView)
    requires
        message::composed(d) is Ok,
        one_line_draft(d),
        sizes_fit(d),
    ensures
        ({
            let m = made(d);
            let back = arrived(m);
            &&& wire::read(wire::written(m)) == Ok::<_, Seq<char>>(back)
            &&& wire::written(back) == wire::written(m)
            &&& wire::mid_of(back) == text::trim(d.mid)
            &&& message::to_of(back) == message::trimmed_all(address::addresses(d.to)->Ok_0)
            &&& message::cc_of(back) == message::trimmed_all(address::addresses(d.cc)->Ok_0)
            &&& back.body == m.body
            &&& message::body_text_of(back) == body::normalized_body(d.body)
            &&& back.files.len() == d.files.len()
            &&& forall|i: int|
                0 <= i < back.files.len() ==> (#[trigger] back.files[i]).1 == d.files[i].1
            &&& encode_utf8("Mid: "@ + text::trim(d.mid) + "\r\n"@).is_prefix_of(
                wire::written(m),
            )
            &&& laws::ordered(wire::sorted(header::without(m.fields, "Mid"@)))
        }),
{
    let m = made(d);
    lemma_made(d);
    let (to, cc) = (address::addresses(d.to)->Ok_0, address::addresses(d.cc)->Ok_0);
    lemma_framed(d);
    laws::law_framed_roundtrip(m);
    laws::law_written_again(m);
    laws::law_received_parts(m);
    laws::law_sorted_is_ordered(header::without(m.fields, "Mid"@));
    lemma_names_apart();
    lemma_drafted(d, to, cc, "Mid"@);
    lemma_drafted(d, to, cc, "To"@);
    lemma_drafted(d, to, cc, "Cc"@);
    header::lemma_value_of_first(m.fields, "Mid"@);
    lemma_text_arrives(d, to, cc);
}

proof fn lemma_names_apart()
    ensures
        ({
            let a = "Mid"@;
            let b = "Date"@;
            let c = "From"@;
            let d = "To"@;
            let e = "Cc"@;
            let f = "Subject"@;
            let g = "Content-Type"@;
            let h = "Body"@;
            let i = "File"@;
            &&& a != b && a != c && a != d && a != e && a != f && a != g && a != h && a != i
            &&& b != c && b != d && b != e && b != f && b != g && b != h && b != i
            &&& c != d && c != e && c != f && c != g && c != h && c != i
            &&& d != e && d != f && d != g && d != h && d != i
            &&& e != f && e != g && e != h && e != i
            &&& f != g && f != h && f != i
            &&& g != h && g != i
            &&& h != i
        }),
{
    lemma_short_names();
    lemma_long_names();
}

/// Every address takes one line.
pub proof fn law_addresses_one_line(items: Seq<Seq<char>>)
    ensures
        address::addresses(items) matches Ok(v) ==> forall|i: int|
            0 <= i < v.len() ==> one_line(#[trigger] v[i]),
{
    lemma_gathered_one_line(address::list_parts(items));
}

proof fn lemma_gathered_one_line(parts: Seq<Seq<char>>)
    ensures
        address::gathered(parts) matches Ok(v) ==> forall|i: int|
            0 <= i < v.len() ==> one_line(#[trigger] v[i]),
    decreases parts.len(),
{
    if parts.len() > 0 {
        lemma_gathered_one_line(parts.drop_last());
        lemma_normalized_one_line(parts.last());
    }
}

proof fn lemma_normalized_one_line(given: Seq<char>)
    ensures
        address::normalized(given) matches Ok(a) ==> one_line(a),
{
    reveal_strlit("SMTP:");
    let addr = text::trim_both(text::trim(given), Class::Two('<', '>'));
    if address::is_compact(addr) {
        assert(one_line(addr)) by {
            assert forall|i: int| 0 <= i < addr.len() implies !text::is_in(
                Class::One('\n'),
                #[trigger] addr[i],
            ) by {
                assert(!text::is_space(addr[i]));
            }
        }
        text::lemma_first(addr, Class::One('@'));
        text::lemma_first(addr, Class::One(':'));
        lemma_upper_one_line(addr);
        if let Some((local, domain)) = text::split_once(addr, Class::One('@')) {
            assert(one_line(local));
            lemma_upper_one_line(local);
        }
        if let Some((proto, rest)) = text::split_once(addr, Class::One(':')) {
            assert(one_line(rest)) by {
                assert forall|i: int| 0 <= i < rest.len() implies !text::is_in(
                    Class::One('\n'),
                    #[trigger] rest[i],
                ) by {
                    assert(rest[i] == addr[i + text::first(addr, Class::One(':')) + 1]);
                }
            }
        }
    }
}

proof fn lemma_upper_one_line(s: Seq<char>)
    requires
        one_line(s),
    ensures
        one_line(unicode::upper(s)),
{
    assert(unicode::is_unbroken(s)) by {
        assert forall|i: int| 0 <= i < s.len() implies #[trigger] s[i] != '\n' by {
            assert(!text::is_in(Class::One('\n'), s[i]));
        }
    }
    unicode::law_upper_is_unbroken(s);
}

/// The header of what is composed, name by name: every address that was given
/// under To stands there as `To` and every one under Cc as `Cc`, in order; the
/// sender, the date and the subject are those that were given; and the sizes
/// of the body and of each attachment, with its name, are theirs.
pub proof fn law_header_is_what_was_given(d: DraftView)
    requires
        message::composed(d) is Ok,
        one_line_draft(d),
    ensures
        ({
            let f = made(d).fields;
            &&& header::values_of(f, "Mid"@) == seq![d.mid]
            &&& header::values_of(f, "From"@) == seq![unicode::upper(text::trim(d.from))]
            &&& address::addresses(d.to) == Ok::<_, Seq<char>>(header::values_of(f, "To"@))
            &&& address::addresses(d.cc) == Ok::<_, Seq<char>>(header::values_of(f, "Cc"@))
            &&& header::values_of(f, "Date"@) == seq![date::formatted(d.date)]
            &&& header::values_of(f, "Subject"@) == seq![
                charset::encoded_header(text::trim(d.subject)),
            ]
            &&& header::values_of(f, "Body"@) == seq![text::decimal(made(d).body.len())]
            &&& header::values_of(f, "File"@).len() == d.files.len()
            &&& forall|i: int|
                0 <= i < d.files.len() ==> #[trigger] header::values_of(f, "File"@)[i]
                    == text::decimal(d.files[i].1.len()) + " "@ + charset::encoded_header(
                    body::sanitized(d.files[i].0),
                )
            &&& made(d).files.len() == d.files.len()
            &&& forall|i: int|
                0 <= i < d.files.len() ==> #[trigger] made(d).files[i] == (
                    body::sanitized(d.files[i].0),
                    d.files[i].1,
                )
            &&& made(d).body == charset::encoded_text(body::normalized_body(d.body))
        }),
{
    lemma_made(d);
    let (to, cc) = (address::addresses(d.to)->Ok_0, address::addresses(d.cc)->Ok_0);
    lemma_names_apart();
    lemma_drafted(d, to, cc, "Mid"@);
    lemma_drafted(d, to, cc, "From"@);
    lemma_drafted(d, to, cc, "To"@);
    lemma_drafted(d, to, cc, "Cc"@);
    lemma_drafted(d, to, cc, "Date"@);
    lemma_drafted(d, to, cc, "Subject"@);
    lemma_drafted(d, to, cc, "Body"@);
    lemma_drafted(d, to, cc, "File"@);
    assert forall|i: int| 0 <= i < d.files.len() implies #[trigger] header::values_of(
        made(d).fields,
        "File"@,
    )[i] == text::decimal(d.files[i].1.len()) + " "@ + charset::encoded_header(
        body::sanitized(d.files[i].0),
    ) by {
        assert(message::file_values(d.files)[i] == message::file_value(d.files[i]));
    }
}

/// A composed message is private, comes from the mailbox of its sender, and
/// says in what charset its text is.
#[verifier::spinoff_prover]
#[verifier::rlimit(60)]
pub proof fn law_header_describes_the_message(d: DraftView)
    requires
        message::composed(d) is Ok,
        one_line_draft(d),
    ensures
        ({
            let f = made(d).fields;
            let cs = charset::text_charset(body::normalized_body(d.body));
            &&& header::values_of(f, "Type"@) == seq!["Private"@]
            &&& header::values_of(f, "Mbo"@) == header::values_of(f, "From"@)
            &&& header::values_of(f, "Content-Type"@) == seq!["text/plain; charset="@ + cs]
            &&& header::values_of(f, "Content-Transfer-Encoding"@) == seq!["8bit"@]
        }),
{
    lemma_made(d);
    let (to, cc) = (address::addresses(d.to)->Ok_0, address::addresses(d.cc)->Ok_0);
    lemma_short_names();
    lemma_long_names();
    lemma_drafted(d, to, cc, "From"@);
    lemma_drafted(d, to, cc, "Type"@);
    lemma_drafted(d, to, cc, "Mbo"@);
    lemma_drafted(d, to, cc, "Content-Type"@);
    lemma_drafted(d, to, cc, "Content-Transfer-Encoding"@);
}

/// What is read of a message is what its header says: its ID, sender and date
/// are the first values of these names, and its recipients all values of `To`
/// and of `Cc`, each without white space around it.
pub proof fn law_parts_are_read_by_name(m: MessageView)
    ensures
        ({
            let (t, c) = (header::values_of(m.fields, "To"@), header::values_of(m.fields, "Cc"@));
            &&& message::to_of(m).len() == t.len()
            &&& forall|i: int| 0 <= i < t.len() ==> #[trigger] message::to_of(m)[i] == text::trim(t[i])
            &&& message::cc_of(m).len() == c.len()
            &&& forall|i: int| 0 <= i < c.len() ==> #[trigger] message::cc_of(m)[i] == text::trim(c[i])
            &&& header::values_of(m.fields, "Mid"@).len() > 0 ==> wire::mid_of(m) == text::trim(
                header::values_of(m.fields, "Mid"@)[0],
            )
            &&& header::values_of(m.fields, "From"@).len() > 0 ==> message::from_of(m)
                == text::trim(header::values_of(m.fields, "From"@)[0])
            &&& header::values_of(m.fields, "Date"@).len() > 0 ==> message::date_of(m)
                == text::trim(header::values_of(m.fields, "Date"@)[0])
            &&& header::values_of(m.fields, "Subject"@).len() > 0 ==> message::subject_of(m)
                == charset::decoded_header(header::values_of(m.fields, "Subject"@)[0])
        }),
{
    header::lemma_value_of_first(m.fields, "Mid"@);
    header::lemma_value_of_first(m.fields, "From"@);
    header::lemma_value_of_first(m.fields, "Date"@);
    header::lemma_value_of_first(m.fields, "Subject"@);
}

/// What was composed arrives: recipients, subject, body text and
/// attachments. Where the subject is sent as it is, no encoded word may
/// stand in it.
pub proof fn law_composed_arrives(d: DraftView)
    requires
        message::composed(d) is Ok,
        one_line_draft(d),
        sizes_fit(d),
        forall|i: int| 0 <= i < d.files.len() ==> is_sendable_name((#[trigger] d.files[i]).0),
        charset::is_plain(text::trim(d.subject)) ==> !charset::holds_word(text::trim(d.subject)),
    ensures
        ({
            let m = made(d);
            let back = received(m);
            &&& wire::read(wire::written(m)) == Ok::<_, Seq<char>>(back)
            &&& wire::mid_of(back) == text::trim(d.mid)
            &&& message::to_of(back) == message::trimmed_all(address::addresses(d.to)->Ok_0)
            &&& message::cc_of(back) == message::trimmed_all(address::addresses(d.cc)->Ok_0)
            &&& message::subject_of(back) == text::trim(d.subject)
            &&& message::body_text_of(back) == body::normalized_body(d.body)
            &&& back.files == message::sent_files(d.files)
        }),
{
    lemma_made(d);
    law_composed_is_sendable(d);
    laws::law_message_roundtrip(made(d));
    law_composed_reads_back(d);
    lemma_subject_arrives(d, address::addresses(d.to)->Ok_0, address::addresses(d.cc)->Ok_0);
}

proof fn lemma_subject_arrives(d: DraftView, to: Seq<Seq<char>>, cc: Seq<Seq<char>>)
    requires
        framed(message::drafted(d, to, cc)),
        one_line_values(d, to, cc),
        text::trim(d.subject).len() > 0,
        charset::is_plain(text::trim(d.subject)) ==> !charset::holds_word(text::trim(d.subject)),
    ensures
        message::subject_of(received(message::drafted(d, to, cc))) == text::trim(d.subject),
{
    let m = message::drafted(d, to, cc);
    let back = received(m);
    let subject = text::trim(d.subject);
    lemma_names_apart();
    lemma_drafted(d, to, cc, "Subject"@);
    lemma_short_names();
    lemma_long_names();
    lemma_marks("Mid"@, "Subject"@);
    laws::law_received_values(m, "Subject"@);
    header::lemma_value_of_first(back.fields, "Subject"@);
    text::lemma_trimmed_ends(d.subject, Class::Space);
    lemma_encoded_ends(subject);
    text::lemma_trim_id(charset::encoded_header(subject), Class::Space);
    charset::law_header_roundtrip(subject);
}

proof fn lemma_text_arrives(d: DraftView, to: Seq<Seq<char>>, cc: Seq<Seq<char>>)
    requires
        framed(message::drafted(d, to, cc)),
        one_line_values(d, to, cc),
    ensures
        message::body_text_of(received(message::drafted(d, to, cc))) == body::normalized_body(
            d.body,
        ),
{
    let m = message::drafted(d, to, cc);
    let back = received(m);
    let text = body::normalized_body(d.body);
    lemma_names_apart();
    lemma_drafted(d, to, cc, "Content-Type"@);
    lemma_short_names();
    lemma_long_names();
    lemma_marks("Mid"@, "Content-Type"@);
    laws::law_received_values(m, "Content-Type"@);
    header::lemma_value_of_first(back.fields, "Content-Type"@);
    lemma_content_type(text);
    charset::law_text_roundtrip(text);
}

/// The charset is read back from the content type.
proof fn lemma_content_type(s: Seq<char>)
    ensures
        ({
            let ct = "text/plain; charset="@ + charset::text_charset(s);
            &&& text::trim(ct) == ct
            &&& message::charset_param(text::split(ct, Class::One(';'))) == Some(
                charset::text_charset(s),
            )
        }),
{
    reveal_strlit("text/plain; charset=");
    reveal_strlit("ISO-8859-1");
    reveal_strlit("UTF-8");
    reveal_strlit("text/plain");
    reveal_strlit(" charset=");
    reveal_strlit("charset");
    let cs = charset::text_charset(s);
    let ct = "text/plain; charset="@ + cs;
    text::lemma_trim_id(ct, Class::Space);
    let a = "text/plain"@;
    let b = " charset="@ + cs;
    assert(ct =~= a + seq![';'] + b);
    text::lemma_split_at(a, ';', b, Class::One(';'));
    text::lemma_free_of_first(b, Class::One(';'));
    let parts = text::split(ct, Class::One(';'));
    assert(parts =~= seq![a, b]);
    text::lemma_trim_id(a, Class::Space);
    text::lemma_free_of_first(a, Class::One('='));
    let c = "charset"@ + seq!['='] + cs;
    assert(b =~= seq![' '] + c + Seq::<char>::empty());
    text::lemma_trim_around(seq![' '], c, seq![], Class::Space);
    text::lemma_split_at("charset"@, '=', cs, Class::One('='));
    text::lemma_trim_id("charset"@, Class::Space);
    text::lemma_trim_id(cs, Class::Space);
    text::lemma_trim_id(cs, Class::One('"'));
    assert(parts.drop_first() =~= seq![b]);
    reveal_with_fuel(message::charset_param, 3);
}

/// Nothing of a draft is lost or mixed up in what is made of it: each address
/// line, each attachment, and the rest stand where they were put.
pub proof fn law_draft_is_taken_whole(d: Draft)
    ensures
        d@.from == d.from@ && d@.subject == d.subject@ && d@.body == d.body@ && d@.mid == d.mid@,
        d@.date == d.date,
        d@.to.len() == d.to@.len(),
        forall|i: int| 0 <= i < d.to@.len() ==> #[trigger] d@.to[i] == d.to@[i]@,
        d@.cc.len() == d.cc@.len(),
        forall|i: int| 0 <= i < d.cc@.len() ==> #[trigger] d@.cc[i] == d.cc@[i]@,
        d@.files.len() == d.files@.len(),
        forall|i: int|
            0 <= i < d.files@.len() ==> #[trigger] d@.files[i] == (
                d.files@[i].name@,
                d.files@[i].data@,
            ),
{
}

} // verus!

//! The Winlink message structure (winlink.org/B2F): an ASCII header block,
//! a body of exactly `Body:` bytes, then `File:` attachments in header order.
//! Each section is terminated by CRLF.

use vstd::prelude::*;
use vstd::slice::slice_to_vec;
use vstd::utf8::*;

use crate::charset;
use crate::date;
use crate::text;
use crate::text::Class;
use crate::unicode;

pub mod address;
pub mod body;
pub mod body_laws;
pub mod compose_laws;
pub mod wire;
pub mod header;
pub mod known_ids;
pub mod laws;
pub mod part_laws;

pub use crate::message::address::{display_address, normalize_address, parse_addresses};
pub use crate::message::body::{generate_mid, normalize_body, sanitize_filename, MAX_MID_LEN};
pub use crate::message::wire::MessageView;
pub use crate::message::header::Header;

verus! {

pub const MAX_SUBJECT_LEN: usize = 128;

pub const MAX_FILENAME_LEN: usize = 255;

/// A file sent along with a message.
#[derive(Debug, PartialEq, Eq)]
pub struct Attachment {
    pub name: String,
    pub data: Vec<u8>,
}

impl View for Attachment {
    type V = (Seq<char>, Seq<u8>);

    open spec fn view(&self) -> (Seq<char>, Seq<u8>) {
        (self.name@, self.data@)
    }
}

impl Clone for Attachment {
    fn clone(&self) -> (r: Attachment)
        ensures
            r@ == self@,
    {
        Attachment { name: self.name.clone(), data: slice_to_vec(&self.data) }
    }
}

/// Names and contents of some attachments.
pub open spec fn file_views(files: Seq<Attachment>) -> Seq<(Seq<char>, Seq<u8>)> {
    Seq::new(files.len(), |i: int| files[i]@)
}

pub fn copied_files(files: &[Attachment]) -> (r: Vec<Attachment>)
    ensures
        file_views(r@) == file_views(files@),
{
    let mut out: Vec<Attachment> = Vec::new();
    for i in 0..files.len()
        invariant
            file_views(out@) == file_views(files@).take(i as int),
    {
        let ghost before = file_views(out@);
        out.push(files[i].clone());
        assert(file_views(out@) =~= before.push(files@[i as int]@));
    }
    assert(file_views(files@).take(files@.len() as int) =~= file_views(files@));
    out
}

/// A message: header, body and attachments.
#[derive(Debug, PartialEq, Eq)]
pub struct Message {
    pub header: Header,
    pub body: Vec<u8>,
    pub files: Vec<Attachment>,
}

impl View for Message {
    type V = MessageView;

    open spec fn view(&self) -> MessageView {
        MessageView { fields: self.header@, body: self.body@, files: file_views(self.files@) }
    }
}

impl Clone for Message {
    fn clone(&self) -> (r: Message)
        ensures
            r@ == self@,
    {
        Message {
            header: self.header.clone(),
            body: slice_to_vec(&self.body),
            files: copied_files(&self.files),
        }
    }
}

/// Everything needed to write a new message.
#[derive(Debug)]
pub struct Draft {
    /// Sender callsign (the Winlink account).
    pub from: String,
    pub to: Vec<String>,
    pub cc: Vec<String>,
    pub subject: String,
    pub body: String,
    pub files: Vec<Attachment>,
    /// Unix seconds.
    pub date: i64,
    pub mid: String,
}

/// What a draft holds.
#[verifier::ext_equal]
pub struct DraftView {
    pub from: Seq<char>,
    pub to: Seq<Seq<char>>,
    pub cc: Seq<Seq<char>>,
    pub subject: Seq<char>,
    pub body: Seq<char>,
    pub files: Seq<(Seq<char>, Seq<u8>)>,
    pub date: int,
    pub mid: Seq<char>,
}

impl View for Draft {
    type V = DraftView;

    open spec fn view(&self) -> DraftView {
        DraftView {
            from: self.from@,
            to: text::texts(self.to@),
            cc: text::texts(self.cc@),
            subject: self.subject@,
            body: self.body@,
            files: file_views(self.files@),
            date: self.date as int,
            mid: self.mid@,
        }
    }
}

impl Clone for Draft {
    fn clone(&self) -> (r: Draft)
        ensures
            r@ == self@,
    {
        Draft {
            from: self.from.clone(),
            to: text::copied(&self.to),
            cc: text::copied(&self.cc),
            subject: self.subject.clone(),
            body: self.body.clone(),
            files: copied_files(&self.files),
            date: self.date,
            mid: self.mid.clone(),
        }
    }
}

impl Default for Draft {
    fn default() -> (r: Draft)
        ensures
            r.from@.len() == 0,
            r.to@.len() == 0,
            r.cc@.len() == 0,
            r.subject@.len() == 0,
            r.body@.len() == 0,
            r.files@.len() == 0,
            r.date == 0,
            r.mid@.len() == 0,
    {
        Draft {
            from: String::new(),
            to: Vec::new(),
            cc: Vec::new(),
            subject: String::new(),
            body: String::new(),
            files: Vec::new(),
            date: 0,
            mid: String::new(),
        }
    }
}

// ---------------------------------------------------------------------
// What the parts of a message are

/// The texts without white space around them.
pub open spec fn trimmed_all(v: Seq<Seq<char>>) -> Seq<Seq<char>> {
    Seq::new(v.len(), |i: int| text::trim(v[i]))
}

pub open spec fn to_of(m: MessageView) -> Seq<Seq<char>> {
    trimmed_all(header::values_of(m.fields, "To"@))
}

pub open spec fn cc_of(m: MessageView) -> Seq<Seq<char>> {
    trimmed_all(header::values_of(m.fields, "Cc"@))
}

pub open spec fn from_of(m: MessageView) -> Seq<char> {
    text::trim(header::value_or(m.fields, "From"@, ""@))
}

pub open spec fn date_of(m: MessageView) -> Seq<char> {
    text::trim(header::value_or(m.fields, "Date"@, ""@))
}

pub open spec fn subject_of(m: MessageView) -> Seq<char> {
    charset::decoded_header(header::value_or(m.fields, "Subject"@, ""@))
}

/// The value of the first `charset=` among these parameters.
pub open spec fn charset_param(params: Seq<Seq<char>>) -> Option<Seq<char>>
    decreases params.len(),
{
    if params.len() == 0 {
        None
    } else {
        match text::split_once(text::trim(params[0]), Class::One('=')) {
            Some((k, v)) => if text::same_text(text::trim(k), "charset"@) {
                Some(text::trim_both(text::trim(v), Class::One('"')))
            } else {
                charset_param(params.drop_first())
            },
            None => charset_param(params.drop_first()),
        }
    }
}

/// The charset that the content type names; ISO-8859-1 where it names none.
pub open spec fn charset_of(m: MessageView) -> Seq<char> {
    match header::value_of(m.fields, "Content-Type"@) {
        None => charset::LATIN1@,
        Some(ct) => match charset_param(text::split(ct, Class::One(';'))) {
            Some(cs) => cs,
            None => charset::LATIN1@,
        },
    }
}

pub open spec fn body_text_of(m: MessageView) -> Seq<char> {
    charset::decoded_text(m.body, charset_of(m))
}

/// The first attachment name of those that is too long.
pub open spec fn long_name(files: Seq<(Seq<char>, Seq<u8>)>) -> Option<Seq<char>>
    decreases files.len(),
{
    if files.len() == 0 {
        None
    } else if encode_utf8(files[0].0).len() > MAX_FILENAME_LEN {
        Some(files[0].0)
    } else {
        long_name(files.drop_first())
    }
}

/// What the CMS would not accept of a message.
pub open spec fn fault(m: MessageView) -> Option<Seq<char>> {
    let mid = wire::mid_of(m);
    let subject = header::value_or(m.fields, "Subject"@, ""@);
    let subject_len = encode_utf8(subject).len();
    if mid.len() == 0 {
        Some("message has no MID"@)
    } else if encode_utf8(mid).len() > MAX_MID_LEN {
        Some("MID "@ + mid + " is longer than 12 characters"@)
    } else if to_of(m).len() == 0 && cc_of(m).len() == 0 {
        Some(mid + ": no recipient"@)
    } else if from_of(m).len() == 0 {
        Some(mid + ": empty From"@)
    } else if m.body.len() == 0 {
        Some(mid + ": empty body"@)
    } else if subject.len() == 0 {
        Some(mid + ": empty subject"@)
    } else if subject_len > MAX_SUBJECT_LEN {
        Some(
            mid + ": subject is "@ + text::decimal(subject_len)
                + " bytes on the wire (limit 128); shorten it"@,
        )
    } else {
        match long_name(m.files) {
            Some(name) => Some(mid + ": attachment name too long: "@ + name),
            None => None,
        }
    }
}

// ---------------------------------------------------------------------
// Composing

/// One more field for each value.
pub open spec fn with_all(
    f: Seq<(Seq<char>, Seq<char>)>,
    key: Seq<char>,
    values: Seq<Seq<char>>,
) -> Seq<(Seq<char>, Seq<char>)>
    decreases values.len(),
{
    if values.len() == 0 {
        f
    } else {
        header::with_field(with_all(f, key, values.drop_last()), key, values.last())
    }
}

/// The `File` value of an attachment: size and name.
pub open spec fn file_value(file: (Seq<char>, Seq<u8>)) -> Seq<char> {
    text::decimal(file.1.len()) + " "@ + charset::encoded_header(body::sanitized(file.0))
}

pub open spec fn file_values(files: Seq<(Seq<char>, Seq<u8>)>) -> Seq<Seq<char>> {
    Seq::new(files.len(), |i: int| file_value(files[i]))
}

/// The attachments under the names that they are sent with.
pub open spec fn sent_files(files: Seq<(Seq<char>, Seq<u8>)>) -> Seq<(Seq<char>, Seq<u8>)> {
    Seq::new(files.len(), |i: int| (body::sanitized(files[i].0), files[i].1))
}

/// The first part of the header: who sends what kind of message, and when.
pub open spec fn origin_fields(mid: Seq<char>, date: int, from: Seq<char>) -> Seq<
    (Seq<char>, Seq<char>),
> {
    let f = header::with_value(seq![], "Mid"@, mid);
    let f = header::with_value(f, "Date"@, date::formatted(date));
    let f = header::with_value(f, "Type"@, "Private"@);
    let f = header::with_value(f, "From"@, from);
    header::with_value(f, "Mbo"@, from)
}

/// The header with what describes the content.
pub open spec fn content_fields(
    f: Seq<(Seq<char>, Seq<char>)>,
    subject: Seq<char>,
    body_charset: Seq<char>,
    body_len: nat,
) -> Seq<(Seq<char>, Seq<char>)> {
    let f = header::with_value(f, "Subject"@, charset::encoded_header(subject));
    let f = header::with_value(f, "Content-Type"@, "text/plain; charset="@ + body_charset);
    let f = header::with_value(f, "Content-Transfer-Encoding"@, "8bit"@);
    header::with_value(f, "Body"@, text::decimal(body_len))
}

/// The message that a draft with these addresses makes.
pub open spec fn drafted(d: DraftView, to: Seq<Seq<char>>, cc: Seq<Seq<char>>) -> MessageView {
    let text = body::normalized_body(d.body);
    let content = charset::encoded_text(text);
    let f = origin_fields(d.mid, d.date, unicode::upper(text::trim(d.from)));
    let f = with_all(with_all(f, "To"@, to), "Cc"@, cc);
    let f = content_fields(
        f,
        text::trim(d.subject),
        charset::text_charset(text),
        content.len(),
    );
    MessageView {
        fields: with_all(f, "File"@, file_values(d.files)),
        body: content,
        files: sent_files(d.files),
    }
}

/// The text of the warning about UTF-8.
pub const UTF8_WARNING: &'static str = "text has characters outside Latin-1; it is sent as UTF-8, which some Winlink programs show garbled";

/// The warnings on a draft.
pub open spec fn warnings_on(d: DraftView) -> Seq<Seq<char>> {
    if charset::fits_latin1(body::normalized_body(d.body)) && charset::fits_latin1(
        text::trim(d.subject),
    ) {
        seq![]
    } else {
        seq![UTF8_WARNING@]
    }
}

/// The message that a draft makes, with warnings, or what is wrong with it.
pub open spec fn composed(d: DraftView) -> Result<(MessageView, Seq<Seq<char>>), Seq<char>> {
    if unicode::upper(text::trim(d.from)).len() == 0 {
        Err("sender callsign is empty"@)
    } else {
        match address::addresses(d.to) {
            Err(e) => Err(e),
            Ok(to) => match address::addresses(d.cc) {
                Err(e) => Err(e),
                Ok(cc) => if to.len() == 0 && cc.len() == 0 {
                    Err("add at least one recipient"@)
                } else if text::trim(d.subject).len() == 0 {
                    Err("the subject is empty"@)
                } else {
                    let m = drafted(d, to, cc);
                    match fault(m) {
                        Some(e) => Err(e),
                        None => Ok((m, warnings_on(d))),
                    }
                },
            },
        }
    }
}

fn add_all(header: &mut Header, key: &str, values: &[String])
    ensures
        final(header)@ == with_all(old(header)@, key@, text::texts(values@)),
{
    let ghost all = text::texts(values@);
    assert(all.take(0) =~= seq![]);
    for i in 0..values.len()
        invariant
            all == text::texts(values@),
            header@ == with_all(old(header)@, key@, all.take(i as int)),
    {
        assert(all.take(i + 1).drop_last() =~= all.take(i as int));
        header.add(key, &values[i]);
    }
    assert(all.take(all.len() as int) =~= all);
}

fn send_files(files: &[Attachment]) -> (r: (Vec<Attachment>, Vec<String>))
    ensures
        file_views(r.0@) == sent_files(file_views(files@)),
        text::texts(r.1@) == file_values(file_views(files@)),
{
    let mut out: Vec<Attachment> = Vec::new();
    let mut values: Vec<String> = Vec::new();
    let ghost all = file_views(files@);
    for i in 0..files.len()
        invariant
            all == file_views(files@),
            file_views(out@) == sent_files(all).take(i as int),
            text::texts(values@) == file_values(all).take(i as int),
    {
        let ghost before = (file_views(out@), text::texts(values@));
        let name = sanitize_filename(&files[i].name);
        let value = text::cat3(
            &text::size_text(files[i].data.len()),
            " ",
            &charset::encode_header(&name),
        );
        out.push(Attachment { name, data: slice_to_vec(&files[i].data) });
        values.push(value);
        assert(all[i as int] == files@[i as int]@);
        assert(file_views(out@) =~= before.0.push(sent_files(all)[i as int]));
        assert(text::texts(values@) =~= before.1.push(file_values(all)[i as int]));
    }
    assert(sent_files(all).take(all.len() as int) =~= sent_files(all));
    assert(file_values(all).take(all.len() as int) =~= file_values(all));
    (out, values)
}

fn trimmed_texts(v: &[&str]) -> (r: Vec<String>)
    ensures
        r@.len() == v@.len(),
        forall|i: int| 0 <= i < r@.len() ==> #[trigger] r@[i]@ == text::trim(v@[i]@),
{
    let mut out: Vec<String> = Vec::new();
    for i in 0..v.len()
        invariant
            out@.len() == i,
            forall|j: int| 0 <= j < i ==> #[trigger] out@[j]@ == text::trim(v@[j]@),
    {
        out.push(text::trimmed_str(v[i]).to_owned());
    }
    out
}

impl Message {
    /// Builds a message; returns it with human-readable warnings.
    pub fn compose(draft: Draft) -> (r: Result<(Message, Vec<String>), String>)
        ensures
            match r {
                Ok(p) => composed(draft@) == Ok::<_, Seq<char>>((p.0@, text::texts(p.1@))),
                Err(e) => composed(draft@) == Err::<(MessageView, Seq<Seq<char>>), _>(e@),
            },
    {
        let mut warnings: Vec<String> = Vec::new();
        let from = unicode::to_uppercase(text::trimmed_str(&draft.from));
        if from.as_str().is_empty() {
            return Err("sender callsign is empty".to_owned());
        }
        let to = match parse_addresses(&draft.to) {
            Ok(v) => v,
            Err(e) => {
                return Err(e);
            },
        };
        let cc = match parse_addresses(&draft.cc) {
            Ok(v) => v,
            Err(e) => {
                return Err(e);
            },
        };
        assert(text::texts(to@).len() == to@.len());
        assert(text::texts(cc@).len() == cc@.len());
        if to.len() == 0 && cc.len() == 0 {
            return Err("add at least one recipient".to_owned());
        }
        let subject = text::trimmed_str(&draft.subject);
        if subject.is_empty() {
            return Err("the subject is empty".to_owned());
        }
        let body_text = normalize_body(&draft.body);
        let (body, body_charset) = charset::encode_text(&body_text);
        if !charset::is_latin1(&body_text) || !charset::is_latin1(subject) {
            warnings.push(UTF8_WARNING.to_owned());
        }
        assert(text::texts(warnings@) =~= warnings_on(draft@));

        let mut header = Header::default();
        assert(header@ =~= seq![]);
        header.set("Mid", &draft.mid);
        header.set("Date", &date::format(draft.date));
        header.set("Type", "Private");
        header.set("From", &from);
        header.set("Mbo", &from);
        add_all(&mut header, "To", &to);
        add_all(&mut header, "Cc", &cc);
        header.set("Subject", &charset::encode_header(subject));
        header.set("Content-Type", &text::cat2("text/plain; charset=", body_charset));
        header.set("Content-Transfer-Encoding", "8bit");
        header.set("Body", &text::size_text(body.len()));
        let (files, values) = send_files(&draft.files);
        add_all(&mut header, "File", &values);
        let message = Message { header, body, files };
        assert(message@ =~= drafted(draft@, text::texts(to@), text::texts(cc@)));
        match message.validate() {
            Ok(()) => Ok((message, warnings)),
            Err(e) => Err(e),
        }
    }

    /// The constraints the CMS enforces (some are undocumented; Pat checks
    /// the same set).
    pub fn validate(&self) -> (r: Result<(), String>)
        ensures
            match r {
                Ok(()) => fault(self@) is None,
                Err(e) => fault(self@) == Some(e@),
            },
    {
        let mid = self.mid();
        if mid.is_empty() {
            return Err("message has no MID".to_owned());
        }
        if text::byte_len(mid) > MAX_MID_LEN {
            return Err(text::cat3("MID ", mid, " is longer than 12 characters"));
        }
        let to = self.to();
        let cc = self.cc();
        assert(text::texts(to@).len() == to@.len());
        assert(text::texts(cc@).len() == cc@.len());
        if to.len() == 0 && cc.len() == 0 {
            return Err(text::cat2(mid, ": no recipient"));
        }
        if self.from().as_str().is_empty() {
            return Err(text::cat2(mid, ": empty From"));
        }
        if self.body.len() == 0 {
            return Err(text::cat2(mid, ": empty body"));
        }
        let subject = self.header.get_or("Subject", "");
        if subject.is_empty() {
            return Err(text::cat2(mid, ": empty subject"));
        }
        let subject_len = text::byte_len(subject);
        if subject_len > MAX_SUBJECT_LEN {
            return Err(
                text::cat4(
                    mid,
                    ": subject is ",
                    &text::size_text(subject_len),
                    " bytes on the wire (limit 128); shorten it",
                ),
            );
        }
        assert(self@.files.skip(0) =~= self@.files);
        for i in 0..self.files.len()
            invariant
                mid@ == wire::mid_of(self@),
                long_name(self@.files) == long_name(self@.files.skip(i as int)),
                fault(self@) == (match long_name(self@.files) {
                    Some(name) => Some(mid@ + ": attachment name too long: "@ + name),
                    None => None,
                }),
        {
            let ghost rest = self@.files.skip(i as int);
            assert(rest[0] == self.files@[i as int]@);
            assert(rest.drop_first() =~= self@.files.skip(i + 1));
            if text::byte_len(&self.files[i].name) > MAX_FILENAME_LEN {
                return Err(
                    text::cat3(mid, ": attachment name too long: ", &self.files[i].name),
                );
            }
        }
        Ok(())
    }

    /// The message ID.
    pub fn mid(&self) -> (r: &str)
        ensures
            r@ == wire::mid_of(self@),
    {
        text::trimmed_str(self.header.get_or("Mid", ""))
    }

    pub fn subject(&self) -> (r: String)
        ensures
            r@ == subject_of(self@),
    {
        charset::decode_header(self.header.get_or("Subject", ""))
    }

    pub fn from(&self) -> (r: String)
        ensures
            r@ == from_of(self@),
    {
        text::trimmed_str(self.header.get_or("From", "")).to_owned()
    }

    pub fn to(&self) -> (r: Vec<String>)
        ensures
            text::texts(r@) == to_of(self@),
    {
        let r = trimmed_texts(&self.header.get_all("To"));
        assert(text::texts(r@) =~= to_of(self@));
        r
    }

    pub fn cc(&self) -> (r: Vec<String>)
        ensures
            text::texts(r@) == cc_of(self@),
    {
        let r = trimmed_texts(&self.header.get_all("Cc"));
        assert(text::texts(r@) =~= cc_of(self@));
        r
    }

    /// All recipients (To then Cc).
    pub fn recipients(&self) -> (r: Vec<String>)
        ensures
            text::texts(r@) == to_of(self@) + cc_of(self@),
    {
        let mut all = self.to();
        let mut cc = self.cc();
        let ghost (a, b) = (text::texts(all@), text::texts(cc@));
        all.append(&mut cc);
        assert(text::texts(all@) =~= a + b);
        all
    }

    pub fn date(&self) -> (r: &str)
        ensures
            r@ == date_of(self@),
    {
        text::trimmed_str(self.header.get_or("Date", ""))
    }

    /// The date in Unix seconds.
    pub fn unix_date(&self) -> (r: Option<i64>)
        ensures
            r is Some <==> date::parsed(date_of(self@)) is Some,
            r matches Some(t) ==> date::parsed(date_of(self@)) == Some(t as int),
    {
        date::parse(self.date())
    }

    /// The charset of the body.
    pub fn charset(&self) -> (r: String)
        ensures
            r@ == charset_of(self@),
    {
        if let Some(ct) = self.header.get("Content-Type") {
            let params = text::pieces(&text::chars(ct), Class::One(';'));
            let ghost all = text::views(params@);
            assert(all.skip(0) =~= all);
            for i in 0..params.len()
                invariant
                    all == text::views(params@),
                    charset_param(all) == charset_param(all.skip(i as int)),
                    charset_of(self@) == (match charset_param(all) {
                        Some(cs) => cs,
                        None => charset::LATIN1@,
                    }),
            {
                let ghost rest = all.skip(i as int);
                assert(rest[0] == params@[i as int]@);
                assert(rest.drop_first() =~= all.skip(i + 1));
                if let Some((k, v)) = text::split_in_two(
                    text::trimmed(&params[i]),
                    Class::One('='),
                ) {
                    if text::equal_ignoring_case(text::trimmed(k), &text::chars("charset")) {
                        return text::string(
                            text::trimmed_both(text::trimmed(v), Class::One('"')),
                        );
                    }
                }
            }
        }
        charset::LATIN1.to_owned()
    }

    pub fn body_text(&self) -> (r: String)
        ensures
            r@ == body_text_of(self@),
    {
        charset::decode_text(&self.body, &self.charset())
    }

    /// Serialises to the Winlink message format.
    pub fn to_bytes(&self) -> (r: Vec<u8>)
        ensures
            r@ == wire::written(self@),
    {
        let mut out = text::utf8_bytes(&text::cat3("Mid: ", self.mid(), "\r\n"));
        wire::push_field_lines(&mut out, &wire::sorted_fields(&self.header));
        out.push(13);
        out.push(10);
        out.extend_from_slice(&self.body);
        out.push(13);
        out.push(10);
        let ghost head = out@;
        let ghost all = self@.files;
        assert(all.skip(0) =~= all);
        for i in 0..self.files.len()
            invariant
                all == self@.files,
                head + wire::file_sections(all) == out@ + wire::file_sections(
                    all.skip(i as int),
                ),
        {
            let ghost before = out@;
            out.extend_from_slice(&self.files[i].data);
            out.push(13);
            out.push(10);
            let ghost rest = all.skip(i as int);
            assert(rest[0].1 == self.files@[i as int].data@);
            assert(rest.drop_first() =~= all.skip(i + 1));
            assert(before + (rest[0].1 + wire::crlf() + wire::file_sections(
                rest.drop_first(),
            )) =~= out@ + wire::file_sections(all.skip(i + 1)));
        }
        assert(all.skip(all.len() as int) =~= seq![]);
        assert(out@ + wire::file_sections(seq![]) =~= out@);
        assert(out@ =~= wire::written(self@));
        out
    }

    /// Reads a message in the Winlink message format.
    pub fn parse(data: &[u8]) -> (r: Result<Message, String>)
        ensures
            match r {
                Ok(m) => wire::read(data@) == Ok::<_, Seq<char>>(m@),
                Err(e) => wire::read(data@) == Err::<MessageView, _>(e@),
            },
    {
        let start = wire::blanks(data);
        if start == data.len() {
            return Err("empty message".to_owned());
        }
        let data = &data[start..data.len()];
        let (header, pos) = match wire::read_header(data) {
            Ok(p) => p,
            Err(e) => {
                return Err(e);
            },
        };
        let size = text::chars(header.get_or("Body", "0"));
        let body_len: usize = match text::unsigned(text::trimmed(&size), 10, usize::MAX as u64) {
            Some(n) => n as usize,
            None => {
                return Err("Body: is not a number".to_owned());
            },
        };
        let (body, pos) = match wire::take_section(data, pos, body_len) {
            Some(p) => p,
            None => {
                return Err(text::cat2("message is truncated inside the ", "body"));
            },
        };
        let values = header.get_all("File");
        assert(slice_texts(values@) =~= header::values_of(header@, "File"@));
        let files = match read_all_files(&values, data, pos) {
            Ok(v) => v,
            Err(e) => {
                return Err(e);
            },
        };
        let message = Message { header, body, files };
        if message.mid().is_empty() {
            return Err("message has no Mid header".to_owned());
        }
        Ok(message)
    }
}

/// The texts of some string slices.
pub open spec fn slice_texts(v: Seq<&str>) -> Seq<Seq<char>> {
    Seq::new(v.len(), |i: int| v[i]@)
}

fn read_all_files(values: &Vec<&str>, data: &[u8], start: usize) -> (r: Result<
    Vec<Attachment>,
    String,
>)
    requires
        start <= data@.len(),
    ensures
        match r {
            Ok(files) => wire::read_files(slice_texts(values@), data@.skip(start as int)) == Ok::<
                _,
                Seq<char>,
            >(file_views(files@)),
            Err(e) => wire::read_files(slice_texts(values@), data@.skip(start as int)) == Err::<
                Seq<(Seq<char>, Seq<u8>)>,
                _,
            >(e@),
        },
{
    let mut files: Vec<Attachment> = Vec::new();
    let mut pos: usize = start;
    let ghost all = slice_texts(values@);
    let ghost whole = wire::read_files(all, data@.skip(start as int));
    assert(all.skip(0) =~= all);
    assert(forall|more: Seq<(Seq<char>, Seq<u8>)>| #[trigger] (file_views(files@) + more) =~= more);
    for i in 0..values.len()
        invariant
            all == slice_texts(values@),
            pos <= data@.len(),
            whole == (match wire::read_files(all.skip(i as int), data@.skip(pos as int)) {
                Ok(more) => Ok(file_views(files@) + more),
                Err(e) => Err(e),
            }),
            whole == wire::read_files(slice_texts(values@), data@.skip(start as int)),
    {
        let value = text::chars(values[i]);
        let ghost rest = all.skip(i as int);
        assert(rest[0] == value@);
        assert(rest.drop_first() =~= all.skip(i + 1));
        let (size, name) = match text::split_in_two(text::trimmed(&value), Class::One(' ')) {
            Some(p) => p,
            None => {
                return Err(text::cat2("malformed File header ", &unicode::quote(values[i])));
            },
        };
        let n: usize = match text::unsigned(size, 10, usize::MAX as u64) {
            Some(n) => n as usize,
            None => {
                return Err(
                    text::cat2("malformed File size ", &unicode::quote(&text::string(size))),
                );
            },
        };
        let (content, next) = match wire::take_section(data, pos, n) {
            Some(p) => p,
            None => {
                return Err(text::cat2("message is truncated inside the ", "attachment"));
            },
        };
        let name = charset::decode_header(&text::string(text::trimmed(name)));
        let ghost before = file_views(files@);
        let file = Attachment { name: sanitize_filename(&name), data: content };
        let ghost f = file@;
        files.push(file);
        assert(forall|more: Seq<(Seq<char>, Seq<u8>)>| #[trigger]
            (file_views(files@) + more) =~= before + (seq![f] + more));
        pos = next;
    }
    assert(all.skip(all.len() as int) =~= seq![]);
    assert(file_views(files@) + seq![] =~= file_views(files@));
    Ok(files)
}

} // verus!

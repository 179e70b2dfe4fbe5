//! What the terminal shows: a UTC stamp, a marker, then the station and
//! text. Each function gives the lines; printing them, and reading the clock
//! for the stamp (seconds since the epoch), is left to the caller.

use vstd::prelude::*;

use crate::mailbox;
use crate::mailbox::{Entry, EntryView, Folder};
use crate::message;
use crate::message::address;
use crate::message::display_address;
use crate::message::wire;
use crate::message::{Attachment, Message, MessageView};
use crate::session::LogKind;
use crate::text;

pub mod laws;

verus! {

pub const WHO_WIDTH: usize = 22;

pub const SUBJECT_WIDTH: usize = 38;

#[derive(Clone, Copy, Debug)]
pub enum Style {
    Dim,
    Bold,
    Cyan,
    Green,
    Yellow,
    Red,
    Blue,
}

/// The parameters of the terminal's `SGR` sequence for a style.
pub open spec fn sgr_of(style: Style) -> Seq<char> {
    match style {
        Style::Dim => "2"@,
        Style::Bold => "1"@,
        Style::Cyan => "1;36"@,
        Style::Green => "1;32"@,
        Style::Yellow => "1;33"@,
        Style::Red => "1;31"@,
        Style::Blue => "1;34"@,
    }
}

impl Style {
    pub fn sgr(self) -> (r: &'static str)
        ensures
            r@ == sgr_of(self),
    {
        match self {
            Style::Dim => "2",
            Style::Bold => "1",
            Style::Cyan => "1;36",
            Style::Green => "1;32",
            Style::Yellow => "1;33",
            Style::Red => "1;31",
            Style::Blue => "1;34",
        }
    }
}

/// The terminal: does it show colours, and the protocol transcript?
#[derive(Clone, Copy, Debug)]
pub struct Ui {
    pub color: bool,
    pub trace: bool,
}

/// A text in a style, where colours are on and there is a text.
pub open spec fn painted(color: bool, style: Style, s: Seq<char>) -> Seq<char> {
    if color && s.len() > 0 {
        "\x1b["@ + sgr_of(style) + "m"@ + s + "\x1b[0m"@
    } else {
        s
    }
}

/// A number below 100 with two digits.
pub open spec fn two_digits(n: int) -> Seq<char> {
    text::zero_fill(text::decimal(n as nat), 2)
}

/// The time of day, e.g. `10:45:00Z`.
pub open spec fn stamp_of(now: int) -> Seq<char> {
    let secs = now % 86_400;
    two_digits(secs / 3600) + ":"@ + two_digits(secs / 60 % 60) + ":"@ + two_digits(secs % 60)
        + "Z"@
}

pub open spec fn marked(
    color: bool,
    now: int,
    marker: Seq<char>,
    style: Style,
    s: Seq<char>,
) -> Seq<char> {
    painted(color, Style::Dim, stamp_of(now)) + " "@ + painted(color, style, marker) + " "@ + s
}

pub open spec fn info_line(color: bool, now: int, s: Seq<char>) -> Seq<char> {
    painted(color, Style::Dim, stamp_of(now)) + " "@ + painted(color, Style::Dim, s)
}

pub open spec fn warn_line(color: bool, now: int, s: Seq<char>) -> Seq<char> {
    marked(color, now, "!"@, Style::Yellow, s)
}

pub open spec fn error_line(color: bool, now: int, s: Seq<char>) -> Seq<char> {
    marked(color, now, "✗"@, Style::Red, painted(color, Style::Red, s))
}

pub open spec fn ok_line(color: bool, now: int, s: Seq<char>) -> Seq<char> {
    marked(color, now, "✓"@, Style::Green, s)
}

/// How a line of the log is shown; protocol lines only while they are traced.
pub open spec fn log_line(ui: Ui, now: int, kind: LogKind, s: Seq<char>) -> Option<Seq<char>> {
    match kind {
        LogKind::Tx => if ui.trace {
            Some(marked(ui.color, now, "›"@, Style::Dim, painted(ui.color, Style::Dim, s)))
        } else {
            None
        },
        LogKind::Rx => if ui.trace {
            Some(marked(ui.color, now, "‹"@, Style::Dim, painted(ui.color, Style::Dim, s)))
        } else {
            None
        },
        LogKind::Info => Some(info_line(ui.color, now, s)),
        LogKind::Warn => Some(warn_line(ui.color, now, s)),
        LogKind::Error => Some(error_line(ui.color, now, s)),
        LogKind::Success => Some(ok_line(ui.color, now, s)),
    }
}

/// Addresses as they are shown.
pub open spec fn shown(v: Seq<Seq<char>>) -> Seq<char> {
    text::join(Seq::new(v.len(), |i: int| address::displayed(v[i])), ", "@)
}

pub open spec fn recipients_of(m: MessageView) -> Seq<Seq<char>> {
    message::to_of(m) + message::cc_of(m)
}

pub open spec fn queued_line(color: bool, now: int, mid: Seq<char>, m: MessageView) -> Seq<char> {
    marked(
        color,
        now,
        "→"@,
        Style::Cyan,
        painted(color, Style::Bold, shown(recipients_of(m))) + " "@ + message::subject_of(m)
            + "  "@ + painted(color, Style::Dim, mid + " queued — connect to send"@),
    )
}

/// How many attachments there are, in words.
pub open spec fn files_note(n: nat) -> Seq<char> {
    if n == 0 {
        ""@
    } else if n == 1 {
        "  +1 attachment"@
    } else {
        "  +"@ + text::decimal(n) + " attachments"@
    }
}

pub open spec fn received_line(color: bool, now: int, m: MessageView) -> Seq<char> {
    marked(
        color,
        now,
        "←"@,
        Style::Yellow,
        painted(color, Style::Bold, address::displayed(message::from_of(m))) + " "@
            + message::subject_of(m) + painted(
            color,
            Style::Dim,
            "  "@ + wire::mid_of(m) + files_note(m.files.len()),
        ),
    )
}

/// A text in a column of `width` characters: filled up with spaces, or cut
/// with an ellipsis.
pub open spec fn fitted(s: Seq<char>, width: int) -> Seq<char> {
    if s.len() <= width {
        s + text::spaces(width - s.len())
    } else {
        s.take(width - 1) + "…"@
    }
}

/// One row of a list: number, date, station, subject and size.
pub open spec fn row(
    color: bool,
    folder: Folder,
    n: nat,
    e: EntryView,
    size: Seq<char>,
) -> Seq<char> {
    let who = if folder == Folder::Inbox {
        address::displayed(message::from_of(e.message))
    } else {
        shown(recipients_of(e.message))
    };
    let files = if e.message.files.len() == 0 {
        ""@
    } else {
        " +"@ + text::decimal(e.message.files.len())
    };
    text::right_aligned(text::decimal(n), 3) + "  "@ + painted(
        color,
        Style::Dim,
        message::date_of(e.message),
    ) + "  "@ + painted(color, Style::Bold, fitted(who, WHO_WIDTH as int)) + "  "@ + fitted(
        message::subject_of(e.message),
        SUBJECT_WIDTH as int,
    ) + "  "@ + painted(color, Style::Dim, size + files)
}

/// A folder's messages, numbered from 1.
pub open spec fn listing_lines(
    color: bool,
    now: int,
    folder: Folder,
    entries: Seq<EntryView>,
    sizes: Seq<Seq<char>>,
) -> Seq<Seq<char>> {
    if entries.len() == 0 {
        seq![info_line(color, now, mailbox::label_of(folder) + " is empty"@)]
    } else {
        seq![
            painted(
                color,
                Style::Bold,
                mailbox::label_of(folder) + " ("@ + text::decimal(entries.len()) + ")"@,
            ),
        ] + Seq::new(
            entries.len(),
            |i: int| row(color, folder, (i + 1) as nat, entries[i], sizes[i]),
        )
    }
}

/// A labelled line at the head of a message.
pub open spec fn head_line(color: bool, label: Seq<char>, value: Seq<char>) -> Seq<char> {
    painted(color, Style::Dim, text::right_aligned(label, 8)) + " "@ + value
}

/// The head of a message.
pub open spec fn head_lines(color: bool, m: MessageView) -> Seq<Seq<char>> {
    let top = seq![
        ""@,
        head_line(color, "From"@, address::displayed(message::from_of(m))),
        head_line(color, "To"@, shown(message::to_of(m))),
    ];
    let cc = if message::cc_of(m).len() == 0 {
        seq![]
    } else {
        seq![head_line(color, "Cc"@, shown(message::cc_of(m)))]
    };
    top + cc + seq![
        head_line(color, "Date"@, message::date_of(m) + " UTC"@),
        head_line(color, "Subject"@, painted(color, Style::Bold, message::subject_of(m))),
        head_line(color, "MID"@, wire::mid_of(m)),
        ""@,
    ]
}

/// The body, indented.
pub open spec fn body_lines(m: MessageView) -> Seq<Seq<char>> {
    let lines = text::lines(message::body_text_of(m));
    Seq::new(lines.len(), |i: int| "  "@ + lines[i])
}

/// One attachment at the end of a message.
pub open spec fn file_line(color: bool, name: Seq<char>, size: Seq<char>) -> Seq<char> {
    "  "@ + painted(color, Style::Blue, "📎"@) + " "@ + name + "  "@ + painted(
        color,
        Style::Dim,
        size,
    )
}

/// The attachments, and how to get at them.
pub open spec fn file_lines(color: bool, m: MessageView, sizes: Seq<Seq<char>>) -> Seq<Seq<char>> {
    if m.files.len() == 0 {
        seq![]
    } else {
        seq![""@] + Seq::new(m.files.len(), |i: int| file_line(color, m.files[i].0, sizes[i]))
            + seq!["  "@ + painted(color, Style::Dim, "save N [DIR] writes the attachments"@)]
    }
}

/// A whole message.
pub open spec fn message_lines(color: bool, m: MessageView, sizes: Seq<Seq<char>>) -> Seq<
    Seq<char>,
> {
    head_lines(color, m) + body_lines(m) + file_lines(color, m, sizes) + seq![""@]
}

/// A number below 100 with two digits.
fn pair(n: u64) -> (r: String)
    ensures
        r@ == two_digits(n as int),
{
    text::string(&text::zero_filled(&text::decimal_chars(n), 2))
}

/// The time of day of a time in seconds.
pub fn stamp(now: u64) -> (r: String)
    ensures
        r@ == stamp_of(now as int),
{
    let secs: u64 = now % 86_400;
    let hours = pair(secs / 3600);
    let minutes = pair(secs / 60 % 60);
    let seconds = pair(secs % 60);
    let mut s = text::cat5(&hours, ":", &minutes, ":", &seconds);
    s.append("Z");
    s
}

/// A text in a column of `width` characters.
pub fn fit(s: &str, width: usize) -> (r: String)
    requires
        width >= 1,
    ensures
        r@ == fitted(s@, width as int),
{
    let chars = text::chars(s);
    if chars.len() <= width {
        text::cat2(s, &text::blank(width - chars.len()))
    } else {
        let front = vstd::slice::slice_subrange(chars.as_slice(), 0, width - 1);
        assert(front@ =~= s@.take(width - 1));
        text::cat2(&text::string(front), "…")
    }
}

fn show(v: &[String]) -> (r: String)
    ensures
        r@ == shown(text::texts(v@)),
{
    let mut out: Vec<String> = Vec::new();
    let ghost all = Seq::new(v@.len(), |i: int| address::displayed(text::texts(v@)[i]));
    for i in 0..v.len()
        invariant
            all == Seq::new(v@.len(), |i: int| address::displayed(text::texts(v@)[i])),
            text::texts(out@) == all.take(i as int),
    {
        let ghost before = text::texts(out@);
        out.push(display_address(&v[i]).to_owned());
        assert(text::texts(out@) =~= before.push(all[i as int]));
    }
    assert(all.take(all.len() as int) =~= all);
    text::joined(&out, ", ")
}

impl Ui {
    /// Colours are used on a terminal, unless they are unwanted.
    pub fn new(no_color: bool, trace: bool, no_color_set: bool, terminal: bool) -> (r: Ui)
        ensures
            r.color == (!no_color && !no_color_set && terminal),
            r.trace == trace,
    {
        Ui { color: !no_color && !no_color_set && terminal, trace }
    }

    pub fn trace(&self) -> (r: bool)
        ensures
            r == self.trace,
    {
        self.trace
    }

    pub fn set_trace(&mut self, on: bool)
        ensures
            final(self).trace == on,
            final(self).color == old(self).color,
    {
        self.trace = on;
    }

    pub fn paint(&self, style: Style, s: &str) -> (r: String)
        ensures
            r@ == painted(self.color, style, s@),
    {
        if self.color && !s.is_empty() {
            text::cat5("\x1b[", style.sgr(), "m", s, "\x1b[0m")
        } else {
            s.to_owned()
        }
    }

    pub fn line(&self, now: u64, marker: &str, style: Style, s: &str) -> (r: String)
        ensures
            r@ == marked(self.color, now as int, marker@, style, s@),
    {
        let stamp = self.paint(Style::Dim, &stamp(now));
        text::cat5(&stamp, " ", &self.paint(style, marker), " ", s)
    }

    pub fn info(&self, now: u64, s: &str) -> (r: String)
        ensures
            r@ == info_line(self.color, now as int, s@),
    {
        let stamp = self.paint(Style::Dim, &stamp(now));
        text::cat3(&stamp, " ", &self.paint(Style::Dim, s))
    }

    pub fn warn(&self, now: u64, s: &str) -> (r: String)
        ensures
            r@ == warn_line(self.color, now as int, s@),
    {
        self.line(now, "!", Style::Yellow, s)
    }

    pub fn error(&self, now: u64, s: &str) -> (r: String)
        ensures
            r@ == error_line(self.color, now as int, s@),
    {
        self.line(now, "✗", Style::Red, &self.paint(Style::Red, s))
    }

    pub fn ok(&self, now: u64, s: &str) -> (r: String)
        ensures
            r@ == ok_line(self.color, now as int, s@),
    {
        self.line(now, "✓", Style::Green, s)
    }

    /// A prompt that the next input line answers; no line end follows it.
    pub fn prompt(&self, s: &str) -> (r: String)
        ensures
            r@ == painted(self.color, Style::Cyan, s@) + " "@,
    {
        text::cat2(&self.paint(Style::Cyan, s), " ")
    }

    /// A line of the log; nothing for a protocol line that is not traced.
    pub fn log(&self, now: u64, kind: LogKind, s: &str) -> (r: Option<String>)
        ensures
            r is Some <==> log_line(*self, now as int, kind, s@) is Some,
            r matches Some(line) ==> log_line(*self, now as int, kind, s@) == Some(line@),
    {
        match kind {
            LogKind::Tx => if self.trace {
                Some(self.line(now, "›", Style::Dim, &self.paint(Style::Dim, s)))
            } else {
                None
            },
            LogKind::Rx => if self.trace {
                Some(self.line(now, "‹", Style::Dim, &self.paint(Style::Dim, s)))
            } else {
                None
            },
            LogKind::Info => Some(self.info(now, s)),
            LogKind::Warn => Some(self.warn(now, s)),
            LogKind::Error => Some(self.error(now, s)),
            LogKind::Success => Some(self.ok(now, s)),
        }
    }

    pub fn queued(&self, now: u64, mid: &str, message: &Message) -> (r: String)
        ensures
            r@ == queued_line(self.color, now as int, mid@, message@),
    {
        let who = show(&message.recipients());
        let note = text::cat2(mid, " queued — connect to send");
        let s = text::cat5(
            &self.paint(Style::Bold, &who),
            " ",
            &message.subject(),
            "  ",
            &self.paint(Style::Dim, &note),
        );
        self.line(now, "→", Style::Cyan, &s)
    }

    pub fn delivered(&self, now: u64, mid: &str) -> (r: String)
        ensures
            r@ == marked(self.color, now as int, "✓"@, Style::Green, mid@ + " delivered"@),
    {
        self.line(now, "✓", Style::Green, &text::cat2(mid, " delivered"))
    }

    pub fn already(&self, now: u64, mid: &str) -> (r: String)
        ensures
            r@ == marked(
                self.color,
                now as int,
                "✓"@,
                Style::Green,
                mid@ + " was already delivered; moved to sent"@,
            ),
    {
        self.line(
            now,
            "✓",
            Style::Green,
            &text::cat2(mid, " was already delivered; moved to sent"),
        )
    }

    pub fn deferred(&self, now: u64, mid: &str) -> (r: String)
        ensures
            r@ == marked(
                self.color,
                now as int,
                "…"@,
                Style::Yellow,
                mid@ + " deferred by the remote; stays in the outbox"@,
            ),
    {
        self.line(
            now,
            "…",
            Style::Yellow,
            &text::cat2(mid, " deferred by the remote; stays in the outbox"),
        )
    }

    pub fn received(&self, now: u64, message: &Message) -> (r: String)
        ensures
            r@ == received_line(self.color, now as int, message@),
    {
        let n = message.files.len();
        let files = if n == 0 {
            "".to_owned()
        } else if n == 1 {
            "  +1 attachment".to_owned()
        } else {
            text::cat3("  +", &text::size_text(n), " attachments")
        };
        let note = text::cat3("  ", message.mid(), &files);
        let from = message.from();
        let s = text::cat4(
            &self.paint(Style::Bold, display_address(&from)),
            " ",
            &message.subject(),
            &self.paint(Style::Dim, &note),
        );
        self.line(now, "←", Style::Yellow, &s)
    }

    pub fn done(&self, now: u64, ok: bool, summary: &str) -> (r: String)
        ensures
            r@ == (if ok {
                ok_line(self.color, now as int, summary@)
            } else {
                error_line(self.color, now as int, summary@)
            }),
    {
        if ok {
            self.ok(now, summary)
        } else {
            self.error(now, summary)
        }
    }

    fn row(&self, folder: Folder, n: usize, e: &Entry, size: &str) -> (r: String)
        ensures
            r@ == row(self.color, folder, n as nat, e@, size@),
    {
        let m = &e.message;
        let who = if folder == Folder::Inbox {
            let from = m.from();
            display_address(&from).to_owned()
        } else {
            show(&m.recipients())
        };
        let files = if m.files.len() == 0 {
            "".to_owned()
        } else {
            text::cat2(" +", &text::size_text(m.files.len()))
        };
        let number = text::align_right(&text::size_text(n), 3);
        let left = text::cat5(
            &number,
            "  ",
            &self.paint(Style::Dim, m.date()),
            "  ",
            &self.paint(Style::Bold, &fit(&who, WHO_WIDTH)),
        );
        text::cat5(
            &left,
            "  ",
            &fit(&m.subject(), SUBJECT_WIDTH),
            "  ",
            &self.paint(Style::Dim, &text::cat2(size, &files)),
        )
    }

    /// A folder's messages, numbered from 1. `sizes` are the sizes of the
    /// files as they are to be shown.
    pub fn listing(&self, now: u64, folder: Folder, entries: &[Entry], sizes: &[String]) -> (r: Vec<
        String,
    >)
        requires
            sizes@.len() == entries@.len(),
        ensures
            text::texts(r@) == listing_lines(
                self.color,
                now as int,
                folder,
                mailbox::entry_views(entries@),
                text::texts(sizes@),
            ),
    {
        let mut out: Vec<String> = Vec::new();
        let ghost all = listing_lines(
            self.color,
            now as int,
            folder,
            mailbox::entry_views(entries@),
            text::texts(sizes@),
        );
        if entries.len() == 0 {
            out.push(self.info(now, &text::cat2(folder.label(), " is empty")));
            assert(text::texts(out@) =~= all);
            return out;
        }
        let title = text::cat4(folder.label(), " (", &text::size_text(entries.len()), ")");
        out.push(self.paint(Style::Bold, &title));
        assert(text::texts(out@) =~= all.take(1));
        for i in 0..entries.len()
            invariant
                entries@.len() > 0,
                sizes@.len() == entries@.len(),
                all == listing_lines(
                    self.color,
                    now as int,
                    folder,
                    mailbox::entry_views(entries@),
                    text::texts(sizes@),
                ),
                text::texts(out@) == all.take(i + 1),
        {
            let ghost before = text::texts(out@);
            out.push(self.row(folder, i + 1, &entries[i], &sizes[i]));
            assert(text::texts(out@) =~= before.push(out@.last()@));
            assert(all[i + 1] == out@.last()@);
            assert(all.take(i + 2) =~= all.take(i + 1).push(all[i + 1]));
        }
        assert(all.take(entries@.len() as int + 1) =~= all);
        out
    }

    fn head_line(&self, label: &str, value: &str) -> (r: String)
        ensures
            r@ == head_line(self.color, label@, value@),
    {
        text::cat3(&self.paint(Style::Dim, &text::align_right(label, 8)), " ", value)
    }

    fn head(&self, message: &Message) -> (r: Vec<String>)
        ensures
            text::texts(r@) == head_lines(self.color, message@),
    {
        let mut out: Vec<String> = Vec::new();
        let from = message.from();
        out.push(String::new());
        out.push(self.head_line("From", display_address(&from)));
        out.push(self.head_line("To", &show(&message.to())));
        let cc = message.cc();
        if cc.len() > 0 {
            out.push(self.head_line("Cc", &show(&cc)));
        }
        out.push(self.head_line("Date", &text::cat2(message.date(), " UTC")));
        out.push(self.head_line("Subject", &self.paint(Style::Bold, &message.subject())));
        out.push(self.head_line("MID", message.mid()));
        out.push(String::new());
        proof {
            reveal_strlit("");
        }
        assert(""@ =~= seq![]);
        assert(text::texts(cc@).len() == cc@.len());
        assert(text::texts(out@) =~= head_lines(self.color, message@));
        out
    }

    fn push_body(&self, out: &mut Vec<String>, message: &Message)
        ensures
            text::texts(final(out)@) == text::texts(old(out)@) + body_lines(message@),
    {
        let lines = text::line_strings(&message.body_text());
        let ghost all = body_lines(message@);
        let ghost start = text::texts(out@);
        assert(start =~= start + all.take(0));
        for i in 0..lines.len()
            invariant
                all == body_lines(message@),
                text::texts(lines@) == text::lines(message::body_text_of(message@)),
                text::texts(out@) == start + all.take(i as int),
        {
            let ghost before = text::texts(out@);
            out.push(text::cat2("  ", &lines[i]));
            assert(text::texts(lines@)[i as int] == lines@[i as int]@);
            assert(text::texts(out@) =~= before.push(all[i as int]));
            assert(all.take(i + 1) =~= all.take(i as int).push(all[i as int]));
        }
        assert(all.take(all.len() as int) =~= all);
    }

    fn push_files(&self, out: &mut Vec<String>, files: &[Attachment], sizes: &[String])
        requires
            sizes@.len() == files@.len(),
        ensures
            text::texts(final(out)@) == text::texts(old(out)@) + Seq::new(
                files@.len(),
                |i: int| file_line(self.color, files@[i].name@, text::texts(sizes@)[i]),
            ),
    {
        let ghost all = Seq::new(
            files@.len(),
            |i: int| file_line(self.color, files@[i].name@, text::texts(sizes@)[i]),
        );
        let ghost start = text::texts(out@);
        assert(start =~= start + all.take(0));
        for i in 0..files.len()
            invariant
                sizes@.len() == files@.len(),
                all == Seq::new(
                    files@.len(),
                    |i: int| file_line(self.color, files@[i].name@, text::texts(sizes@)[i]),
                ),
                text::texts(out@) == start + all.take(i as int),
        {
            let ghost before = text::texts(out@);
            let left = text::cat5("  ", &self.paint(Style::Blue, "📎"), " ", &files[i].name, "  ");
            out.push(text::cat2(&left, &self.paint(Style::Dim, &sizes[i])));
            assert(text::texts(out@) =~= before.push(all[i as int]));
            assert(all.take(i + 1) =~= all.take(i as int).push(all[i as int]));
        }
        assert(all.take(all.len() as int) =~= all);
    }

    /// A whole message. `sizes` are the sizes of the attachments as they are
    /// to be shown.
    pub fn show_message(&self, message: &Message, sizes: &[String]) -> (r: Vec<String>)
        requires
            sizes@.len() == message.files@.len(),
        ensures
            text::texts(r@) == message_lines(self.color, message@, text::texts(sizes@)),
    {
        proof {
            reveal_strlit("");
        }
        assert(""@ =~= seq![]);
        let ghost all = message_lines(self.color, message@, text::texts(sizes@));
        let mut out = self.head(message);
        self.push_body(&mut out, message);
        let ghost front = text::texts(out@);
        if message.files.len() > 0 {
            out.push(String::new());
            assert(text::texts(out@) =~= front + seq![""@]);
            self.push_files(&mut out, &message.files, sizes);
            let ghost rows = Seq::new(
                message@.files.len(),
                |i: int| file_line(self.color, message@.files[i].0, text::texts(sizes@)[i]),
            );
            assert(text::texts(out@) =~= front + seq![""@] + rows);
            let note = self.paint(Style::Dim, "save N [DIR] writes the attachments");
            out.push(text::cat2("  ", &note));
            assert(text::texts(out@) =~= (front + seq![""@] + rows).push(out@.last()@));
            assert(file_lines(self.color, message@, text::texts(sizes@)) =~= seq![""@] + rows
                + seq![out@.last()@]);
        } else {
            assert(front =~= front + file_lines(self.color, message@, text::texts(sizes@)));
        }
        let ghost before = text::texts(out@);
        out.push(String::new());
        assert(text::texts(out@) =~= before.push(""@));
        assert(text::texts(out@) =~= all);
        out
    }
}

// ---------------------------------------------------------------------
// Laws

/// A column has the width that it was given.
pub proof fn law_columns_align(s: Seq<char>, width: int)
    requires
        width >= 1,
    ensures
        fitted(s, width).len() == width,
{
    reveal_strlit("…");
}

/// Without colours no escape sequence is added: what is shown is the stamp,
/// the marker and the text.
pub proof fn law_plain_lines(now: int, marker: Seq<char>, style: Style, s: Seq<char>)
    ensures
        marked(false, now, marker, style, s) == stamp_of(now) + " "@ + marker + " "@ + s,
{
}

} // verus!

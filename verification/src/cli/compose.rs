//! Writing a message line by line: To, Cc, Subject, the body up to a line
//! with only a full stop, then attachments.

use vstd::prelude::*;

use crate::cli::say;
use crate::cli::say::{Say, SayView};
use crate::message;
use crate::message::address;
use crate::message::Attachment;
use crate::text;
use crate::text::Class;

verus! {

/// Above this many bytes an attachment takes a long time over radio.
pub const LARGE_ATTACHMENT: usize = 50_000;

/// What the next line is taken for.
#[derive(Clone, Copy, Debug, PartialEq, Eq, Structural)]
pub enum Stage {
    To,
    Cc,
    Subject,
    Body,
    Attach,
}

/// A message that is being written.
#[derive(Debug)]
pub struct Compose {
    pub stage: Stage,
    pub to: Vec<String>,
    pub cc: Vec<String>,
    pub subject: String,
    pub body: Vec<String>,
    pub files: Vec<Attachment>,
}

#[verifier::ext_equal]
pub struct ComposeView {
    pub stage: Stage,
    pub to: Seq<Seq<char>>,
    pub cc: Seq<Seq<char>>,
    pub subject: Seq<char>,
    pub body: Seq<Seq<char>>,
    pub files: Seq<(Seq<char>, Seq<u8>)>,
}

impl View for Compose {
    type V = ComposeView;

    open spec fn view(&self) -> ComposeView {
        ComposeView {
            stage: self.stage,
            to: text::texts(self.to@),
            cc: text::texts(self.cc@),
            subject: self.subject@,
            body: text::texts(self.body@),
            files: message::file_views(self.files@),
        }
    }
}

/// A message of which nothing is written yet.
pub open spec fn blank() -> ComposeView {
    ComposeView { stage: Stage::To, to: seq![], cc: seq![], subject: ""@, body: seq![], files: seq![] }
}

impl Compose {
    pub fn new() -> (r: Compose)
        ensures
            r@ == blank(),
    {
        let r = Compose {
            stage: Stage::To,
            to: Vec::new(),
            cc: Vec::new(),
            subject: "".to_owned(),
            body: Vec::new(),
            files: Vec::new(),
        };
        assert(r@ =~= blank());
        r
    }
}

/// How writing goes on after a line.
#[derive(Debug)]
pub enum Step {
    /// The message is dropped.
    Discarded,
    /// The next line is awaited.
    More(Compose),
    /// The file with this path is to be attached.
    Attach(String, Compose),
    /// The message is complete.
    Complete(Compose),
}

#[verifier::ext_equal]
pub enum StepView {
    Discarded,
    More(ComposeView),
    Attach(Seq<char>, ComposeView),
    Complete(ComposeView),
}

impl View for Step {
    type V = StepView;

    open spec fn view(&self) -> StepView {
        match self {
            Step::Discarded => StepView::Discarded,
            Step::More(c) => StepView::More(c@),
            Step::Attach(path, c) => StepView::Attach(path@, c@),
            Step::Complete(c) => StepView::Complete(c@),
        }
    }
}

/// A line without its end.
pub open spec fn chopped(line: Seq<char>) -> Seq<char> {
    text::trim_end(line, Class::Two('\r', '\n'))
}

pub fn chop(line: &str) -> (r: String)
    ensures
        r@ == chopped(line@),
{
    let chars = text::chars(line);
    text::string(text::trimmed_end(&chars, Class::Two('\r', '\n')))
}

/// What a line does to the message, and what is said to it.
pub open spec fn stepped(c: ComposeView, line: Seq<char>) -> (StepView, Seq<SayView>) {
    let s = chopped(line);
    let word = text::trim(s);
    if word == "~q"@ {
        (StepView::Discarded, seq![SayView::Info("message discarded"@)])
    } else {
        match c.stage {
            Stage::To => if word.len() == 0 {
                (StepView::Discarded, seq![SayView::Info("message discarded"@)])
            } else {
                match address::addresses(seq![s]) {
                    Ok(to) => (
                        StepView::More(ComposeView { to, stage: Stage::Cc, ..c }),
                        seq![SayView::Prompt("Cc (optional):"@)],
                    ),
                    Err(e) => (
                        StepView::More(c),
                        seq![SayView::Error(e), SayView::Prompt("To:"@)],
                    ),
                }
            },
            Stage::Cc => match address::addresses(seq![s]) {
                Ok(cc) => (
                    StepView::More(ComposeView { cc, stage: Stage::Subject, ..c }),
                    seq![SayView::Prompt("Subject:"@)],
                ),
                Err(e) => (
                    StepView::More(c),
                    seq![SayView::Error(e), SayView::Prompt("Cc (optional):"@)],
                ),
            },
            Stage::Subject => if word.len() == 0 {
                (StepView::More(c), seq![SayView::Prompt("Subject (required):"@)])
            } else {
                (
                    StepView::More(ComposeView { subject: word, stage: Stage::Body, ..c }),
                    seq![SayView::Info("body: end with a line holding only \".\""@)],
                )
            },
            Stage::Body => if s == "."@ {
                (
                    StepView::More(ComposeView { stage: Stage::Attach, ..c }),
                    seq![SayView::Prompt("Attach a file (path, empty line to finish):"@)],
                )
            } else {
                (StepView::More(ComposeView { body: c.body.push(s), ..c }), seq![])
            },
            Stage::Attach => if word.len() == 0 {
                (StepView::Complete(c), seq![])
            } else {
                (StepView::Attach(word, c), seq![])
            },
        }
    }
}

/// What a line does to the message that is being written.
pub fn compose_line(c: Compose, line: &str) -> (r: (Step, Vec<Say>))
    ensures
        (r.0@, say::say_views(r.1@)) == stepped(c@, line@),
{
    let s = chop(line);
    let word = text::trim_str(&s);
    let mut c = c;
    if text::same(&word, "~q") {
        return (Step::Discarded, say::one(Say::Info("message discarded".to_owned())));
    }
    match c.stage {
        Stage::To => {
            if word.as_str().is_empty() {
                return (Step::Discarded, say::one(Say::Info("message discarded".to_owned())));
            }
            let given = vec![s];
            assert(text::texts(given@) =~= seq![s@]);
            match message::parse_addresses(&given) {
                Ok(to) => {
                    c.to = to;
                    c.stage = Stage::Cc;
                    (Step::More(c), say::one(Say::Prompt("Cc (optional):".to_owned())))
                },
                Err(e) => (
                    Step::More(c),
                    say::two(Say::Error(e), Say::Prompt("To:".to_owned())),
                ),
            }
        },
        Stage::Cc => {
            let given = vec![s];
            assert(text::texts(given@) =~= seq![s@]);
            match message::parse_addresses(&given) {
                Ok(cc) => {
                    c.cc = cc;
                    c.stage = Stage::Subject;
                    (Step::More(c), say::one(Say::Prompt("Subject:".to_owned())))
                },
                Err(e) => (
                    Step::More(c),
                    say::two(Say::Error(e), Say::Prompt("Cc (optional):".to_owned())),
                ),
            }
        },
        Stage::Subject => {
            if word.as_str().is_empty() {
                return (Step::More(c), say::one(Say::Prompt("Subject (required):".to_owned())));
            }
            c.subject = word;
            c.stage = Stage::Body;
            (
                Step::More(c),
                say::one(Say::Info("body: end with a line holding only \".\"".to_owned())),
            )
        },
        Stage::Body => {
            if text::same(&s, ".") {
                c.stage = Stage::Attach;
                (
                    Step::More(c),
                    say::one(Say::Prompt("Attach a file (path, empty line to finish):".to_owned())),
                )
            } else {
                let ghost before = text::texts(c.body@);
                c.body.push(s);
                assert(text::texts(c.body@) =~= before.push(s@));
                (Step::More(c), say::nothing())
            }
        },
        Stage::Attach => {
            if word.as_str().is_empty() {
                (Step::Complete(c), say::nothing())
            } else {
                (Step::Attach(word, c), say::nothing())
            }
        },
    }
}

/// A file that was read to be attached.
#[derive(Debug)]
pub struct Read {
    /// The last part of its path, if there is one.
    pub name: Option<String>,
    pub data: Vec<u8>,
    /// Its size as it is to be shown.
    pub size: String,
}

/// The attachment that a file makes.
pub open spec fn attachment(f: Read) -> (Seq<char>, Seq<u8>) {
    (
        match f.name {
            Some(name) => name@,
            None => "attachment"@,
        },
        f.data@,
    )
}

/// The message with a file attached, or with a word on why it is not.
pub open spec fn with_file(c: ComposeView, path: Seq<char>, f: Result<Read, String>) -> (
    ComposeView,
    Seq<SayView>,
) {
    let next = SayView::Prompt("Attach another (empty line to finish):"@);
    match f {
        Ok(file) => (
            ComposeView { files: c.files.push(attachment(file)), ..c },
            if file.data@.len() > LARGE_ATTACHMENT {
                seq![
                    SayView::Warn(
                        path + " is "@ + file.size@
                            + "; large attachments take a long time over radio"@,
                    ),
                    next,
                ]
            } else {
                seq![next]
            },
        ),
        Err(e) => (c, seq![SayView::Error(path + ": "@ + e@), next]),
    }
}

/// Attaches a file, or says why it could not be read.
pub fn attach(c: Compose, path: &str, f: Result<Read, String>) -> (r: (Compose, Vec<Say>))
    ensures
        (r.0@, say::say_views(r.1@)) == with_file(c@, path@, f),
{
    let mut c = c;
    let next = Say::Prompt("Attach another (empty line to finish):".to_owned());
    match f {
        Ok(file) => {
            let ghost made = attachment(file);
            let ghost before = message::file_views(c.files@);
            let large = file.data.len() > LARGE_ATTACHMENT;
            let name = match file.name {
                Some(name) => name,
                None => "attachment".to_owned(),
            };
            c.files.push(Attachment { name, data: file.data });
            assert(message::file_views(c.files@) =~= before.push(made));
            if large {
                let warning = text::cat4(
                    path,
                    " is ",
                    &file.size,
                    "; large attachments take a long time over radio",
                );
                (c, say::two(Say::Warn(warning), next))
            } else {
                (c, say::one(next))
            }
        },
        Err(e) => (c, say::two(Say::Error(text::cat3(path, ": ", &e)), next)),
    }
}

// ---------------------------------------------------------------------
// Laws

/// The message after some lines of its body.
pub open spec fn typed(c: ComposeView, lines: Seq<Seq<char>>) -> StepView
    decreases lines.len(),
{
    if lines.len() == 0 {
        StepView::More(c)
    } else {
        match typed(c, lines.drop_last()) {
            StepView::More(d) => stepped(d, lines.last()).0,
            other => other,
        }
    }
}

/// Lines that neither end the body nor drop the message.
pub open spec fn are_body_lines(lines: Seq<Seq<char>>) -> bool {
    forall|i: int|
        0 <= i < lines.len() ==> (#[trigger] lines[i]) == chopped(lines[i]) && lines[i] != "."@
            && text::trim(lines[i]) != "~q"@
}

/// The body is exactly the lines that were typed, up to the full stop.
pub proof fn law_body_is_what_was_typed(c: ComposeView, lines: Seq<Seq<char>>)
    requires
        c.stage == Stage::Body,
        are_body_lines(lines),
    ensures
        typed(c, lines) == StepView::More(ComposeView { body: c.body + lines, ..c }),
    decreases lines.len(),
{
    if lines.len() == 0 {
        assert(c.body + lines =~= c.body);
    } else {
        let less = lines.drop_last();
        assert(are_body_lines(less)) by {
            assert forall|i: int| 0 <= i < less.len() implies (#[trigger] less[i]) == chopped(
                less[i],
            ) && less[i] != "."@ && text::trim(less[i]) != "~q"@ by {
                assert(less[i] == lines[i]);
            }
        }
        law_body_is_what_was_typed(c, less);
        let last = lines[lines.len() - 1];
        assert(last == chopped(last) && last != "."@ && text::trim(last) != "~q"@);
        assert((c.body + less).push(last) =~= c.body + lines);
    }
}

/// A line with only `~q` drops the message, wherever it is typed.
pub proof fn law_quit_discards(c: ComposeView, line: Seq<char>)
    requires
        text::trim(chopped(line)) == "~q"@,
    ensures
        stepped(c, line).0 == StepView::Discarded,
{
}

/// What was given is kept: a line changes only the part that was asked for.
pub proof fn law_answers_are_kept(c: ComposeView, line: Seq<char>)
    ensures
        stepped(c, line).0 matches StepView::More(d) ==> {
            &&& c.stage != Stage::To ==> d.to == c.to
            &&& c.stage != Stage::Cc ==> d.cc == c.cc
            &&& c.stage != Stage::Subject ==> d.subject == c.subject
            &&& c.stage != Stage::Body ==> d.body == c.body
            &&& d.files == c.files
        },
        stepped(c, line).0 matches StepView::Complete(d) ==> d == c && c.stage == Stage::Attach,
{
}

} // verus!

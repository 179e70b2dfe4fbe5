//! What the program says.

use vstd::prelude::*;

use crate::mailbox;
use crate::mailbox::{Entry, EntryView, Folder};
use crate::message::{Message, MessageView};
use crate::session::LogKind;

verus! {

/// Something to be shown, or a change to the terminal.
#[derive(Debug)]
pub enum Say {
    Info(String),
    Warn(String),
    Error(String),
    Success(String),
    /// A question that the next line answers.
    Prompt(String),
    /// The list of commands.
    Commands,
    /// An empty line.
    Blank,
    /// Show what is typed, or hide it.
    Echo(bool),
    Log(LogKind, String),
    Queued(Message),
    Delivered(String),
    AlreadyDelivered(String),
    Deferred(String),
    Received(Message),
    Done { ok: bool, summary: String },
    Listing(Folder, Vec<Entry>),
    Whole(Message),
}

#[verifier::ext_equal]
pub enum SayView {
    Info(Seq<char>),
    Warn(Seq<char>),
    Error(Seq<char>),
    Success(Seq<char>),
    Prompt(Seq<char>),
    Commands,
    Blank,
    Echo(bool),
    Log(LogKind, Seq<char>),
    Queued(MessageView),
    Delivered(Seq<char>),
    AlreadyDelivered(Seq<char>),
    Deferred(Seq<char>),
    Received(MessageView),
    Done { ok: bool, summary: Seq<char> },
    Listing(Folder, Seq<EntryView>),
    Whole(MessageView),
}

impl View for Say {
    type V = SayView;

    open spec fn view(&self) -> SayView {
        match self {
            Say::Info(s) => SayView::Info(s@),
            Say::Warn(s) => SayView::Warn(s@),
            Say::Error(s) => SayView::Error(s@),
            Say::Success(s) => SayView::Success(s@),
            Say::Prompt(s) => SayView::Prompt(s@),
            Say::Commands => SayView::Commands,
            Say::Blank => SayView::Blank,
            Say::Echo(on) => SayView::Echo(*on),
            Say::Log(kind, s) => SayView::Log(*kind, s@),
            Say::Queued(m) => SayView::Queued(m@),
            Say::Delivered(mid) => SayView::Delivered(mid@),
            Say::AlreadyDelivered(mid) => SayView::AlreadyDelivered(mid@),
            Say::Deferred(mid) => SayView::Deferred(mid@),
            Say::Received(m) => SayView::Received(m@),
            Say::Done { ok, summary } => SayView::Done { ok: *ok, summary: summary@ },
            Say::Listing(folder, entries) => SayView::Listing(
                *folder,
                mailbox::entry_views(entries@),
            ),
            Say::Whole(m) => SayView::Whole(m@),
        }
    }
}

pub open spec fn say_views(v: Seq<Say>) -> Seq<SayView> {
    Seq::new(v.len(), |i: int| v[i]@)
}

/// A warning for each text, after `prefix`.
pub open spec fn warnings(prefix: Seq<char>, v: Seq<Seq<char>>) -> Seq<SayView> {
    Seq::new(v.len(), |i: int| SayView::Warn(prefix + v[i]))
}

/// Nothing to say.
pub fn nothing() -> (r: Vec<Say>)
    ensures
        say_views(r@) == Seq::<SayView>::empty(),
{
    let v: Vec<Say> = Vec::new();
    assert(say_views(v@) =~= seq![]);
    v
}

/// One thing to say.
pub fn one(a: Say) -> (r: Vec<Say>)
    ensures
        say_views(r@) == seq![a@],
{
    let mut v = nothing();
    put(&mut v, a);
    v
}

/// Two things to say.
pub fn two(a: Say, b: Say) -> (r: Vec<Say>)
    ensures
        say_views(r@) == seq![a@, b@],
{
    let mut v = one(a);
    put(&mut v, b);
    v
}

/// One more thing to say.
pub fn put(v: &mut Vec<Say>, a: Say)
    ensures
        say_views(final(v)@) == say_views(old(v)@).push(a@),
{
    let ghost before = say_views(v@);
    v.push(a);
    assert(say_views(v@) =~= before.push(a@));
}

} // verus!

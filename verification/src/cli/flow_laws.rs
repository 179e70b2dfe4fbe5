//! Laws of what goes on while the program runs: passwords, listening,
//! arriving bytes, and the end.

use vstd::prelude::*;

use crate::cli::app::{Ask, Purpose};
use crate::cli::compose::Compose;
use crate::cli::model;
use crate::cli::model::{AppView, AskView, ModeView, PurposeView, TurnView};
use crate::cli::say::{Say, SayView};
use crate::cli::target::{Target, TargetView};
use crate::exchange;
use crate::mailbox::Folder;
use crate::message::MessageView;
use crate::text;
use crate::text::Class;

verus! {

/// The password that is typed is the one that is used, and the station that
/// it was asked for is then called; an empty line means to try without one.
pub proof fn law_password_is_used(a: AppView, t: TargetView, line: Seq<char>)
    requires
        text::free_of(line, Class::Two('\r', '\n')),
    ensures
        ({
            let (b, turn) = model::password_line(a, t, line);
            &&& line.len() > 0 ==> b.cfg.password == Some(line)
            &&& line.len() == 0 ==> b.cfg.password is None
            &&& b.cfg.call == a.cfg.call && b.cfg.cms == a.cfg.cms && b.cfg.agw == a.cfg.agw
            &&& b.mode is Idle
            &&& turn.ask matches AskView::Connect { addr, target } && target == t && (t is Cms
                ==> addr == a.cfg.cms) && (t is Ax25 ==> addr == a.cfg.agw) && (
            t matches TargetView::P2p { addr: peer, .. } ==> addr == peer)
            &&& turn.says[0] == SayView::Echo(true)
        }),
{
    let k = Class::Two('\r', '\n');
    if line.len() > 0 {
        assert(!text::is_in(k, line[line.len() - 1]));
        text::lemma_trailing_is(line, k, 0);
    } else {
        text::lemma_trailing(line, k);
    }
    assert(text::trim_end(line, k) =~= line);
}

/// Without an address the program listens on all, on port 8774; it does not
/// listen twice, and stops when told to.
pub proof fn law_listening(a: AppView, words: Seq<Seq<char>>)
    ensures
        a.listener is None && words.len() < 2 ==> model::listens(a, words).ask == AskView::Listen(
            "0.0.0.0"@ + ":"@ + text::decimal(8774),
        ),
        a.listener is None && words.len() >= 2 && text::has(words[1], Class::One(':'))
            ==> model::listens(a, words).ask == AskView::Listen(words[1]),
        a.listener is Some ==> model::listens(a, words).ask is Nothing,
        model::stops_listening(a).0.listener is None,
        a.listener is Some ==> model::stops_listening(a).1.ask is StopListening,
        a.listener is None ==> model::stops_listening(a).1.ask is Nothing,
{
    reveal_strlit("0.0.0.0");
    assert(text::free_of("0.0.0.0"@, Class::One(':')));
    text::lemma_free_of_first("0.0.0.0"@, Class::One(':'));
}

/// What comes in on the running connection is given to its exchange, and what
/// the exchange wants done is asked for; so it is when time passes and when
/// the connection closes.
pub proof fn law_exchange_is_driven(a: AppView, data: Seq<u8>, now_ms: int, why: Option<Seq<char>>)
    ensures
        a.mode matches ModeView::Exchange { id, x } ==> {
            let bytes = exchange::model::on_bytes(x, data, now_ms);
            let time = exchange::model::polled(x, now_ms);
            let end = exchange::model::on_closed(x);
            &&& is_driven(a, model::arrived(a, id, data, now_ms), bytes)
            &&& is_driven(a, model::ticked(a, now_ms), time)
            &&& is_driven(a, model::closed(a, id, why), end)
            &&& why is None ==> model::closed(a, id, why).1.says.len() == 0
        },
        !(a.mode is Exchange) ==> model::ticked(a, now_ms).0 == a && model::ticked(
            a,
            now_ms,
        ).1.ask is Nothing,
{
}

/// Did the exchange go on to this, and nothing else change?
pub open spec fn is_driven(a: AppView, r: (AppView, TurnView), f: exchange::model::Run) -> bool {
    &&& r.0.mode is Exchange && r.0.mode->x == f.x && a.mode is Exchange && r.0.mode->id
        == a.mode->id
    &&& r.1.ask == AskView::Apply(f.out)
    &&& r.0.cfg == a.cfg && r.0.listing == a.listing && r.0.exit_code == a.exit_code
}

/// What became of a message is said: one that was delivered was delivered, be
/// it now or before; one that came in was received, unless it could not be
/// kept.
pub proof fn law_outcomes_are_told(mid: Seq<char>, m: MessageView, e: Seq<char>)
    ensures
        model::moved(mid, false, None).says == seq![SayView::Delivered(mid)],
        model::moved(mid, true, None).says == seq![SayView::AlreadyDelivered(mid)],
        model::moved(mid, false, Some(e)).says.last() == SayView::Delivered(mid),
        model::moved(mid, false, Some(e)).says[0] is Error,
        model::kept(m, None).says == seq![SayView::Received(m)],
        model::kept(m, Some(e)).says.len() == 1,
        model::kept(m, Some(e)).says[0] is Error,
{
}

/// A list is no longer good once something was deleted from it; it stays if
/// that failed.
pub proof fn law_deleting(a: AppView, folder: Folder, mid: Seq<char>, e: Seq<char>)
    ensures
        model::deleted(a, folder, mid, None).0.listing is None,
        model::deleted(a, folder, mid, Some(e)).0 == a,
        model::deleted(a, folder, mid, Some(e)).1.says[0] is Error,
{
}

/// The program ends when that was asked for and no exchange runs, with the
/// status that was set; and with 0 when nothing can be typed, nothing is going
/// on and no call can come.
pub proof fn law_ending(a: AppView)
    ensures
        a.mode is Exchange ==> model::exit_status(a) is None,
        a.exit_code is Some && !(a.mode is Exchange) ==> model::exit_status(a) == a.exit_code,
        a.exit_code is None && (a.input_open || a.listener is Some) ==> model::exit_status(
            a,
        ) is None,
        a.exit_code is None && !a.input_open && a.listener is None && a.mode is Idle
            ==> model::exit_status(a) == Some(0i32),
        model::input_closed(a).0.input_open == false,
        a.mode is Compose || a.mode is Password ==> model::input_closed(a).0.mode is Idle,
        a.mode is Exchange ==> model::input_closed(a).0.mode == a.mode,
{
}

/// While an exchange runs, `abort` ends it, and so does `quit`, after which
/// the program ends; nothing else that is typed does.
pub proof fn law_typing_while_busy(a: AppView, word: Seq<char>)
    requires
        a.mode is Exchange,
        word.len() > 0,
        text::trim(word) == word,
    ensures
        ({
            let (b, turn) = model::running_line(a, word);
            let ends = word == "abort"@ || word == "quit"@ || word == "exit"@;
            &&& ends <==> turn.ask is Apply
            &&& ends ==> turn.ask == AskView::Apply(
                exchange::model::aborted(
                    exchange::model::Run { x: a.mode->x, out: seq![] },
                    "aborted by operator"@,
                ).out,
            )
            &&& (word == "quit"@ || word == "exit"@) && a.exit_code is None ==> b.exit_code == Some(
                0i32,
            )
            &&& word == "abort"@ ==> b.exit_code == a.exit_code
            &&& word == "trace"@ ==> b.trace == !a.trace
            &&& word != "trace"@ ==> b.trace == a.trace
        }),
{
    reveal_strlit("abort");
    reveal_strlit("trace");
    reveal_strlit("quit");
    reveal_strlit("exit");
    assert("abort"@[0] == 'a' && "trace"@[0] == 't' && "quit"@[0] == 'q' && "exit"@[0] == 'e');
    reveal_strlit("help");
    assert("help"@[0] == 'h');
}

/// A turn asks for what the program means: each request names the message,
/// the folder, the address or the bytes that it is about.
pub proof fn law_requests_are_plain(a: Ask)
    ensures
        match a {
            Ask::StoreOutgoing(m) => a@ == AskView::StoreOutgoing(m@),
            Ask::List(folder) => a@ == AskView::List(folder),
            Ask::Read { purpose, folder, mid } => a@ is Read && a@->Read_folder == folder
                && a@->Read_mid == mid@ && (purpose is Show <==> a@->purpose is Show) && (
            purpose is Delete <==> a@->purpose is Delete) && (purpose matches Purpose::Save(dir)
                ==> a@->purpose == PurposeView::Save(dir@)),
            Ask::Delete { folder, mid } => a@ is Delete && a@->Delete_folder == folder
                && a@->Delete_mid == mid@,
            Ask::Save { message, dir } => a@ is Save && a@->Save_message == message@ && a@->dir
                == dir@,
            Ask::Attach(path) => a@ == AskView::Attach(path@),
            Ask::Connect { addr, target } => a@ is Connect && a@->addr == addr@ && is_target(
                a@->target,
                target,
            ),
            Ask::Begin { link, remote } => a@ is Begin && a@->link == link@ && a@->remote
                == remote@,
            Ask::Apply(v) => a@ is Apply && a@->Apply_0.len() == v@.len() && forall|i: int|
                0 <= i < v@.len() ==> #[trigger] a@->Apply_0[i] == v@[i]@,
            Ask::Send(b) => a@ == AskView::Send(b@),
            Ask::Keep { message, raw } => a@ is Keep && a@->Keep_message == message@ && a@->raw
                == raw@,
            Ask::MoveToSent { mid, already } => a@ is MoveToSent && a@->MoveToSent_mid == mid@
                && a@->already == already,
            Ask::Listen(addr) => a@ == AskView::Listen(addr@),
            Ask::Shutdown => a@ is Shutdown,
            Ask::Stop => a@ is Stop,
            Ask::StopListening => a@ is StopListening,
            Ask::Refuse => a@ is Refuse,
            Ask::Nothing => a@ is Nothing,
        },
{
}

/// Is this the same station, by way of the same digipeaters?
pub open spec fn is_target(v: TargetView, t: Target) -> bool {
    match t {
        Target::Cms => v is Cms,
        Target::Ax25 { gateway, via } => v is Ax25 && v->gateway == gateway@ && v->via.len()
            == via@.len() && forall|i: int| 0 <= i < via@.len() ==> #[trigger] v->via[i] == via@[i]@,
        Target::P2p { addr, call } => v is P2p && v->addr == addr@ && v->call == call@,
    }
}

/// What is said is said as what it is.
pub proof fn law_sayings_are_plain(s: Say)
    ensures
        match s {
            Say::Info(t) => s@ == SayView::Info(t@),
            Say::Warn(t) => s@ == SayView::Warn(t@),
            Say::Error(t) => s@ == SayView::Error(t@),
            Say::Success(t) => s@ == SayView::Success(t@),
            Say::Prompt(t) => s@ == SayView::Prompt(t@),
            Say::Log(kind, t) => s@ == SayView::Log(kind, t@),
            Say::Echo(on) => s@ == SayView::Echo(on),
            Say::Queued(m) => s@ == SayView::Queued(m@),
            Say::Received(m) => s@ == SayView::Received(m@),
            Say::Whole(m) => s@ == SayView::Whole(m@),
            Say::Delivered(mid) => s@ == SayView::Delivered(mid@),
            Say::AlreadyDelivered(mid) => s@ == SayView::AlreadyDelivered(mid@),
            Say::Deferred(mid) => s@ == SayView::Deferred(mid@),
            Say::Done { ok, summary } => s@ is Done && s@->ok == ok && s@->summary == summary@,
            Say::Listing(folder, v) => s@ is Listing && s@->Listing_0 == folder
                && s@->Listing_1.len() == v@.len() && forall|i: int|
                0 <= i < v@.len() ==> (#[trigger] s@->Listing_1[i]).mid == v@[i].mid@
                    && s@->Listing_1[i].message == v@[i].message@ && s@->Listing_1[i].bytes
                    == v@[i].bytes,
            Say::Commands => s@ is Commands,
            Say::Blank => s@ is Blank,
        },
{
}

/// What is being written is kept whole.
pub proof fn law_writing_is_kept_whole(c: Compose)
    ensures
        c@.stage == c.stage && c@.subject == c.subject@,
        c@.to.len() == c.to@.len() && c@.cc.len() == c.cc@.len() && c@.body.len() == c.body@.len(),
        forall|i: int| 0 <= i < c.to@.len() ==> #[trigger] c@.to[i] == c.to@[i]@,
        forall|i: int| 0 <= i < c.cc@.len() ==> #[trigger] c@.cc[i] == c.cc@[i]@,
        forall|i: int| 0 <= i < c.body@.len() ==> #[trigger] c@.body[i] == c.body@[i]@,
        c@.files.len() == c.files@.len(),
        forall|i: int|
            0 <= i < c.files@.len() ==> #[trigger] c@.files[i] == (
                c.files@[i].name@,
                c.files@[i].data@,
            ),
{
}

} // verus!

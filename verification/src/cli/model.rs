//! What the program does, as a function of its state and what happens.

use vstd::prelude::*;

use crate::cli::args::ConfigView;
use crate::cli::compose;
use crate::cli::compose::{ComposeView, Read, StepView};
use crate::cli::say;
use crate::cli::say::SayView;
use crate::cli::target;
use crate::cli::target::TargetView;
use crate::exchange;
use crate::exchange::model::Run;
use crate::exchange::{ActionView, ExchangeConfigView, ExchangeView, LinkSpecView};
use crate::mailbox;
use crate::mailbox::{EntryView, FoundView, Folder};
use crate::message;
use crate::message::body;
use crate::message::wire;
use crate::message::{DraftView, MessageView};
use crate::session;
use crate::session::OutboundView;
use crate::text;
use crate::text::Class;
use crate::unicode;

verus! {

/// What the program is busy with.
#[verifier::ext_equal]
pub enum ModeView {
    Idle,
    Compose(ComposeView),
    /// The next line is the password for this connection.
    Password(TargetView),
    Exchange { id: int, x: ExchangeView },
}

/// The program.
#[verifier::ext_equal]
pub struct AppView {
    pub cfg: ConfigView,
    /// Is there someone to ask?
    pub terminal: bool,
    /// Is the protocol transcript shown?
    pub trace: bool,
    pub mode: ModeView,
    /// The folder listed last, and the messages in it.
    pub listing: Option<(Folder, Seq<Seq<char>>)>,
    pub listener: Option<Seq<char>>,
    pub next_id: int,
    pub input_open: bool,
    pub exit_code: Option<i32>,
}

/// What a message is read for.
#[verifier::ext_equal]
pub enum PurposeView {
    Show,
    Save(Seq<char>),
    Delete,
}

/// What is to be done outside.
#[verifier::ext_equal]
pub enum AskView {
    Nothing,
    StoreOutgoing(MessageView),
    List(Folder),
    Read { purpose: PurposeView, folder: Folder, mid: Seq<char> },
    Delete { folder: Folder, mid: Seq<char> },
    Save { message: MessageView, dir: Seq<char> },
    Attach(Seq<char>),
    Connect { addr: Seq<char>, target: TargetView },
    Begin { link: LinkSpecView, remote: Seq<char> },
    Apply(Seq<ActionView>),
    Send(Seq<u8>),
    Keep { message: MessageView, raw: Seq<u8> },
    MoveToSent { mid: Seq<char>, already: bool },
    Shutdown,
    Stop,
    Listen(Seq<char>),
    StopListening,
    Refuse,
}

/// What is said, and what is to be done then.
#[verifier::ext_equal]
pub struct TurnView {
    pub says: Seq<SayView>,
    pub ask: AskView,
}

pub open spec fn says(s: SayView) -> TurnView {
    TurnView { says: seq![s], ask: AskView::Nothing }
}

pub open spec fn asks(ask: AskView) -> TurnView {
    TurnView { says: seq![], ask }
}

pub open spec fn silent() -> TurnView {
    asks(AskView::Nothing)
}

/// The reason for an exchange that the operator ends.
pub open spec fn by_operator() -> Seq<char> {
    "aborted by operator"@
}

// ---------------------------------------------------------------------
// Messages

/// A message for the outbox, or what is wrong with it.
pub open spec fn queued(
    cfg: ConfigView,
    c: ComposeView,
    now_ms: int,
    entropy: int,
) -> TurnView {
    let draft = DraftView {
        from: cfg.call,
        to: c.to,
        cc: c.cc,
        subject: c.subject,
        body: text::join(c.body, "\n"@),
        files: c.files,
        date: now_ms / 1000,
        mid: body::mid_for(cfg.call, now_ms as nat, entropy as nat),
    };
    match message::composed(draft) {
        Ok((m, warnings)) => TurnView {
            says: say::warnings(""@, warnings),
            ask: AskView::StoreOutgoing(m),
        },
        Err(e) => says(SayView::Error(e)),
    }
}

/// A message whose text is also its subject.
pub open spec fn quick(to: Seq<char>, s: Seq<char>) -> ComposeView {
    ComposeView {
        to: seq![to],
        subject: s.take(
            if s.len() < 60 {
                s.len() as int
            } else {
                60
            },
        ),
        body: seq![s],
        ..compose::blank()
    }
}

/// What follows the first two words of a line.
pub open spec fn third_part(line: Seq<char>) -> Seq<char> {
    match text::split_once(line, Class::Space) {
        Some((_, rest)) => match text::split_once(rest, Class::Space) {
            Some((_, s)) => text::trim(s),
            None => ""@,
        },
        None => ""@,
    }
}

/// The message with a number in the last list, or why there is none.
pub open spec fn picked(a: AppView, words: Seq<Seq<char>>) -> Result<
    (Folder, Seq<char>),
    Seq<char>,
> {
    match a.listing {
        None => Err("list a folder first (inbox, outbox, sent)"@),
        Some((folder, mids)) => {
            let number = if words.len() < 2 {
                None
            } else {
                text::parse_unsigned(words[1], 10, u64::MAX as nat)
            };
            match number {
                Some(n) => if 1 <= n <= mids.len() {
                    Ok((folder, mids[n - 1]))
                } else {
                    Err("give a number from 1 to "@ + text::decimal(mids.len()))
                },
                None => Err("give a number from 1 to "@ + text::decimal(mids.len())),
            }
        },
    }
}

pub open spec fn picks(a: AppView, words: Seq<Seq<char>>, purpose: PurposeView) -> TurnView {
    match picked(a, words) {
        Ok((folder, mid)) => asks(AskView::Read { purpose, folder, mid }),
        Err(e) => says(SayView::Error(e)),
    }
}

// ---------------------------------------------------------------------
// Connections

/// A connection that is to be made.
pub open spec fn starts(a: AppView, target: TargetView) -> TurnView {
    let addr = target::plan_for(a.cfg, target).addr;
    TurnView {
        says: seq![SayView::Info("connecting to "@ + addr)],
        ask: AskView::Connect { addr, target },
    }
}

/// The connection, or first the question for the password.
pub open spec fn connects(a: AppView, target: TargetView) -> (AppView, TurnView) {
    if a.cfg.password is None && !(target is P2p) && a.cfg.once is None && a.terminal {
        (
            AppView { mode: ModeView::Password(target), ..a },
            TurnView {
                says: seq![
                    SayView::Prompt(
                        "Winlink password for "@ + a.cfg.call
                            + " (not shown; empty to try without):"@,
                    ),
                    SayView::Echo(false),
                ],
                ask: AskView::Nothing,
            },
        )
    } else {
        (a, starts(a, target))
    }
}

/// A run for one exchange ends with its outcome.
pub open spec fn finish_once(a: AppView, ok: bool) -> AppView {
    if a.cfg.once is Some {
        AppView {
            exit_code: Some(
                if ok {
                    0
                } else {
                    1
                },
            ),
            ..a
        }
    } else {
        a
    }
}

/// The program's exit is asked for.
pub open spec fn exits(a: AppView) -> AppView {
    AppView {
        exit_code: match a.exit_code {
            Some(code) => Some(code),
            None => Some(0),
        },
        ..a
    }
}

pub open spec fn toggles(a: AppView) -> (AppView, TurnView) {
    (
        AppView { trace: !a.trace, ..a },
        says(
            SayView::Info(
                if a.trace {
                    "protocol transcript off"@
                } else {
                    "protocol transcript on"@
                },
            ),
        ),
    )
}

pub open spec fn listens(a: AppView, words: Seq<Seq<char>>) -> TurnView {
    match a.listener {
        Some(addr) => says(SayView::Info("already listening on "@ + addr)),
        None => asks(
            AskView::Listen(
                target::ported(
                    if words.len() < 2 {
                        "0.0.0.0"@
                    } else {
                        words[1]
                    },
                    crate::P2P_PORT,
                ),
            ),
        ),
    }
}

pub open spec fn stops_listening(a: AppView) -> (AppView, TurnView) {
    match a.listener {
        Some(addr) => (
            AppView { listener: None, ..a },
            TurnView {
                says: seq![SayView::Info("stopped listening on "@ + addr)],
                ask: AskView::StopListening,
            },
        ),
        None => (a, says(SayView::Info("not listening"@))),
    }
}

/// What the actions of the running exchange are after `f`.
pub open spec fn with_run(a: AppView, id: int, f: Run) -> (AppView, TurnView) {
    (AppView { mode: ModeView::Exchange { id, x: f.x }, ..a }, asks(AskView::Apply(f.out)))
}

/// The running exchange is ended.
pub open spec fn aborts(a: AppView, reason: Seq<char>) -> (AppView, TurnView) {
    match a.mode {
        ModeView::Exchange { id, x } => with_run(
            a,
            id,
            exchange::model::aborted(Run { x, out: seq![] }, reason),
        ),
        _ => (a, silent()),
    }
}

// ---------------------------------------------------------------------
// Lines

/// The folder that a command lists.
pub open spec fn folder_named(cmd: Seq<char>) -> Option<Folder> {
    if cmd == "inbox"@ || cmd == "in"@ {
        Some(Folder::Inbox)
    } else if cmd == "outbox"@ || cmd == "out"@ {
        Some(Folder::Outbox)
    } else if cmd == "sent"@ {
        Some(Folder::Sent)
    } else if cmd == "archive"@ {
        Some(Folder::Archive)
    } else {
        None
    }
}

/// A command; `words` are those of the line.
pub open spec fn commanded(
    a: AppView,
    line: Seq<char>,
    words: Seq<Seq<char>>,
    now_ms: int,
    entropy: int,
) -> (AppView, TurnView) {
    let cmd = words[0];
    if cmd == "help"@ || cmd == "?"@ {
        (a, says(SayView::Commands))
    } else if cmd == "compose"@ {
        (
            AppView { mode: ModeView::Compose(compose::blank()), ..a },
            says(SayView::Prompt("To (callsigns or e-mail addresses, comma separated):"@)),
        )
    } else if cmd == "msg"@ {
        if words.len() >= 2 && third_part(line).len() > 0 {
            (a, queued(a.cfg, quick(words[1], third_part(line)), now_ms, entropy))
        } else {
            (a, says(SayView::Error("usage: msg TO text"@)))
        }
    } else if folder_named(cmd) is Some {
        (a, asks(AskView::List(folder_named(cmd)->0)))
    } else if cmd == "read"@ || cmd == "show"@ {
        (a, picks(a, words, PurposeView::Show))
    } else if cmd == "save"@ {
        let dir = if words.len() < 3 {
            "."@
        } else {
            words[2]
        };
        (a, picks(a, words, PurposeView::Save(dir)))
    } else if cmd == "delete"@ || cmd == "rm"@ {
        (a, picks(a, words, PurposeView::Delete))
    } else if cmd == "connect"@ || cmd == "c"@ {
        match target::target_in(words.skip(1)) {
            Some(target) => connects(a, target),
            None => (a, says(SayView::Error(target::CONNECT_USAGE@))),
        }
    } else if cmd == "listen"@ {
        (a, listens(a, words))
    } else if cmd == "stop"@ {
        stops_listening(a)
    } else if cmd == "trace"@ {
        toggles(a)
    } else if cmd == "abort"@ {
        (a, says(SayView::Info("nothing to abort"@)))
    } else if cmd == "quit"@ || cmd == "exit"@ || cmd == "q"@ {
        (exits(a), silent())
    } else {
        (
            a,
            says(
                SayView::Error("unknown command "@ + unicode::quoted(cmd) + "; type help"@),
            ),
        )
    }
}

/// A line while nothing goes on.
pub open spec fn idle_line(a: AppView, line: Seq<char>, now_ms: int, entropy: int) -> (
    AppView,
    TurnView,
) {
    let command = text::trim(line);
    let words = text::split_words(command);
    if words.len() == 0 {
        (a, silent())
    } else {
        commanded(a, command, words, now_ms, entropy)
    }
}

/// A line of a message that is being written.
pub open spec fn composing_line(
    a: AppView,
    c: ComposeView,
    line: Seq<char>,
    now_ms: int,
    entropy: int,
) -> (AppView, TurnView) {
    let (step, said) = compose::stepped(c, line);
    match step {
        StepView::Discarded => (
            AppView { mode: ModeView::Idle, ..a },
            TurnView { says: said, ask: AskView::Nothing },
        ),
        StepView::More(d) => (
            AppView { mode: ModeView::Compose(d), ..a },
            TurnView { says: said, ask: AskView::Nothing },
        ),
        StepView::Attach(path, d) => (
            AppView { mode: ModeView::Compose(d), ..a },
            TurnView { says: said, ask: AskView::Attach(path) },
        ),
        StepView::Complete(d) => (
            AppView { mode: ModeView::Idle, ..a },
            queued(a.cfg, d, now_ms, entropy),
        ),
    }
}

/// The password; an empty one is none.
pub open spec fn password_line(a: AppView, target: TargetView, line: Seq<char>) -> (
    AppView,
    TurnView,
) {
    let given = compose::chopped(line);
    let b = AppView {
        cfg: ConfigView {
            password: if given.len() == 0 {
                None
            } else {
                Some(given)
            },
            ..a.cfg
        },
        mode: ModeView::Idle,
        ..a
    };
    let t = starts(b, target);
    (b, TurnView { says: seq![SayView::Echo(true), SayView::Blank] + t.says, ask: t.ask })
}

/// A line while mail is exchanged.
pub open spec fn running_line(a: AppView, line: Seq<char>) -> (AppView, TurnView) {
    let word = text::trim(line);
    if word == "abort"@ {
        aborts(a, by_operator())
    } else if word == "trace"@ {
        toggles(a)
    } else if word == "quit"@ || word == "exit"@ {
        aborts(exits(a), by_operator())
    } else if word == "help"@ {
        (a, says(SayView::Commands))
    } else if word.len() == 0 {
        (a, silent())
    } else {
        (a, says(SayView::Warn("an exchange is running; wait for it or type abort"@)))
    }
}

/// A line that was typed.
pub open spec fn line_read(a: AppView, line: Seq<char>, now_ms: int, entropy: int) -> (
    AppView,
    TurnView,
) {
    match a.mode {
        ModeView::Idle => idle_line(a, line, now_ms, entropy),
        ModeView::Compose(c) => composing_line(a, c, line, now_ms, entropy),
        ModeView::Password(target) => password_line(a, target, line),
        ModeView::Exchange { .. } => running_line(a, line),
    }
}

// ---------------------------------------------------------------------
// Answers from outside

/// The outcome of some work outside.
pub open spec fn outcome(r: Result<(), String>) -> Option<Seq<char>> {
    match r {
        Ok(_) => None,
        Err(e) => Some(e@),
    }
}

/// A folder was read.
pub open spec fn listed(a: AppView, folder: Folder, found: Result<Seq<FoundView>, Seq<char>>) -> (
    AppView,
    TurnView,
) {
    match found {
        Ok(v) => {
            let entries = mailbox::listed(v);
            (
                AppView { listing: Some((folder, mailbox::mids(entries))), ..a },
                TurnView {
                    says: say::warnings("skipped unreadable "@, mailbox::problems(v)).push(
                        SayView::Listing(folder, entries),
                    ),
                    ask: AskView::Nothing,
                },
            )
        },
        Err(e) => (
            a,
            says(SayView::Error("cannot read "@ + mailbox::label_of(folder) + ": "@ + e)),
        ),
    }
}

/// A message was read.
pub open spec fn read(
    purpose: PurposeView,
    folder: Folder,
    mid: Seq<char>,
    raw: Result<Seq<u8>, Seq<char>>,
) -> TurnView {
    match raw {
        Err(e) => says(SayView::Error(mid + ": "@ + e)),
        Ok(bytes) => match wire::read(bytes) {
            Err(e) => says(SayView::Error(mid + ": "@ + e)),
            Ok(m) => match purpose {
                PurposeView::Show => says(SayView::Whole(m)),
                PurposeView::Save(dir) => if m.files.len() == 0 {
                    says(SayView::Info("this message has no attachments"@))
                } else {
                    asks(AskView::Save { message: m, dir })
                },
                PurposeView::Delete => asks(AskView::Delete { folder, mid }),
            },
        },
    }
}

/// A message was deleted, or could not be.
pub open spec fn deleted(a: AppView, folder: Folder, mid: Seq<char>, error: Option<Seq<char>>) -> (
    AppView,
    TurnView,
) {
    match error {
        None => (
            AppView { listing: None, ..a },
            says(
                SayView::Info("deleted "@ + mid + " from "@ + mailbox::label_of(folder)),
            ),
        ),
        Some(e) => (a, says(SayView::Error("cannot delete "@ + mid + ": "@ + e))),
    }
}

/// A file to be attached was read, or could not be.
pub open spec fn attached(a: AppView, path: Seq<char>, file: Result<Read, String>) -> (
    AppView,
    TurnView,
) {
    match a.mode {
        ModeView::Compose(c) => {
            let (d, said) = compose::with_file(c, path, file);
            (
                AppView { mode: ModeView::Compose(d), ..a },
                TurnView { says: said, ask: AskView::Nothing },
            )
        },
        _ => (a, silent()),
    }
}

/// A station was reached, or not.
pub open spec fn reached(a: AppView, target: TargetView, error: Option<Seq<char>>) -> (
    AppView,
    TurnView,
) {
    let plan = target::plan_for(a.cfg, target);
    match error {
        None => (a, asks(AskView::Begin { link: plan.link, remote: plan.remote })),
        Some(e) => (
            finish_once(a, false),
            says(
                SayView::Error(
                    "cannot reach "@ + plan.addr + ": "@ + e + (if target is Ax25 {
                        " — is Direwolf running with its AGW port enabled?"@
                    } else {
                        ""@
                    }),
                ),
            ),
        ),
    }
}

/// The messages that can be sent, ready for it.
pub open spec fn sendable(v: Seq<EntryView>) -> Seq<OutboundView>
    decreases v.len(),
{
    if v.len() == 0 {
        seq![]
    } else if message::fault(v.last().message) is None {
        sendable(v.drop_last()).push(session::prepared(v.last().message))
    } else {
        sendable(v.drop_last())
    }
}

/// A warning for each message that cannot be sent.
pub open spec fn held_back(v: Seq<EntryView>) -> Seq<SayView>
    decreases v.len(),
{
    if v.len() == 0 {
        seq![]
    } else {
        match message::fault(v.last().message) {
            None => held_back(v.drop_last()),
            Some(e) => held_back(v.drop_last()).push(
                SayView::Warn("not sending "@ + v.last().mid + ": "@ + e),
            ),
        }
    }
}

/// What the outbox gives: messages to send, and what is said about the rest.
pub open spec fn outbound(found: Result<Seq<FoundView>, Seq<char>>) -> (
    Seq<OutboundView>,
    Seq<SayView>,
) {
    match found {
        Ok(v) => {
            let entries = mailbox::listed(v);
            (
                sendable(entries),
                say::warnings("skipped unreadable "@, mailbox::problems(v)) + held_back(entries),
            )
        },
        Err(e) => (seq![], seq![SayView::Error("cannot read the outbox: "@ + e)]),
    }
}

/// The idle timeout of an exchange.
pub open spec fn timeout_ms(cfg: ConfigView, link: LinkSpecView) -> int {
    match cfg.timeout {
        Some(s) => if s * 1000 > u64::MAX {
            u64::MAX as int
        } else {
            s * 1000
        },
        None => exchange::usual_timeout(link),
    }
}

/// The number of the next connection.
pub open spec fn next_number(id: int) -> int {
    if id < u64::MAX {
        id + 1
    } else {
        id
    }
}

/// How the exchange is made.
pub open spec fn exchange_config(cfg: ConfigView, link: LinkSpecView, remote: Seq<char>) -> ExchangeConfigView {
    ExchangeConfigView {
        mycall: cfg.call,
        target: remote,
        locator: cfg.locator,
        password: cfg.password,
        link,
        idle_timeout_ms: timeout_ms(cfg, link),
    }
}

/// The exchange begins, unless the socket fails.
pub open spec fn begun(
    a: AppView,
    link: LinkSpecView,
    remote: Seq<char>,
    outbox: Result<Seq<FoundView>, Seq<char>>,
    known: Seq<Seq<char>>,
    socket_error: Option<Seq<char>>,
    now_ms: int,
) -> (AppView, TurnView) {
    let (messages, notes) = outbound(outbox);
    let said = if messages.len() > 0 {
        notes.push(
            SayView::Info(text::decimal(messages.len()) + " message(s) in the outbox"@),
        )
    } else {
        notes
    };
    let b = AppView { next_id: next_number(a.next_id), ..a };
    match socket_error {
        Some(e) => (
            finish_once(b, false),
            TurnView {
                says: said.push(SayView::Error("socket error: "@ + e)),
                ask: AskView::Nothing,
            },
        ),
        None => {
            let fresh = exchange::fresh(
                exchange_config(a.cfg, link, remote),
                messages,
                mailbox::stems(known).to_set(),
            );
            let f = exchange::model::started(fresh, now_ms);
            (
                AppView { mode: ModeView::Exchange { id: a.next_id, x: f.x }, ..b },
                TurnView { says: said, ask: AskView::Apply(f.out) },
            )
        },
    }
}

/// One action of the exchange. After the last one the rest is void.
pub open spec fn acted(a: AppView, action: ActionView) -> (AppView, TurnView) {
    if !(a.mode is Exchange) {
        (a, asks(AskView::Stop))
    } else {
        match action {
            ActionView::Transmit(bytes) => (a, asks(AskView::Send(bytes))),
            ActionView::Log(kind, s) => (a, says(SayView::Log(kind, s))),
            ActionView::Received { message, raw } => (a, asks(AskView::Keep { message, raw })),
            ActionView::Delivered(mid) => (a, asks(AskView::MoveToSent { mid, already: false })),
            ActionView::AlreadyDelivered(mid) => (
                a,
                asks(AskView::MoveToSent { mid, already: true }),
            ),
            ActionView::Deferred(mid) => (a, says(SayView::Deferred(mid))),
            ActionView::Close => (a, asks(AskView::Shutdown)),
            ActionView::Done { ok, summary } => (
                finish_once(AppView { mode: ModeView::Idle, listing: None, ..a }, ok),
                says(SayView::Done { ok, summary }),
            ),
        }
    }
}

/// A received message was stored, or could not be.
pub open spec fn kept(m: MessageView, error: Option<Seq<char>>) -> TurnView {
    match error {
        None => says(SayView::Received(m)),
        Some(e) => says(
            SayView::Error(
                "received "@ + wire::mid_of(m) + " but cannot save it: "@ + e,
            ),
        ),
    }
}

/// A delivered message was moved, or could not be.
pub open spec fn moved(mid: Seq<char>, already: bool, error: Option<Seq<char>>) -> TurnView {
    let word = if already {
        SayView::AlreadyDelivered(mid)
    } else {
        SayView::Delivered(mid)
    };
    match error {
        None => says(word),
        Some(e) => TurnView {
            says: seq![
                SayView::Error(mid + " was delivered but could not be moved to sent: "@ + e),
                word,
            ],
            ask: AskView::Nothing,
        },
    }
}

/// A station calls: it is answered unless something goes on.
pub open spec fn accepted(a: AppView, peer: Seq<char>) -> TurnView {
    if a.mode is Idle {
        TurnView {
            says: seq![SayView::Info("incoming call from "@ + peer)],
            ask: AskView::Begin { link: LinkSpecView::TelnetAnswer, remote: ""@ },
        }
    } else {
        TurnView {
            says: seq![SayView::Warn("refused a call from "@ + peer + ": busy"@)],
            ask: AskView::Refuse,
        }
    }
}

/// Bytes arrived on the connection with this number.
pub open spec fn arrived(a: AppView, id: int, data: Seq<u8>, now_ms: int) -> (AppView, TurnView) {
    match a.mode {
        ModeView::Exchange { id: mine, x } => if mine == id {
            with_run(a, mine, exchange::model::on_bytes(x, data, now_ms))
        } else {
            (a, silent())
        },
        _ => (a, silent()),
    }
}

/// The connection with this number was closed.
pub open spec fn closed(a: AppView, id: int, reason: Option<Seq<char>>) -> (AppView, TurnView) {
    match a.mode {
        ModeView::Exchange { id: mine, x } => if mine == id {
            let f = exchange::model::on_closed(x);
            (
                AppView { mode: ModeView::Exchange { id: mine, x: f.x }, ..a },
                TurnView {
                    says: match reason {
                        Some(e) => seq![SayView::Warn("link error: "@ + e)],
                        None => seq![],
                    },
                    ask: AskView::Apply(f.out),
                },
            )
        } else {
            (a, silent())
        },
        _ => (a, silent()),
    }
}

/// Time has passed.
pub open spec fn ticked(a: AppView, now_ms: int) -> (AppView, TurnView) {
    match a.mode {
        ModeView::Exchange { id, x } => with_run(a, id, exchange::model::polled(x, now_ms)),
        _ => (a, silent()),
    }
}

/// Nothing more will be typed.
pub open spec fn input_closed(a: AppView) -> (AppView, TurnView) {
    let b = AppView { input_open: false, ..a };
    match a.mode {
        ModeView::Compose(_) => (
            AppView { mode: ModeView::Idle, ..b },
            says(SayView::Echo(true)),
        ),
        ModeView::Password(_) => (
            AppView { mode: ModeView::Idle, ..b },
            says(SayView::Echo(true)),
        ),
        _ => (b, silent()),
    }
}

/// The exit status, once the program is to end: when that was asked for and
/// no exchange runs, or when nothing more can happen.
pub open spec fn exit_status(a: AppView) -> Option<i32> {
    if a.exit_code is Some && !(a.mode is Exchange) {
        a.exit_code
    } else if !a.input_open && a.mode is Idle && a.listener is None {
        Some(0)
    } else {
        None
    }
}

} // verus!

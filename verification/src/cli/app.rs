//! The program's state, and its answer to each thing that happens.

use vstd::prelude::*;

use crate::cli::args::Config;
use crate::cli::compose;
use crate::cli::compose::{Compose, Read, Step};
use crate::cli::model;
use crate::cli::model::{AppView, AskView, ModeView, PurposeView, TurnView};
use crate::cli::say;
use crate::cli::say::{Say, SayView};
use crate::cli::target;
use crate::cli::target::Target;
use crate::clock;
use crate::exchange;
use crate::exchange::{Action, Exchange, ExchangeConfig, LinkSpec};
use crate::mailbox;
use crate::mailbox::{Entry, Folder, Found, FoundView, Mailbox};
use crate::message;
use crate::message::{generate_mid, Draft, Message};
use crate::session;
use crate::session::Outbound;
use crate::text;
use crate::text::Class;
use crate::unicode;

verus! {

/// What the program is busy with.
#[derive(Debug)]
enum Mode {
    Idle,
    Compose(Compose),
    Password(Target),
    Exchange { id: u64, ex: Exchange },
}

impl Mode {
    spec fn model(&self) -> ModeView {
        match self {
            Mode::Idle => ModeView::Idle,
            Mode::Compose(c) => ModeView::Compose(c@),
            Mode::Password(t) => ModeView::Password(t@),
            Mode::Exchange { id, ex } => ModeView::Exchange { id: *id as int, x: ex@ },
        }
    }

    spec fn inv(&self) -> bool {
        self matches Mode::Exchange { ex, .. } ==> ex.wf()
    }
}

/// What a message is read for.
#[derive(Debug)]
pub enum Purpose {
    Show,
    /// To save its attachments in this directory.
    Save(String),
    Delete,
}

impl View for Purpose {
    type V = PurposeView;

    open spec fn view(&self) -> PurposeView {
        match self {
            Purpose::Show => PurposeView::Show,
            Purpose::Save(dir) => PurposeView::Save(dir@),
            Purpose::Delete => PurposeView::Delete,
        }
    }
}

/// What is to be done outside, and how the outcome comes back.
#[derive(Debug)]
pub enum Ask {
    Nothing,
    /// Write the message to the outbox; then [`App::stored`].
    StoreOutgoing(Message),
    /// Read the folder; then [`App::listed`].
    List(Folder),
    /// Read the message; then [`App::read`].
    Read { purpose: Purpose, folder: Folder, mid: String },
    /// Delete the message; then [`App::deleted`].
    Delete { folder: Folder, mid: String },
    /// Write the attachments of the message to the directory.
    Save { message: Message, dir: String },
    /// Read the file; then [`App::attached`].
    Attach(String),
    /// Connect; then [`App::reached`].
    Connect { addr: String, target: Target },
    /// Read the outbox and the IDs known; then [`App::run_exchange`].
    Begin { link: LinkSpec, remote: String },
    /// Hand each action to [`App::act`].
    Apply(Vec<Action>),
    /// Send the bytes; [`App::write_failed`] if that fails.
    Send(Vec<u8>),
    /// Write the message to the inbox; then [`App::kept`].
    Keep { message: Message, raw: Vec<u8> },
    /// Move the message from the outbox, if it is there; then [`App::moved`].
    MoveToSent { mid: String, already: bool },
    /// Close the connection.
    Shutdown,
    /// The exchange is over: drop the actions that are left.
    Stop,
    /// Accept calls at the address; then [`App::listening`].
    Listen(String),
    StopListening,
    /// Tell the caller that the line is busy.
    Refuse,
}

impl View for Ask {
    type V = AskView;

    open spec fn view(&self) -> AskView {
        match self {
            Ask::Nothing => AskView::Nothing,
            Ask::StoreOutgoing(m) => AskView::StoreOutgoing(m@),
            Ask::List(folder) => AskView::List(*folder),
            Ask::Read { purpose, folder, mid } => AskView::Read {
                purpose: purpose@,
                folder: *folder,
                mid: mid@,
            },
            Ask::Delete { folder, mid } => AskView::Delete { folder: *folder, mid: mid@ },
            Ask::Save { message, dir } => AskView::Save { message: message@, dir: dir@ },
            Ask::Attach(path) => AskView::Attach(path@),
            Ask::Connect { addr, target } => AskView::Connect { addr: addr@, target: target@ },
            Ask::Begin { link, remote } => AskView::Begin { link: link@, remote: remote@ },
            Ask::Apply(actions) => AskView::Apply(exchange::action_views(actions@)),
            Ask::Send(bytes) => AskView::Send(bytes@),
            Ask::Keep { message, raw } => AskView::Keep { message: message@, raw: raw@ },
            Ask::MoveToSent { mid, already } => AskView::MoveToSent {
                mid: mid@,
                already: *already,
            },
            Ask::Shutdown => AskView::Shutdown,
            Ask::Stop => AskView::Stop,
            Ask::Listen(addr) => AskView::Listen(addr@),
            Ask::StopListening => AskView::StopListening,
            Ask::Refuse => AskView::Refuse,
        }
    }
}

/// What is said, and what is to be done then.
#[derive(Debug)]
pub struct Turn {
    pub says: Vec<Say>,
    pub ask: Ask,
}

impl View for Turn {
    type V = TurnView;

    open spec fn view(&self) -> TurnView {
        TurnView { says: say::say_views(self.says@), ask: self.ask@ }
    }
}

impl Turn {
    fn says(s: Say) -> (r: Turn)
        ensures
            r@ == model::says(s@),
    {
        Turn { says: say::one(s), ask: Ask::Nothing }
    }

    fn asks(ask: Ask) -> (r: Turn)
        ensures
            r@ == model::asks(ask@),
    {
        Turn { says: say::nothing(), ask }
    }

    fn silent() -> (r: Turn)
        ensures
            r@ == model::silent(),
    {
        Turn::asks(Ask::Nothing)
    }
}

/// A folder's content, or the reason why it could not be read.
pub open spec fn found_in(r: Result<Vec<Found>, String>) -> Result<Seq<FoundView>, Seq<char>> {
    match r {
        Ok(v) => Ok(mailbox::found_views(v@)),
        Err(e) => Err(e@),
    }
}

/// A file's content, or the reason why it could not be read.
pub open spec fn content(r: Result<Vec<u8>, String>) -> Result<Seq<u8>, Seq<char>> {
    match r {
        Ok(v) => Ok(v@),
        Err(e) => Err(e@),
    }
}

/// A warning for each text.
fn warn_all(prefix: &str, v: &[String]) -> (r: Vec<Say>)
    ensures
        say::say_views(r@) == say::warnings(prefix@, text::texts(v@)),
{
    let mut out = say::nothing();
    let ghost all = say::warnings(prefix@, text::texts(v@));
    assert(all.take(0) =~= seq![]);
    for i in 0..v.len()
        invariant
            all == say::warnings(prefix@, text::texts(v@)),
            say::say_views(out@) == all.take(i as int),
    {
        say::put(&mut out, Say::Warn(text::cat2(prefix, &v[i])));
        assert(all.take(i + 1) =~= all.take(i as int).push(all[i as int]));
    }
    assert(all.take(all.len() as int) =~= all);
    out
}

/// The IDs of some messages.
fn mids_of(entries: &[Entry]) -> (r: Vec<String>)
    ensures
        text::texts(r@) == mailbox::mids(mailbox::entry_views(entries@)),
{
    let mut out: Vec<String> = Vec::new();
    let ghost all = mailbox::mids(mailbox::entry_views(entries@));
    for i in 0..entries.len()
        invariant
            all == mailbox::mids(mailbox::entry_views(entries@)),
            text::texts(out@) == all.take(i as int),
    {
        let ghost before = text::texts(out@);
        out.push(entries[i].mid.clone());
        assert(text::texts(out@) =~= before.push(all[i as int]));
    }
    assert(all.take(all.len() as int) =~= all);
    out
}

/// The folder that a command lists.
fn folder_for(cmd: &str) -> (r: Option<Folder>)
    ensures
        r == model::folder_named(cmd@),
{
    if text::same(cmd, "inbox") || text::same(cmd, "in") {
        Some(Folder::Inbox)
    } else if text::same(cmd, "outbox") || text::same(cmd, "out") {
        Some(Folder::Outbox)
    } else if text::same(cmd, "sent") {
        Some(Folder::Sent)
    } else if text::same(cmd, "archive") {
        Some(Folder::Archive)
    } else {
        None
    }
}

/// What follows the first two words of a line.
fn part_after_two(line: &str) -> (r: String)
    ensures
        r@ == model::third_part(line@),
{
    let chars = text::chars(line);
    match text::split_in_two(&chars, Class::Space) {
        Some((_, rest)) => match text::split_in_two(rest, Class::Space) {
            Some((_, s)) => text::string(text::trimmed(s)),
            None => "".to_owned(),
        },
        None => "".to_owned(),
    }
}

/// A message whose text is also its subject.
fn quick(to: &str, s: String) -> (r: Compose)
    ensures
        r@ == model::quick(to@, s@),
{
    let chars = text::chars(&s);
    let n: usize = if chars.len() < 60 {
        chars.len()
    } else {
        60
    };
    let front = vstd::slice::slice_subrange(chars.as_slice(), 0, n);
    assert(front@ =~= s@.take(n as int));
    let mut c = Compose::new();
    c.to = vec![to.to_owned()];
    c.subject = text::string(front);
    c.body = vec![s];
    assert(text::texts(c.to@) =~= seq![to@]);
    assert(text::texts(c.body@) =~= seq![s@]);
    c
}

/// A message for the outbox, or what is wrong with it.
fn queue(cfg: &Config, c: Compose, now_ms: u64, entropy: u64) -> (r: Turn)
    ensures
        r@ == model::queued(cfg@, c@, now_ms as int, entropy as int),
{
    let draft = Draft {
        from: cfg.call.clone(),
        to: c.to,
        cc: c.cc,
        subject: c.subject,
        body: text::joined(&c.body, "\n"),
        files: c.files,
        date: clock::now_secs(now_ms),
        mid: generate_mid(&cfg.call, now_ms, entropy),
    };
    match Message::compose(draft) {
        Ok((message, warnings)) => Turn {
            says: warn_all("", &warnings),
            ask: Ask::StoreOutgoing(message),
        },
        Err(e) => Turn::says(Say::Error(e)),
    }
}

/// The messages of a folder that can be sent; the others are warned of.
fn ready(entries: &[Entry], says: &mut Vec<Say>) -> (r: Vec<Outbound>)
    ensures
        session::outbound_views(r@) == model::sendable(mailbox::entry_views(entries@)),
        say::say_views(final(says)@) == say::say_views(old(says)@) + model::held_back(
            mailbox::entry_views(entries@),
        ),
{
    let mut out: Vec<Outbound> = Vec::new();
    let ghost all = mailbox::entry_views(entries@);
    let ghost start = say::say_views(says@);
    assert(all.take(0) =~= seq![]);
    assert(session::outbound_views(out@) =~= seq![]);
    assert(start + model::held_back(all.take(0)) =~= start);
    for i in 0..entries.len()
        invariant
            all == mailbox::entry_views(entries@),
            session::outbound_views(out@) == model::sendable(all.take(i as int)),
            say::say_views(says@) == start + model::held_back(all.take(i as int)),
    {
        assert(all.take(i + 1).drop_last() =~= all.take(i as int));
        assert(all.take(i + 1).last() == entries@[i as int]@);
        let ghost before = session::outbound_views(out@);
        match Outbound::new(&entries[i].message) {
            Ok(o) => {
                let ghost made = o@;
                out.push(o);
                assert(session::outbound_views(out@) =~= before.push(made));
            },
            Err(e) => {
                let ghost so_far = model::held_back(all.take(i as int));
                let warning = Say::Warn(text::cat4("not sending ", &entries[i].mid, ": ", &e));
                let ghost w = warning@;
                say::put(says, warning);
                assert((start + so_far).push(w) =~= start + so_far.push(w));
            },
        }
    }
    assert(all.take(all.len() as int) =~= all);
    out
}

/// The mail program.
#[derive(Debug)]
pub struct App {
    cfg: Config,
    terminal: bool,
    trace: bool,
    mode: Mode,
    listing: Option<(Folder, Vec<String>)>,
    listener: Option<String>,
    next_id: u64,
    input_open: bool,
    exit_code: Option<i32>,
}

impl View for App {
    type V = AppView;

    closed spec fn view(&self) -> AppView {
        AppView {
            cfg: self.cfg@,
            terminal: self.terminal,
            trace: self.trace,
            mode: self.mode.model(),
            listing: match self.listing {
                Some((folder, mids)) => Some((folder, text::texts(mids@))),
                None => None,
            },
            listener: session::opt_text(self.listener),
            next_id: self.next_id as int,
            input_open: self.input_open,
            exit_code: self.exit_code,
        }
    }
}

impl App {
    /// The running exchange, if there is one, is well formed.
    pub closed spec fn wf(&self) -> bool {
        self.mode.inv()
    }

    /// The program at its start. `terminal` tells whether someone can be
    /// asked for a password.
    pub fn new(cfg: Config, terminal: bool) -> (r: App)
        ensures
            r.wf(),
            r@ == (AppView {
                cfg: cfg@,
                terminal,
                trace: !cfg.quiet,
                mode: ModeView::Idle,
                listing: None,
                listener: None,
                next_id: 1,
                input_open: true,
                exit_code: None,
            }),
    {
        let trace = !cfg.quiet;
        App {
            cfg,
            terminal,
            trace,
            mode: Mode::Idle,
            listing: None,
            listener: None,
            next_id: 1,
            input_open: true,
            exit_code: None,
        }
    }

    /// The settings.
    pub fn config(&self) -> (r: &Config)
        ensures
            r@ == self@.cfg,
    {
        &self.cfg
    }

    /// Is the protocol transcript shown?
    pub fn trace(&self) -> (r: bool)
        ensures
            r == self@.trace,
    {
        self.trace
    }

    /// The number that the next connection gets.
    pub fn next_id(&self) -> (r: u64)
        ensures
            r == self@.next_id,
    {
        self.next_id
    }

    /// Does something go on?
    pub fn busy(&self) -> (r: bool)
        ensures
            r == !(self@.mode is Idle),
    {
        match self.mode {
            Mode::Idle => false,
            _ => true,
        }
    }

    /// The exit status, once the program is to end.
    pub fn exit_status(&self) -> (r: Option<i32>)
        ensures
            r == model::exit_status(self@),
    {
        let running = match self.mode {
            Mode::Exchange { .. } => true,
            _ => false,
        };
        if self.exit_code.is_some() && !running {
            self.exit_code
        } else if !self.input_open && !self.busy() && self.listener.is_none() {
            Some(0)
        } else {
            None
        }
    }

    /// For a run with one exchange only: begins it.
    pub fn begin_once(&mut self) -> (r: Result<Turn, String>)
        requires
            old(self).wf(),
        ensures
            final(self).wf(),
            match old(self)@.cfg.once {
                None => r matches Ok(t) && final(self)@ == old(self)@ && t@ == model::silent(),
                Some(given) => match target::target_in(text::split_words(given)) {
                    Some(t) => r matches Ok(turn) && (final(self)@, turn@) == model::connects(
                        old(self)@,
                        t,
                    ),
                    None => r matches Err(e) && e@ == target::CONNECT_USAGE@ && final(self)@ == old(
                        self,
                    )@,
                },
            },
    {
        let words = match &self.cfg.once {
            None => {
                return Ok(Turn::silent());
            },
            Some(given) => text::word_strings(given),
        };
        match Target::parse(&words) {
            Ok(t) => Ok(self.connect(t)),
            Err(e) => Err(e),
        }
    }

    /// A line was typed.
    pub fn handle_line(&mut self, line: &str, now_ms: u64, entropy: u64) -> (r: Turn)
        requires
            old(self).wf(),
        ensures
            final(self).wf(),
            (final(self)@, r@) == model::line_read(
                old(self)@,
                line@,
                now_ms as int,
                entropy as int,
            ),
    {
        let ghost before = self@;
        let mut mode = Mode::Idle;
        std::mem::swap(&mut mode, &mut self.mode);
        let ghost idle = AppView { mode: ModeView::Idle, ..before };
        assert(self@ =~= idle);
        match mode {
            Mode::Compose(c) => self.compose_line(c, line, now_ms, entropy),
            Mode::Password(target) => self.password_line(target, line),
            Mode::Exchange { id, ex } => {
                self.mode = Mode::Exchange { id, ex };
                assert(self@ =~= before);
                self.running_line(line)
            },
            Mode::Idle => {
                assert(before =~= idle);
                self.idle_line(line, now_ms, entropy)
            },
        }
    }

    fn compose_line(&mut self, c: Compose, line: &str, now_ms: u64, entropy: u64) -> (r: Turn)
        requires
            old(self).wf(),
            old(self)@.mode is Idle,
        ensures
            final(self).wf(),
            (final(self)@, r@) == model::composing_line(
                AppView { mode: ModeView::Compose(c@), ..old(self)@ },
                c@,
                line@,
                now_ms as int,
                entropy as int,
            ),
    {
        let (step, says) = compose::compose_line(c, line);
        match step {
            Step::Discarded => Turn { says, ask: Ask::Nothing },
            Step::More(d) => {
                self.mode = Mode::Compose(d);
                Turn { says, ask: Ask::Nothing }
            },
            Step::Attach(path, d) => {
                self.mode = Mode::Compose(d);
                Turn { says, ask: Ask::Attach(path) }
            },
            Step::Complete(d) => queue(&self.cfg, d, now_ms, entropy),
        }
    }

    fn password_line(&mut self, target: Target, line: &str) -> (r: Turn)
        requires
            old(self).wf(),
            old(self)@.mode is Idle,
        ensures
            final(self).wf(),
            (final(self)@, r@) == model::password_line(
                AppView { mode: ModeView::Password(target@), ..old(self)@ },
                target@,
                line@,
            ),
    {
        let given = compose::chop(line);
        self.cfg.password = if given.as_str().is_empty() {
            None
        } else {
            Some(given)
        };
        let t = self.start(target);
        let mut says = say::two(Say::Echo(true), Say::Blank);
        let mut more = t.says;
        let ghost (x, y) = (say::say_views(says@), say::say_views(more@));
        says.append(&mut more);
        assert(say::say_views(says@) =~= x + y);
        Turn { says, ask: t.ask }
    }

    fn running_line(&mut self, line: &str) -> (r: Turn)
        requires
            old(self).wf(),
        ensures
            final(self).wf(),
            (final(self)@, r@) == model::running_line(old(self)@, line@),
    {
        let word = text::trimmed_str(line);
        if text::same(word, "abort") {
            self.abort("aborted by operator")
        } else if text::same(word, "trace") {
            self.toggle_trace()
        } else if text::same(word, "quit") || text::same(word, "exit") {
            self.exit();
            self.abort("aborted by operator")
        } else if text::same(word, "help") {
            Turn::says(Say::Commands)
        } else if word.is_empty() {
            Turn::silent()
        } else {
            Turn::says(Say::Warn("an exchange is running; wait for it or type abort".to_owned()))
        }
    }

    fn idle_line(&mut self, line: &str, now_ms: u64, entropy: u64) -> (r: Turn)
        requires
            old(self).wf(),
        ensures
            final(self).wf(),
            (final(self)@, r@) == model::idle_line(
                old(self)@,
                line@,
                now_ms as int,
                entropy as int,
            ),
    {
        let command = text::trimmed_str(line);
        let words = text::word_strings(command);
        assert(words@.len() == text::texts(words@).len());
        if words.len() == 0 {
            return Turn::silent();
        }
        self.command(command, &words, now_ms, entropy)
    }

    /// A command; `words` are those of the line.
    fn command(&mut self, line: &str, words: &[String], now_ms: u64, entropy: u64) -> (r: Turn)
        requires
            old(self).wf(),
            words@.len() > 0,
        ensures
            final(self).wf(),
            (final(self)@, r@) == model::commanded(
                old(self)@,
                line@,
                text::texts(words@),
                now_ms as int,
                entropy as int,
            ),
    {
        let ghost all = text::texts(words@);
        assert(all.len() == words@.len());
        assert(forall|i: int| 0 <= i < words@.len() ==> all[i] == words@[i]@);
        let cmd: &str = &words[0];
        let folder = folder_for(cmd);
        if text::same(cmd, "help") || text::same(cmd, "?") {
            Turn::says(Say::Commands)
        } else if text::same(cmd, "compose") {
            self.mode = Mode::Compose(Compose::new());
            Turn::says(
                Say::Prompt("To (callsigns or e-mail addresses, comma separated):".to_owned()),
            )
        } else if text::same(cmd, "msg") {
            let s = part_after_two(line);
            if words.len() >= 2 && !s.as_str().is_empty() {
                queue(&self.cfg, quick(&words[1], s), now_ms, entropy)
            } else {
                Turn::says(Say::Error("usage: msg TO text".to_owned()))
            }
        } else if folder.is_some() {
            Turn::asks(Ask::List(folder.unwrap()))
        } else if text::same(cmd, "read") || text::same(cmd, "show") {
            self.pick(words, Purpose::Show)
        } else if text::same(cmd, "save") {
            let dir = if words.len() < 3 {
                ".".to_owned()
            } else {
                words[2].clone()
            };
            self.pick(words, Purpose::Save(dir))
        } else if text::same(cmd, "delete") || text::same(cmd, "rm") {
            self.pick(words, Purpose::Delete)
        } else if text::same(cmd, "connect") || text::same(cmd, "c") {
            let rest = vstd::slice::slice_subrange(words, 1, words.len());
            assert(text::texts(rest@) =~= all.skip(1));
            match Target::parse(rest) {
                Ok(t) => self.connect(t),
                Err(e) => Turn::says(Say::Error(e)),
            }
        } else if text::same(cmd, "listen") {
            self.listen(words)
        } else if text::same(cmd, "stop") {
            self.stop_listening()
        } else if text::same(cmd, "trace") {
            self.toggle_trace()
        } else if text::same(cmd, "abort") {
            Turn::says(Say::Info("nothing to abort".to_owned()))
        } else if text::same(cmd, "quit") || text::same(cmd, "exit") || text::same(cmd, "q") {
            self.exit();
            Turn::silent()
        } else {
            Turn::says(
                Say::Error(text::cat3("unknown command ", &unicode::quote(cmd), "; type help")),
            )
        }
    }

    fn exit(&mut self)
        requires
            old(self).wf(),
        ensures
            final(self).wf(),
            final(self)@ == model::exits(old(self)@),
    {
        if self.exit_code.is_none() {
            self.exit_code = Some(0);
        }
        assert(self@ =~= model::exits(old(self)@));
    }

    fn toggle_trace(&mut self) -> (r: Turn)
        requires
            old(self).wf(),
        ensures
            final(self).wf(),
            (final(self)@, r@) == model::toggles(old(self)@),
    {
        self.trace = !self.trace;
        let s = if self.trace {
            "protocol transcript on".to_owned()
        } else {
            "protocol transcript off".to_owned()
        };
        Turn::says(Say::Info(s))
    }

    /// The message with the number that was typed, to be read.
    fn pick(&self, words: &[String], purpose: Purpose) -> (r: Turn)
        ensures
            r@ == model::picks(self@, text::texts(words@), purpose@),
    {
        let ghost all = text::texts(words@);
        assert(all.len() == words@.len());
        assert(forall|i: int| 0 <= i < words@.len() ==> all[i] == words@[i]@);
        match &self.listing {
            None => Turn::says(
                Say::Error("list a folder first (inbox, outbox, sent)".to_owned()),
            ),
            Some((folder, mids)) => {
                let number = if words.len() < 2 {
                    None
                } else {
                    text::unsigned(&text::chars(&words[1]), 10, u64::MAX)
                };
                assert(text::texts(mids@).len() == mids@.len());
                match number {
                    Some(n) if 1 <= n && n <= mids.len() as u64 => {
                        let i: usize = n as usize - 1;
                        assert(text::texts(mids@)[i as int] == mids@[i as int]@);
                        Turn::asks(Ask::Read { purpose, folder: *folder, mid: mids[i].clone() })
                    },
                    _ => Turn::says(
                        Say::Error(
                            text::cat2("give a number from 1 to ", &text::size_text(mids.len())),
                        ),
                    ),
                }
            },
        }
    }

    fn connect(&mut self, t: Target) -> (r: Turn)
        requires
            old(self).wf(),
        ensures
            final(self).wf(),
            (final(self)@, r@) == model::connects(old(self)@, t@),
    {
        if self.cfg.password.is_none() && t.needs_password() && self.cfg.once.is_none()
            && self.terminal {
            let question = text::cat3(
                "Winlink password for ",
                &self.cfg.call,
                " (not shown; empty to try without):",
            );
            self.mode = Mode::Password(t);
            return Turn {
                says: say::two(Say::Prompt(question), Say::Echo(false)),
                ask: Ask::Nothing,
            };
        }
        self.start(t)
    }

    fn start(&self, t: Target) -> (r: Turn)
        ensures
            r@ == model::starts(self@, t@),
    {
        let plan = target::plan(&self.cfg, &t);
        Turn {
            says: say::one(Say::Info(text::cat2("connecting to ", &plan.addr))),
            ask: Ask::Connect { addr: plan.addr, target: t },
        }
    }

    fn listen(&self, words: &[String]) -> (r: Turn)
        ensures
            r@ == model::listens(self@, text::texts(words@)),
    {
        assert(text::texts(words@).len() == words@.len());
        match &self.listener {
            Some(addr) => Turn::says(Say::Info(text::cat2("already listening on ", addr))),
            None => {
                let addr = if words.len() < 2 {
                    "0.0.0.0".to_owned()
                } else {
                    words[1].clone()
                };
                Turn::asks(Ask::Listen(target::with_port(&addr, crate::P2P_PORT)))
            },
        }
    }

    fn stop_listening(&mut self) -> (r: Turn)
        requires
            old(self).wf(),
        ensures
            final(self).wf(),
            (final(self)@, r@) == model::stops_listening(old(self)@),
    {
        let mut listener: Option<String> = None;
        std::mem::swap(&mut listener, &mut self.listener);
        match listener {
            Some(addr) => {
                Turn {
                    says: say::one(Say::Info(text::cat2("stopped listening on ", &addr))),
                    ask: Ask::StopListening,
                }
            },
            None => {
                assert(self@ =~= old(self)@);
                Turn::says(Say::Info("not listening".to_owned()))
            },
        }
    }

    fn finish_once(&mut self, ok: bool)
        requires
            old(self).wf(),
        ensures
            final(self).wf(),
            final(self)@ == model::finish_once(old(self)@, ok),
    {
        if self.cfg.once.is_some() {
            self.exit_code = Some(
                if ok {
                    0
                } else {
                    1
                },
            );
        }
        assert(self@ =~= model::finish_once(old(self)@, ok));
    }

    /// Ends the running exchange.
    pub fn abort(&mut self, reason: &str) -> (r: Turn)
        requires
            old(self).wf(),
        ensures
            final(self).wf(),
            (final(self)@, r@) == model::aborts(old(self)@, reason@),
    {
        match &mut self.mode {
            Mode::Exchange { ex, .. } => {
                let actions = ex.abort(reason);
                Turn::asks(Ask::Apply(actions))
            },
            _ => Turn::silent(),
        }
    }

    /// A message was written to the outbox, or could not be.
    pub fn stored(&self, message: Message, r: Result<(), String>) -> (t: Turn)
        ensures
            t@ == (match r {
                Ok(_) => model::says(SayView::Queued(message@)),
                Err(e) => model::says(SayView::Error("cannot write to the outbox: "@ + e@)),
            }),
    {
        match r {
            Ok(()) => Turn::says(Say::Queued(message)),
            Err(e) => Turn::says(Say::Error(text::cat2("cannot write to the outbox: ", &e))),
        }
    }

    /// A folder was read, or could not be.
    pub fn listed(&mut self, folder: Folder, found: Result<Vec<Found>, String>) -> (r: Turn)
        requires
            old(self).wf(),
        ensures
            final(self).wf(),
            (final(self)@, r@) == model::listed(old(self)@, folder, found_in(found)),
    {
        match found {
            Ok(v) => {
                let (entries, faults) = Mailbox::list(v);
                let mut says = warn_all("skipped unreadable ", &faults);
                self.listing = Some((folder, mids_of(&entries)));
                say::put(&mut says, Say::Listing(folder, entries));
                Turn { says, ask: Ask::Nothing }
            },
            Err(e) => Turn::says(
                Say::Error(text::cat4("cannot read ", folder.label(), ": ", &e)),
            ),
        }
    }

    /// A message was read, or could not be.
    pub fn read(
        &self,
        purpose: Purpose,
        folder: Folder,
        mid: String,
        raw: Result<Vec<u8>, String>,
    ) -> (r: Turn)
        ensures
            r@ == model::read(purpose@, folder, mid@, content(raw)),
    {
        let bytes = match raw {
            Ok(bytes) => bytes,
            Err(e) => {
                return Turn::says(Say::Error(text::cat3(&mid, ": ", &e)));
            },
        };
        match Message::parse(&bytes) {
            Err(e) => Turn::says(Say::Error(text::cat3(&mid, ": ", &e))),
            Ok(message) => match purpose {
                Purpose::Show => Turn::says(Say::Whole(message)),
                Purpose::Save(dir) => {
                    assert(message@.files.len() == message.files@.len());
                    if message.files.len() == 0 {
                        Turn::says(Say::Info("this message has no attachments".to_owned()))
                    } else {
                        Turn::asks(Ask::Save { message, dir })
                    }
                },
                Purpose::Delete => Turn::asks(Ask::Delete { folder, mid }),
            },
        }
    }

    /// A message was deleted, or could not be.
    pub fn deleted(&mut self, folder: Folder, mid: &str, r: Result<(), String>) -> (t: Turn)
        requires
            old(self).wf(),
        ensures
            final(self).wf(),
            (final(self)@, t@) == model::deleted(old(self)@, folder, mid@, model::outcome(r)),
    {
        match r {
            Ok(()) => {
                self.listing = None;
                Turn::says(Say::Info(text::cat4("deleted ", mid, " from ", folder.label())))
            },
            Err(e) => Turn::says(Say::Error(text::cat4("cannot delete ", mid, ": ", &e))),
        }
    }

    /// A file to be attached was read, or could not be.
    pub fn attached(&mut self, path: &str, file: Result<Read, String>) -> (r: Turn)
        requires
            old(self).wf(),
        ensures
            final(self).wf(),
            (final(self)@, r@) == model::attached(old(self)@, path@, file),
    {
        let ghost before = self@;
        let mut mode = Mode::Idle;
        std::mem::swap(&mut mode, &mut self.mode);
        match mode {
            Mode::Compose(c) => {
                let (d, says) = compose::attach(c, path, file);
                self.mode = Mode::Compose(d);
                Turn { says, ask: Ask::Nothing }
            },
            other => {
                self.mode = other;
                assert(self@ =~= before);
                Turn::silent()
            },
        }
    }

    /// A station was reached, or not.
    pub fn reached(&mut self, t: &Target, r: Result<(), String>) -> (turn: Turn)
        requires
            old(self).wf(),
        ensures
            final(self).wf(),
            (final(self)@, turn@) == model::reached(old(self)@, t@, model::outcome(r)),
    {
        let plan = target::plan(&self.cfg, t);
        match r {
            Ok(()) => Turn::asks(Ask::Begin { link: plan.link, remote: plan.remote }),
            Err(e) => {
                self.finish_once(false);
                let hint = match t {
                    Target::Ax25 { .. } => " — is Direwolf running with its AGW port enabled?",
                    _ => "",
                };
                let s = text::cat5("cannot reach ", &plan.addr, ": ", &e, hint);
                Turn::says(Say::Error(s))
            },
        }
    }

    /// Begins an exchange on a connection. `outbox` holds the messages to be
    /// sent and `known` the names of the files in the inbox and the archive;
    /// `socket` tells whether the connection can be used.
    pub fn run_exchange(
        &mut self,
        link: LinkSpec,
        remote: String,
        outbox: Result<Vec<Found>, String>,
        known: &[String],
        socket: Result<(), String>,
        now_ms: u64,
    ) -> (r: Turn)
        requires
            old(self).wf(),
        ensures
            final(self).wf(),
            (final(self)@, r@) == model::begun(
                old(self)@,
                link@,
                remote@,
                found_in(outbox),
                text::texts(known@),
                model::outcome(socket),
                now_ms as int,
            ),
    {
        let ghost (cfg, spec_link) = (self@.cfg, link@);
        let ghost (messages, notes) = model::outbound(found_in(outbox));
        let mut says: Vec<Say>;
        let outbound: Vec<Outbound>;
        match outbox {
            Ok(v) => {
                let (entries, faults) = Mailbox::list(v);
                says = warn_all("skipped unreadable ", &faults);
                outbound = ready(&entries, &mut says);
            },
            Err(e) => {
                says = say::one(Say::Error(text::cat2("cannot read the outbox: ", &e)));
                outbound = Vec::new();
                assert(session::outbound_views(outbound@) =~= seq![]);
            },
        }
        assert(session::outbound_views(outbound@) == messages);
        assert(say::say_views(says@) == notes);
        assert(messages.len() == outbound@.len());
        if outbound.len() > 0 {
            let s = text::cat2(&text::size_text(outbound.len()), " message(s) in the outbox");
            say::put(&mut says, Say::Info(s));
        }
        let idle_timeout_ms = match self.cfg.timeout {
            Some(s) => if s > u64::MAX / 1000 {
                u64::MAX
            } else {
                s * 1000
            },
            None => ExchangeConfig::default_timeout(&link),
        };
        assert(idle_timeout_ms == model::timeout_ms(cfg, spec_link));
        let cfg = ExchangeConfig {
            mycall: self.cfg.call.clone(),
            target: remote,
            locator: self.cfg.locator.clone(),
            password: exchange::copied_option(&self.cfg.password),
            link,
            idle_timeout_ms,
        };
        assert(cfg@ =~= model::exchange_config(self@.cfg, spec_link, remote@));
        let id = self.next_id;
        if self.next_id < u64::MAX {
            self.next_id = self.next_id + 1;
        }
        match socket {
            Err(e) => {
                say::put(&mut says, Say::Error(text::cat2("socket error: ", &e)));
                self.finish_once(false);
                Turn { says, ask: Ask::Nothing }
            },
            Ok(()) => {
                let mut ex = Exchange::new(cfg, outbound, Mailbox::known_mids(known));
                let actions = ex.start(now_ms);
                self.mode = Mode::Exchange { id, ex };
                Turn { says, ask: Ask::Apply(actions) }
            },
        }
    }

    /// Takes one action of the exchange.
    pub fn act(&mut self, action: Action) -> (r: Turn)
        requires
            old(self).wf(),
        ensures
            final(self).wf(),
            (final(self)@, r@) == model::acted(old(self)@, action@),
    {
        match &self.mode {
            Mode::Exchange { .. } => {},
            _ => {
                return Turn::asks(Ask::Stop);
            },
        }
        match action {
            Action::Transmit(bytes) => Turn::asks(Ask::Send(bytes)),
            Action::Log(kind, s) => Turn::says(Say::Log(kind, s)),
            Action::Received { message, raw } => Turn::asks(Ask::Keep { message, raw }),
            Action::Delivered(mid) => Turn::asks(Ask::MoveToSent { mid, already: false }),
            Action::AlreadyDelivered(mid) => Turn::asks(Ask::MoveToSent { mid, already: true }),
            Action::Deferred(mid) => Turn::says(Say::Deferred(mid)),
            Action::Close => Turn::asks(Ask::Shutdown),
            Action::Done { ok, summary } => {
                self.mode = Mode::Idle;
                self.listing = None;
                self.finish_once(ok);
                Turn::says(Say::Done { ok, summary })
            },
        }
    }

    /// Bytes could not be sent.
    pub fn write_failed(&mut self, error: &str) -> (r: Turn)
        requires
            old(self).wf(),
        ensures
            final(self).wf(),
            (final(self)@, r@) == model::aborts(old(self)@, "write failed: "@ + error@),
    {
        self.abort(&text::cat2("write failed: ", error))
    }

    /// A received message was stored, or could not be.
    pub fn kept(&self, message: Message, r: Result<(), String>) -> (t: Turn)
        ensures
            t@ == model::kept(message@, model::outcome(r)),
    {
        match r {
            Ok(()) => Turn::says(Say::Received(message)),
            Err(e) => Turn::says(
                Say::Error(
                    text::cat4("received ", message.mid(), " but cannot save it: ", &e),
                ),
            ),
        }
    }

    /// A delivered message was moved, or could not be.
    pub fn moved(&self, mid: String, already: bool, r: Result<(), String>) -> (t: Turn)
        ensures
            t@ == model::moved(mid@, already, model::outcome(r)),
    {
        let fault = match r {
            Ok(()) => None,
            Err(e) => Some(
                Say::Error(
                    text::cat3(&mid, " was delivered but could not be moved to sent: ", &e),
                ),
            ),
        };
        let word = if already {
            Say::AlreadyDelivered(mid)
        } else {
            Say::Delivered(mid)
        };
        match fault {
            None => Turn::says(word),
            Some(e) => Turn { says: say::two(e, word), ask: Ask::Nothing },
        }
    }

    /// Calls are accepted at the address, or cannot be.
    pub fn listening(&mut self, addr: String, r: Result<(), String>) -> (t: Turn)
        requires
            old(self).wf(),
        ensures
            final(self).wf(),
            match r {
                Ok(_) => {
                    &&& final(self)@ == (AppView { listener: Some(addr@), ..old(self)@ })
                    &&& t@ == model::says(
                        SayView::Success(
                            "listening for peer-to-peer calls on "@ + addr@ + "; stop ends it"@,
                        ),
                    )
                },
                Err(e) => {
                    &&& final(self)@ == old(self)@
                    &&& t@ == model::says(
                        SayView::Error("cannot listen on "@ + addr@ + ": "@ + e@),
                    )
                },
            },
    {
        match r {
            Ok(()) => {
                let s = text::cat3("listening for peer-to-peer calls on ", &addr, "; stop ends it");
                self.listener = Some(addr);
                Turn::says(Say::Success(s))
            },
            Err(e) => Turn::says(Say::Error(text::cat4("cannot listen on ", &addr, ": ", &e))),
        }
    }

    /// Calls are no longer accepted.
    pub fn listen_failed(&mut self, error: &str) -> (t: Turn)
        requires
            old(self).wf(),
        ensures
            final(self).wf(),
            final(self)@ == (AppView { listener: None, ..old(self)@ }),
            t@ == model::says(SayView::Error("listener stopped: "@ + error@)),
    {
        self.listener = None;
        Turn::says(Say::Error(text::cat2("listener stopped: ", error)))
    }

    /// A station calls.
    pub fn accepted(&self, peer: &str) -> (r: Turn)
        ensures
            r@ == model::accepted(self@, peer@),
    {
        if self.busy() {
            Turn {
                says: say::one(Say::Warn(text::cat3("refused a call from ", peer, ": busy"))),
                ask: Ask::Refuse,
            }
        } else {
            Turn {
                says: say::one(Say::Info(text::cat2("incoming call from ", peer))),
                ask: Ask::Begin { link: LinkSpec::TelnetAnswer, remote: "".to_owned() },
            }
        }
    }

    /// Bytes arrived on the connection with this number.
    pub fn net(&mut self, id: u64, data: &[u8], now_ms: u64) -> (r: Turn)
        requires
            old(self).wf(),
        ensures
            final(self).wf(),
            (final(self)@, r@) == model::arrived(old(self)@, id as int, data@, now_ms as int),
    {
        match &mut self.mode {
            Mode::Exchange { id: mine, ex } => if *mine == id {
                let actions = ex.on_bytes(data, now_ms);
                Turn::asks(Ask::Apply(actions))
            } else {
                Turn::silent()
            },
            _ => Turn::silent(),
        }
    }

    /// The connection with this number was closed.
    pub fn net_closed(&mut self, id: u64, reason: Option<String>) -> (r: Turn)
        requires
            old(self).wf(),
        ensures
            final(self).wf(),
            (final(self)@, r@) == model::closed(
                old(self)@,
                id as int,
                session::opt_text(reason),
            ),
    {
        match &mut self.mode {
            Mode::Exchange { id: mine, ex } => if *mine == id {
                let actions = ex.on_closed();
                let says = match reason {
                    Some(e) => say::one(Say::Warn(text::cat2("link error: ", &e))),
                    None => say::nothing(),
                };
                Turn { says, ask: Ask::Apply(actions) }
            } else {
                Turn::silent()
            },
            _ => Turn::silent(),
        }
    }

    /// Timers; to be called about twice a second.
    pub fn tick(&mut self, now_ms: u64) -> (r: Turn)
        requires
            old(self).wf(),
        ensures
            final(self).wf(),
            (final(self)@, r@) == model::ticked(old(self)@, now_ms as int),
    {
        match &mut self.mode {
            Mode::Exchange { ex, .. } => {
                let actions = ex.poll(now_ms);
                Turn::asks(Ask::Apply(actions))
            },
            _ => Turn::silent(),
        }
    }

    /// Nothing more will be typed.
    pub fn input_closed(&mut self) -> (r: Turn)
        requires
            old(self).wf(),
        ensures
            final(self).wf(),
            (final(self)@, r@) == model::input_closed(old(self)@),
    {
        self.input_open = false;
        let asking = match &self.mode {
            Mode::Compose(_) => true,
            Mode::Password(_) => true,
            _ => false,
        };
        if asking {
            self.mode = Mode::Idle;
            Turn::says(Say::Echo(true))
        } else {
            Turn::silent()
        }
    }
}

} // verus!

//! One message exchange: a link layer (telnet login, AGW connected mode, or a
//! raw stream) carrying a B2F [`Session`]. Network-free like the session:
//! feed transport bytes, apply the returned [`Action`]s.

use vstd::prelude::*;

use crate::agw;
use crate::message::Message;
use crate::session;
use crate::session::{Event, LogKind, Outbound, OutboundView, Session, SessionConfig};
use crate::telnet;
use crate::text;
use crate::text::Class;
use crate::unicode;

pub mod event_laws;
pub mod laws;
pub mod link_laws;
pub mod model;
pub mod packet_laws;
pub mod password_laws;

pub use crate::exchange::model::{ActionView, AgwPhase, ExchangeView};
use crate::exchange::model::{AgwView, LinkView, Run};

verus! {

/// How the other station is reached.
#[derive(Debug)]
pub enum LinkSpec {
    /// TCP with the Winlink telnet login (CMS, or calling a peer).
    Telnet { login_password: String },
    /// We answer a peer-to-peer telnet call: prompt, then act as master.
    TelnetAnswer,
    /// AX.25 connected mode through an AGW server such as Direwolf.
    Agw { port: u8, via: Vec<String>, paclen: usize },
    /// The stream is B2F from the first byte.
    Raw,
}

/// What a link specification says.
#[verifier::ext_equal]
pub enum LinkSpecView {
    Telnet { login_password: Seq<char> },
    TelnetAnswer,
    Agw { port: u8, via: Seq<Seq<char>>, paclen: int },
    Raw,
}

impl View for LinkSpec {
    type V = LinkSpecView;

    open spec fn view(&self) -> LinkSpecView {
        match self {
            LinkSpec::Telnet { login_password } => LinkSpecView::Telnet {
                login_password: login_password@,
            },
            LinkSpec::TelnetAnswer => LinkSpecView::TelnetAnswer,
            LinkSpec::Agw { port, via, paclen } => LinkSpecView::Agw {
                port: *port,
                via: text::texts(via@),
                paclen: *paclen as int,
            },
            LinkSpec::Raw => LinkSpecView::Raw,
        }
    }
}

impl Clone for LinkSpec {
    fn clone(&self) -> (r: LinkSpec)
        ensures
            r@ == self@,
    {
        match self {
            LinkSpec::Telnet { login_password } => LinkSpec::Telnet {
                login_password: login_password.clone(),
            },
            LinkSpec::TelnetAnswer => LinkSpec::TelnetAnswer,
            LinkSpec::Agw { port, via, paclen } => LinkSpec::Agw {
                port: *port,
                via: text::copied(via),
                paclen: *paclen,
            },
            LinkSpec::Raw => LinkSpec::Raw,
        }
    }
}

/// How an exchange is made.
#[derive(Debug)]
pub struct ExchangeConfig {
    pub mycall: String,
    /// `WL2K` for the CMS, the gateway or peer call otherwise. Learned from
    /// the login when answering.
    pub target: String,
    pub locator: String,
    pub password: Option<String>,
    pub link: LinkSpec,
    /// Give up after this long without hearing the remote.
    pub idle_timeout_ms: u64,
}

/// Radio links are slow and retry a lot.
pub open spec fn usual_timeout(link: LinkSpecView) -> int {
    match link {
        LinkSpecView::Agw { .. } => 600_000,
        _ => 120_000,
    }
}

impl ExchangeConfig {
    /// Sensible idle timeout: radio links are slow and retry a lot.
    pub fn default_timeout(link: &LinkSpec) -> (r: u64)
        ensures
            r == usual_timeout(link@),
    {
        match link {
            LinkSpec::Agw { .. } => 600_000,
            _ => 120_000,
        }
    }
}

#[verifier::ext_equal]
pub struct ExchangeConfigView {
    pub mycall: Seq<char>,
    pub target: Seq<char>,
    pub locator: Seq<char>,
    pub password: Option<Seq<char>>,
    pub link: LinkSpecView,
    pub idle_timeout_ms: int,
}

impl View for ExchangeConfig {
    type V = ExchangeConfigView;

    open spec fn view(&self) -> ExchangeConfigView {
        ExchangeConfigView {
            mycall: self.mycall@,
            target: self.target@,
            locator: self.locator@,
            password: session::opt_text(self.password),
            link: self.link@,
            idle_timeout_ms: self.idle_timeout_ms as int,
        }
    }
}

impl Clone for ExchangeConfig {
    fn clone(&self) -> (r: ExchangeConfig)
        ensures
            r@ == self@,
    {
        ExchangeConfig {
            mycall: self.mycall.clone(),
            target: self.target.clone(),
            locator: self.locator.clone(),
            password: copied_option(&self.password),
            link: self.link.clone(),
            idle_timeout_ms: self.idle_timeout_ms,
        }
    }
}

pub(crate) fn copied_option(o: &Option<String>) -> (r: Option<String>)
    ensures
        session::opt_text(r) == session::opt_text(*o),
{
    match o {
        Some(s) => Some(s.clone()),
        None => None,
    }
}

/// What an exchange wants done.
#[derive(Debug)]
pub enum Action {
    /// Bytes for the transport (TCP or WebSocket).
    Transmit(Vec<u8>),
    Log(LogKind, String),
    Received { message: Message, raw: Vec<u8> },
    Delivered(String),
    AlreadyDelivered(String),
    Deferred(String),
    /// Close the transport now.
    Close,
    /// The exchange is over; emitted exactly once.
    Done { ok: bool, summary: String },
}

impl View for Action {
    type V = ActionView;

    open spec fn view(&self) -> ActionView {
        match self {
            Action::Transmit(b) => ActionView::Transmit(b@),
            Action::Log(kind, line) => ActionView::Log(*kind, line@),
            Action::Received { message, raw } => ActionView::Received {
                message: message@,
                raw: raw@,
            },
            Action::Delivered(mid) => ActionView::Delivered(mid@),
            Action::AlreadyDelivered(mid) => ActionView::AlreadyDelivered(mid@),
            Action::Deferred(mid) => ActionView::Deferred(mid@),
            Action::Close => ActionView::Close,
            Action::Done { ok, summary } => ActionView::Done { ok: *ok, summary: summary@ },
        }
    }
}

/// What some actions say.
pub open spec fn action_views(v: Seq<Action>) -> Seq<ActionView> {
    Seq::new(v.len(), |i: int| v[i]@)
}

#[derive(Debug)]
struct AgwLink {
    port: u8,
    via: Vec<String>,
    paclen: usize,
    decoder: agw::Decoder,
    phase: AgwPhase,
    phase_since: u64,
    last_query: u64,
}

impl AgwLink {
    spec fn model(&self) -> AgwView {
        AgwView {
            port: self.port,
            via: text::texts(self.via@),
            paclen: self.paclen as int,
            buf: self.decoder@,
            phase: self.phase,
            phase_since: self.phase_since as int,
            last_query: self.last_query as int,
        }
    }
}

#[derive(Debug)]
enum Link {
    Telnet(telnet::Login),
    Answer(telnet::Accept),
    Agw(AgwLink),
    Raw,
}

impl Link {
    spec fn model(&self) -> LinkView {
        match self {
            Link::Telnet(l) => LinkView::Telnet(l@),
            Link::Answer(a) => LinkView::Answer(a@),
            Link::Agw(l) => LinkView::Agw(l.model()),
            Link::Raw => LinkView::Raw,
        }
    }

    /// The packet length is in range.
    spec fn inv(&self) -> bool {
        self matches Link::Agw(l) ==> 16 <= l.paclen <= 256
    }
}

/// Messages and known IDs.
spec fn pending_view(p: Option<(Vec<Outbound>, Vec<String>)>) -> Option<
    (Seq<OutboundView>, Set<Seq<char>>),
> {
    match p {
        Some((outbound, known)) => Some(
            (session::outbound_views(outbound@), text::texts(known@).to_set()),
        ),
        None => None,
    }
}

/// One message exchange.
#[derive(Debug)]
pub struct Exchange {
    mycall: String,
    target: String,
    locator: String,
    password: Option<String>,
    idle_timeout_ms: u64,
    link: Link,
    session: Option<Session>,
    pending: Option<(Vec<Outbound>, Vec<String>)>,
    last_rx: u64,
    now: u64,
    finished_ok: bool,
    done: bool,
    delivered: usize,
    received: usize,
    logged_in: bool,
}

impl View for Exchange {
    type V = ExchangeView;

    closed spec fn view(&self) -> ExchangeView {
        ExchangeView {
            mycall: self.mycall@,
            target: self.target@,
            locator: self.locator@,
            password: session::opt_text(self.password),
            idle_timeout_ms: self.idle_timeout_ms as int,
            link: self.link.model(),
            session: match self.session {
                Some(s) => Some(s@),
                None => None,
            },
            pending: pending_view(self.pending),
            last_rx: self.last_rx as int,
            now: self.now as int,
            finished_ok: self.finished_ok,
            done: self.done,
            delivered: self.delivered as int,
            received: self.received as int,
            logged_in: self.logged_in,
        }
    }
}

/// The packet length within its limits.
pub open spec fn clamped(paclen: int) -> int {
    if paclen < 16 {
        16
    } else if paclen > 256 {
        256
    } else {
        paclen
    }
}

/// The link at the start.
pub open spec fn fresh_link(spec: LinkSpecView, mycall: Seq<char>) -> LinkView {
    match spec {
        LinkSpecView::Telnet { login_password } => LinkView::Telnet(
            telnet::LoginView {
                call: mycall,
                password: login_password,
                buf: seq![],
                done: false,
            },
        ),
        LinkSpecView::TelnetAnswer => LinkView::Answer(
            telnet::AcceptView { stage: 0, buf: seq![], remote: seq![] },
        ),
        LinkSpecView::Agw { port, via, paclen } => LinkView::Agw(
            AgwView {
                port,
                via,
                paclen: clamped(paclen),
                buf: seq![],
                phase: AgwPhase::Calling,
                phase_since: 0,
                last_query: 0,
            },
        ),
        LinkSpecView::Raw => LinkView::Raw,
    }
}

/// An exchange at the start. The answering side does not know yet who calls,
/// so its session comes later.
pub open spec fn fresh(
    cfg: ExchangeConfigView,
    outbound: Seq<OutboundView>,
    known: Set<Seq<char>>,
) -> ExchangeView {
    let x = ExchangeView {
        mycall: cfg.mycall,
        target: cfg.target,
        locator: cfg.locator,
        password: cfg.password,
        idle_timeout_ms: cfg.idle_timeout_ms,
        link: fresh_link(cfg.link, cfg.mycall),
        session: None,
        pending: Some((outbound, known)),
        last_rx: 0,
        now: 0,
        finished_ok: false,
        done: false,
        delivered: 0,
        received: 0,
        logged_in: false,
    };
    if cfg.link is TelnetAnswer {
        x
    } else {
        model::create_session(x, cfg.target, false)
    }
}

/// An exchange and its actions.
spec fn run(x: Exchange, out: Seq<Action>) -> Run {
    Run { x: x@, out: action_views(out) }
}

fn act(out: &mut Vec<Action>, a: Action)
    ensures
        action_views(final(out)@) == action_views(old(out)@).push(a@),
{
    let ghost x = a@;
    out.push(a);
    assert(action_views(out@) =~= action_views(old(out)@).push(x));
}

fn log(out: &mut Vec<Action>, kind: LogKind, line: &str)
    ensures
        action_views(final(out)@) == action_views(old(out)@).push(ActionView::Log(kind, line@)),
{
    act(out, Action::Log(kind, line.to_owned()));
}

fn send(out: &mut Vec<Action>, bytes: Vec<u8>)
    ensures
        action_views(final(out)@) == action_views(old(out)@).push(ActionView::Transmit(bytes@)),
{
    act(out, Action::Transmit(bytes));
}

fn time_since(now: u64, since: u64) -> (r: u64)
    ensures
        r == model::elapsed(now as int, since as int),
{
    if now > since {
        now - since
    } else {
        0
    }
}

impl Exchange {
    /// The packet length is in range, and so are the session's indices.
    pub closed spec fn wf(&self) -> bool {
        self.link.inv() && (self.session matches Some(s) ==> s.wf())
    }

    /// `known` are MIDs already received (refused as duplicates).
    pub fn new(cfg: ExchangeConfig, outbound: Vec<Outbound>, known: Vec<String>) -> (r: Exchange)
        ensures
            r.wf(),
            r@ == fresh(
                cfg@,
                session::outbound_views(outbound@),
                text::texts(known@).to_set(),
            ),
    {
        let ghost given = cfg;
        let ghost pending = (
            session::outbound_views(outbound@),
            text::texts(known@).to_set(),
        );
        let mut answering = false;
        let link = match &cfg.link {
            LinkSpec::Telnet { login_password } => Link::Telnet(
                telnet::Login::new(&cfg.mycall, login_password),
            ),
            LinkSpec::TelnetAnswer => {
                answering = true;
                Link::Answer(telnet::Accept::default())
            },
            LinkSpec::Agw { port, via, paclen } => {
                let n: usize = *paclen;
                Link::Agw(
                    AgwLink {
                        port: *port,
                        via: text::copied(via),
                        paclen: if n < 16 {
                            16
                        } else if n > 256 {
                            256
                        } else {
                            n
                        },
                        decoder: agw::Decoder::default(),
                        phase: AgwPhase::Calling,
                        phase_since: 0,
                        last_query: 0,
                    },
                )
            },
            LinkSpec::Raw => Link::Raw,
        };
        assert(link.model() =~= fresh_link(given.link@, given.mycall@));
        let target = cfg.target.clone();
        let mut ex = Exchange {
            mycall: cfg.mycall,
            target: cfg.target,
            locator: cfg.locator,
            password: cfg.password,
            idle_timeout_ms: cfg.idle_timeout_ms,
            link,
            session: None,
            pending: Some((outbound, known)),
            last_rx: 0,
            now: 0,
            finished_ok: false,
            done: false,
            delivered: 0,
            received: 0,
            logged_in: false,
        };
        if !answering {
            ex.create_session(&target, false);
        }
        ex
    }

    fn create_session(&mut self, target: &str, master: bool)
        requires
            old(self).wf(),
        ensures
            final(self).wf(),
            final(self)@ == model::create_session(old(self)@, target@, master),
    {
        let mut pending: Option<(Vec<Outbound>, Vec<String>)> = None;
        std::mem::swap(&mut pending, &mut self.pending);
        let (outbound, known) = match pending {
            Some(p) => p,
            None => {
                let a: Vec<Outbound> = Vec::new();
                let b: Vec<String> = Vec::new();
                assert(session::outbound_views(a@) =~= seq![]);
                assert(text::texts(b@) =~= seq![]);
                assert(text::texts(b@).to_set() =~= Set::<Seq<char>>::empty());
                (a, b)
            },
        };
        let cfg = SessionConfig {
            mycall: self.mycall.clone(),
            targetcall: target.to_owned(),
            locator: self.locator.clone(),
            password: copied_option(&self.password),
            master,
        };
        self.session = Some(Session::new(cfg, outbound, known));
    }

    /// Is the exchange over?
    pub fn is_done(&self) -> (r: bool)
        ensures
            r == self@.done,
    {
        self.done
    }

    /// The exchange starts.
    pub fn start(&mut self, now_ms: u64) -> (out: Vec<Action>)
        requires
            old(self).wf(),
        ensures
            final(self).wf(),
            (Run { x: final(self)@, out: action_views(out@) }) == model::started(
                old(self)@,
                now_ms as int,
            ),
    {
        self.now = now_ms;
        self.last_rx = now_ms;
        let mut out: Vec<Action> = Vec::new();
        assert(action_views(out@) =~= seq![]);
        match &self.link {
            Link::Telnet(_) => {
                log(&mut out, LogKind::Info, &text::cat2("logging in as ", &self.mycall));
            },
            Link::Answer(_) => {
                send(&mut out, text::utf8_bytes("Callsign :\r"));
            },
            Link::Agw(_) => self.call(&mut out),
            Link::Raw => self.start_session(&mut out),
        }
        out
    }

    /// Asks the AGW server to connect.
    fn call(&mut self, out: &mut Vec<Action>)
        requires
            old(self).wf(),
            old(self)@.link is Agw,
        ensures
            final(self).wf(),
            run(*final(self), final(out)@) == model::calls(
                run(*old(self), old(out)@),
                old(self)@.link->Agw_0,
            ),
    {
        let now = self.now;
        let mut bytes: Vec<u8> = Vec::new();
        if let Link::Agw(l) = &self.link {
            assert(text::texts(l.via@).len() == l.via@.len());
            let via = if l.via.len() == 0 {
                String::new()
            } else {
                text::cat2(" via ", &text::joined(&l.via, ","))
            };
            assert(l.via@.len() == 0 ==> via@ =~= seq![]);
            log(out, LogKind::Info, &text::cat3("calling ", &self.target, &via));
            bytes = agw::register(l.port, &self.mycall);
            let ghost first = bytes@;
            let more = agw::connect(l.port, &self.mycall, &self.target, &l.via);
            bytes.extend_from_slice(&more);
            assert(bytes@ =~= first + more@);
        }
        send(out, bytes);
        if let Link::Agw(l) = &mut self.link {
            l.phase_since = now;
        }
    }

    /// Bytes came over the transport.
    pub fn on_bytes(&mut self, data: &[u8], now_ms: u64) -> (out: Vec<Action>)
        requires
            old(self).wf(),
        ensures
            final(self).wf(),
            (Run { x: final(self)@, out: action_views(out@) }) == model::on_bytes(
                old(self)@,
                data@,
                now_ms as int,
            ),
    {
        self.now = now_ms;
        self.last_rx = now_ms;
        let mut out: Vec<Action> = Vec::new();
        assert(action_views(out@) =~= seq![]);
        if self.done {
            return out;
        }
        match &mut self.link {
            Link::Telnet(login) => {
                let steps = login.feed(data);
                self.on_steps(steps, None, &mut out);
            },
            Link::Answer(accept) => {
                let steps = accept.feed(data);
                let remote = accept.remote_call().to_owned();
                self.on_steps(steps, Some(remote), &mut out);
            },
            Link::Agw(l) => {
                match l.decoder.push(data) {
                    Ok(frames) => self.on_frames(frames, &mut out),
                    Err(e) => self.finish(false, &e, &mut out),
                }
            },
            Link::Raw => self.feed_session(data, &mut out),
        }
        out
    }

    /// Acts on the steps of a login.
    fn on_steps(&mut self, steps: Vec<telnet::Step>, remote: Option<String>, out: &mut Vec<Action>)
        requires
            old(self).wf(),
        ensures
            final(self).wf(),
            run(*final(self), final(out)@) == model::login_steps(
                run(*old(self), old(out)@),
                telnet::step_views(steps@),
                session::opt_text(remote),
            ),
    {
        let ghost all = telnet::step_views(steps@);
        let ghost goal = model::login_steps(run(*self, out@), all, session::opt_text(remote));
        assert(all.skip(0) =~= all);
        for i in 0..steps.len()
            invariant
                all == telnet::step_views(steps@),
                self.wf(),
                model::login_steps(
                    run(*self, out@),
                    all.skip(i as int),
                    session::opt_text(remote),
                ) == goal,
                goal == model::login_steps(
                    run(*old(self), old(out)@),
                    telnet::step_views(steps@),
                    session::opt_text(remote),
                ),
        {
            let ghost rest = all.skip(i as int);
            assert(rest[0] == steps@[i as int]@);
            assert(rest.drop_first() =~= all.skip(i + 1));
            match &steps[i] {
                telnet::Step::Send(bytes) => {
                    send(out, bytes.clone());
                },
                telnet::Step::Banner(line) => {
                    log(out, LogKind::Rx, line);
                },
                telnet::Step::Failed(reason) => {
                    self.finish(false, reason, out);
                    return;
                },
                telnet::Step::Done(rest) => {
                    self.on_login(rest, &remote, out);
                },
            }
        }
        assert(all.skip(all.len() as int) =~= seq![]);
    }

    /// The login is done.
    fn on_login(&mut self, rest: &[u8], remote: &Option<String>, out: &mut Vec<Action>)
        requires
            old(self).wf(),
        ensures
            final(self).wf(),
            run(*final(self), final(out)@) == model::logged_in(
                run(*old(self), old(out)@),
                rest@,
                session::opt_text(*remote),
            ),
    {
        if !self.logged_in {
            self.logged_in = true;
            match remote {
                Some(call) => {
                    log(out, LogKind::Info, &text::cat2(call, " logged in"));
                    self.target = call.clone();
                    self.create_session(call, true);
                    self.start_session(out);
                },
                None => {
                    log(out, LogKind::Info, "logged in");
                },
            }
        }
        self.feed_session(rest, out);
    }

    /// Acts on some frames, until the exchange is over.
    fn on_frames(&mut self, frames: Vec<agw::Frame>, out: &mut Vec<Action>)
        requires
            old(self).wf(),
        ensures
            final(self).wf(),
            run(*final(self), final(out)@) == model::on_frames(
                run(*old(self), old(out)@),
                agw::frame_views(frames@),
            ),
    {
        let ghost all = agw::frame_views(frames@);
        let ghost goal = model::on_frames(run(*self, out@), all);
        assert(all.skip(0) =~= all);
        for i in 0..frames.len()
            invariant
                all == agw::frame_views(frames@),
                self.wf(),
                model::on_frames(run(*self, out@), all.skip(i as int)) == goal,
                goal == model::on_frames(
                    run(*old(self), old(out)@),
                    agw::frame_views(frames@),
                ),
        {
            let ghost rest = all.skip(i as int);
            assert(rest[0] == frames@[i as int]@);
            assert(rest.drop_first() =~= all.skip(i + 1));
            self.on_agw_frame(&frames[i], out);
            if self.done {
                return;
            }
        }
        assert(all.skip(all.len() as int) =~= seq![]);
    }

    /// The transport closed underneath us.
    pub fn on_closed(&mut self) -> (out: Vec<Action>)
        requires
            old(self).wf(),
        ensures
            final(self).wf(),
            (Run { x: final(self)@, out: action_views(out@) }) == model::on_closed(old(self)@),
    {
        let mut out: Vec<Action> = Vec::new();
        assert(action_views(out@) =~= seq![]);
        if self.done {
            return out;
        }
        if self.finished_ok {
            self.finish(true, "", &mut out);
            return out;
        }
        self.close_session(&mut out);
        if !self.done {
            self.finish(false, "the link closed before the exchange started", &mut out);
        }
        out
    }

    /// Timers: idle timeout and the AGW disconnect handshake.
    pub fn poll(&mut self, now_ms: u64) -> (out: Vec<Action>)
        requires
            old(self).wf(),
        ensures
            final(self).wf(),
            (Run { x: final(self)@, out: action_views(out@) }) == model::polled(
                old(self)@,
                now_ms as int,
            ),
    {
        self.now = now_ms;
        let mut out: Vec<Action> = Vec::new();
        assert(action_views(out@) =~= seq![]);
        if self.done {
            return out;
        }
        if let Some((phase, since, last_query, port)) = self.agw_state() {
            match phase {
                AgwPhase::Draining => {
                    if time_since(now_ms, since) > model::DRAIN_LIMIT_MS {
                        log(
                            &mut out,
                            LogKind::Warn,
                            "frames still unacknowledged; disconnecting anyway",
                        );
                        self.set_agw_phase(AgwPhase::Disconnecting);
                        send(&mut out, agw::disconnect(port, &self.mycall, &self.target));
                    } else if time_since(now_ms, last_query) >= model::DRAIN_POLL_MS {
                        if let Link::Agw(l) = &mut self.link {
                            l.last_query = now_ms;
                        }
                        send(&mut out, agw::outstanding_query(port, &self.mycall, &self.target));
                    }
                    return out;
                },
                AgwPhase::Disconnecting => {
                    if time_since(now_ms, since) > model::DISCONNECT_LIMIT_MS {
                        self.finish(true, "", &mut out);
                    }
                    return out;
                },
                _ => {},
            }
        }
        let idle = time_since(now_ms, self.last_rx);
        if idle > self.idle_timeout_ms {
            let reason = text::cat3("no response for ", &text::number(idle / 1000), " s");
            self.abort_with(&reason, &mut out);
        }
        out
    }

    /// User abort.
    pub fn abort(&mut self, reason: &str) -> (out: Vec<Action>)
        requires
            old(self).wf(),
        ensures
            final(self).wf(),
            (Run { x: final(self)@, out: action_views(out@) }) == model::aborted(
                Run { x: old(self)@, out: seq![] },
                reason@,
            ),
    {
        let mut out: Vec<Action> = Vec::new();
        assert(action_views(out@) =~= seq![]);
        self.abort_with(reason, &mut out);
        out
    }

    fn abort_with(&mut self, reason: &str, out: &mut Vec<Action>)
        requires
            old(self).wf(),
        ensures
            final(self).wf(),
            run(*final(self), final(out)@) == model::aborted(run(*old(self), old(out)@), reason@),
    {
        if self.done {
            return;
        }
        let ghost before = self@;
        if let Some(s) = &mut self.session {
            let events = s.abort(reason);
            assert(self@ =~= ExchangeView { session: Some(self.session->0@), ..before });
            self.apply(events, out);
        }
        if !self.done {
            self.finish(false, reason, out);
        }
    }

    fn feed_session(&mut self, data: &[u8], out: &mut Vec<Action>)
        requires
            old(self).wf(),
        ensures
            final(self).wf(),
            run(*final(self), final(out)@) == model::feed_session(
                run(*old(self), old(out)@),
                data@,
            ),
    {
        if data.len() == 0 {
            return;
        }
        let ghost before = self@;
        if let Some(s) = &mut self.session {
            let events = s.feed(data);
            assert(self@ =~= ExchangeView { session: Some(self.session->0@), ..before });
            self.apply(events, out);
        }
    }

    fn start_session(&mut self, out: &mut Vec<Action>)
        requires
            old(self).wf(),
        ensures
            final(self).wf(),
            run(*final(self), final(out)@) == model::start_session(run(*old(self), old(out)@)),
    {
        let ghost before = self@;
        if let Some(s) = &mut self.session {
            let events = s.start();
            assert(self@ =~= ExchangeView { session: Some(self.session->0@), ..before });
            self.apply(events, out);
        }
    }

    fn close_session(&mut self, out: &mut Vec<Action>)
        requires
            old(self).wf(),
        ensures
            final(self).wf(),
            run(*final(self), final(out)@) == model::stop_session(
                run(*old(self), old(out)@),
                model::link_closed(),
            ),
    {
        let ghost before = self@;
        if let Some(s) = &mut self.session {
            let events = s.remote_closed();
            assert(self@ =~= ExchangeView { session: Some(self.session->0@), ..before });
            self.apply(events, out);
        }
    }

    fn agw_state(&self) -> (r: Option<(AgwPhase, u64, u64, u8)>)
        ensures
            match self@.link {
                LinkView::Agw(l) => r matches Some(p) && p.0 == l.phase && p.1 == l.phase_since
                    && p.2 == l.last_query && p.3 == l.port,
                _ => r is None,
            },
    {
        match &self.link {
            Link::Agw(l) => Some((l.phase, l.phase_since, l.last_query, l.port)),
            _ => None,
        }
    }

    fn set_agw_phase(&mut self, phase: AgwPhase)
        requires
            old(self).wf(),
        ensures
            final(self).wf(),
            final(self)@ == model::in_phase(old(self)@, phase),
    {
        let now = self.now;
        if let Link::Agw(l) = &mut self.link {
            l.phase = phase;
            l.phase_since = now;
            l.last_query = now;
        }
    }

    /// A frame came from the AGW server.
    #[verifier::spinoff_prover]
    #[verifier::rlimit(40)]
    fn on_agw_frame(&mut self, frame: &agw::Frame, out: &mut Vec<Action>)
        requires
            old(self).wf(),
        ensures
            final(self).wf(),
            run(*final(self), final(out)@) == model::on_frame(run(*old(self), old(out)@), frame@),
    {
        let (phase, port) = match self.agw_state() {
            Some((phase, _, _, port)) => (phase, port),
            None => {
                return;
            },
        };
        if frame.port != port && frame.kind != 0x58 {
            return;
        }
        let decoded = unicode::decode_lossy(&frame.data);
        let cs = text::chars(&decoded);
        let line = text::string(text::trimmed_both(&cs, Class::SpaceOrNul));
        if frame.kind == 0x58 {
            if frame.data.len() > 0 && frame.data[0] == 1 {
                log(
                    out,
                    LogKind::Info,
                    &text::cat2(&self.mycall, " registered with the AGW server"),
                );
            } else {
                log(
                    out,
                    LogKind::Warn,
                    &text::cat2(
                        &self.mycall,
                        " is already registered by another program; continuing",
                    ),
                );
            }
        } else if frame.kind == 0x43 && phase == AgwPhase::Calling {
            self.set_agw_phase(AgwPhase::Connected);
            if line.as_str().is_empty() {
                log(out, LogKind::Success, &text::cat2("connected to ", &self.target));
            } else {
                log(out, LogKind::Success, &line);
            }
            self.start_session(out);
        } else if frame.kind == 0x44 && phase != AgwPhase::Calling {
            self.feed_session(&frame.data, out);
        } else if frame.kind == 0x64 {
            self.on_disconnected(phase, &line, out);
        } else if frame.kind == 0x59 && phase == AgwPhase::Draining {
            let n: usize = if frame.data.len() >= 4 {
                assert(frame.data@.take(4) =~= seq![
                    frame.data@[0],
                    frame.data@[1],
                    frame.data@[2],
                    frame.data@[3],
                ]);
                crate::lzhuf::read_le32(
                    frame.data[0],
                    frame.data[1],
                    frame.data[2],
                    frame.data[3],
                )
            } else {
                0
            };
            if n == 0 {
                self.set_agw_phase(AgwPhase::Disconnecting);
                send(out, agw::disconnect(port, &self.mycall, &self.target));
            }
        }
    }

    /// The other side hung up.
    fn on_disconnected(&mut self, phase: AgwPhase, line: &str, out: &mut Vec<Action>)
        requires
            old(self).wf(),
        ensures
            final(self).wf(),
            run(*final(self), final(out)@) == model::disconnected(
                run(*old(self), old(out)@),
                phase,
                line@,
            ),
    {
        if !line.is_empty() {
            log(out, LogKind::Rx, line);
        }
        if phase == AgwPhase::Calling {
            let why = if line.is_empty() {
                "no answer"
            } else {
                line
            };
            let reason = text::cat5("could not connect to ", &self.target, " (", why, ")");
            self.finish(false, &reason, out);
        } else if self.finished_ok {
            self.finish(true, "", out);
        } else {
            self.close_session(out);
            if !self.done {
                self.finish(false, "disconnected", out);
            }
        }
    }

    fn transmit(&self, bytes: Vec<u8>, out: &mut Vec<Action>)
        requires
            self.wf(),
        ensures
            run(*self, final(out)@) == model::transmit(run(*self, old(out)@), bytes@),
    {
        match &self.link {
            Link::Agw(l) => {
                if l.phase != AgwPhase::Calling {
                    send(
                        out,
                        agw::data(l.port, &self.mycall, &self.target, &bytes, l.paclen),
                    );
                }
            },
            _ => send(out, bytes),
        }
    }

    /// Acts on the events of the session, until the exchange is over.
    fn apply(&mut self, events: Vec<Event>, out: &mut Vec<Action>)
        requires
            old(self).wf(),
        ensures
            final(self).wf(),
            run(*final(self), final(out)@) == model::apply(
                run(*old(self), old(out)@),
                session::event_views(events@),
            ),
    {
        let ghost all = session::event_views(events@);
        let ghost goal = model::apply(run(*self, out@), all);
        let mut queue = events;
        let mut over = false;
        while !over && queue.len() > 0
            invariant
                self.wf(),
                over ==> run(*self, out@) == goal,
                !over ==> model::apply(run(*self, out@), session::event_views(queue@)) == goal,
            decreases queue@.len(),
        {
            let ghost rest = session::event_views(queue@);
            let event = queue.remove(0);
            assert(rest[0] == event@);
            assert(session::event_views(queue@) =~= rest.drop_first());
            self.apply_event(event, out);
            over = self.done;
        }
        if !over {
            assert(session::event_views(queue@) =~= seq![]);
        }
    }

    /// Acts on one event of the session.
    fn apply_event(&mut self, event: Event, out: &mut Vec<Action>)
        requires
            old(self).wf(),
        ensures
            final(self).wf(),
            run(*final(self), final(out)@) == model::apply_one(
                run(*old(self), old(out)@),
                event@,
            ),
    {
        proof {
            reveal(model::apply_one);
        }
        match event {
            Event::Transmit(bytes) => self.transmit(bytes, out),
            Event::Log(kind, line) => act(out, Action::Log(kind, line)),
            Event::Received { message, raw } => {
                self.received = next_count(self.received);
                act(out, Action::Received { message, raw });
            },
            Event::Delivered(mid) => {
                self.delivered = next_count(self.delivered);
                act(out, Action::Delivered(mid));
            },
            Event::AlreadyDelivered(mid) => act(out, Action::AlreadyDelivered(mid)),
            Event::Deferred(mid) => act(out, Action::Deferred(mid)),
            Event::Finished => {
                self.finished_ok = true;
                match self.agw_state() {
                    Some((_, _, _, port)) => {
                        // Let Direwolf deliver everything before hanging up.
                        self.set_agw_phase(AgwPhase::Draining);
                        send(out, agw::outstanding_query(port, &self.mycall, &self.target));
                    },
                    None => self.finish(true, "", out),
                }
            },
            Event::Failed(reason) => self.on_failed(&reason, out),
        }
    }

    /// The session failed.
    fn on_failed(&mut self, reason: &str, out: &mut Vec<Action>)
        requires
            old(self).wf(),
        ensures
            final(self).wf(),
            run(*final(self), final(out)@) == model::session_failed(
                run(*old(self), old(out)@),
                reason@,
            ),
    {
        match self.agw_state() {
            Some((phase, _, _, port)) => {
                if phase != AgwPhase::Calling {
                    send(out, agw::disconnect(port, &self.mycall, &self.target));
                }
            },
            None => {
                let cs = text::chars(reason);
                if !text::has_prefix(&cs, "remote reported") && !text::has_prefix(
                    &cs,
                    "the link closed",
                ) {
                    // Tell the other side why we are hanging up, as Pat does.
                    send(out, text::utf8_bytes(&text::cat3("*** ", reason, "\r")));
                }
            },
        }
        self.finish(false, reason, out);
    }

    fn finish(&mut self, ok: bool, reason: &str, out: &mut Vec<Action>)
        requires
            old(self).wf(),
        ensures
            final(self).wf(),
            run(*final(self), final(out)@) == model::finish(
                run(*old(self), old(out)@),
                ok,
                reason@,
            ),
    {
        if self.done {
            return;
        }
        self.done = true;
        let counts = text::cat4(
            &text::size_text(self.delivered),
            " sent, ",
            &text::size_text(self.received),
            " received",
        );
        let summary = if ok {
            text::cat2("exchange complete: ", &counts)
        } else {
            text::cat5("exchange failed: ", reason, " (", &counts, ")")
        };
        act(out, Action::Close);
        act(out, Action::Done { ok, summary });
    }
}

fn next_count(n: usize) -> (r: usize)
    ensures
        r == model::one_more(n as int),
{
    if n < usize::MAX {
        n + 1
    } else {
        n
    }
}

} // verus!

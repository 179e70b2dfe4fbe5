//! What an exchange does, as a function of its state and what happens to it.

use vstd::prelude::*;
use vstd::utf8::*;

use crate::agw;
use crate::agw::FrameView;
use crate::lzhuf;
use crate::message::MessageView;
use crate::session;
use crate::session::model;
use crate::session::model::{ConfigView, EventView, Flow, LogKind, OutboundView, SessionView};
use crate::telnet;
use crate::telnet::{AcceptView, LoginView, StepView};
use crate::text;
use crate::text::Class;
use crate::unicode;

verus! {

/// How often to ask Direwolf whether our frames are all acknowledged.
pub const DRAIN_POLL_MS: u64 = 1_000;

pub const DRAIN_LIMIT_MS: u64 = 180_000;

pub const DISCONNECT_LIMIT_MS: u64 = 30_000;

/// Where an AX.25 connection is.
#[derive(Clone, Copy, Debug, PartialEq, Eq, Structural)]
pub enum AgwPhase {
    Calling,
    Connected,
    Draining,
    Disconnecting,
}

#[verifier::ext_equal]
pub struct AgwView {
    pub port: u8,
    pub via: Seq<Seq<char>>,
    pub paclen: int,
    /// Bytes that are no whole frame yet.
    pub buf: Seq<u8>,
    pub phase: AgwPhase,
    pub phase_since: int,
    pub last_query: int,
}

#[verifier::ext_equal]
pub enum LinkView {
    Telnet(LoginView),
    Answer(AcceptView),
    Agw(AgwView),
    Raw,
}

#[verifier::ext_equal]
pub struct ExchangeView {
    pub mycall: Seq<char>,
    pub target: Seq<char>,
    pub locator: Seq<char>,
    pub password: Option<Seq<char>>,
    pub idle_timeout_ms: int,
    pub link: LinkView,
    pub session: Option<SessionView>,
    /// Messages to send and IDs known, until the session starts.
    pub pending: Option<(Seq<OutboundView>, Set<Seq<char>>)>,
    pub last_rx: int,
    pub now: int,
    pub finished_ok: bool,
    pub done: bool,
    pub delivered: int,
    pub received: int,
    pub logged_in: bool,
}

#[verifier::ext_equal]
pub enum ActionView {
    Transmit(Seq<u8>),
    Log(LogKind, Seq<char>),
    Received { message: MessageView, raw: Seq<u8> },
    Delivered(Seq<char>),
    AlreadyDelivered(Seq<char>),
    Deferred(Seq<char>),
    Close,
    Done { ok: bool, summary: Seq<char> },
}

/// An exchange and the actions that it has asked for.
#[verifier::ext_equal]
pub struct Run {
    pub x: ExchangeView,
    pub out: Seq<ActionView>,
}

/// The session, if there is one, has its indices in range.
pub open spec fn valid(x: ExchangeView) -> bool {
    x.session matches Some(s) ==> model::valid(s)
}

pub open spec fn does(f: Run, a: ActionView) -> Run {
    Run { x: f.x, out: f.out.push(a) }
}

pub open spec fn logs(f: Run, kind: LogKind, line: Seq<char>) -> Run {
    does(f, ActionView::Log(kind, line))
}

pub open spec fn sends(f: Run, bytes: Seq<u8>) -> Run {
    does(f, ActionView::Transmit(bytes))
}

/// What the exchange came to.
pub open spec fn summary(x: ExchangeView, ok: bool, reason: Seq<char>) -> Seq<char> {
    let counts = text::decimal(x.delivered as nat) + " sent, "@ + text::decimal(x.received as nat)
        + " received"@;
    if ok {
        "exchange complete: "@ + counts
    } else {
        "exchange failed: "@ + reason + " ("@ + counts + ")"@
    }
}

/// The exchange is over, if it was not before.
pub open spec fn finish(f: Run, ok: bool, reason: Seq<char>) -> Run {
    if f.x.done {
        f
    } else {
        does(
            does(Run { x: ExchangeView { done: true, ..f.x }, out: f.out }, ActionView::Close),
            ActionView::Done { ok, summary: summary(f.x, ok, reason) },
        )
    }
}

// ---------------------------------------------------------------------
// The session's events

/// The next number; the largest stays.
pub open spec fn one_more(n: int) -> int {
    if n < usize::MAX {
        n + 1
    } else {
        n
    }
}

/// Bytes of the session go out over the link.
pub open spec fn transmit(f: Run, bytes: Seq<u8>) -> Run {
    match f.x.link {
        LinkView::Agw(l) => if l.phase == AgwPhase::Calling {
            f
        } else {
            sends(
                f,
                agw::encoded_all(
                    agw::data_frames(l.port, f.x.mycall, f.x.target, bytes, l.paclen),
                ),
            )
        },
        _ => sends(f, bytes),
    }
}

/// The connection in another phase, from now on.
pub open spec fn in_phase(x: ExchangeView, phase: AgwPhase) -> ExchangeView {
    match x.link {
        LinkView::Agw(l) => ExchangeView {
            link: LinkView::Agw(
                AgwView { phase, phase_since: x.now, last_query: x.now, ..l },
            ),
            ..x
        },
        _ => x,
    }
}

pub open spec fn query(x: ExchangeView, port: u8) -> Seq<u8> {
    agw::encoded(agw::frame(0x59, port, x.mycall, x.target, seq![]))
}

pub open spec fn hang_up(x: ExchangeView, port: u8) -> Seq<u8> {
    agw::encoded(agw::frame(0x64, port, x.mycall, x.target, seq![]))
}

/// The session is complete. On a radio link everything has to be delivered
/// before hanging up.
pub open spec fn session_finished(f: Run) -> Run {
    let x = ExchangeView { finished_ok: true, ..f.x };
    match x.link {
        LinkView::Agw(l) => sends(
            Run { x: in_phase(x, AgwPhase::Draining), out: f.out },
            query(x, l.port),
        ),
        _ => finish(Run { x, out: f.out }, true, seq![]),
    }
}

/// The session failed: hang up, or tell the other side why.
pub open spec fn session_failed(f: Run, reason: Seq<char>) -> Run {
    let g = match f.x.link {
        LinkView::Agw(l) => if l.phase != AgwPhase::Calling {
            sends(f, hang_up(f.x, l.port))
        } else {
            f
        },
        _ => if text::starts_with(reason, "remote reported"@) || text::starts_with(
            reason,
            "the link closed"@,
        ) {
            f
        } else {
            sends(f, encode_utf8("*** "@ + reason + "\r"@))
        },
    };
    finish(g, false, reason)
}

/// Acts on one event of the session.
#[verifier::opaque]
pub open spec fn apply_one(f: Run, e: EventView) -> Run {
    match e {
        EventView::Transmit(bytes) => transmit(f, bytes),
        EventView::Log(kind, line) => logs(f, kind, line),
        EventView::Received { message, raw } => does(
            Run { x: ExchangeView { received: one_more(f.x.received), ..f.x }, out: f.out },
            ActionView::Received { message, raw },
        ),
        EventView::Delivered(mid) => does(
            Run { x: ExchangeView { delivered: one_more(f.x.delivered), ..f.x }, out: f.out },
            ActionView::Delivered(mid),
        ),
        EventView::AlreadyDelivered(mid) => does(f, ActionView::AlreadyDelivered(mid)),
        EventView::Deferred(mid) => does(f, ActionView::Deferred(mid)),
        EventView::Finished => session_finished(f),
        EventView::Failed(reason) => session_failed(f, reason),
    }
}

/// Acts on the events of the session, until the exchange is over.
pub open spec fn apply(f: Run, events: Seq<EventView>) -> Run
    decreases events.len(),
{
    if events.len() == 0 {
        f
    } else {
        let g = apply_one(f, events[0]);
        if g.x.done {
            g
        } else {
            apply(g, events.drop_first())
        }
    }
}

/// The exchange with its session moved on.
pub open spec fn with_session(f: Run, g: Flow) -> Run {
    apply(Run { x: ExchangeView { session: Some(g.s), ..f.x }, out: f.out }, g.ev)
}

/// The session gets some bytes.
pub open spec fn feed_session(f: Run, data: Seq<u8>) -> Run {
    if data.len() == 0 {
        f
    } else {
        match f.x.session {
            Some(s) => with_session(f, model::fed(Flow { s, ev: seq![] }, data)),
            None => f,
        }
    }
}

/// What starting a session does.
pub open spec fn session_started(s: SessionView) -> Flow {
    let f = Flow { s, ev: seq![] };
    if s.cfg.master && !s.handshake_sent {
        if model::can_greet(s) {
            model::greeted(f)
        } else {
            model::no_password(f)
        }
    } else {
        f
    }
}

pub open spec fn start_session(f: Run) -> Run {
    match f.x.session {
        Some(s) => with_session(f, session_started(s)),
        None => f,
    }
}

/// What the end of the link does to a session.
pub open spec fn session_stopped(s: SessionView, reason: Seq<char>) -> Flow {
    let f = Flow { s, ev: seq![] };
    if model::is_over(s) {
        f
    } else {
        model::failed(f, reason)
    }
}

pub open spec fn stop_session(f: Run, reason: Seq<char>) -> Run {
    match f.x.session {
        Some(s) => with_session(f, session_stopped(s, reason)),
        None => f,
    }
}

/// The reason that a session gives when its link ends.
pub open spec fn link_closed() -> Seq<char> {
    "the link closed before the exchange finished"@
}

/// The session is made, with the messages that were waiting for it.
pub open spec fn create_session(x: ExchangeView, target: Seq<char>, master: bool) -> ExchangeView {
    let (outbound, known) = match x.pending {
        Some(p) => p,
        None => (seq![], Set::empty()),
    };
    let cfg = ConfigView {
        mycall: x.mycall,
        targetcall: target,
        locator: x.locator,
        password: x.password,
        master,
    };
    ExchangeView {
        session: Some(session::fresh(cfg, outbound, known)),
        pending: None,
        ..x
    }
}

// ---------------------------------------------------------------------
// Login

/// The login is done: the session starts, and gets the bytes behind it.
pub open spec fn logged_in(f: Run, rest: Seq<u8>, remote: Option<Seq<char>>) -> Run {
    let g = if f.x.logged_in {
        f
    } else {
        let x = ExchangeView { logged_in: true, ..f.x };
        match remote {
            Some(call) => {
                let h = logs(Run { x, out: f.out }, LogKind::Info, call + " logged in"@);
                start_session(
                    Run {
                        x: create_session(ExchangeView { target: call, ..h.x }, call, true),
                        out: h.out,
                    },
                )
            },
            None => logs(Run { x, out: f.out }, LogKind::Info, "logged in"@),
        }
    };
    feed_session(g, rest)
}

/// Acts on the steps of a login.
pub open spec fn login_steps(f: Run, steps: Seq<StepView>, remote: Option<Seq<char>>) -> Run
    decreases steps.len(),
{
    if steps.len() == 0 {
        f
    } else {
        let more = steps.drop_first();
        match steps[0] {
            StepView::Send(bytes) => login_steps(sends(f, bytes), more, remote),
            StepView::Banner(line) => login_steps(logs(f, LogKind::Rx, line), more, remote),
            StepView::Failed(reason) => finish(f, false, reason),
            StepView::Done(rest) => login_steps(logged_in(f, rest, remote), more, remote),
        }
    }
}

// ---------------------------------------------------------------------
// Frames

/// The text in a frame, without white space and NULs around it.
pub open spec fn frame_text(data: Seq<u8>) -> Seq<char> {
    text::trim_both(unicode::decoded_lossy(data), Class::SpaceOrNul)
}

/// The frames that are still unacknowledged, as a frame counts them.
pub open spec fn outstanding(data: Seq<u8>) -> nat {
    if data.len() >= 4 {
        lzhuf::from_le32(data.take(4))
    } else {
        0
    }
}

/// The other side hung up.
pub open spec fn disconnected(f: Run, phase: AgwPhase, line: Seq<char>) -> Run {
    let g = if line.len() > 0 {
        logs(f, LogKind::Rx, line)
    } else {
        f
    };
    if phase == AgwPhase::Calling {
        let why = if line.len() > 0 {
            line
        } else {
            "no answer"@
        };
        finish(
            g,
            false,
            "could not connect to "@ + f.x.target + " ("@ + why + ")"@,
        )
    } else if f.x.finished_ok {
        finish(g, true, seq![])
    } else {
        let h = stop_session(g, link_closed());
        if h.x.done {
            h
        } else {
            finish(h, false, "disconnected"@)
        }
    }
}

/// A frame came from the AGW server.
pub open spec fn on_frame(f: Run, fr: FrameView) -> Run {
    match f.x.link {
        LinkView::Agw(l) => if fr.port != l.port && fr.kind != 0x58 {
            f
        } else {
            let line = frame_text(fr.data);
            if fr.kind == 0x58 {
                if fr.data.len() > 0 && fr.data[0] == 1 {
                    logs(f, LogKind::Info, f.x.mycall + " registered with the AGW server"@)
                } else {
                    logs(
                        f,
                        LogKind::Warn,
                        f.x.mycall + " is already registered by another program; continuing"@,
                    )
                }
            } else if fr.kind == 0x43 && l.phase == AgwPhase::Calling {
                start_session(
                    logs(
                        Run { x: in_phase(f.x, AgwPhase::Connected), out: f.out },
                        LogKind::Success,
                        if line.len() == 0 {
                            "connected to "@ + f.x.target
                        } else {
                            line
                        },
                    ),
                )
            } else if fr.kind == 0x44 && l.phase != AgwPhase::Calling {
                feed_session(f, fr.data)
            } else if fr.kind == 0x64 {
                disconnected(f, l.phase, line)
            } else if fr.kind == 0x59 && l.phase == AgwPhase::Draining && outstanding(fr.data)
                == 0 {
                sends(
                    Run { x: in_phase(f.x, AgwPhase::Disconnecting), out: f.out },
                    hang_up(f.x, l.port),
                )
            } else {
                f
            }
        },
        _ => f,
    }
}

/// Acts on some frames, until the exchange is over.
pub open spec fn on_frames(f: Run, frames: Seq<FrameView>) -> Run
    decreases frames.len(),
{
    if frames.len() == 0 {
        f
    } else {
        let g = on_frame(f, frames[0]);
        if g.x.done {
            g
        } else {
            on_frames(g, frames.drop_first())
        }
    }
}

// ---------------------------------------------------------------------
// What happens to an exchange

/// The exchange with its link moved on.
pub open spec fn with_link(f: Run, link: LinkView) -> Run {
    Run { x: ExchangeView { link, ..f.x }, out: f.out }
}

/// Asks the AGW server to connect.
pub open spec fn calls(f: Run, l: AgwView) -> Run {
    let x = f.x;
    let via = if l.via.len() == 0 {
        seq![]
    } else {
        " via "@ + text::join(l.via, ","@)
    };
    sends(
        with_link(
            logs(f, LogKind::Info, "calling "@ + x.target + via),
            LinkView::Agw(AgwView { phase_since: x.now, ..l }),
        ),
        agw::encoded(agw::frame(0x58, l.port, x.mycall, ""@, seq![])) + agw::encoded(
            agw::connect_frame(l.port, x.mycall, x.target, l.via),
        ),
    )
}

/// The exchange starts.
pub open spec fn started(x: ExchangeView, now: int) -> Run {
    let f = Run { x: ExchangeView { now, last_rx: now, ..x }, out: seq![] };
    match x.link {
        LinkView::Telnet(_) => logs(f, LogKind::Info, "logging in as "@ + x.mycall),
        LinkView::Answer(_) => sends(f, encode_utf8("Callsign :\r"@)),
        LinkView::Agw(l) => calls(f, l),
        LinkView::Raw => start_session(f),
    }
}

/// Bytes came over the transport.
pub open spec fn on_bytes(x: ExchangeView, data: Seq<u8>, now: int) -> Run {
    let f = Run { x: ExchangeView { now, last_rx: now, ..x }, out: seq![] };
    if x.done {
        f
    } else {
        match x.link {
            LinkView::Telnet(login) => {
                let (next, steps) = telnet::login_fed(login, data);
                login_steps(with_link(f, LinkView::Telnet(next)), steps, None)
            },
            LinkView::Answer(accept) => {
                let (next, steps) = telnet::accept_fed(accept, data);
                login_steps(with_link(f, LinkView::Answer(next)), steps, Some(next.remote))
            },
            LinkView::Agw(l) => {
                let (frames, rest) = agw::decoded(l.buf + data);
                let g = with_link(f, LinkView::Agw(AgwView { buf: rest, ..l }));
                match frames {
                    Ok(v) => on_frames(g, v),
                    Err(e) => finish(g, false, e),
                }
            },
            LinkView::Raw => feed_session(f, data),
        }
    }
}

/// The transport closed underneath us.
pub open spec fn on_closed(x: ExchangeView) -> Run {
    let f = Run { x, out: seq![] };
    if x.done {
        f
    } else if x.finished_ok {
        finish(f, true, seq![])
    } else {
        let g = stop_session(f, link_closed());
        if g.x.done {
            g
        } else {
            finish(g, false, "the link closed before the exchange started"@)
        }
    }
}

/// How much later `now` is than `since`.
pub open spec fn elapsed(now: int, since: int) -> int {
    if now > since {
        now - since
    } else {
        0
    }
}

/// The exchange is given up.
pub open spec fn aborted(f: Run, reason: Seq<char>) -> Run {
    if f.x.done {
        f
    } else {
        let g = stop_session(f, reason);
        if g.x.done {
            g
        } else {
            finish(g, false, reason)
        }
    }
}

/// Was nothing heard for too long?
pub open spec fn idle_check(f: Run) -> Run {
    let idle = elapsed(f.x.now, f.x.last_rx);
    if idle > f.x.idle_timeout_ms {
        aborted(f, "no response for "@ + text::decimal((idle / 1000) as nat) + " s"@)
    } else {
        f
    }
}

/// Time passed.
pub open spec fn polled(x: ExchangeView, now: int) -> Run {
    let f = Run { x: ExchangeView { now, ..x }, out: seq![] };
    if x.done {
        f
    } else {
        match x.link {
            LinkView::Agw(l) => if l.phase == AgwPhase::Draining {
                if elapsed(now, l.phase_since) > DRAIN_LIMIT_MS {
                    let g = logs(
                        f,
                        LogKind::Warn,
                        "frames still unacknowledged; disconnecting anyway"@,
                    );
                    sends(
                        Run { x: in_phase(g.x, AgwPhase::Disconnecting), out: g.out },
                        hang_up(x, l.port),
                    )
                } else if elapsed(now, l.last_query) >= DRAIN_POLL_MS {
                    sends(
                        with_link(f, LinkView::Agw(AgwView { last_query: now, ..l })),
                        query(x, l.port),
                    )
                } else {
                    f
                }
            } else if l.phase == AgwPhase::Disconnecting {
                if elapsed(now, l.phase_since) > DISCONNECT_LIMIT_MS {
                    finish(f, true, seq![])
                } else {
                    f
                }
            } else {
                idle_check(f)
            },
            _ => idle_check(f),
        }
    }
}

} // verus!

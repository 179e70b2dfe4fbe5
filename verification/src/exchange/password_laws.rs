//! The password never goes over the air in a whole exchange: what an exchange
//! does depends on it only through the answer to a challenge.

use vstd::prelude::*;

use crate::agw;
use crate::agw::FrameView;
use crate::exchange;
use crate::exchange::laws::{after, called, untouched, Call};
use crate::exchange::model;
use crate::exchange::model::{AgwPhase, AgwView, ExchangeView, LinkView, Run};
use crate::exchange::ExchangeConfigView;
use crate::session::model::{ConfigView, EventView, Flow, LogKind, OutboundView, SessionView};
use crate::session::password_laws;
use crate::session::password_laws::{answer_alike, is_set, law_password_is_only_hashed};
use crate::telnet;
use crate::telnet::StepView;
use crate::text;

verus! {

/// The session with another password.
pub open spec fn session_with(s: SessionView, q: Option<Seq<char>>) -> SessionView {
    SessionView { cfg: ConfigView { password: q, ..s.cfg }, ..s }
}

/// The exchange with another password.
pub open spec fn with_password(x: ExchangeView, q: Option<Seq<char>>) -> ExchangeView {
    ExchangeView {
        password: q,
        session: match x.session {
            Some(s) => Some(session_with(s, q)),
            None => None,
        },
        ..x
    }
}

/// The exchange with another password, and the same actions.
pub open spec fn swapped(f: Run, q: Option<Seq<char>>) -> Run {
    Run { x: with_password(f.x, q), out: f.out }
}

/// The session has the password of the exchange, a master is past the
/// client's handshake, and the answering side has no session before the
/// caller is known.
pub open spec fn coherent(x: ExchangeView) -> bool {
    &&& x.session matches Some(s) ==> s.cfg.password == x.password && (s.cfg.master ==> !(
    s.state is Handshake))
    &&& x.link is Answer && !x.logged_in ==> x.session is None
}

/// Is there a session whose handshake is over?
pub open spec fn is_settled(x: ExchangeView) -> bool {
    x.session matches Some(s) && !(s.state is Handshake)
}

/// The two passwords give the same answer to the challenge that was asked, if
/// the handshake is over and one was.
pub open spec fn alike(x: ExchangeView, p: Option<Seq<char>>, q: Option<Seq<char>>) -> bool {
    is_settled(x) ==> answer_alike(x.session->0.challenge, p, q)
}

/// What no step changes: the password, the kind of link, and the challenge
/// once the handshake is over.
spec fn keeps(a: ExchangeView, b: ExchangeView) -> bool {
    &&& b.password == a.password
    &&& b.link is Answer == a.link is Answer
    &&& coherent(a) ==> coherent(b)
    &&& is_settled(a) ==> is_settled(b) && b.session->0.challenge == a.session->0.challenge
}

/// The session, the password and the kind of link are as they were.
spec fn same_session(a: ExchangeView, b: ExchangeView) -> bool {
    &&& b.password == a.password
    &&& b.session == a.session
    &&& b.logged_in == a.logged_in
    &&& b.link is Answer == a.link is Answer
}

proof fn lemma_finish(f: Run, ok: bool, reason: Seq<char>, q: Option<Seq<char>>)
    ensures
        same_session(f.x, model::finish(f, ok, reason).x),
        model::finish(swapped(f, q), ok, reason) == swapped(model::finish(f, ok, reason), q),
{
}

proof fn lemma_apply_one(f: Run, e: EventView, q: Option<Seq<char>>)
    ensures
        same_session(f.x, model::apply_one(f, e).x),
        model::apply_one(swapped(f, q), e) == swapped(model::apply_one(f, e), q),
{
    reveal(model::apply_one);
}

proof fn lemma_apply(f: Run, events: Seq<EventView>, q: Option<Seq<char>>)
    ensures
        same_session(f.x, model::apply(f, events).x),
        model::apply(swapped(f, q), events) == swapped(model::apply(f, events), q),
    decreases events.len(),
{
    if events.len() > 0 {
        let g = model::apply_one(f, events[0]);
        lemma_apply_one(f, events[0], q);
        if !g.x.done {
            lemma_apply(g, events.drop_first(), q);
        }
    }
}

/// The session moves on.
proof fn lemma_with_session(f: Run, g: Flow, q: Option<Seq<char>>)
    requires
        coherent(f.x),
        f.x.session is Some,
        g.s.cfg == f.x.session->0.cfg,
        !(f.x.session->0.state is Handshake) ==> !(g.s.state is Handshake) && g.s.challenge
            == f.x.session->0.challenge,
    ensures
        keeps(f.x, model::with_session(f, g).x),
        model::with_session(f, g).x.session == Some(g.s),
        model::with_session(swapped(f, q), Flow { s: session_with(g.s, q), ev: g.ev }) == swapped(
            model::with_session(f, g),
            q,
        ),
{
    lemma_apply(Run { x: ExchangeView { session: Some(g.s), ..f.x }, out: f.out }, g.ev, q);
}

proof fn lemma_feed(f: Run, data: Seq<u8>, q: Option<Seq<char>>)
    requires
        coherent(f.x),
        is_set(f.x.password) == is_set(q),
    ensures
        keeps(f.x, model::feed_session(f, data).x),
        alike(model::feed_session(f, data).x, f.x.password, q) ==> model::feed_session(
            swapped(f, q),
            data,
        ) == swapped(model::feed_session(f, data), q),
{
    if data.len() > 0 {
        if let Some(s) = f.x.session {
            let a = Flow { s, ev: seq![] };
            let g = crate::session::model::fed(a, data);
            password_laws::lemma_fed_keeps(a, data);
            lemma_with_session(f, g, q);
            if alike(model::feed_session(f, data).x, f.x.password, q) {
                law_password_is_only_hashed(a, q, data);
            }
        }
    }
}

proof fn lemma_start(f: Run, q: Option<Seq<char>>)
    requires
        coherent(f.x),
        is_set(f.x.password) == is_set(q),
    ensures
        keeps(f.x, model::start_session(f).x),
        alike(model::start_session(f).x, f.x.password, q) ==> model::start_session(swapped(f, q))
            == swapped(model::start_session(f), q),
{
    if let Some(s) = f.x.session {
        let g = model::session_started(s);
        lemma_with_session(f, g, q);
        if alike(model::start_session(f).x, f.x.password, q) {
            assert(model::session_started(session_with(s, q)) == (Flow {
                s: session_with(g.s, q),
                ev: g.ev,
            }));
        }
    }
}

proof fn lemma_stop(f: Run, reason: Seq<char>, q: Option<Seq<char>>)
    requires
        coherent(f.x),
    ensures
        keeps(f.x, model::stop_session(f, reason).x),
        model::stop_session(swapped(f, q), reason) == swapped(model::stop_session(f, reason), q),
{
    if let Some(s) = f.x.session {
        lemma_with_stopped(f, s, reason, q);
    }
}

proof fn lemma_with_stopped(f: Run, s: SessionView, reason: Seq<char>, q: Option<Seq<char>>)
    requires
        coherent(f.x),
        f.x.session == Some(s),
    ensures
        keeps(f.x, model::with_session(f, model::session_stopped(s, reason)).x),
        model::with_session(swapped(f, q), model::session_stopped(session_with(s, q), reason))
            == swapped(model::with_session(f, model::session_stopped(s, reason)), q),
{
    let g = model::session_stopped(s, reason);
    lemma_with_session(f, g, q);
    assert(model::session_stopped(session_with(s, q), reason) == (Flow {
        s: session_with(g.s, q),
        ev: g.ev,
    }));
}

proof fn lemma_logged_in(f: Run, rest: Seq<u8>, remote: Option<Seq<char>>, q: Option<Seq<char>>)
    requires
        coherent(f.x),
        is_set(f.x.password) == is_set(q),
        remote is Some ==> f.x.link is Answer,
    ensures
        keeps(f.x, model::logged_in(f, rest, remote).x),
        alike(model::logged_in(f, rest, remote).x, f.x.password, q) ==> model::logged_in(
            swapped(f, q),
            rest,
            remote,
        ) == swapped(model::logged_in(f, rest, remote), q),
{
    if f.x.logged_in {
        lemma_feed(f, rest, q);
    } else {
        let x = ExchangeView { logged_in: true, ..f.x };
        match remote {
            Some(call) => {
                let h = model::logs(
                    Run { x, out: f.out },
                    LogKind::Info,
                    call + " logged in"@,
                );
                let k = Run {
                    x: model::create_session(ExchangeView { target: call, ..h.x }, call, true),
                    out: h.out,
                };
                let m = model::start_session(k);
                lemma_start(k, q);
                lemma_feed(m, rest, q);
            },
            None => {
                let h = model::logs(Run { x, out: f.out }, LogKind::Info, "logged in"@);
                lemma_feed(h, rest, q);
            },
        }
    }
}

proof fn lemma_login_steps(
    f: Run,
    steps: Seq<StepView>,
    remote: Option<Seq<char>>,
    q: Option<Seq<char>>,
)
    requires
        coherent(f.x),
        is_set(f.x.password) == is_set(q),
        remote is Some ==> f.x.link is Answer,
    ensures
        keeps(f.x, model::login_steps(f, steps, remote).x),
        alike(model::login_steps(f, steps, remote).x, f.x.password, q) ==> model::login_steps(
            swapped(f, q),
            steps,
            remote,
        ) == swapped(model::login_steps(f, steps, remote), q),
    decreases steps.len(),
{
    if steps.len() > 0 {
        let more = steps.drop_first();
        match steps[0] {
            StepView::Send(bytes) => lemma_login_steps(model::sends(f, bytes), more, remote, q),
            StepView::Banner(line) => {
                lemma_login_steps(model::logs(f, LogKind::Rx, line), more, remote, q);
            },
            StepView::Failed(reason) => lemma_finish(f, false, reason, q),
            StepView::Done(rest) => {
                lemma_logged_in(f, rest, remote, q);
                lemma_login_steps(model::logged_in(f, rest, remote), more, remote, q);
            },
        }
    }
}

proof fn lemma_disconnected(f: Run, phase: AgwPhase, line: Seq<char>, q: Option<Seq<char>>)
    requires
        coherent(f.x),
    ensures
        keeps(f.x, model::disconnected(f, phase, line).x),
        model::disconnected(swapped(f, q), phase, line) == swapped(
            model::disconnected(f, phase, line),
            q,
        ),
{
    let g = if line.len() > 0 {
        model::logs(f, LogKind::Rx, line)
    } else {
        f
    };
    lemma_stop(g, model::link_closed(), q);
}

proof fn lemma_on_frame(f: Run, fr: FrameView, q: Option<Seq<char>>)
    requires
        coherent(f.x),
        is_set(f.x.password) == is_set(q),
    ensures
        keeps(f.x, model::on_frame(f, fr).x),
        alike(model::on_frame(f, fr).x, f.x.password, q) ==> model::on_frame(swapped(f, q), fr)
            == swapped(model::on_frame(f, fr), q),
{
    if let LinkView::Agw(l) = f.x.link {
        let line = model::frame_text(fr.data);
        if fr.port != l.port && fr.kind != 0x58 {
        } else if fr.kind == 0x43 && l.phase == AgwPhase::Calling {
            let g = model::logs(
                Run { x: model::in_phase(f.x, AgwPhase::Connected), out: f.out },
                LogKind::Success,
                if line.len() == 0 {
                    "connected to "@ + f.x.target
                } else {
                    line
                },
            );
            lemma_start(g, q);
        } else if fr.kind == 0x44 && l.phase != AgwPhase::Calling {
            lemma_feed(f, fr.data, q);
        } else if fr.kind == 0x64 {
            lemma_disconnected(f, l.phase, line, q);
        }
    }
}

proof fn lemma_on_frames(f: Run, frames: Seq<FrameView>, q: Option<Seq<char>>)
    requires
        coherent(f.x),
        is_set(f.x.password) == is_set(q),
    ensures
        keeps(f.x, model::on_frames(f, frames).x),
        alike(model::on_frames(f, frames).x, f.x.password, q) ==> model::on_frames(
            swapped(f, q),
            frames,
        ) == swapped(model::on_frames(f, frames), q),
    decreases frames.len(),
{
    if frames.len() > 0 {
        let g = model::on_frame(f, frames[0]);
        lemma_on_frame(f, frames[0], q);
        if !g.x.done {
            lemma_on_frames(g, frames.drop_first(), q);
        }
    }
}

proof fn lemma_on_bytes(x: ExchangeView, data: Seq<u8>, now: int, q: Option<Seq<char>>)
    requires
        coherent(x),
        is_set(x.password) == is_set(q),
    ensures
        keeps(x, model::on_bytes(x, data, now).x),
        alike(model::on_bytes(x, data, now).x, x.password, q) ==> model::on_bytes(
            with_password(x, q),
            data,
            now,
        ) == swapped(model::on_bytes(x, data, now), q),
{
    let f = Run { x: ExchangeView { now, last_rx: now, ..x }, out: seq![] };
    match x.link {
        LinkView::Telnet(login) => {
            let (next, steps) = telnet::login_fed(login, data);
            lemma_login_steps(model::with_link(f, LinkView::Telnet(next)), steps, None, q);
        },
        LinkView::Answer(accept) => {
            let (next, steps) = telnet::accept_fed(accept, data);
            lemma_login_steps(
                model::with_link(f, LinkView::Answer(next)),
                steps,
                Some(next.remote),
                q,
            );
        },
        LinkView::Agw(l) => {
            let (frames, rest) = agw::decoded(l.buf + data);
            let g = model::with_link(f, LinkView::Agw(AgwView { buf: rest, ..l }));
            match frames {
                Ok(v) => lemma_on_frames(g, v, q),
                Err(e) => lemma_finish(g, false, e, q),
            }
        },
        LinkView::Raw => lemma_feed(f, data, q),
    }
}

proof fn lemma_aborted(f: Run, reason: Seq<char>, q: Option<Seq<char>>)
    requires
        coherent(f.x),
    ensures
        keeps(f.x, model::aborted(f, reason).x),
        model::aborted(swapped(f, q), reason) == swapped(model::aborted(f, reason), q),
{
    lemma_stop(f, reason, q);
    lemma_finish(model::stop_session(f, reason), false, reason, q);
}

proof fn lemma_on_closed(x: ExchangeView, q: Option<Seq<char>>)
    requires
        coherent(x),
    ensures
        keeps(x, model::on_closed(x).x),
        model::on_closed(with_password(x, q)) == swapped(model::on_closed(x), q),
{
    lemma_stop(untouched(x), model::link_closed(), q);
}

proof fn lemma_polled(x: ExchangeView, now: int, q: Option<Seq<char>>)
    requires
        coherent(x),
    ensures
        keeps(x, model::polled(x, now).x),
        model::polled(with_password(x, q), now) == swapped(model::polled(x, now), q),
{
    let f = Run { x: ExchangeView { now, ..x }, out: seq![] };
    let idle = model::elapsed(f.x.now, f.x.last_rx);
    lemma_aborted(f, "no response for "@ + text::decimal((idle / 1000) as nat) + " s"@, q);
}

proof fn lemma_started(x: ExchangeView, now: int, q: Option<Seq<char>>)
    requires
        coherent(x),
        is_set(x.password) == is_set(q),
    ensures
        keeps(x, model::started(x, now).x),
        alike(model::started(x, now).x, x.password, q) ==> model::started(
            with_password(x, q),
            now,
        ) == swapped(model::started(x, now), q),
{
    lemma_start(Run { x: ExchangeView { now, last_rx: now, ..x }, out: seq![] }, q);
}

/// Two exchanges that differ only in the password do and ask for the same, if
/// both passwords are set or neither is, and they give the same answer to the
/// challenge that the remote had asked when the handshake was over.
pub proof fn law_call_hides_the_password(x: ExchangeView, c: Call, q: Option<Seq<char>>)
    requires
        coherent(x),
        is_set(x.password) == is_set(q),
        alike(called(x, c).x, x.password, q),
    ensures
        called(with_password(x, q), c).out == called(x, c).out,
        called(with_password(x, q), c) == swapped(called(x, c), q),
{
    lemma_called(x, c, q);
}

proof fn lemma_called(x: ExchangeView, c: Call, q: Option<Seq<char>>)
    requires
        coherent(x),
        is_set(x.password) == is_set(q),
    ensures
        keeps(x, called(x, c).x),
        alike(called(x, c).x, x.password, q) ==> called(with_password(x, q), c) == swapped(
            called(x, c),
            q,
        ),
{
    match c {
        Call::Start { now } => lemma_started(x, now, q),
        Call::Bytes { data, now } => lemma_on_bytes(x, data, now, q),
        Call::Closed => lemma_on_closed(x, q),
        Call::Poll { now } => lemma_polled(x, now, q),
        Call::Abort { reason } => lemma_aborted(untouched(x), reason, q),
    }
}

proof fn lemma_after(x: ExchangeView, calls: Seq<Call>, q: Option<Seq<char>>)
    requires
        coherent(x),
        is_set(x.password) == is_set(q),
    ensures
        keeps(x, after(x, calls)),
        alike(after(x, calls), x.password, q) ==> after(with_password(x, q), calls)
            == with_password(after(x, calls), q),
    decreases calls.len(),
{
    if calls.len() > 0 {
        lemma_after(x, calls.drop_last(), q);
        lemma_called(after(x, calls.drop_last()), calls.last(), q);
    }
}

/// Nothing of the password but its answer to the challenge leaves an exchange:
/// two exchanges that are begun alike but for the password ask for the same
/// actions in every call, whatever happens to them, as long as both passwords
/// are set or neither is, and give the same answer to the challenge that the
/// remote has asked.
pub proof fn law_password_never_leaves(
    cfg: ExchangeConfigView,
    q: Option<Seq<char>>,
    outbound: Seq<OutboundView>,
    known: Set<Seq<char>>,
    calls: Seq<Call>,
    next: Call,
)
    requires
        is_set(cfg.password) == is_set(q),
        alike(
            called(after(exchange::fresh(cfg, outbound, known), calls), next).x,
            cfg.password,
            q,
        ),
    ensures
        ({
            let x = exchange::fresh(cfg, outbound, known);
            let y = exchange::fresh(
                ExchangeConfigView { password: q, ..cfg },
                outbound,
                known,
            );
            called(after(y, calls), next).out == called(after(x, calls), next).out
        }),
{
    let x = exchange::fresh(cfg, outbound, known);
    let y = exchange::fresh(ExchangeConfigView { password: q, ..cfg }, outbound, known);
    assert(y == with_password(x, q));
    lemma_after(x, calls, q);
    lemma_called(after(x, calls), next, q);
}

} // verus!

//! Laws of the exchange: it ends once, and counts what was sent and received.

use vstd::prelude::*;
use vstd::utf8::*;

use crate::agw;
use crate::agw::FrameView;
use crate::exchange::model;
use crate::exchange::model::{ActionView, AgwPhase, AgwView, ExchangeView, LinkView, Run};
use crate::session::model::{EventView, Flow, LogKind};
use crate::telnet;
use crate::telnet::StepView;
use crate::text;

verus! {

/// How many of the actions say that the exchange is over.
pub open spec fn endings(out: Seq<ActionView>) -> int
    decreases out.len(),
{
    if out.len() == 0 {
        0
    } else {
        endings(out.drop_last()) + (if out.last() is Done {
            1int
        } else {
            0
        })
    }
}

/// How many of the actions say that a message was delivered.
pub open spec fn deliveries(out: Seq<ActionView>) -> int
    decreases out.len(),
{
    if out.len() == 0 {
        0
    } else {
        deliveries(out.drop_last()) + (if out.last() is Delivered {
            1int
        } else {
            0
        })
    }
}

/// How many of the actions hand over a message.
pub open spec fn arrivals(out: Seq<ActionView>) -> int
    decreases out.len(),
{
    if out.len() == 0 {
        0
    } else {
        arrivals(out.drop_last()) + (if out.last() is Received {
            1int
        } else {
            0
        })
    }
}

/// A count that stops at the largest number.
pub open spec fn capped(n: int) -> int {
    if n < usize::MAX {
        n
    } else {
        usize::MAX as int
    }
}

/// The counts are numbers.
pub open spec fn counts(x: ExchangeView) -> bool {
    0 <= x.delivered <= usize::MAX && 0 <= x.received <= usize::MAX
}

/// From `f` to `g` the exchange ended at most once, and said so exactly
/// then; an end is final; and every delivery and arrival was counted.
pub open spec fn orderly(f: Run, g: Run) -> bool {
    &&& counts(f.x) ==> counts(g.x)
    &&& f.x.done ==> g.x.done
    &&& endings(g.out) == endings(f.out) + (if g.x.done && !f.x.done {
        1int
    } else {
        0
    })
    &&& deliveries(g.out) >= deliveries(f.out)
    &&& arrivals(g.out) >= arrivals(f.out)
    &&& counts(f.x) ==> g.x.delivered == capped(
        f.x.delivered + deliveries(g.out) - deliveries(f.out),
    )
    &&& counts(f.x) ==> g.x.received == capped(
        f.x.received + arrivals(g.out) - arrivals(f.out),
    )
}

proof fn lemma_steps(f: Run, g: Run, h: Run)
    requires
        orderly(f, g),
        orderly(g, h),
    ensures
        orderly(f, h),
{
}

proof fn lemma_push(out: Seq<ActionView>, a: ActionView)
    ensures
        endings(out.push(a)) == endings(out) + (if a is Done {
            1int
        } else {
            0
        }),
        deliveries(out.push(a)) == deliveries(out) + (if a is Delivered {
            1int
        } else {
            0
        }),
        arrivals(out.push(a)) == arrivals(out) + (if a is Received {
            1int
        } else {
            0
        }),
{
    assert(out.push(a).drop_last() =~= out);
}

/// An action that ends, delivers and receives nothing.
proof fn lemma_does(f: Run, a: ActionView)
    requires
        !(a is Done),
        !(a is Delivered),
        !(a is Received),
    ensures
        orderly(f, model::does(f, a)),
{
    lemma_push(f.out, a);
}

proof fn lemma_finish(f: Run, ok: bool, reason: Seq<char>)
    ensures
        orderly(f, model::finish(f, ok, reason)),
        model::finish(f, ok, reason).x.done,
{
    lemma_push(f.out, ActionView::Close);
    lemma_push(
        f.out.push(ActionView::Close),
        ActionView::Done { ok, summary: model::summary(f.x, ok, reason) },
    );
}

proof fn lemma_apply_one(f: Run, e: EventView)
    ensures
        orderly(f, model::apply_one(f, e)),
{
    reveal(model::apply_one);
    match e {
        EventView::Transmit(bytes) => {
            let g = model::transmit(f, bytes);
            if g.out != f.out {
                lemma_does(f, g.out.last());
                assert(g.out =~= f.out.push(g.out.last()));
            }
        },
        EventView::Log(kind, line) => lemma_does(f, ActionView::Log(kind, line)),
        EventView::Received { message, raw } => lemma_push(
            f.out,
            ActionView::Received { message, raw },
        ),
        EventView::Delivered(mid) => lemma_push(f.out, ActionView::Delivered(mid)),
        EventView::AlreadyDelivered(mid) => lemma_does(f, ActionView::AlreadyDelivered(mid)),
        EventView::Deferred(mid) => lemma_does(f, ActionView::Deferred(mid)),
        EventView::Finished => {
            let x = ExchangeView { finished_ok: true, ..f.x };
            if let LinkView::Agw(l) = x.link {
                let g = Run { x: model::in_phase(x, AgwPhase::Draining), out: f.out };
                lemma_does(g, ActionView::Transmit(model::query(x, l.port)));
            } else {
                lemma_finish(Run { x, out: f.out }, true, seq![]);
            }
        },
        EventView::Failed(reason) => lemma_session_failed(f, reason),
    }
}

proof fn lemma_session_failed(f: Run, reason: Seq<char>)
    ensures
        orderly(f, model::session_failed(f, reason)),
{
    let g = match f.x.link {
        LinkView::Agw(l) => if l.phase != AgwPhase::Calling {
            model::sends(f, model::hang_up(f.x, l.port))
        } else {
            f
        },
        _ => if text::starts_with(reason, "remote reported"@) || text::starts_with(
            reason,
            "the link closed"@,
        ) {
            f
        } else {
            model::sends(f, encode_utf8("*** "@ + reason + "\r"@))
        },
    };
    if g.out != f.out {
        lemma_does(f, g.out.last());
        assert(g.out =~= f.out.push(g.out.last()));
    }
    lemma_finish(g, false, reason);
    lemma_steps(f, g, model::finish(g, false, reason));
}

proof fn lemma_apply(f: Run, events: Seq<EventView>)
    ensures
        orderly(f, model::apply(f, events)),
    decreases events.len(),
{
    if events.len() > 0 {
        let g = model::apply_one(f, events[0]);
        lemma_apply_one(f, events[0]);
        if !g.x.done {
            lemma_apply(g, events.drop_first());
            lemma_steps(f, g, model::apply(g, events.drop_first()));
        }
    }
}

proof fn lemma_with_session(f: Run, g: Flow)
    ensures
        orderly(f, model::with_session(f, g)),
{
    let h = Run { x: ExchangeView { session: Some(g.s), ..f.x }, out: f.out };
    lemma_apply(h, g.ev);
    lemma_steps(f, h, model::with_session(f, g));
}

proof fn lemma_feed(f: Run, data: Seq<u8>)
    ensures
        orderly(f, model::feed_session(f, data)),
{
    if let Some(s) = f.x.session {
        lemma_with_session(
            f,
            crate::session::model::fed(Flow { s, ev: seq![] }, data),
        );
    }
}

proof fn lemma_start(f: Run)
    ensures
        orderly(f, model::start_session(f)),
{
    if let Some(s) = f.x.session {
        lemma_with_session(f, model::session_started(s));
    }
}

proof fn lemma_stop(f: Run, reason: Seq<char>)
    ensures
        orderly(f, model::stop_session(f, reason)),
{
    if let Some(s) = f.x.session {
        lemma_with_session(f, model::session_stopped(s, reason));
    }
}

proof fn lemma_logged_in(f: Run, rest: Seq<u8>, remote: Option<Seq<char>>)
    ensures
        orderly(f, model::logged_in(f, rest, remote)),
{
    if f.x.logged_in {
        lemma_feed(f, rest);
    } else {
        let g = Run { x: ExchangeView { logged_in: true, ..f.x }, out: f.out };
        match remote {
            Some(call) => {
                let line = ActionView::Log(LogKind::Info, call + " logged in"@);
                lemma_does(g, line);
                let h = model::does(g, line);
                let k = Run {
                    x: model::create_session(ExchangeView { target: call, ..h.x }, call, true),
                    out: h.out,
                };
                lemma_start(k);
                let m = model::start_session(k);
                lemma_feed(m, rest);
                lemma_steps(f, g, h);
                assert(orderly(h, k));
                lemma_steps(f, h, k);
                lemma_steps(f, k, m);
                lemma_steps(f, m, model::feed_session(m, rest));
            },
            None => {
                let line = ActionView::Log(LogKind::Info, "logged in"@);
                lemma_does(g, line);
                let h = model::does(g, line);
                lemma_feed(h, rest);
                lemma_steps(f, g, h);
                lemma_steps(f, h, model::feed_session(h, rest));
            },
        }
    }
}

proof fn lemma_login_steps(f: Run, steps: Seq<StepView>, remote: Option<Seq<char>>)
    ensures
        orderly(f, model::login_steps(f, steps, remote)),
    decreases steps.len(),
{
    if steps.len() > 0 {
        let more = steps.drop_first();
        let g = match steps[0] {
            StepView::Send(bytes) => {
                lemma_does(f, ActionView::Transmit(bytes));
                model::sends(f, bytes)
            },
            StepView::Banner(line) => {
                lemma_does(f, ActionView::Log(LogKind::Rx, line));
                model::logs(f, LogKind::Rx, line)
            },
            StepView::Failed(reason) => {
                lemma_finish(f, false, reason);
                f
            },
            StepView::Done(rest) => {
                lemma_logged_in(f, rest, remote);
                model::logged_in(f, rest, remote)
            },
        };
        lemma_login_steps(g, more, remote);
        lemma_steps(f, g, model::login_steps(g, more, remote));
    }
}

proof fn lemma_disconnected(f: Run, phase: AgwPhase, line: Seq<char>)
    ensures
        orderly(f, model::disconnected(f, phase, line)),
{
    lemma_does(f, ActionView::Log(LogKind::Rx, line));
    let g = if line.len() > 0 {
        model::logs(f, LogKind::Rx, line)
    } else {
        f
    };
    if phase == AgwPhase::Calling {
        let why = if line.len() > 0 {
            line
        } else {
            "no answer"@
        };
        let reason = "could not connect to "@ + f.x.target + " ("@ + why + ")"@;
        lemma_finish(g, false, reason);
        lemma_steps(f, g, model::finish(g, false, reason));
    } else if f.x.finished_ok {
        lemma_finish(g, true, seq![]);
        lemma_steps(f, g, model::finish(g, true, seq![]));
    } else {
        let h = model::stop_session(g, model::link_closed());
        lemma_stop(g, model::link_closed());
        lemma_steps(f, g, h);
        lemma_finish(h, false, "disconnected"@);
        lemma_steps(f, h, model::finish(h, false, "disconnected"@));
    }
}

proof fn lemma_on_frame(f: Run, fr: FrameView)
    ensures
        orderly(f, model::on_frame(f, fr)),
{
    if let LinkView::Agw(l) = f.x.link {
        let line = model::frame_text(fr.data);
        lemma_does(
            f,
            ActionView::Log(LogKind::Info, f.x.mycall + " registered with the AGW server"@),
        );
        lemma_does(
            f,
            ActionView::Log(
                LogKind::Warn,
                f.x.mycall + " is already registered by another program; continuing"@,
            ),
        );
        lemma_feed(f, fr.data);
        lemma_disconnected(f, l.phase, line);
        let g = Run { x: model::in_phase(f.x, AgwPhase::Connected), out: f.out };
        let note = ActionView::Log(
            LogKind::Success,
            if line.len() == 0 {
                "connected to "@ + f.x.target
            } else {
                line
            },
        );
        lemma_does(g, note);
        let h = model::does(g, note);
        lemma_steps(f, g, h);
        lemma_start(h);
        lemma_steps(f, h, model::start_session(h));
        let k = Run { x: model::in_phase(f.x, AgwPhase::Disconnecting), out: f.out };
        let bye = ActionView::Transmit(model::hang_up(f.x, l.port));
        lemma_does(k, bye);
        lemma_steps(f, k, model::does(k, bye));
    }
}

proof fn lemma_on_frames(f: Run, frames: Seq<FrameView>)
    ensures
        orderly(f, model::on_frames(f, frames)),
    decreases frames.len(),
{
    if frames.len() > 0 {
        let g = model::on_frame(f, frames[0]);
        lemma_on_frame(f, frames[0]);
        if !g.x.done {
            lemma_on_frames(g, frames.drop_first());
            lemma_steps(f, g, model::on_frames(g, frames.drop_first()));
        }
    }
}

proof fn lemma_aborted(f: Run, reason: Seq<char>)
    ensures
        orderly(f, model::aborted(f, reason)),
        model::aborted(f, reason).x.done,
{
    let g = model::stop_session(f, reason);
    lemma_stop(f, reason);
    lemma_finish(g, false, reason);
    lemma_steps(f, g, model::finish(g, false, reason));
}

/// The exchange before anything was done.
pub open spec fn untouched(x: ExchangeView) -> Run {
    Run { x, out: seq![] }
}

/// What can happen to an exchange.
pub enum Call {
    Start { now: int },
    Bytes { data: Seq<u8>, now: int },
    Closed,
    Poll { now: int },
    Abort { reason: Seq<char> },
}

/// What a call does.
pub open spec fn called(x: ExchangeView, c: Call) -> Run {
    match c {
        Call::Start { now } => model::started(x, now),
        Call::Bytes { data, now } => model::on_bytes(x, data, now),
        Call::Closed => model::on_closed(x),
        Call::Poll { now } => model::polled(x, now),
        Call::Abort { reason } => model::aborted(untouched(x), reason),
    }
}

/// The exchange after some calls.
pub open spec fn after(x: ExchangeView, calls: Seq<Call>) -> ExchangeView
    decreases calls.len(),
{
    if calls.len() == 0 {
        x
    } else {
        called(after(x, calls.drop_last()), calls.last()).x
    }
}

/// Bytes end an exchange at most once, and every delivery and arrival is
/// counted.
pub proof fn law_bytes_are_orderly(x: ExchangeView, data: Seq<u8>, now: int)
    ensures
        orderly(untouched(x), model::on_bytes(x, data, now)),
{
    let a = untouched(x);
    let f = Run { x: ExchangeView { now, last_rx: now, ..x }, out: seq![] };
    assert(orderly(a, f));
    match x.link {
        LinkView::Telnet(login) => {
            let (next, steps) = telnet::login_fed(login, data);
            let g = model::with_link(f, LinkView::Telnet(next));
            lemma_login_steps(g, steps, None);
            lemma_steps(a, g, model::login_steps(g, steps, None));
        },
        LinkView::Answer(accept) => {
            let (next, steps) = telnet::accept_fed(accept, data);
            let g = model::with_link(f, LinkView::Answer(next));
            lemma_login_steps(g, steps, Some(next.remote));
            lemma_steps(a, g, model::login_steps(g, steps, Some(next.remote)));
        },
        LinkView::Agw(l) => {
            let (frames, rest) = agw::decoded(l.buf + data);
            let g = model::with_link(f, LinkView::Agw(AgwView { buf: rest, ..l }));
            match frames {
                Ok(v) => {
                    lemma_on_frames(g, v);
                    lemma_steps(a, g, model::on_frames(g, v));
                },
                Err(e) => {
                    lemma_finish(g, false, e);
                    lemma_steps(a, g, model::finish(g, false, e));
                },
            }
        },
        LinkView::Raw => {
            lemma_feed(f, data);
            lemma_steps(a, f, model::feed_session(f, data));
        },
    }
}

/// The start does not end an exchange more than once.
pub proof fn law_start_is_orderly(x: ExchangeView, now: int)
    ensures
        orderly(untouched(x), model::started(x, now)),
{
    let a = untouched(x);
    let f = Run { x: ExchangeView { now, last_rx: now, ..x }, out: seq![] };
    assert(orderly(a, f));
    let g = model::started(x, now);
    match x.link {
        LinkView::Telnet(_) => {
            lemma_does(f, ActionView::Log(LogKind::Info, "logging in as "@ + x.mycall));
        },
        LinkView::Answer(_) => {
            lemma_does(f, ActionView::Transmit(encode_utf8("Callsign :\r"@)));
        },
        LinkView::Agw(l) => {
            lemma_push(f.out, g.out[0]);
            lemma_push(f.out.push(g.out[0]), g.out[1]);
            assert(g.out =~= f.out.push(g.out[0]).push(g.out[1]));
        },
        LinkView::Raw => {
            lemma_start(f);
            lemma_steps(a, f, g);
        },
    }
}

/// The end of the transport ends the exchange, once.
pub proof fn law_close_ends(x: ExchangeView)
    ensures
        orderly(untouched(x), model::on_closed(x)),
        model::on_closed(x).x.done,
{
    let f = untouched(x);
    lemma_finish(f, true, seq![]);
    lemma_stop(f, model::link_closed());
    let g = model::stop_session(f, model::link_closed());
    let reason = "the link closed before the exchange started"@;
    lemma_finish(g, false, reason);
    lemma_steps(f, g, model::finish(g, false, reason));
}

/// Giving up ends the exchange, once.
pub proof fn law_abort_ends(x: ExchangeView, reason: Seq<char>)
    ensures
        orderly(untouched(x), model::aborted(untouched(x), reason)),
        model::aborted(untouched(x), reason).x.done,
{
    lemma_aborted(untouched(x), reason);
}

/// A timer ends an exchange at most once; silence beyond the limit ends it,
/// unless a connection is being wound up.
pub proof fn law_poll_is_orderly(x: ExchangeView, now: int)
    ensures
        orderly(untouched(x), model::polled(x, now)),
        !x.done && model::elapsed(now, x.last_rx) > x.idle_timeout_ms && !(
        x.link matches LinkView::Agw(l) && (l.phase == AgwPhase::Draining || l.phase
            == AgwPhase::Disconnecting)) ==> model::polled(x, now).x.done,
{
    let a = untouched(x);
    let f = Run { x: ExchangeView { now, ..x }, out: seq![] };
    let g = model::polled(x, now);
    assert(orderly(a, f));
    let idle = model::elapsed(now, x.last_rx);
    let reason = "no response for "@ + text::decimal((idle / 1000) as nat) + " s"@;
    lemma_aborted(f, reason);
    lemma_steps(a, f, model::aborted(f, reason));
    lemma_finish(f, true, seq![]);
    lemma_steps(a, f, model::finish(f, true, seq![]));
    if let LinkView::Agw(l) = x.link {
        if !x.done && l.phase == AgwPhase::Draining && g.out.len() > 0 {
            if g.out.len() == 2 {
                lemma_push(f.out, g.out[0]);
                lemma_push(f.out.push(g.out[0]), g.out[1]);
                assert(g.out =~= f.out.push(g.out[0]).push(g.out[1]));
            } else {
                lemma_push(f.out, g.out[0]);
                assert(g.out =~= f.out.push(g.out[0]));
            }
        }
    }
}

/// Nothing is asked for once the exchange is over.
pub proof fn law_done_is_final(x: ExchangeView, data: Seq<u8>, now: int, reason: Seq<char>)
    requires
        x.done,
    ensures
        model::on_bytes(x, data, now).out == Seq::<ActionView>::empty(),
        model::on_closed(x).out == Seq::<ActionView>::empty(),
        model::polled(x, now).out == Seq::<ActionView>::empty(),
        model::aborted(untouched(x), reason).out == Seq::<ActionView>::empty(),
{
}

/// Is the connection being drained: has the session ended well while the
/// other side may still lack some of it?
pub open spec fn is_draining(x: ExchangeView) -> bool {
    !x.done && (x.link matches LinkView::Agw(l) && l.phase == AgwPhase::Draining)
}

/// When the session is complete on a radio link, the connection is not ended
/// but drained: the server is asked what is still unacknowledged.
pub proof fn law_completed_is_drained(f: Run)
    requires
        !f.x.done,
        f.x.link is Agw,
    ensures
        ({
            let g = model::session_finished(f);
            &&& is_draining(g.x)
            &&& g.x.finished_ok
            &&& g.out == f.out.push(
                ActionView::Transmit(model::query(f.x, f.x.link->Agw_0.port)),
            )
        }),
{
}

/// The connection is ended when every frame is acknowledged, and not while
/// the server counts some that are not.
pub proof fn law_drained_before_hanging_up(f: Run, fr: FrameView)
    requires
        is_draining(f.x),
        fr.kind == 0x59,
        fr.port == f.x.link->Agw_0.port,
    ensures
        ({
            let g = model::on_frame(f, fr);
            let l = f.x.link->Agw_0;
            &&& model::outstanding(fr.data) > 0 ==> g == f
            &&& model::outstanding(fr.data) == 0 ==> {
                &&& g.out == f.out.push(ActionView::Transmit(model::hang_up(f.x, l.port)))
                &&& g.x.link matches LinkView::Agw(m) && m.phase == AgwPhase::Disconnecting
            }
        }),
{
}

/// While it drains, time alone does not end the connection before the limit
/// of three minutes: the server is asked again, about once a second.
pub proof fn law_draining_takes_time(x: ExchangeView, now: int)
    requires
        is_draining(x),
        model::elapsed(now, x.link->Agw_0.phase_since) <= 180_000,
    ensures
        ({
            let g = model::polled(x, now);
            let l = x.link->Agw_0;
            &&& is_draining(g.x)
            &&& g.out == (if model::elapsed(now, l.last_query) >= 1_000 {
                seq![ActionView::Transmit(model::query(x, l.port))]
            } else {
                seq![]
            })
        }),
{
    let g = model::polled(x, now);
    if model::elapsed(now, x.link->Agw_0.last_query) >= 1_000 {
        assert(g.out =~= seq![ActionView::Transmit(model::query(x, x.link->Agw_0.port))]);
    }
}

} // verus!

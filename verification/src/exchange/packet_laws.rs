//! Packets stay within the length that was asked for, whatever happens to an
//! exchange.

use vstd::prelude::*;

use crate::agw;
use crate::agw::FrameView;
use crate::exchange;
use crate::exchange::laws::{after, called, untouched, Call};
use crate::exchange::model;
use crate::exchange::model::{ActionView, AgwPhase, AgwView, ExchangeView, LinkView, Run};
use crate::exchange::ExchangeConfigView;
use crate::session::model::{EventView, Flow, LogKind, OutboundView};

verus! {

/// None of the frames that carry data carries more than `n` bytes.
pub open spec fn short_frames(frames: Seq<FrameView>, n: int) -> bool {
    forall|i: int|
        0 <= i < frames.len() && (#[trigger] frames[i]).kind == 0x44 ==> frames[i].data.len() <= n
}

/// These bytes are whole frames, none of them too long.
pub open spec fn in_short_frames(bytes: Seq<u8>, n: int) -> bool {
    exists|frames: Seq<FrameView>|
        bytes == #[trigger] agw::encoded_all(frames) && short_frames(frames, n)
}

/// The link is a radio link with packets of at most `n` bytes, and what was
/// transmitted keeps to that.
pub open spec fn within(f: Run, n: int) -> bool {
    &&& f.x.link matches LinkView::Agw(l) && l.paclen == n
    &&& forall|i: int|
        0 <= i < f.out.len() && (#[trigger] f.out[i] matches ActionView::Transmit(bytes))
            ==> in_short_frames(f.out[i]->Transmit_0, n)
}

proof fn lemma_does(f: Run, a: ActionView, n: int)
    requires
        within(f, n),
        a matches ActionView::Transmit(bytes) ==> in_short_frames(bytes, n),
    ensures
        within(model::does(f, a), n),
{
    let g = model::does(f, a);
    assert forall|i: int|
        0 <= i < g.out.len() && (#[trigger] g.out[i] matches ActionView::Transmit(bytes)) implies
        in_short_frames(g.out[i]->Transmit_0, n) by {
        if i < f.out.len() {
            assert(g.out[i] == f.out[i]);
        }
    }
}

/// One frame that carries no data of the session.
proof fn lemma_control(fr: FrameView, n: int)
    requires
        fr.kind != 0x44,
    ensures
        in_short_frames(agw::encoded(fr), n),
{
    let frames = seq![fr];
    assert(frames.drop_first() =~= seq![]);
    assert(agw::encoded_all(frames) =~= agw::encoded(fr)) by {
        reveal_with_fuel(agw::encoded_all, 2);
    }
    assert(short_frames(frames, n));
}

proof fn lemma_sends_control(f: Run, fr: FrameView, n: int)
    requires
        within(f, n),
        fr.kind != 0x44,
    ensures
        within(model::sends(f, agw::encoded(fr)), n),
{
    lemma_control(fr, n);
    lemma_does(f, ActionView::Transmit(agw::encoded(fr)), n);
}

proof fn lemma_finish(f: Run, ok: bool, reason: Seq<char>, n: int)
    requires
        within(f, n),
    ensures
        within(model::finish(f, ok, reason), n),
{
    let g = Run { x: ExchangeView { done: true, ..f.x }, out: f.out };
    assert(within(g, n));
    lemma_does(g, ActionView::Close, n);
    lemma_does(
        model::does(g, ActionView::Close),
        ActionView::Done { ok, summary: model::summary(f.x, ok, reason) },
        n,
    );
}

proof fn lemma_data(
    port: u8,
    mycall: Seq<char>,
    target: Seq<char>,
    bytes: Seq<u8>,
    n: int,
)
    ensures
        in_short_frames(agw::encoded_all(agw::data_frames(port, mycall, target, bytes, n)), n),
{
    let frames = agw::data_frames(port, mycall, target, bytes, n);
    if n >= 1 {
        agw::law_data_frames(port, mycall, target, bytes, n);
    }
    assert(short_frames(frames, n));
}

proof fn lemma_apply_one(f: Run, e: EventView, n: int)
    requires
        within(f, n),
    ensures
        within(model::apply_one(f, e), n),
{
    reveal(model::apply_one);
    let l = f.x.link->Agw_0;
    match e {
        EventView::Transmit(bytes) => {
            lemma_data(l.port, f.x.mycall, f.x.target, bytes, n);
            lemma_does(
                f,
                ActionView::Transmit(
                    agw::encoded_all(
                        agw::data_frames(l.port, f.x.mycall, f.x.target, bytes, n),
                    ),
                ),
                n,
            );
        },
        EventView::Log(kind, line) => lemma_does(f, ActionView::Log(kind, line), n),
        EventView::Received { message, raw } => lemma_does(
            Run { x: ExchangeView { received: model::one_more(f.x.received), ..f.x }, out: f.out },
            ActionView::Received { message, raw },
            n,
        ),
        EventView::Delivered(mid) => lemma_does(
            Run { x: ExchangeView { delivered: model::one_more(f.x.delivered), ..f.x }, out: f.out },
            ActionView::Delivered(mid),
            n,
        ),
        EventView::AlreadyDelivered(mid) => lemma_does(f, ActionView::AlreadyDelivered(mid), n),
        EventView::Deferred(mid) => lemma_does(f, ActionView::Deferred(mid), n),
        EventView::Finished => {
            let x = ExchangeView { finished_ok: true, ..f.x };
            lemma_sends_control(
                Run { x: model::in_phase(x, AgwPhase::Draining), out: f.out },
                agw::frame(0x59, l.port, f.x.mycall, f.x.target, seq![]),
                n,
            );
        },
        EventView::Failed(reason) => {
            let bye = agw::frame(0x64, l.port, f.x.mycall, f.x.target, seq![]);
            lemma_sends_control(f, bye, n);
            lemma_finish(model::sends(f, agw::encoded(bye)), false, reason, n);
            lemma_finish(f, false, reason, n);
        },
    }
}

proof fn lemma_apply(f: Run, events: Seq<EventView>, n: int)
    requires
        within(f, n),
    ensures
        within(model::apply(f, events), n),
    decreases events.len(),
{
    if events.len() > 0 {
        let g = model::apply_one(f, events[0]);
        lemma_apply_one(f, events[0], n);
        if !g.x.done {
            lemma_apply(g, events.drop_first(), n);
        }
    }
}

proof fn lemma_with_session(f: Run, g: Flow, n: int)
    requires
        within(f, n),
    ensures
        within(model::with_session(f, g), n),
{
    lemma_apply(Run { x: ExchangeView { session: Some(g.s), ..f.x }, out: f.out }, g.ev, n);
}

proof fn lemma_feed(f: Run, data: Seq<u8>, n: int)
    requires
        within(f, n),
    ensures
        within(model::feed_session(f, data), n),
{
    if let Some(s) = f.x.session {
        lemma_with_session(f, crate::session::model::fed(Flow { s, ev: seq![] }, data), n);
    }
}

proof fn lemma_start(f: Run, n: int)
    requires
        within(f, n),
    ensures
        within(model::start_session(f), n),
{
    if let Some(s) = f.x.session {
        lemma_with_session(f, model::session_started(s), n);
    }
}

proof fn lemma_stop(f: Run, reason: Seq<char>, n: int)
    requires
        within(f, n),
    ensures
        within(model::stop_session(f, reason), n),
{
    if let Some(s) = f.x.session {
        lemma_with_session(f, model::session_stopped(s, reason), n);
    }
}

proof fn lemma_disconnected(f: Run, phase: AgwPhase, line: Seq<char>, n: int)
    requires
        within(f, n),
    ensures
        within(model::disconnected(f, phase, line), n),
{
    lemma_does(f, ActionView::Log(LogKind::Rx, line), n);
    let g = if line.len() > 0 {
        model::logs(f, LogKind::Rx, line)
    } else {
        f
    };
    let why = if line.len() > 0 {
        line
    } else {
        "no answer"@
    };
    lemma_finish(g, false, "could not connect to "@ + f.x.target + " ("@ + why + ")"@, n);
    lemma_finish(g, true, seq![], n);
    lemma_stop(g, model::link_closed(), n);
    lemma_finish(model::stop_session(g, model::link_closed()), false, "disconnected"@, n);
}

proof fn lemma_on_frame(f: Run, fr: FrameView, n: int)
    requires
        within(f, n),
    ensures
        within(model::on_frame(f, fr), n),
{
    let l = f.x.link->Agw_0;
    let line = model::frame_text(fr.data);
    if fr.port != l.port && fr.kind != 0x58 {
    } else if fr.kind == 0x58 {
        lemma_does(
            f,
            ActionView::Log(LogKind::Info, f.x.mycall + " registered with the AGW server"@),
            n,
        );
        lemma_does(
            f,
            ActionView::Log(
                LogKind::Warn,
                f.x.mycall + " is already registered by another program; continuing"@,
            ),
            n,
        );
    } else if fr.kind == 0x43 && l.phase == AgwPhase::Calling {
        let g = Run { x: model::in_phase(f.x, AgwPhase::Connected), out: f.out };
        let note = ActionView::Log(
            LogKind::Success,
            if line.len() == 0 {
                "connected to "@ + f.x.target
            } else {
                line
            },
        );
        lemma_does(g, note, n);
        lemma_start(model::does(g, note), n);
    } else if fr.kind == 0x44 && l.phase != AgwPhase::Calling {
        lemma_feed(f, fr.data, n);
    } else if fr.kind == 0x64 {
        lemma_disconnected(f, l.phase, line, n);
    } else {
        lemma_sends_control(
            Run { x: model::in_phase(f.x, AgwPhase::Disconnecting), out: f.out },
            agw::frame(0x64, l.port, f.x.mycall, f.x.target, seq![]),
            n,
        );
    }
}

proof fn lemma_on_frames(f: Run, frames: Seq<FrameView>, n: int)
    requires
        within(f, n),
    ensures
        within(model::on_frames(f, frames), n),
    decreases frames.len(),
{
    if frames.len() > 0 {
        let g = model::on_frame(f, frames[0]);
        lemma_on_frame(f, frames[0], n);
        if !g.x.done {
            lemma_on_frames(g, frames.drop_first(), n);
        }
    }
}

proof fn lemma_aborted(f: Run, reason: Seq<char>, n: int)
    requires
        within(f, n),
    ensures
        within(model::aborted(f, reason), n),
{
    lemma_stop(f, reason, n);
    lemma_finish(model::stop_session(f, reason), false, reason, n);
}

proof fn lemma_polled(x: ExchangeView, now: int, n: int)
    requires
        within(untouched(x), n),
    ensures
        within(model::polled(x, now), n),
{
    let f = Run { x: ExchangeView { now, ..x }, out: seq![] };
    let l = x.link->Agw_0;
    if x.done {
    } else if l.phase == AgwPhase::Draining {
        let bye = agw::frame(0x64, l.port, x.mycall, x.target, seq![]);
        let note = ActionView::Log(
            LogKind::Warn,
            "frames still unacknowledged; disconnecting anyway"@,
        );
        lemma_does(f, note, n);
        let g = model::does(f, note);
        lemma_sends_control(
            Run { x: model::in_phase(g.x, AgwPhase::Disconnecting), out: g.out },
            bye,
            n,
        );
        lemma_sends_control(
            model::with_link(f, LinkView::Agw(AgwView { last_query: now, ..l })),
            agw::frame(0x59, l.port, x.mycall, x.target, seq![]),
            n,
        );
    } else if l.phase == AgwPhase::Disconnecting {
        lemma_finish(f, true, seq![], n);
    } else {
        let idle = model::elapsed(f.x.now, f.x.last_rx);
        lemma_aborted(
            f,
            "no response for "@ + crate::text::decimal((idle / 1000) as nat) + " s"@,
            n,
        );
    }
}

proof fn lemma_started(x: ExchangeView, now: int, n: int)
    requires
        within(untouched(x), n),
    ensures
        within(model::started(x, now), n),
{
    let f = Run { x: ExchangeView { now, last_rx: now, ..x }, out: seq![] };
    let l = x.link->Agw_0;
    let frames = seq![
        agw::frame(0x58, l.port, x.mycall, ""@, seq![]),
        agw::connect_frame(l.port, x.mycall, x.target, l.via),
    ];
    let bytes = agw::encoded(frames[0]) + agw::encoded(frames[1]);
    assert(in_short_frames(bytes, n)) by {
        reveal_with_fuel(agw::encoded_all, 3);
        assert(frames.drop_first().drop_first() =~= seq![]);
        assert(agw::encoded_all(frames) =~= bytes);
        assert(short_frames(frames, n));
    }
    let via = if l.via.len() == 0 {
        seq![]
    } else {
        " via "@ + crate::text::join(l.via, ","@)
    };
    let note = ActionView::Log(LogKind::Info, "calling "@ + x.target + via);
    lemma_does(f, note, n);
    let g = model::with_link(
        model::does(f, note),
        LinkView::Agw(AgwView { phase_since: now, ..l }),
    );
    assert(within(g, n));
    lemma_does(g, ActionView::Transmit(bytes), n);
}

proof fn lemma_on_bytes(x: ExchangeView, data: Seq<u8>, now: int, n: int)
    requires
        within(untouched(x), n),
    ensures
        within(model::on_bytes(x, data, now), n),
{
    let f = Run { x: ExchangeView { now, last_rx: now, ..x }, out: seq![] };
    let l = x.link->Agw_0;
    let (frames, rest) = agw::decoded(l.buf + data);
    let g = model::with_link(f, LinkView::Agw(AgwView { buf: rest, ..l }));
    match frames {
        Ok(v) => lemma_on_frames(g, v, n),
        Err(e) => lemma_finish(g, false, e, n),
    }
}

proof fn lemma_on_closed(x: ExchangeView, n: int)
    requires
        within(untouched(x), n),
    ensures
        within(model::on_closed(x), n),
{
    let f = untouched(x);
    lemma_finish(f, true, seq![], n);
    lemma_stop(f, model::link_closed(), n);
    lemma_finish(
        model::stop_session(f, model::link_closed()),
        false,
        "the link closed before the exchange started"@,
        n,
    );
}

/// On a radio link a call transmits whole frames, none with more data than
/// the packet length, which stays as it is.
pub proof fn law_call_keeps_to_paclen(x: ExchangeView, c: Call)
    requires
        x.link is Agw,
    ensures
        within(called(x, c), x.link->Agw_0.paclen),
{
    let n = x.link->Agw_0.paclen;
    match c {
        Call::Start { now } => lemma_started(x, now, n),
        Call::Bytes { data, now } => lemma_on_bytes(x, data, now, n),
        Call::Closed => lemma_on_closed(x, n),
        Call::Poll { now } => lemma_polled(x, now, n),
        Call::Abort { reason } => lemma_aborted(untouched(x), reason, n),
    }
}

proof fn lemma_after(x: ExchangeView, calls: Seq<Call>)
    requires
        x.link is Agw,
    ensures
        after(x, calls).link matches LinkView::Agw(l) && l.paclen == x.link->Agw_0.paclen,
    decreases calls.len(),
{
    if calls.len() > 0 {
        lemma_after(x, calls.drop_last());
        law_call_keeps_to_paclen(after(x, calls.drop_last()), calls.last());
    }
}

/// A new exchange over a radio link is not over, and whatever happens to it,
/// every call transmits whole frames, none with more data than the packet
/// length that was asked for, taken into the range from 16 to 256.
pub proof fn law_packets_are_short(
    cfg: ExchangeConfigView,
    outbound: Seq<OutboundView>,
    known: Set<Seq<char>>,
    calls: Seq<Call>,
    next: Call,
)
    requires
        cfg.link is Agw,
    ensures
        !exchange::fresh(cfg, outbound, known).done,
        16 <= exchange::clamped(cfg.link->paclen) <= 256,
        16 <= cfg.link->paclen <= 256 ==> exchange::clamped(cfg.link->paclen) == cfg.link->paclen,
        within(
            called(after(exchange::fresh(cfg, outbound, known), calls), next),
            exchange::clamped(cfg.link->paclen),
        ),
{
    let x = exchange::fresh(cfg, outbound, known);
    lemma_after(x, calls);
    law_call_keeps_to_paclen(after(x, calls), next);
}

} // verus!

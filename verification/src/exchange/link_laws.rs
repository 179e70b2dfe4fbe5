//! Laws of the packet link and of time: which frames count, what is asked of
//! the AGW server, and when an exchange is given up.

use vstd::prelude::*;

use crate::agw;
use crate::agw::laws::{holds_call, law_frame_layout};
use crate::agw::FrameView;
use crate::exchange::model;
use crate::exchange::model::{AgwPhase, AgwView, Run};
use crate::exchange::{ActionView, ExchangeView, LinkView};

verus! {

/// What comes for another radio port is left alone. Data counts once the call
/// is answered, and goes to the session as it came.
pub proof fn law_frames_that_count(f: Run, fr: FrameView, l: AgwView)
    requires
        f.x.link == LinkView::Agw(l),
    ensures
        fr.port != l.port && fr.kind != 'X' as u8 ==> model::on_frame(f, fr) == f,
        fr.kind == 'D' as u8 && l.phase == AgwPhase::Calling ==> model::on_frame(f, fr) == f,
        fr.kind == 'D' as u8 && fr.port == l.port && l.phase != AgwPhase::Calling
            ==> model::on_frame(f, fr) == model::feed_session(f, fr.data),
        fr.kind == 'C' as u8 && l.phase != AgwPhase::Calling ==> model::on_frame(f, fr) == f,
        fr.kind == 'Y' as u8 && l.phase != AgwPhase::Draining ==> model::on_frame(f, fr) == f,
        fr.kind == 'X' as u8 ==> model::on_frame(f, fr).x == f.x,
{
}

/// When the other side hangs up, a call that was not answered has failed, and
/// an exchange that is complete has succeeded.
pub proof fn law_hanging_up(f: Run, fr: FrameView, l: AgwView)
    requires
        f.x.link == LinkView::Agw(l),
        !f.x.done,
        fr.kind == 'd' as u8,
        fr.port == l.port,
    ensures
        ({
            let g = model::on_frame(f, fr);
            &&& l.phase == AgwPhase::Calling ==> g.x.done && g.out.last() is Done
                && !g.out.last()->ok
            &&& l.phase != AgwPhase::Calling && f.x.finished_ok ==> g.x.done && g.out.last() is Done
                && g.out.last()->ok
        }),
{
}

/// An answer to the call starts the session: the link counts as connected
/// from now on.
pub proof fn law_connecting(f: Run, fr: FrameView, l: AgwView)
    requires
        f.x.link == LinkView::Agw(l),
        fr.kind == 'C' as u8,
        fr.port == l.port,
        l.phase == AgwPhase::Calling,
    ensures
        exists|h: Run|
            #![trigger model::start_session(h)]
            {
                &&& model::on_frame(f, fr) == model::start_session(h)
                &&& h.out.len() == f.out.len() + 1
                &&& h.x.session == f.x.session
                &&& h.x.link matches LinkView::Agw(k) && k.phase == AgwPhase::Connected && k.port
                    == l.port && k.paclen == l.paclen
            },
{
    let line = model::frame_text(fr.data);
    let said = if line.len() == 0 {
        "connected to "@ + f.x.target
    } else {
        line
    };
    let h = model::logs(
        Run { x: model::in_phase(f.x, AgwPhase::Connected), out: f.out },
        crate::session::LogKind::Success,
        said,
    );
    assert(model::on_frame(f, fr) == model::start_session(h));
}

/// The number of frames that are still to be acknowledged stands in the first
/// four bytes, the least significant first.
pub proof fn law_outstanding(data: Seq<u8>)
    requires
        data.len() >= 4,
    ensures
        model::outstanding(data) == data[0] + 0x100 * data[1] + 0x1_0000 * data[2] + 0x100_0000
            * data[3],
{
    assert(data.take(4)[0] == data[0] && data.take(4)[1] == data[1] && data.take(4)[2] == data[2]
        && data.take(4)[3] == data[3]);
}

/// To hang up is a frame of the kind `d`, and to ask what is outstanding one
/// of the kind `Y`, from our call to the other's, on our port.
pub proof fn law_requests_are_addressed(x: ExchangeView, port: u8)
    ensures
        ({
            let (h, q) = (model::hang_up(x, port), model::query(x, port));
            &&& h.len() == 36 && q.len() == 36
            &&& h[0] == port && q[0] == port
            &&& h[4] == 'd' as u8 && q[4] == 'Y' as u8
            &&& holds_call(h.subrange(8, 18), x.mycall) && holds_call(h.subrange(18, 28), x.target)
            &&& holds_call(q.subrange(8, 18), x.mycall) && holds_call(q.subrange(18, 28), x.target)
        }),
{
    law_frame_layout(agw::frame('d' as u8, port, x.mycall, x.target, seq![]));
    law_frame_layout(agw::frame('Y' as u8, port, x.mycall, x.target, seq![]));
}

/// A packet exchange starts by registering our call on the port, and then
/// asks for the connection to the other station.
pub proof fn law_call_is_made(x: ExchangeView, l: AgwView, now: int)
    requires
        x.link == LinkView::Agw(l),
    ensures
        ({
            let g = model::started(x, now);
            let connect = agw::encoded(agw::connect_frame(l.port, x.mycall, x.target, l.via));
            &&& g.out.last() matches ActionView::Transmit(b) && {
                &&& b.len() == 36 + connect.len()
                &&& b[0] == l.port
                &&& b[4] == 'X' as u8
                &&& holds_call(b.subrange(8, 18), x.mycall)
                &&& b.skip(36) == connect
            }
            &&& g.x.last_rx == now && g.x.now == now
        }),
{
    let register = agw::frame('X' as u8, l.port, x.mycall, ""@, seq![]);
    law_frame_layout(register);
    let connect = agw::encoded(agw::connect_frame(l.port, x.mycall, x.target, l.via));
    let b = agw::encoded(register) + connect;
    assert(b.skip(36) =~= connect);
    assert(b.subrange(8, 18) =~= agw::encoded(register).subrange(8, 18));
    assert(model::started(x, now).out.last() == ActionView::Transmit(b));
}

/// An exchange is given up when nothing was heard for longer than its limit,
/// and not before; a transport that is not a packet link then ends at once.
pub proof fn law_silence(x: ExchangeView, now: int)
    requires
        !x.done,
        !(x.link is Agw),
    ensures
        now - x.last_rx <= x.idle_timeout_ms && 0 <= x.idle_timeout_ms ==> model::polled(
            x,
            now,
        ).out.len() == 0 && !model::polled(x, now).x.done,
        now - x.last_rx > x.idle_timeout_ms && 0 <= x.idle_timeout_ms ==> model::polled(
            x,
            now,
        ) == model::aborted(
            Run { x: ExchangeView { now, ..x }, out: seq![] },
            "no response for "@ + crate::text::decimal(((now - x.last_rx) / 1000) as nat) + " s"@,
        ),
{
}

/// While the last frames are on their way, the server is asked once a second,
/// for three minutes at most; a station that does not answer to being hung up
/// on is left after thirty seconds.
pub proof fn law_last_frames(x: ExchangeView, l: AgwView, now: int)
    requires
        !x.done,
        x.link == LinkView::Agw(l),
    ensures
        ({
            let g = model::polled(x, now);
            &&& l.phase == AgwPhase::Draining && now - l.phase_since > 180_000 ==> g.out.last()
                == ActionView::Transmit(model::hang_up(x, l.port))
            &&& l.phase == AgwPhase::Draining && now - l.phase_since <= 180_000 && now
                - l.last_query >= 1_000 ==> g.out == seq![
                ActionView::Transmit(model::query(x, l.port)),
            ]
            &&& l.phase == AgwPhase::Draining && now - l.phase_since <= 180_000 && now
                - l.last_query < 1_000 ==> g.out.len() == 0
            &&& l.phase == AgwPhase::Disconnecting && now - l.phase_since > 30_000 ==> g.x.done
                && g.out.last() is Done && g.out.last()->ok
            &&& l.phase == AgwPhase::Disconnecting && now - l.phase_since <= 30_000 ==> g.out.len()
                == 0
        }),
{
}

} // verus!

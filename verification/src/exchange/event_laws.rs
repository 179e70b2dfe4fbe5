//! Laws of what an exchange makes of the events of its session.

use vstd::prelude::*;

use crate::exchange;
use crate::exchange::model;
use crate::exchange::model::Run;
use crate::exchange::{Action, ActionView, ExchangeConfig, ExchangeView, LinkSpec, LinkSpecView, LinkView};
use crate::session;
use crate::session::model::EventView;
use crate::session::OutboundView;

verus! {

/// Each event of the session becomes the action that it stands for. A message
/// that came in or went out is counted once; nothing else is.
pub proof fn law_events_become_actions(f: Run, e: EventView)
    ensures
        ({
            let g = model::apply_one(f, e);
            match e {
                EventView::Log(kind, line) => g.out == f.out.push(ActionView::Log(kind, line)),
                EventView::Received { message, raw } => g.out == f.out.push(
                    ActionView::Received { message, raw },
                ) && (f.x.received < u32::MAX ==> g.x.received == f.x.received + 1)
                    && g.x.delivered == f.x.delivered,
                EventView::Delivered(mid) => g.out == f.out.push(ActionView::Delivered(mid)) && (
                f.x.delivered < u32::MAX ==> g.x.delivered == f.x.delivered + 1) && g.x.received
                    == f.x.received,
                EventView::AlreadyDelivered(mid) => g.out == f.out.push(
                    ActionView::AlreadyDelivered(mid),
                ) && g.x == f.x,
                EventView::Deferred(mid) => g.out == f.out.push(ActionView::Deferred(mid)) && g.x
                    == f.x,
                EventView::Transmit(bytes) => g.x == f.x && !(f.x.link is Agw) ==> g.out
                    == f.out.push(ActionView::Transmit(bytes)),
                EventView::Finished => g.x.finished_ok && (!(f.x.link is Agw) && !f.x.done
                    ==> g.x.done && g.out.last() is Done && g.out.last()->ok),
                EventView::Failed(reason) => !f.x.done ==> g.x.done && g.out.last() is Done
                    && !g.out.last()->ok,
            }
        }),
{
    reveal(model::apply_one);
}

/// An exchange begins as it was asked for: its session speaks for our call
/// with the station that is called, under the given locator and password, and
/// has the given messages to send.
pub proof fn law_exchange_begins_as_asked(
    c: ExchangeConfig,
    outbound: Seq<OutboundView>,
    known: Set<Seq<char>>,
)
    requires
        !(c@.link is TelnetAnswer),
    ensures
        ({
            let x = exchange::fresh(c@, outbound, known);
            &&& x.mycall == c.mycall@
            &&& x.target == c.target@
            &&& x.session matches Some(s) && {
                &&& s.cfg.mycall == c.mycall@
                &&& s.cfg.targetcall == c.target@
                &&& s.cfg.locator == c.locator@
                &&& s.cfg.password == session::opt_text(c.password)
                &&& !s.cfg.master
                &&& s.outbound == outbound
                &&& s.known == known
                &&& forall|i: int| 0 <= i < s.offered.len() ==> !(#[trigger] s.offered[i])
            }
            &&& !x.done && x.delivered == 0 && x.received == 0
        }),
{
}

/// Who answers a call learns from the login who is calling: the session then
/// leads, and is with that station.
pub proof fn law_answering_side_leads(x: ExchangeView, call: Seq<char>)
    ensures
        x.pending matches Some((outbound, known)) ==> ({
            let y = model::create_session(x, call, true);
            y.session matches Some(s) && s.cfg.master && s.cfg.targetcall == call && s.cfg.mycall
                == x.mycall && s.cfg.locator == x.locator && s.cfg.password == x.password
                && s.outbound == outbound && s.known == known && y.pending is None
        }),
{
}

/// What an exchange is given is what it works with: over Direwolf the radio
/// port, the digipeaters in order, and the packet length.
pub proof fn law_exchange_input(c: ExchangeConfig)
    ensures
        c@.mycall == c.mycall@ && c@.target == c.target@ && c@.locator == c.locator@,
        c@.idle_timeout_ms == c.idle_timeout_ms,
        c.password is None ==> c@.password is None,
        c.password is Some ==> c@.password == Some(c.password->0@),
        c.link is Raw <==> c@.link is Raw,
        c.link is TelnetAnswer <==> c@.link is TelnetAnswer,
        c.link matches LinkSpec::Telnet { login_password } ==> exchange::fresh_link(
            c@.link,
            c@.mycall,
        ) matches LinkView::Telnet(l) && l.call == c.mycall@ && l.password == login_password@,
        c.link matches LinkSpec::Agw { port, via, paclen } ==> exchange::fresh_link(
            c@.link,
            c@.mycall,
        ) matches LinkView::Agw(l) && l.port == port && (16 <= paclen <= 256 ==> l.paclen == paclen)
            && (paclen < 16 ==> l.paclen == 16) && (paclen > 256 ==> l.paclen == 256) && l.via.len()
            == via@.len() && forall|i: int|
            0 <= i < via@.len() ==> #[trigger] l.via[i] == via@[i]@,
{
}

/// An action says what the exchange means by it.
pub proof fn law_exchange_output(a: Action)
    ensures
        match a {
            Action::Transmit(b) => a@ == ActionView::Transmit(b@),
            Action::Log(kind, line) => a@ == ActionView::Log(kind, line@),
            Action::Received { message, raw } => a@ is Received && a@->message == message@
                && a@->raw == raw@,
            Action::Delivered(mid) => a@ == ActionView::Delivered(mid@),
            Action::AlreadyDelivered(mid) => a@ == ActionView::AlreadyDelivered(mid@),
            Action::Deferred(mid) => a@ == ActionView::Deferred(mid@),
            Action::Close => a@ is Close,
            Action::Done { ok, summary } => a@ is Done && a@->ok == ok && a@->summary == summary@,
        },
{
}

/// Over the radio an exchange waits five times as long as over the internet,
/// where it waits two minutes.
pub proof fn law_usual_timeouts(radio: LinkSpecView, wire: LinkSpecView)
    requires
        radio is Agw,
        !(wire is Agw),
    ensures
        exchange::usual_timeout(wire) == 2 * 60 * 1000,
        exchange::usual_timeout(radio) == 5 * exchange::usual_timeout(wire),
{
}

} // verus!

//! What holds of the program whatever happens.

use vstd::prelude::*;

use crate::cli::model;
use crate::cli::model::{AppView, AskView, ModeView, TurnView};
use crate::cli::say::SayView;
use crate::cli::target::TargetView;
use crate::exchange::ActionView;
use crate::mailbox::EntryView;
use crate::message;

verus! {

/// Only one exchange runs at a time: while it does, no line starts another,
/// and a caller is refused.
pub proof fn law_one_exchange_at_a_time(a: AppView, line: Seq<char>, now_ms: int, entropy: int, peer: Seq<char>)
    requires
        a.mode is Exchange,
    ensures
        ({
            let (b, t) = model::line_read(a, line, now_ms, entropy);
            &&& b.mode is Exchange
            &&& b.mode->id == a.mode->id
            &&& b.next_id == a.next_id
            &&& !(t.ask is Connect) && !(t.ask is Begin)
        }),
        model::accepted(a, peer).ask == AskView::Refuse,
{
}

/// A caller is answered exactly while the program is idle.
pub proof fn law_busy_calls_are_refused(a: AppView, peer: Seq<char>)
    ensures
        a.mode is Idle <==> model::accepted(a, peer).ask is Begin,
        !(a.mode is Idle) <==> model::accepted(a, peer).ask is Refuse,
{
}

/// What comes in on an earlier connection does not disturb the exchange.
pub proof fn law_stale_connections_are_ignored(
    a: AppView,
    id: int,
    data: Seq<u8>,
    now_ms: int,
    reason: Option<Seq<char>>,
)
    requires
        a.mode matches ModeView::Exchange { id: mine, .. } ==> mine != id,
    ensures
        model::arrived(a, id, data, now_ms) == (a, model::silent()),
        model::closed(a, id, reason) == (a, model::silent()),
{
}

/// A run for one exchange exits with status 0 if it succeeded and 1 if not,
/// as soon as the exchange is over.
pub proof fn law_once_exit_status(a: AppView, ok: bool, summary: Seq<char>)
    requires
        a.cfg.once is Some,
        a.mode is Exchange,
    ensures
        model::exit_status(model::acted(a, ActionView::Done { ok, summary }).0) == Some(
            if ok {
                0i32
            } else {
                1i32
            },
        ),
{
}

/// A run for one exchange exits with status 1 if the station cannot be
/// reached.
pub proof fn law_once_unreached(a: AppView, target: TargetView, e: Seq<char>)
    requires
        a.cfg.once is Some,
        !(a.mode is Exchange),
    ensures
        model::exit_status(model::reached(a, target, Some(e)).0) == Some(1i32),
{
}

/// When an exchange is over the program is idle, and what it was still asked
/// to do is void.
pub proof fn law_done_is_idle(a: AppView, ok: bool, summary: Seq<char>, next: ActionView)
    requires
        a.mode is Exchange,
    ensures
        ({
            let b = model::acted(a, ActionView::Done { ok, summary }).0;
            &&& b.mode is Idle
            &&& model::acted(b, next) == (b, model::asks(AskView::Stop))
        }),
{
}

/// What is typed is hidden while the password is asked for, and shown again
/// with the answer. The password is used for the connection that was asked
/// for.
pub proof fn law_password_is_hidden(a: AppView, target: TargetView, line: Seq<char>)
    requires
        !(a.mode is Password),
    ensures
        ({
            let (b, t) = model::connects(a, target);
            let (c, u) = model::line_read(b, line, 0, 0);
            b.mode is Password ==> {
                &&& t.says.last() == SayView::Echo(false)
                &&& u.says[0] == SayView::Echo(true)
                &&& u.ask matches AskView::Connect { target: asked, .. } && asked == target
                &&& c.mode is Idle
            }
        }),
{
}

/// `trace` twice changes nothing.
pub proof fn law_trace_toggles_back(a: AppView)
    ensures
        model::toggles(model::toggles(a).0).0 == a,
{
}

/// Every message in the outbox is either offered or named with the reason
/// why it is not.
pub proof fn law_outbox_is_accounted_for(v: Seq<EntryView>)
    ensures
        model::sendable(v).len() + model::held_back(v).len() == v.len(),
        forall|i: int|
            0 <= i < v.len() && message::fault((#[trigger] v[i]).message) is None
                ==> model::sendable(v).contains(crate::session::prepared(v[i].message)),
    decreases v.len(),
{
    if v.len() > 0 {
        let less = v.drop_last();
        law_outbox_is_accounted_for(less);
        assert forall|i: int|
            0 <= i < v.len() && message::fault((#[trigger] v[i]).message) is None implies model::sendable(
            v,
        ).contains(crate::session::prepared(v[i].message)) by {
            let p = crate::session::prepared(v[i].message);
            let all = model::sendable(v);
            if i < less.len() {
                assert(less[i] == v[i]);
                let k = choose|k: int|
                    0 <= k < model::sendable(less).len() && model::sendable(less)[k] == p;
                assert(all[k] == p);
            } else {
                assert(all[all.len() - 1] == p);
            }
        }
    }
}

/// A message that arrives is kept just as it was sent.
pub proof fn law_received_is_kept(a: AppView, m: message::MessageView, raw: Seq<u8>)
    requires
        a.mode is Exchange,
    ensures
        model::acted(a, ActionView::Received { message: m, raw }) == (
            a,
            TurnView { says: seq![], ask: AskView::Keep { message: m, raw } },
        ),
{
}

} // verus!

//! Laws of taking turns: what is offered, and what counts as delivered.

use vstd::prelude::*;
use vstd::utf8::*;

use crate::charset;
use crate::lzhuf;
use crate::message::address;
use crate::message::wire;
use crate::session::lines;
use crate::session::lines::{Answer, ProposalView};
use crate::session::model;
use crate::session::model::{
    EventView, Flow, LogKind, OutboundView, ReceiverView, SessionView, StageView, StateView,
};
use crate::text;
use crate::unicode;

verus! {

// ---------------------------------------------------------------------
// Delivery

/// The IDs of the messages that the events call delivered, in order.
pub open spec fn delivered_in(ev: Seq<EventView>) -> Seq<Seq<char>>
    decreases ev.len(),
{
    if ev.len() == 0 {
        seq![]
    } else {
        match ev.last() {
            EventView::Delivered(mid) => delivered_in(ev.drop_last()).push(mid),
            _ => delivered_in(ev.drop_last()),
        }
    }
}

proof fn lemma_push(ev: Seq<EventView>, e: EventView)
    ensures
        delivered_in(ev.push(e)) == match e {
            EventView::Delivered(mid) => delivered_in(ev).push(mid),
            _ => delivered_in(ev),
        },
{
    assert(ev.push(e).drop_last() =~= ev);
}

proof fn lemma_sent(f: Flow, line: Seq<char>)
    ensures
        delivered_in(model::sent_line(f, line).ev) == delivered_in(f.ev),
{
    lemma_push(f.ev, EventView::Log(LogKind::Tx, line));
    lemma_push(
        model::logged(f, LogKind::Tx, line).ev,
        EventView::Transmit(encode_utf8(line + "\r"@)),
    );
}

proof fn lemma_held(ev: Seq<EventView>, outbound: Seq<OutboundView>, fw: Seq<Seq<char>>, n: int)
    ensures
        delivered_in(model::held(ev, outbound, fw, n)) == delivered_in(ev),
    decreases n,
{
    if n > 0 {
        lemma_held(ev, outbound, fw, n - 1);
        lemma_push(
            model::held(ev, outbound, fw, n - 1),
            EventView::Log(
                LogKind::Info,
                outbound[n - 1].mid
                    + " stays in the outbox: this peer only takes mail addressed to "@
                    + text::join(fw, ", "@),
            ),
        );
    }
}

proof fn lemma_offered(f: Flow, batch: Seq<int>)
    ensures
        delivered_in(model::offered(f, batch).0.ev) == delivered_in(f.ev),
    decreases batch.len(),
{
    if batch.len() > 0 {
        lemma_offered(f, batch.drop_last());
        lemma_sent(
            model::offered(f, batch.drop_last()).0,
            model::offer_line(f.s.outbound[batch.last()]),
        );
    }
}

proof fn lemma_our_turn(f: Flow)
    ensures
        delivered_in(model::our_turn(f).ev) == delivered_in(f.ev),
{
    let n = f.s.outbound.len() as int;
    let g = if !f.s.explained_held && f.s.remote_fw.len() > 0 {
        Flow {
            s: SessionView { explained_held: true, ..f.s },
            ev: model::held(f.ev, f.s.outbound, f.s.remote_fw, n),
        }
    } else {
        f
    };
    lemma_held(f.ev, f.s.outbound, f.s.remote_fw, n);
    let batch = model::next_batch(g.s);
    lemma_sent(g, "FQ"@);
    lemma_push(model::sent_line(g, "FQ"@).ev, EventView::Finished);
    lemma_sent(g, "FF"@);
    lemma_offered(g, batch);
    let (h, sum) = model::offered(g, batch);
    lemma_sent(h, "F> "@ + text::hex(lines::complement(sum) as nat, 2));
}

proof fn lemma_warnings(ev: Seq<EventView>, ps: Seq<ProposalView>, n: int)
    ensures
        delivered_in(model::size_warnings(ev, ps, n)) == delivered_in(ev),
    decreases n,
{
    if n > 0 {
        lemma_warnings(ev, ps, n - 1);
        lemma_push(
            model::size_warnings(ev, ps, n - 1),
            EventView::Log(LogKind::Warn, model::oversized_text(ps[n - 1])),
        );
    }
}

proof fn lemma_answered(f: Flow)
    ensures
        delivered_in(model::answered(f).ev) == delivered_in(f.ev),
{
    let ps = f.s.proposals;
    let n = ps.len() as int;
    lemma_warnings(f.ev, ps, n);
    let g = Flow {
        s: SessionView { proposals: seq![], remote_no_msgs: false, ..f.s },
        ev: model::size_warnings(f.ev, ps, n),
    };
    let line = "FS "@ + model::verdicts(ps, f.s.known, n);
    lemma_sent(g, line);
    lemma_our_turn(model::sent_line(g, line));
}

proof fn lemma_command(f: Flow, line: Seq<char>)
    ensures
        delivered_in(model::command(f, line).ev) == delivered_in(f.ev),
{
    let c = line[1];
    if c == 'A' || c == 'B' || c == 'C' || c == 'D' {
        if let Err(e) = lines::proposal(line) {
            lemma_push(f.ev, EventView::Failed(e));
        }
    } else if c == 'F' {
        let g = model::no_proposals(f);
        lemma_our_turn(Flow { s: SessionView { remote_no_msgs: true, ..g.s }, ev: g.ev });
    } else if c == 'Q' {
        let e = EventView::Log(LogKind::Warn, "remote quit with unanswered proposals"@);
        lemma_push(f.ev, e);
        lemma_push(f.ev, EventView::Finished);
        lemma_push(f.ev.push(e), EventView::Finished);
    } else if c == '>' {
        let given = text::trim(line.skip(2));
        let expect = lines::complement(f.s.proposal_sum);
        let g = Flow { s: SessionView { proposal_sum: 0, ..f.s }, ev: f.ev };
        lemma_push(
            f.ev,
            EventView::Failed(
                "proposal checksum mismatch (ours "@ + text::hex(expect as nat, 2) + ", theirs "@
                    + given + ")"@,
            ),
        );
        lemma_our_turn(Flow { s: SessionView { remote_no_msgs: true, ..g.s }, ev: g.ev });
        lemma_answered(g);
    } else {
        lemma_push(
            f.ev,
            EventView::Failed("unknown protocol command "@ + crate::unicode::quoted(line)),
        );
    }
}

proof fn lemma_their_turn(f: Flow, line: Seq<char>)
    ensures
        delivered_in(model::their_turn(f, line).ev) == delivered_in(f.ev),
{
    if let Some(rest) = text::strip_prefix(line, ";PM:"@) {
        if let Some(t) = model::pending_text(rest) {
            lemma_push(f.ev, EventView::Log(LogKind::Info, t));
        }
    } else {
        if let Some(e) = lines::error_in(line) {
            lemma_push(f.ev, EventView::Failed("remote reported an error: "@ + e));
        }
        lemma_push(
            f.ev,
            EventView::Failed("unexpected protocol line "@ + crate::unicode::quoted(line)),
        );
        lemma_command(f, line);
    }
}

proof fn lemma_greeted(f: Flow)
    ensures
        delivered_in(model::greeted(f).ev) == delivered_in(f.ev),
{
    let c = f.s.cfg;
    let forward = ";FW: "@ + c.mycall;
    let sid = model::OUR_SID@;
    let hello = model::greeting(c);
    match f.s.challenge {
        None => {
            lemma_sent(f, forward);
            let a = model::sent_line(f, forward);
            lemma_sent(a, sid);
            lemma_sent(model::sent_line(a, sid), hello);
        },
        Some(challenge) => {
            let response = ";PR: "@ + crate::secure::login_answer(challenge, c.password->0);
            let note = "answering secure login challenge"@;
            lemma_push(f.ev, EventView::Log(LogKind::Info, note));
            let a = model::logged(f, LogKind::Info, note);
            lemma_sent(a, forward);
            let b = model::sent_line(a, forward);
            lemma_sent(b, sid);
            let d = model::sent_line(b, sid);
            lemma_sent(d, response);
            lemma_sent(model::sent_line(d, response), hello);
        },
    }
}

proof fn lemma_replied(f: Flow, batch: Seq<int>, answers: Seq<Answer>)
    ensures
        delivered_in(model::replied(f, batch, answers).0.ev) == delivered_in(f.ev),
    decreases batch.len(),
{
    if batch.len() > 0 && answers.len() > 0 {
        lemma_replied(f, batch.drop_last(), answers.drop_last());
        let g = model::replied(f, batch.drop_last(), answers.drop_last()).0;
        let o = f.s.outbound[batch.last()];
        match answers.last() {
            Answer::Accept(n) => {
                let offset = model::resumed(n, o.compressed.len());
                let e = EventView::Log(LogKind::Info, model::sending_text(o, offset));
                lemma_push(g.ev, e);
                lemma_push(
                    g.ev.push(e),
                    EventView::Transmit(lines::transfer(o.title, o.compressed, offset)),
                );
            },
            Answer::Reject => {
                lemma_push(g.ev, EventView::AlreadyDelivered(o.mid));
            },
            Answer::Defer => {
                lemma_push(g.ev, EventView::Deferred(o.mid));
            },
        }
    }
}

proof fn lemma_delivered(f: Flow, mids: Seq<Seq<char>>)
    ensures
        delivered_in(model::delivered(f, mids).ev) == delivered_in(f.ev) + mids,
    decreases mids.len(),
{
    if mids.len() == 0 {
        assert(delivered_in(f.ev) + mids =~= delivered_in(f.ev));
    } else {
        lemma_delivered(f, mids.drop_last());
        lemma_push(
            model::delivered(f, mids.drop_last()).ev,
            EventView::Delivered(mids.last()),
        );
        assert((delivered_in(f.ev) + mids.drop_last()).push(mids.last()) =~= delivered_in(f.ev)
            + mids);
    }
}

/// What a line confirms: the messages that were sent, if it is an `F` line
/// that comes after them.
pub open spec fn confirmed(s: SessionView, line: Seq<char>) -> Seq<Seq<char>> {
    match s.state {
        StateView::AwaitTurnover(mids) => if model::starts(line, 'F') {
            mids
        } else {
            seq![]
        },
        _ => seq![],
    }
}

/// Messages count as delivered exactly when an `F` line comes after their
/// transfer: not when they are offered, accepted or sent, and not on a
/// comment line.
pub proof fn law_delivery(f: Flow, line: Seq<char>)
    ensures
        delivered_in(model::handled(f, line).ev) == delivered_in(f.ev) + confirmed(f.s, line),
{
    let note = EventView::Log(LogKind::Rx, line);
    lemma_push(f.ev, note);
    let g = model::logged(f, LogKind::Rx, line);
    assert(delivered_in(f.ev) + Seq::<Seq<char>>::empty() =~= delivered_in(f.ev));
    match f.s.state {
        StateView::Handshake => {
            lemma_push(
                g.ev,
                EventView::Failed(
                    "remote does not speak B2F (SID "@ + line + "); only B2 is supported"@,
                ),
            );
            lemma_push(g.ev, EventView::Failed("remote sent its prompt without a SID"@));
            lemma_push(
                g.ev,
                EventView::Failed(
                    "the gateway asked for a secure login but no Winlink password is set"@,
                ),
            );
            lemma_greeted(g);
            lemma_our_turn(model::greeted(g));
        },
        StateView::MasterHandshake => {
            lemma_push(
                g.ev,
                EventView::Failed(
                    "remote does not speak B2F (SID "@ + line + "); only B2 is supported"@,
                ),
            );
            lemma_push(g.ev, EventView::Failed("remote started without sending a SID"@));
            lemma_their_turn(model::in_state(g, StateView::TheirTurn), line);
        },
        StateView::TheirTurn => {
            lemma_their_turn(g, line);
        },
        StateView::AwaitAnswer(batch) => {
            lemma_answer(g, line, batch);
        },
        StateView::AwaitTurnover(mids) => {
            lemma_delivered(g, mids);
            lemma_their_turn(
                model::in_state(model::delivered(g, mids), StateView::TheirTurn),
                line,
            );
            if let Some(e) = lines::error_in(line) {
                lemma_push(g.ev, EventView::Failed("remote reported an error: "@ + e));
            }
            lemma_push(
                g.ev,
                EventView::Failed(
                    "unexpected reply after transfer: "@ + crate::unicode::quoted(line),
                ),
            );
        },
        _ => {},
    }
}

proof fn lemma_answer(g: Flow, line: Seq<char>, batch: Seq<int>)
    ensures
        lines::error_in(line) matches Some(e) ==> delivered_in(
            model::failed(g, "remote reported an error: "@ + e).ev,
        ) == delivered_in(g.ev),
        delivered_in(
            model::failed(
                g,
                "expected a proposal answer (FS), got "@ + crate::unicode::quoted(line),
            ).ev,
        ) == delivered_in(g.ev),
        text::strip_prefix(line, "FS "@) matches Some(rest) ==> match lines::answers(
            encode_utf8(text::trim(rest)),
            text::trim(rest),
        ) {
            Err(e) => delivered_in(model::failed(g, e).ev) == delivered_in(g.ev),
            Ok(answers) => {
                &&& delivered_in(model::replied(g, batch, answers).0.ev) == delivered_in(g.ev)
                &&& delivered_in(
                    model::failed(
                        g,
                        "got "@ + text::decimal(answers.len()) + " answers for "@ + text::decimal(
                            batch.len(),
                        ) + " proposals"@,
                    ).ev,
                ) == delivered_in(g.ev)
            },
        },
{
    if let Some(e) = lines::error_in(line) {
        lemma_push(g.ev, EventView::Failed("remote reported an error: "@ + e));
    }
    lemma_push(
        g.ev,
        EventView::Failed("expected a proposal answer (FS), got "@ + crate::unicode::quoted(line)),
    );
    if let Some(rest) = text::strip_prefix(line, "FS "@) {
        match lines::answers(encode_utf8(text::trim(rest)), text::trim(rest)) {
            Err(e) => {
                lemma_push(g.ev, EventView::Failed(e));
            },
            Ok(answers) => {
                lemma_replied(g, batch, answers);
                lemma_push(
                    g.ev,
                    EventView::Failed(
                        "got "@ + text::decimal(answers.len()) + " answers for "@ + text::decimal(
                            batch.len(),
                        ) + " proposals"@,
                    ),
                );
            },
        }
    }
}

/// No message counts as delivered while messages come in.
pub proof fn law_receiving_delivers_nothing(f: Flow, r: ReceiverView)
    ensures
        model::stepped(f, r) matches Some(g) ==> delivered_in(g.ev) == delivered_in(f.ev),
{
    if let Some(g) = model::stepped(f, r) {
        if g.ev.len() == f.ev.len() + 1 && g.ev.drop_last() == f.ev {
            assert(f.ev.push(g.ev.last()) =~= g.ev);
            lemma_push(f.ev, g.ev.last());
        }
        match r.stage {
            StageView::Soh => {
                assert(g.ev != f.ev ==> g.ev.drop_last() =~= f.ev);
            },
            StageView::Header { .. } => {
                assert(g.ev != f.ev ==> g.ev.drop_last() =~= f.ev);
            },
            StageView::Block => {
                assert(g.ev != f.ev ==> g.ev.drop_last() =~= f.ev);
            },
            StageView::Checksum => {
                lemma_checksum(f, r);
            },
            _ => {},
        }
    }
}

proof fn lemma_checksum(f: Flow, r: ReceiverView)
    ensures
        delivered_in(model::step_checksum(f, r).ev) == delivered_in(f.ev),
{
    let g = model::past(f, 1);
    let done = model::step_checksum(f, r);
    if r.queue.len() == 0 {
        lemma_push(g.ev, done.ev.last());
    } else {
        let p = r.queue[0];
        lemma_push(g.ev, EventView::Failed(p.mid + ": transfer checksum error"@));
        lemma_push(
            g.ev,
            EventView::Failed(
                p.mid + ": got "@ + text::decimal(r.data.len()) + " bytes, proposal said "@
                    + text::decimal(p.csize),
            ),
        );
        match lzhuf::opened(r.data) {
            Err(e) => {
                lemma_push(g.ev, EventView::Failed(p.mid + ": "@ + e));
            },
            Ok(raw) => match wire::read(raw) {
                Err(e) => {
                    lemma_push(g.ev, EventView::Failed(p.mid + ": unreadable message: "@ + e));
                },
                Ok(m) => {
                    let note = EventView::Log(
                        LogKind::Warn,
                        "proposal "@ + p.mid + " carried message "@ + wire::mid_of(m),
                    );
                    let e = EventView::Received { message: m, raw };
                    lemma_push(g.ev, note);
                    lemma_push(g.ev, e);
                    lemma_push(g.ev.push(note), e);
                    lemma_our_turn(model::stored(g, p, m, raw));
                },
            },
        }
    }
}

// ---------------------------------------------------------------------
// Offers

/// Can this message be offered now?
pub open spec fn is_candidate(s: SessionView, i: int) -> bool {
    0 <= i < s.outbound.len() && !s.offered[i] && model::deliverable(
        s.remote_fw,
        s.outbound[i].recipients,
    )
}

proof fn lemma_candidates(s: SessionView, n: int)
    requires
        0 <= n <= s.outbound.len(),
    ensures
        forall|k: int|
            0 <= k < model::candidates(s, n).len() ==> is_candidate(
                s,
                #[trigger] model::candidates(s, n)[k],
            ) && model::candidates(s, n)[k] < n,
        forall|i: int|
            0 <= i < n && is_candidate(s, i) ==> #[trigger] model::candidates(s, n).contains(i),
        model::candidates(s, n).no_duplicates(),
    decreases n,
{
    if n > 0 {
        lemma_candidates(s, n - 1);
        let less = model::candidates(s, n - 1);
        let all = model::candidates(s, n);
        assert forall|i: int| 0 <= i < n && is_candidate(s, i) implies #[trigger] all.contains(
            i,
        ) by {
            if i < n - 1 {
                assert(less.contains(i));
                let k = choose|k: int| 0 <= k < less.len() && less[k] == i;
                assert(all[k] == i);
            } else {
                assert(all[all.len() - 1] == i);
            }
        }
    }
}

/// Sooner, or just as soon.
pub open spec fn in_turn(outbound: Seq<OutboundView>, v: Seq<int>) -> bool {
    forall|i: int, j: int|
        0 <= i < j < v.len() ==> !model::sooner(
            outbound[#[trigger] v[j]],
            outbound[#[trigger] v[i]],
        )
}

proof fn lemma_sooner(a: OutboundView, b: OutboundView, c: OutboundView)
    ensures
        !(model::sooner(a, b) && model::sooner(b, a)),
        model::sooner(a, c) && !model::sooner(b, c) ==> model::sooner(a, b),
{
    text::lemma_before_total(a.mid, b.mid);
    text::lemma_before_total(b.mid, c.mid);
    if text::before(a.mid, c.mid) && text::before(c.mid, b.mid) {
        text::lemma_before_transitive(a.mid, c.mid, b.mid);
    }
}

proof fn lemma_placed(outbound: Seq<OutboundView>, v: Seq<int>, x: int)
    requires
        in_turn(outbound, v),
        v.no_duplicates(),
        !v.contains(x),
    ensures
        in_turn(outbound, model::placed(outbound, v, x)),
        model::placed(outbound, v, x).no_duplicates(),
        forall|i: int|
            #[trigger] model::placed(outbound, v, x).contains(i) <==> i == x || v.contains(i),
    decreases v.len(),
{
    let g = model::placed(outbound, v, x);
    if v.len() > 0 && model::sooner(outbound[x], outbound[v.last()]) {
        let less = v.drop_last();
        let last = v.last();
        assert(in_turn(outbound, less)) by {
            assert forall|i: int, j: int| 0 <= i < j < less.len() implies !model::sooner(
                outbound[#[trigger] less[j]],
                outbound[#[trigger] less[i]],
            ) by {
                assert(less[j] == v[j] && less[i] == v[i]);
            }
        }
        assert(!less.contains(x)) by {
            if less.contains(x) {
                let k = choose|k: int| 0 <= k < less.len() && less[k] == x;
                assert(v[k] == x);
            }
        }
        lemma_placed(outbound, less, x);
        let h = model::placed(outbound, less, x);
        assert(v[v.len() - 1] == last);
        assert forall|i: int| #[trigger] g.contains(i) <==> i == x || v.contains(i) by {
            if g.contains(i) {
                let k = choose|k: int| 0 <= k < g.len() && g[k] == i;
                if k < h.len() {
                    assert(h[k] == i);
                    assert(h.contains(i));
                    if i != x {
                        let m = choose|m: int| 0 <= m < less.len() && less[m] == i;
                        assert(v[m] == i);
                    }
                }
            }
            if i == x || v.contains(i) {
                if i == last {
                    assert(g[h.len() as int] == i);
                } else {
                    if i != x {
                        let m = choose|m: int| 0 <= m < v.len() && v[m] == i;
                        assert(less[m] == i);
                    }
                    assert(h.contains(i));
                    let k = choose|k: int| 0 <= k < h.len() && h[k] == i;
                    assert(g[k] == i);
                }
            }
        }
        assert(!h.contains(last)) by {
            if h.contains(last) {
                assert(less.contains(last));
                let m = choose|m: int| 0 <= m < less.len() && less[m] == last;
                assert(v[m] == last);
            }
        }
        assert forall|i: int, j: int| 0 <= i < j < g.len() implies !model::sooner(
            outbound[#[trigger] g[j]],
            outbound[#[trigger] g[i]],
        ) by {
            assert(g[i] == h[i]);
            if j < h.len() {
                assert(g[j] == h[j]);
            } else {
                assert(h.contains(h[i]));
                if h[i] == x {
                    lemma_sooner(outbound[x], outbound[last], outbound[last]);
                } else {
                    let m = choose|m: int| 0 <= m < less.len() && less[m] == h[i];
                    assert(v[m] == h[i]);
                }
            }
        }
        assert forall|i: int, j: int| 0 <= i < g.len() && 0 <= j < g.len() && i != j implies g[i]
            != g[j] by {
            if i < h.len() && j < h.len() {
                assert(g[i] == h[i] && g[j] == h[j]);
            } else if i < h.len() {
                assert(h.contains(h[i]));
            } else {
                assert(h.contains(h[j]));
            }
        }
    } else {
        assert(g =~= v.push(x));
        assert forall|i: int| #[trigger] g.contains(i) <==> i == x || v.contains(i) by {
            if g.contains(i) {
                let k = choose|k: int| 0 <= k < g.len() && g[k] == i;
                if k < v.len() {
                    assert(v[k] == i);
                }
            }
            if v.contains(i) {
                let k = choose|k: int| 0 <= k < v.len() && v[k] == i;
                assert(g[k] == i);
            }
            if i == x {
                assert(g[v.len() as int] == i);
            }
        }
        assert forall|i: int, j: int| 0 <= i < j < g.len() implies !model::sooner(
            outbound[#[trigger] g[j]],
            outbound[#[trigger] g[i]],
        ) by {
            assert(g[i] == v[i]);
            if j < v.len() {
                assert(g[j] == v[j]);
            } else {
                let last = v.last();
                assert(v[v.len() - 1] == last);
                lemma_sooner(outbound[x], outbound[last], outbound[v[i]]);
                if i < v.len() - 1 {
                    assert(!model::sooner(outbound[v[v.len() - 1]], outbound[v[i]]));
                }
            }
        }
        assert forall|i: int, j: int| 0 <= i < g.len() && 0 <= j < g.len() && i != j implies g[i]
            != g[j] by {
            if i < v.len() && j < v.len() {
                assert(v[i] != v[j]);
            } else if i < v.len() {
                assert(v.contains(v[i]));
            } else {
                assert(v.contains(v[j]));
            }
        }
    }
}

proof fn lemma_ranked(outbound: Seq<OutboundView>, v: Seq<int>)
    requires
        v.no_duplicates(),
    ensures
        in_turn(outbound, model::ranked(outbound, v)),
        model::ranked(outbound, v).no_duplicates(),
        forall|i: int| #[trigger] model::ranked(outbound, v).contains(i) <==> v.contains(i),
    decreases v.len(),
{
    if v.len() == 0 {
        assert(model::ranked(outbound, v) =~= v);
    } else {
        let less = v.drop_last();
        let last = v.last();
        assert(v[v.len() - 1] == last);
        lemma_ranked(outbound, less);
        let h = model::ranked(outbound, less);
        assert(!h.contains(last)) by {
            if less.contains(last) {
                let m = choose|m: int| 0 <= m < less.len() && less[m] == last;
                assert(v[m] == last);
            }
        }
        lemma_placed(outbound, h, last);
        let g = model::ranked(outbound, v);
        assert forall|i: int| #[trigger] g.contains(i) <==> v.contains(i) by {
            if g.contains(i) && i != last {
                assert(h.contains(i));
                let m = choose|m: int| 0 <= m < less.len() && less[m] == i;
                assert(v[m] == i);
            }
            if v.contains(i) {
                let m = choose|m: int| 0 <= m < v.len() && v[m] == i;
                if i != last {
                    assert(less[m] == i);
                    assert(less.contains(i));
                    assert(h.contains(i));
                }
            }
        }
    }
}

/// A block of proposals has at most five messages, each of them once, none
/// that was offered before, only such as the remote may carry, the urgent
/// and short ones first; and all of those if there are not more than five.
/// None that has to wait would have come sooner than one in the block.
pub proof fn law_next_batch(s: SessionView)
    ensures
        ({
            let batch = model::next_batch(s);
            &&& batch.len() <= lines::MAX_BLOCK
            &&& batch.no_duplicates()
            &&& in_turn(s.outbound, batch)
            &&& forall|k: int| 0 <= k < batch.len() ==> is_candidate(s, #[trigger] batch[k])
            &&& batch.len() < lines::MAX_BLOCK ==> forall|i: int|
                is_candidate(s, i) ==> #[trigger] batch.contains(i)
            &&& forall|i: int, k: int|
                is_candidate(s, i) && !(#[trigger] batch.contains(i)) && 0 <= k < batch.len()
                    ==> !model::sooner(s.outbound[i], s.outbound[#[trigger] batch[k]])
        }),
{
    let n = s.outbound.len() as int;
    lemma_candidates(s, n);
    let given = model::candidates(s, n);
    lemma_ranked(s.outbound, given);
    let all = model::ranked(s.outbound, given);
    let batch = model::next_batch(s);
    assert forall|k: int| 0 <= k < batch.len() implies is_candidate(s, #[trigger] batch[k]) by {
        assert(all[k] == batch[k]);
        assert(all.contains(batch[k]));
        assert(given.contains(batch[k]));
        let m = choose|m: int| 0 <= m < given.len() && given[m] == batch[k];
        assert(is_candidate(s, given[m]));
    }
    assert forall|i: int, j: int| 0 <= i < j < batch.len() implies !model::sooner(
        s.outbound[#[trigger] batch[j]],
        s.outbound[#[trigger] batch[i]],
    ) by {
        assert(batch[j] == all[j] && batch[i] == all[i]);
    }
    assert forall|i: int, j: int|
        0 <= i < batch.len() && 0 <= j < batch.len() && i != j implies batch[i] != batch[j] by {
        assert(batch[j] == all[j] && batch[i] == all[i]);
    }
    assert forall|i: int, k: int|
        is_candidate(s, i) && !(#[trigger] batch.contains(i)) && 0 <= k < batch.len() implies
        !model::sooner(s.outbound[i], s.outbound[#[trigger] batch[k]]) by {
        assert(given.contains(i));
        assert(all.contains(i));
        let m = choose|m: int| 0 <= m < all.len() && all[m] == i;
        if m < batch.len() {
            assert(batch[m] == i);
        }
        assert(batch[k] == all[k]);
    }
}

/// To a peer that has named the calls it takes mail for, a message is offered
/// only if every one of its recipients is among these calls; and it is held
/// back for no other reason: a message whose recipients all are, and that was
/// not offered before, is offered if the block has room. A gateway, which
/// names none, is offered every message.
pub proof fn law_peer_gets_only_its_mail(s: SessionView)
    ensures
        ({
            let batch = model::next_batch(s);
            &&& s.remote_fw.len() > 0 ==> forall|k: int, r: int|
                #![trigger s.outbound[batch[k]].recipients[r]]
                0 <= k < batch.len() && 0 <= r < s.outbound[batch[k]].recipients.len()
                    ==> s.remote_fw.contains(
                    match address::normalized(s.outbound[batch[k]].recipients[r]) {
                        Ok(addr) => addr,
                        Err(_) => unicode::upper(s.outbound[batch[k]].recipients[r]),
                    },
                )
            &&& forall|i: int|
                #![trigger s.outbound[i]]
                0 <= i < s.outbound.len() && !s.offered[i] && batch.len() < 5 && (
                s.remote_fw.len() == 0 || forall|r: int|
                    #![trigger s.outbound[i].recipients[r]]
                    0 <= r < s.outbound[i].recipients.len() ==> s.remote_fw.contains(
                        match address::normalized(s.outbound[i].recipients[r]) {
                            Ok(addr) => addr,
                            Err(_) => unicode::upper(s.outbound[i].recipients[r]),
                        },
                    )) ==> batch.contains(i)
        }),
{
    let batch = model::next_batch(s);
    law_next_batch(s);
    if s.remote_fw.len() > 0 {
        assert forall|k: int, r: int|
            #![trigger s.outbound[batch[k]].recipients[r]]
            0 <= k < batch.len() && 0 <= r < s.outbound[batch[k]].recipients.len() implies
            s.remote_fw.contains(
            match address::normalized(s.outbound[batch[k]].recipients[r]) {
                Ok(addr) => addr,
                Err(_) => unicode::upper(s.outbound[batch[k]].recipients[r]),
            },
        ) by {
            assert(is_candidate(s, batch[k]));
            assert(s.remote_fw.contains(model::known_as(s.outbound[batch[k]].recipients[r])));
        }
    }
    assert forall|i: int|
        #![trigger s.outbound[i]]
        0 <= i < s.outbound.len() && !s.offered[i] && batch.len() < 5 && (s.remote_fw.len() == 0
            || forall|r: int|
            #![trigger s.outbound[i].recipients[r]]
            0 <= r < s.outbound[i].recipients.len() ==> s.remote_fw.contains(
                match address::normalized(s.outbound[i].recipients[r]) {
                    Ok(addr) => addr,
                    Err(_) => unicode::upper(s.outbound[i].recipients[r]),
                },
            )) implies batch.contains(i) by {
        assert(model::deliverable(s.remote_fw, s.outbound[i].recipients)) by {
            if s.remote_fw.len() > 0 {
                assert forall|r: int| 0 <= r < s.outbound[i].recipients.len() implies
                    s.remote_fw.contains(
                    model::known_as(#[trigger] s.outbound[i].recipients[r]),
                ) by {}
            }
        }
        assert(is_candidate(s, i));
    }
}

/// What was offered stays so, and what is offered now becomes so: no message
/// is offered twice.
pub proof fn law_offered_once(f: Flow)
    requires
        model::valid(f.s),
    ensures
        ({
            let g = model::our_turn(f);
            &&& g.s.offered.len() == f.s.offered.len()
            &&& forall|i: int|
                0 <= i < f.s.offered.len() && f.s.offered[i] ==> #[trigger] g.s.offered[i]
            &&& g.s.state matches StateView::AwaitAnswer(batch) ==> forall|k: int|
                0 <= k < batch.len() ==> !f.s.offered[#[trigger] batch[k]]
                    && g.s.offered[batch[k]]
        }),
{
    let g = if !f.s.explained_held && f.s.remote_fw.len() > 0 {
        Flow {
            s: SessionView { explained_held: true, ..f.s },
            ev: model::held(f.ev, f.s.outbound, f.s.remote_fw, f.s.outbound.len() as int),
        }
    } else {
        f
    };
    let batch = model::next_batch(g.s);
    law_next_batch(g.s);
    lemma_marked(g, batch);
    let done = model::offered(g, batch).0;
    if batch.len() > 0 {
        assert(model::our_turn(f).s.offered == done.s.offered);
        assert forall|k: int| 0 <= k < batch.len() implies !f.s.offered[#[trigger] batch[k]]
            && done.s.offered[batch[k]] by {
            assert(is_candidate(g.s, batch[k]));
            assert(batch.contains(batch[k]));
        }
    }
}

proof fn lemma_marked(f: Flow, batch: Seq<int>)
    requires
        f.s.offered.len() == f.s.outbound.len(),
        forall|k: int| 0 <= k < batch.len() ==> 0 <= #[trigger] batch[k] < f.s.outbound.len(),
    ensures
        model::offered(f, batch).0.s.offered.len() == f.s.offered.len(),
        forall|i: int|
            0 <= i < f.s.offered.len() ==> (#[trigger] model::offered(f, batch).0.s.offered[i]) == (
            f.s.offered[i] || batch.contains(i)),
    decreases batch.len(),
{
    if batch.len() > 0 {
        let less = batch.drop_last();
        let last = batch.last();
        assert forall|k: int| 0 <= k < less.len() implies 0 <= #[trigger] less[k]
            < f.s.outbound.len() by {
            assert(less[k] == batch[k]);
        }
        assert(batch[batch.len() - 1] == last);
        lemma_marked(f, less);
        let g = model::offered(f, less).0.s.offered;
        let h = model::offered(f, batch).0.s.offered;
        assert(h == g.update(last, true));
        assert forall|i: int| 0 <= i < f.s.offered.len() implies (#[trigger] h[i]) == (
        f.s.offered[i] || batch.contains(i)) by {
            if i == last {
                assert(batch.contains(i));
            } else {
                assert(h[i] == g[i]);
                if batch.contains(i) {
                    let m = choose|m: int| 0 <= m < batch.len() && batch[m] == i;
                    assert(less[m] == i);
                    assert(less.contains(i));
                } else if less.contains(i) {
                    let m = choose|m: int| 0 <= m < less.len() && less[m] == i;
                    assert(batch[m] == i);
                }
            }
        }
    }
}

/// A message that is here already is not taken again, nor one that is
/// offered twice in a block, nor one that is too large.
pub proof fn law_duplicates_are_refused(ps: Seq<ProposalView>, k: int, known: Set<Seq<char>>)
    requires
        0 <= k < ps.len(),
        known.contains(ps[k].mid) || model::is_repeat(ps, k) || model::is_oversized(ps[k]),
    ensures
        model::verdict(ps, k, known) != '+',
{
}

// ---------------------------------------------------------------------
// The end

proof fn lemma_same_candidates(s: SessionView, t: SessionView, n: int)
    requires
        s.offered == t.offered,
        s.outbound == t.outbound,
        s.remote_fw == t.remote_fw,
    ensures
        model::candidates(s, n) == model::candidates(t, n),
    decreases n,
{
    if n > 0 {
        lemma_same_candidates(s, t, n - 1);
    }
}

/// The session ends when neither side has anything left to send: on our turn
/// we say `FQ` exactly if the remote has said that it has no messages and
/// none of ours can be offered; with `FF` we say that we have none.
pub proof fn law_end_of_session(f: Flow)
    ensures
        ({
            let g = model::our_turn(f);
            let nothing = model::next_batch(f.s).len() == 0;
            &&& g.s.state is Done <==> nothing && f.s.remote_no_msgs
            &&& g.s.state is TheirTurn <==> nothing && !f.s.remote_no_msgs
            &&& g.s.state is AwaitAnswer <==> !nothing
            &&& g.s.state is Done ==> g.ev.last() == EventView::Finished
            &&& g.s.state is TheirTurn ==> g.ev.last() == EventView::Transmit(
                encode_utf8("FF"@ + "\r"@),
            )
        }),
{
    let t = SessionView { explained_held: true, ..f.s };
    lemma_same_candidates(f.s, t, f.s.outbound.len() as int);
    assert(model::next_batch(t) == model::next_batch(f.s));
}

/// The remote's `FQ` ends the session.
pub proof fn law_remote_quit(f: Flow, line: Seq<char>)
    requires
        f.s.state is TheirTurn,
        line == "FQ"@,
    ensures
        ({
            let g = model::handled(f, line);
            g.s.state is Done && g.ev.last() == EventView::Finished
        }),
{
    reveal_strlit("FQ");
    reveal_strlit(";PM:");
    assert(text::strip_prefix(line, ";PM:"@) is None) by {
        assert(line.len() < 4);
    }
}

// ---------------------------------------------------------------------
// Labels

proof fn lemma_title_short(s: Seq<char>)
    ensures
        lines::title_of(s).len() <= lines::TITLE_MAX,
        charset::is_plain(lines::title_of(s)),
    decreases s.len(),
{
    let e = charset::encoded_header(s);
    charset::law_header_is_plain(s);
    if e.len() > lines::TITLE_MAX {
        if s.len() <= 1 {
            let cut = e.take(lines::TITLE_MAX as int);
            assert forall|i: int| 0 <= i < cut.len() implies ' ' <= #[trigger] cut[i] && cut[i]
                <= '~' by {
                assert(cut[i] == e[i]);
            }
        } else {
            lemma_title_short(s.drop_last());
        }
    }
}

/// The label of a transfer is printable ASCII and takes at most 80 bytes, so
/// that it goes into the header of the transfer whole.
pub proof fn law_label_is_short(subject: Seq<char>)
    ensures
        charset::is_plain(lines::label(subject)),
        encode_utf8(lines::label(subject)).len() <= 80,
        lines::title_bytes(lines::label(subject)) == encode_utf8(lines::label(subject)),
{
    let title = lines::label(subject);
    reveal_strlit("No title");
    lemma_title_short(text::trim(subject));
    assert(is_ascii_chars(title)) by {
        assert forall|i: int| 0 <= i < title.len() implies 0 <= (#[trigger] title[i] as nat)
            < 128 by {}
    }
    text::lemma_utf8_ascii(title);
}

} // verus!

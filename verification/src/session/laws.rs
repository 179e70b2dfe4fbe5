//! Laws of the session.

use vstd::prelude::*;
use vstd::utf8::*;

use crate::lzhuf;
use crate::message::wire;
use crate::session::lines;
use crate::session::lines::{Answer, ProposalView, Taken};
use crate::session::model;
use crate::session::model::{
    EventView, Flow, LogKind, OutboundView, ReceiverView, SessionView, StageView, StateView,
};
use crate::text;

verus! {

// ---------------------------------------------------------------------
// What is left and what was said do not matter

/// The session with other bytes left, and with these events said before.
pub open spec fn moved(f: Flow, rx: Seq<u8>, x: Seq<EventView>) -> Flow {
    Flow { s: SessionView { rx, ..f.s }, ev: x + f.ev }
}

proof fn lemma_said(f: Flow, e: EventView, rx: Seq<u8>, x: Seq<EventView>)
    ensures
        model::said(moved(f, rx, x), e) == moved(model::said(f, e), rx, x),
{
    assert((x + f.ev).push(e) =~= x + f.ev.push(e));
}

proof fn lemma_sent(f: Flow, line: Seq<char>, rx: Seq<u8>, x: Seq<EventView>)
    ensures
        model::sent_line(moved(f, rx, x), line) == moved(model::sent_line(f, line), rx, x),
{
    lemma_said(f, EventView::Log(LogKind::Tx, line), rx, x);
    lemma_said(
        model::logged(f, LogKind::Tx, line),
        EventView::Transmit(encode_utf8(line + "\r"@)),
        rx,
        x,
    );
}

proof fn lemma_failed(f: Flow, reason: Seq<char>, rx: Seq<u8>, x: Seq<EventView>)
    ensures
        model::failed(moved(f, rx, x), reason) == moved(model::failed(f, reason), rx, x),
{
    lemma_said(model::in_state(f, StateView::Failed), EventView::Failed(reason), rx, x);
}

proof fn lemma_finished(f: Flow, rx: Seq<u8>, x: Seq<EventView>)
    ensures
        model::finished(moved(f, rx, x)) == moved(model::finished(f), rx, x),
{
    lemma_said(model::in_state(f, StateView::Done), EventView::Finished, rx, x);
}

proof fn lemma_held(
    ev: Seq<EventView>,
    outbound: Seq<OutboundView>,
    fw: Seq<Seq<char>>,
    n: int,
    x: Seq<EventView>,
)
    ensures
        model::held(x + ev, outbound, fw, n) == x + model::held(ev, outbound, fw, n),
    decreases n,
{
    if n > 0 {
        lemma_held(ev, outbound, fw, n - 1, x);
        if !model::deliverable(fw, outbound[n - 1].recipients) {
            let e = EventView::Log(
                LogKind::Info,
                outbound[n - 1].mid
                    + " stays in the outbox: this peer only takes mail addressed to "@
                    + text::join(fw, ", "@),
            );
            let h = model::held(ev, outbound, fw, n - 1);
            assert((x + h).push(e) =~= x + h.push(e));
        }
    }
}

proof fn lemma_candidates(s: SessionView, rx: Seq<u8>, n: int)
    ensures
        model::candidates(SessionView { rx, ..s }, n) == model::candidates(s, n),
    decreases n,
{
    if n > 0 {
        lemma_candidates(s, rx, n - 1);
    }
}

proof fn lemma_offered(f: Flow, batch: Seq<int>, rx: Seq<u8>, x: Seq<EventView>)
    ensures
        model::offered(moved(f, rx, x), batch) == (
            moved(model::offered(f, batch).0, rx, x),
            model::offered(f, batch).1,
        ),
    decreases batch.len(),
{
    if batch.len() > 0 {
        lemma_offered(f, batch.drop_last(), rx, x);
        let line = model::offer_line(f.s.outbound[batch.last()]);
        lemma_sent(model::offered(f, batch.drop_last()).0, line, rx, x);
    }
}

proof fn lemma_our_turn(f: Flow, rx: Seq<u8>, x: Seq<EventView>)
    ensures
        model::our_turn(moved(f, rx, x)) == moved(model::our_turn(f), rx, x),
{
    let n = f.s.outbound.len() as int;
    lemma_held(f.ev, f.s.outbound, f.s.remote_fw, n, x);
    let g = if !f.s.explained_held && f.s.remote_fw.len() > 0 {
        Flow {
            s: SessionView { explained_held: true, ..f.s },
            ev: model::held(f.ev, f.s.outbound, f.s.remote_fw, n),
        }
    } else {
        f
    };
    lemma_candidates(g.s, rx, n);
    let batch = model::next_batch(g.s);
    if batch.len() == 0 {
        lemma_sent(g, "FQ"@, rx, x);
        lemma_finished(model::sent_line(g, "FQ"@), rx, x);
        lemma_sent(g, "FF"@, rx, x);
    } else {
        lemma_offered(g, batch, rx, x);
        let (h, sum) = model::offered(g, batch);
        lemma_sent(h, "F> "@ + text::hex(lines::complement(sum) as nat, 2), rx, x);
    }
}

proof fn lemma_size_warnings(
    ev: Seq<EventView>,
    ps: Seq<ProposalView>,
    n: int,
    x: Seq<EventView>,
)
    ensures
        model::size_warnings(x + ev, ps, n) == x + model::size_warnings(ev, ps, n),
    decreases n,
{
    if n > 0 {
        lemma_size_warnings(ev, ps, n - 1, x);
        let w = model::size_warnings(ev, ps, n - 1);
        let e = EventView::Log(LogKind::Warn, model::oversized_text(ps[n - 1]));
        assert((x + w).push(e) =~= x + w.push(e));
    }
}

proof fn lemma_answered(f: Flow, rx: Seq<u8>, x: Seq<EventView>)
    ensures
        model::answered(moved(f, rx, x)) == moved(model::answered(f), rx, x),
{
    let ps = f.s.proposals;
    let n = ps.len() as int;
    lemma_size_warnings(f.ev, ps, n, x);
    let g = Flow {
        s: SessionView { proposals: seq![], remote_no_msgs: false, ..f.s },
        ev: model::size_warnings(f.ev, ps, n),
    };
    let line = "FS "@ + model::verdicts(ps, f.s.known, n);
    lemma_sent(g, line, rx, x);
    lemma_our_turn(model::sent_line(g, line), rx, x);
}

proof fn lemma_end_of_block(f: Flow, given: Seq<char>, rx: Seq<u8>, x: Seq<EventView>)
    ensures
        model::end_of_block(moved(f, rx, x), given) == moved(
            model::end_of_block(f, given),
            rx,
            x,
        ),
{
    let expect = lines::complement(f.s.proposal_sum);
    let g = Flow { s: SessionView { proposal_sum: 0, ..f.s }, ev: f.ev };
    lemma_failed(
        g,
        "proposal checksum mismatch (ours "@ + text::hex(expect as nat, 2) + ", theirs "@ + given
            + ")"@,
        rx,
        x,
    );
    lemma_our_turn(Flow { s: SessionView { remote_no_msgs: true, ..g.s }, ev: g.ev }, rx, x);
    lemma_answered(g, rx, x);
}

proof fn lemma_command(f: Flow, line: Seq<char>, rx: Seq<u8>, x: Seq<EventView>)
    ensures
        model::command(moved(f, rx, x), line) == moved(model::command(f, line), rx, x),
{
    let c = line[1];
    if c == 'A' || c == 'B' || c == 'C' || c == 'D' {
        let g = Flow {
            s: SessionView { proposal_sum: lines::line_sum(f.s.proposal_sum, line), ..f.s },
            ev: f.ev,
        };
        if let Err(e) = lines::proposal(line) {
            lemma_failed(g, e, rx, x);
        }
    } else if c == 'F' {
        let g = model::no_proposals(f);
        lemma_our_turn(Flow { s: SessionView { remote_no_msgs: true, ..g.s }, ev: g.ev }, rx, x);
    } else if c == 'Q' {
        let warning = "remote quit with unanswered proposals"@;
        lemma_said(f, EventView::Log(LogKind::Warn, warning), rx, x);
        let g = if f.s.proposals.len() > 0 {
            model::logged(f, LogKind::Warn, warning)
        } else {
            f
        };
        lemma_finished(model::no_proposals(g), rx, x);
    } else if c == '>' {
        lemma_end_of_block(f, text::trim(line.skip(2)), rx, x);
    } else {
        lemma_failed(
            f,
            "unknown protocol command "@ + crate::unicode::quoted(line),
            rx,
            x,
        );
    }
}

proof fn lemma_their_turn(f: Flow, line: Seq<char>, rx: Seq<u8>, x: Seq<EventView>)
    ensures
        model::their_turn(moved(f, rx, x), line) == moved(model::their_turn(f, line), rx, x),
{
    if let Some(rest) = text::strip_prefix(line, ";PM:"@) {
        if let Some(t) = model::pending_text(rest) {
            lemma_said(f, EventView::Log(LogKind::Info, t), rx, x);
        }
    } else if !model::starts(line, ';') {
        if let Some(e) = lines::error_in(line) {
            lemma_failed(f, "remote reported an error: "@ + e, rx, x);
        } else {
            lemma_failed(
                f,
                "unexpected protocol line "@ + crate::unicode::quoted(line),
                rx,
                x,
            );
            lemma_command(f, line, rx, x);
        }
    }
}

proof fn lemma_replied(
    f: Flow,
    batch: Seq<int>,
    answers: Seq<Answer>,
    rx: Seq<u8>,
    x: Seq<EventView>,
)
    ensures
        model::replied(moved(f, rx, x), batch, answers) == (
            moved(model::replied(f, batch, answers).0, rx, x),
            model::replied(f, batch, answers).1,
        ),
    decreases batch.len(),
{
    if batch.len() > 0 && answers.len() > 0 {
        let (g, accepted) = model::replied(f, batch.drop_last(), answers.drop_last());
        lemma_replied(f, batch.drop_last(), answers.drop_last(), rx, x);
        let o = f.s.outbound[batch.last()];
        match answers.last() {
            Answer::Accept(n) => {
                let offset = model::resumed(n, o.compressed.len());
                let e = EventView::Log(LogKind::Info, model::sending_text(o, offset));
                lemma_said(g, e, rx, x);
                lemma_said(
                    model::said(g, e),
                    EventView::Transmit(lines::transfer(o.title, o.compressed, offset)),
                    rx,
                    x,
                );
            },
            Answer::Reject => {
                lemma_said(g, EventView::AlreadyDelivered(o.mid), rx, x);
            },
            Answer::Defer => {
                lemma_said(g, EventView::Deferred(o.mid), rx, x);
            },
        }
    }
}

proof fn lemma_delivered(f: Flow, mids: Seq<Seq<char>>, rx: Seq<u8>, x: Seq<EventView>)
    ensures
        model::delivered(moved(f, rx, x), mids) == moved(model::delivered(f, mids), rx, x),
    decreases mids.len(),
{
    if mids.len() > 0 {
        lemma_delivered(f, mids.drop_last(), rx, x);
        lemma_said(
            model::delivered(f, mids.drop_last()),
            EventView::Delivered(mids.last()),
            rx,
            x,
        );
    }
}

proof fn lemma_greeted(f: Flow, rx: Seq<u8>, x: Seq<EventView>)
    ensures
        model::greeted(moved(f, rx, x)) == moved(model::greeted(f), rx, x),
{
    let c = f.s.cfg;
    let forward = ";FW: "@ + c.mycall;
    let sid = model::OUR_SID@;
    let hello = model::greeting(c);
    match f.s.challenge {
        None => {
            lemma_sent(f, forward, rx, x);
            let a = model::sent_line(f, forward);
            lemma_sent(a, sid, rx, x);
            lemma_sent(model::sent_line(a, sid), hello, rx, x);
        },
        Some(challenge) => {
            let response = ";PR: "@ + crate::secure::login_answer(challenge, c.password->0);
            let note = "answering secure login challenge"@;
            lemma_said(f, EventView::Log(LogKind::Info, note), rx, x);
            let a = model::logged(f, LogKind::Info, note);
            lemma_sent(a, forward, rx, x);
            let b = model::sent_line(a, forward);
            lemma_sent(b, sid, rx, x);
            let d = model::sent_line(b, sid);
            lemma_sent(d, response, rx, x);
            lemma_sent(model::sent_line(d, response), hello, rx, x);
        },
    }
}

proof fn lemma_client(f: Flow, line: Seq<char>, rx: Seq<u8>, x: Seq<EventView>)
    ensures
        model::client_line(moved(f, rx, x), line) == moved(model::client_line(f, line), rx, x),
{
    lemma_said(f, EventView::Log(LogKind::Rx, line), rx, x);
    let g = model::logged(f, LogKind::Rx, line);
    lemma_failed(
        g,
        "remote does not speak B2F (SID "@ + line + "); only B2 is supported"@,
        rx,
        x,
    );
    lemma_failed(g, "remote sent its prompt without a SID"@, rx, x);
    lemma_failed(
        g,
        "the gateway asked for a secure login but no Winlink password is set"@,
        rx,
        x,
    );
    lemma_greeted(g, rx, x);
    lemma_our_turn(model::greeted(g), rx, x);
}

proof fn lemma_master(f: Flow, line: Seq<char>, rx: Seq<u8>, x: Seq<EventView>)
    ensures
        model::master_line(moved(f, rx, x), line) == moved(model::master_line(f, line), rx, x),
{
    lemma_said(f, EventView::Log(LogKind::Rx, line), rx, x);
    let g = model::logged(f, LogKind::Rx, line);
    lemma_failed(
        g,
        "remote does not speak B2F (SID "@ + line + "); only B2 is supported"@,
        rx,
        x,
    );
    lemma_failed(g, "remote started without sending a SID"@, rx, x);
    lemma_their_turn(model::in_state(g, StateView::TheirTurn), line, rx, x);
}

proof fn lemma_answer(f: Flow, line: Seq<char>, batch: Seq<int>, rx: Seq<u8>, x: Seq<EventView>)
    ensures
        model::answer_line(moved(f, rx, x), line, batch) == moved(
            model::answer_line(f, line, batch),
            rx,
            x,
        ),
{
    lemma_said(f, EventView::Log(LogKind::Rx, line), rx, x);
    let g = model::logged(f, LogKind::Rx, line);
    if let Some(e) = lines::error_in(line) {
        lemma_failed(g, "remote reported an error: "@ + e, rx, x);
    } else if let Some(rest) = text::strip_prefix(line, "FS "@) {
        match lines::answers(encode_utf8(text::trim(rest)), text::trim(rest)) {
            Err(e) => {
                lemma_failed(g, e, rx, x);
            },
            Ok(answers) => {
                lemma_replied(g, batch, answers, rx, x);
                lemma_failed(
                    g,
                    "got "@ + text::decimal(answers.len()) + " answers for "@ + text::decimal(
                        batch.len(),
                    ) + " proposals"@,
                    rx,
                    x,
                );
            },
        }
    } else {
        lemma_failed(
            g,
            "expected a proposal answer (FS), got "@ + crate::unicode::quoted(line),
            rx,
            x,
        );
    }
}

proof fn lemma_turnover(
    f: Flow,
    line: Seq<char>,
    mids: Seq<Seq<char>>,
    rx: Seq<u8>,
    x: Seq<EventView>,
)
    ensures
        model::turnover_line(moved(f, rx, x), line, mids) == moved(
            model::turnover_line(f, line, mids),
            rx,
            x,
        ),
{
    lemma_said(f, EventView::Log(LogKind::Rx, line), rx, x);
    let g = model::logged(f, LogKind::Rx, line);
    lemma_delivered(g, mids, rx, x);
    lemma_their_turn(
        model::in_state(model::delivered(g, mids), StateView::TheirTurn),
        line,
        rx,
        x,
    );
    if let Some(e) = lines::error_in(line) {
        lemma_failed(g, "remote reported an error: "@ + e, rx, x);
    }
    lemma_failed(
        g,
        "unexpected reply after transfer: "@ + crate::unicode::quoted(line),
        rx,
        x,
    );
}

/// A line is acted on in the same way whatever bytes follow it and whatever
/// was said before.
pub proof fn lemma_handled(f: Flow, line: Seq<char>, rx: Seq<u8>, x: Seq<EventView>)
    ensures
        model::handled(moved(f, rx, x), line) == moved(model::handled(f, line), rx, x),
{
    match f.s.state {
        StateView::Handshake => lemma_client(f, line, rx, x),
        StateView::MasterHandshake => lemma_master(f, line, rx, x),
        StateView::TheirTurn => {
            lemma_said(f, EventView::Log(LogKind::Rx, line), rx, x);
            lemma_their_turn(model::logged(f, LogKind::Rx, line), line, rx, x);
        },
        StateView::AwaitAnswer(batch) => lemma_answer(f, line, batch, rx, x),
        StateView::AwaitTurnover(mids) => lemma_turnover(f, line, mids, rx, x),
        _ => {},
    }
}

// ---------------------------------------------------------------------
// Bytes in fragments

/// The session with more bytes behind those that are left.
pub open spec fn with_more(f: Flow, b: Seq<u8>) -> Flow {
    Flow { s: SessionView { rx: f.s.rx + b, ..f.s }, ev: f.ev }
}

/// The session with these events said before.
pub open spec fn preceded(f: Flow, x: Seq<EventView>) -> Flow {
    Flow { s: f.s, ev: x + f.ev }
}

proof fn lemma_handled_more(f: Flow, line: Seq<char>, b: Seq<u8>)
    ensures
        model::handled(with_more(f, b), line) == with_more(model::handled(f, line), b),
{
    lemma_handled(f, line, f.s.rx + b, seq![]);
    model::lemma_handled_rx(f, line);
    assert(Seq::<EventView>::empty() + f.ev =~= f.ev);
    let h = model::handled(f, line);
    assert(Seq::<EventView>::empty() + h.ev =~= h.ev);
    assert(moved(f, f.s.rx + b, seq![]) == with_more(f, b));
}

proof fn lemma_our_turn_more(f: Flow, b: Seq<u8>)
    ensures
        model::our_turn(with_more(f, b)) == with_more(model::our_turn(f), b),
{
    lemma_our_turn(f, f.s.rx + b, seq![]);
    model::lemma_our_turn_rx(f);
    assert(Seq::<EventView>::empty() + f.ev =~= f.ev);
    let h = model::our_turn(f);
    assert(Seq::<EventView>::empty() + h.ev =~= h.ev);
    assert(moved(f, f.s.rx + b, seq![]) == with_more(f, b));
}

/// The bytes that are left end inside a header or a data block.
pub open spec fn is_partial(f: Flow, r: ReceiverView) -> bool {
    match r.stage {
        StageView::Header { len, bytes } => f.s.rx.len() < len - bytes.len(),
        StageView::BlockData { remaining } => f.s.rx.len() < remaining,
        _ => false,
    }
}

proof fn lemma_step_past(f: Flow, n: int, b: Seq<u8>)
    requires
        0 <= n <= f.s.rx.len(),
    ensures
        model::past(with_more(f, b), n) == with_more(model::past(f, n), b),
        forall|r: ReceiverView, stage: StageView|
            #[trigger] model::on_stage(with_more(f, b), r, stage, n) == with_more(
                model::on_stage(f, r, stage, n),
                b,
            ),
{
    assert((f.s.rx + b).skip(n) =~= f.s.rx.skip(n) + b);
}

/// A step that has its bytes takes the same ones when more follow.
#[verifier::spinoff_prover]
proof fn lemma_stepped_more(f: Flow, r: ReceiverView, b: Seq<u8>)
    requires
        f.s.state == StateView::Receiving(r),
        !is_partial(f, r),
    ensures
        model::stepped(f, r) matches Some(g) ==> model::stepped(with_more(f, b), r) == Some(
            with_more(g, b),
        ),
{
    let g = with_more(f, b);
    if f.s.rx.len() > 0 {
        assert(g.s.rx[0] == f.s.rx[0]);
        lemma_step_past(f, 1, b);
        match r.stage {
            StageView::Soh => {
                lines::lemma_break_at(f.s.rx);
                let end = lines::break_at(f.s.rx) as int;
                if end < f.s.rx.len() {
                    lines::lemma_break_at_is(g.s.rx, end);
                    assert(g.s.rx.take(end) =~= f.s.rx.take(end));
                }
            },
            StageView::Header { len, bytes } => {
                let want = len - bytes.len();
                let n = if want <= 0 {
                    0
                } else {
                    want
                };
                lemma_step_past(f, n, b);
                assert(g.s.rx.take(n) =~= f.s.rx.take(n));
                let p = model::past(f, n);
                lemma_step_past(p, 0, b);
            },
            StageView::BlockData { remaining } => {
                let n = remaining as int;
                lemma_step_past(f, n, b);
                assert(g.s.rx.take(n) =~= f.s.rx.take(n));
            },
            StageView::Checksum => {
                lemma_checksum_more(f, r, b);
            },
            _ => {},
        }
    }
}

proof fn lemma_checksum_more(f: Flow, r: ReceiverView, b: Seq<u8>)
    requires
        f.s.rx.len() > 0,
    ensures
        model::step_checksum(with_more(f, b), r) == with_more(model::step_checksum(f, r), b),
{
    lemma_step_past(f, 1, b);
    assert(with_more(f, b).s.rx[0] == f.s.rx[0]);
    let g = model::past(f, 1);
    if r.queue.len() > 0 {
        if let Ok(raw) = lzhuf::opened(r.data) {
            if let Ok(m) = wire::read(raw) {
                let p = r.queue[0];
                assert(model::stored(with_more(g, b), p, m, raw) == with_more(
                    model::stored(g, p, m, raw),
                    b,
                ));
                lemma_our_turn_more(model::stored(g, p, m, raw), b);
            }
        }
    }
}

proof fn lemma_header_partial(f: Flow, r: ReceiverView, len: nat, bytes: Seq<u8>, b: Seq<u8>)
    requires
        f.s.rx.len() < len - bytes.len(),
    ensures
        ({
            let stage = StageView::Header { len, bytes: bytes + f.s.rx };
            let g = model::on_stage(f, r, stage, f.s.rx.len() as int);
            &&& model::step_header(f, r, len, bytes) == g
            &&& model::step_header(
                with_more(g, b),
                ReceiverView { stage, ..r },
                len,
                bytes + f.s.rx,
            ) == model::step_header(with_more(f, b), r, len, bytes)
        }),
{
    let all = f.s.rx;
    let n = all.len() as int;
    assert(all.take(n) =~= all);
    assert(all.skip(n) =~= Seq::<u8>::empty());
    let stage = StageView::Header { len, bytes: bytes + all };
    let q = ReceiverView { stage, ..r };
    let g = model::on_stage(f, r, stage, n);
    let more = with_more(f, b);
    let rest = with_more(g, b);
    assert(rest.s.rx =~= b);
    let want = len - bytes.len();
    let k = if want < more.s.rx.len() {
        want
    } else {
        more.s.rx.len() as int
    };
    let got = bytes + more.s.rx.take(k);
    assert(got =~= bytes + all + b.take(k - n));
    assert(more.s.rx.skip(k) =~= b.skip(k - n));
    assert(model::past(more, k).s.rx == model::past(rest, k - n).s.rx);
    if got.len() >= len {
        let u = model::past(more, k);
        let v = model::past(rest, k - n);
        assert(u.s.rx.skip(0) =~= v.s.rx.skip(0));
        assert(model::header_done(u, r, got) == model::header_done(v, q, got));
    }
}

proof fn lemma_data_partial(f: Flow, r: ReceiverView, remaining: nat, b: Seq<u8>)
    requires
        f.s.rx.len() < remaining,
    ensures
        ({
            let stage = StageView::BlockData { remaining: (remaining - f.s.rx.len()) as nat };
            let q = ReceiverView {
                stage,
                data: r.data + f.s.rx,
                sum: (r.sum + lines::byte_sum(f.s.rx)) % 256,
                ..r
            };
            let g = model::on_stage(f, q, stage, f.s.rx.len() as int);
            &&& model::step_data(f, r, remaining) == g
            &&& model::step_data(with_more(g, b), q, (remaining - f.s.rx.len()) as nat)
                == model::step_data(with_more(f, b), r, remaining)
        }),
{
    let all = f.s.rx;
    let n = all.len() as int;
    let more = with_more(f, b);
    let k = if remaining < more.s.rx.len() {
        remaining as int
    } else {
        more.s.rx.len() as int
    };
    lemma_chunks(all, b, r.data, r.sum, k);
    assert(Seq::<u8>::empty() + b =~= b);
}

/// A chunk taken in two parts is the chunk taken at once.
#[verifier::spinoff_prover]
proof fn lemma_chunks(all: Seq<u8>, b: Seq<u8>, data: Seq<u8>, sum: int, k: int)
    requires
        all.len() <= k <= all.len() + b.len(),
    ensures
        ({
            let n = all.len() as int;
            &&& all.take(n) == all
            &&& all.skip(n) == Seq::<u8>::empty()
            &&& (data + all) + b.take(k - n) == data + (all + b).take(k)
            &&& (all + b).skip(k) == b.skip(k - n)
            &&& ((sum + lines::byte_sum(all)) % 256 + lines::byte_sum(b.take(k - n))) % 256 == (sum
                + lines::byte_sum((all + b).take(k))) % 256
        }),
{
    let n = all.len() as int;
    let rest = b.take(k - n);
    assert(all.take(n) =~= all);
    assert(all.skip(n) =~= Seq::<u8>::empty());
    assert((all + b).take(k) =~= all + rest);
    assert((data + all) + rest =~= data + (all + rest));
    assert((all + b).skip(k) =~= b.skip(k - n));
    lines::lemma_byte_sum_concat(all, rest);
    lines::lemma_byte_sum(all);
    lines::lemma_byte_sum(rest);
}

/// A step that ran out of bytes goes on where it stopped.
proof fn lemma_stepped_partial(f: Flow, r: ReceiverView, b: Seq<u8>)
    requires
        f.s.state == StateView::Receiving(r),
        is_partial(f, r),
        f.s.rx.len() > 0,
        b.len() > 0,
    ensures
        model::stepped(f, r) matches Some(g) && g.s.state matches StateView::Receiving(q)
            && model::stepped(with_more(g, b), q) == model::stepped(with_more(f, b), r),
{
    match r.stage {
        StageView::Header { len, bytes } => {
            lemma_header_partial(f, r, len, bytes, b);
        },
        StageView::BlockData { remaining } => {
            lemma_data_partial(f, r, remaining, b);
        },
        _ => {},
    }
}

/// The reason given where a line without an end grows too long.
pub open spec fn no_line_end() -> EventView {
    EventView::Failed("protocol line longer than 4096 bytes without a line ending"@)
}

/// Did the session give up waiting for the end of a line?
pub open spec fn gave_up(f: Flow) -> bool {
    f.s.state is Failed && f.ev.len() > 0 && f.ev.last() == no_line_end()
}

proof fn lemma_taken_more(rx: Seq<u8>, b: Seq<u8>)
    ensures
        match lines::taken(rx) {
            Taken::Line(line, rest) => lines::taken(rx + b) == Taken::Line(line, rest + b),
            Taken::More(rest) => lines::taken(rx + b) == lines::taken(rest + b),
            Taken::TooLong(e) => EventView::Failed(e) == no_line_end() || lines::taken(rx + b)
                == Taken::TooLong(e),
        },
    decreases rx.len(),
{
    lines::lemma_break_at(rx);
    let end = lines::break_at(rx) as int;
    if end < rx.len() {
        lines::lemma_break_at_is(rx + b, end);
        if end <= lines::MAX_LINE {
            assert((rx + b).take(end) =~= rx.take(end));
            assert((rx + b).skip(end + 1) =~= rx.skip(end + 1) + b);
            lemma_taken_more(rx.skip(end + 1), b);
        }
    }
}

/// Working through some bytes and then through more is working through all
/// of them.
#[verifier::spinoff_prover]
proof fn lemma_run_more(f: Flow, b: Seq<u8>)
    requires
        model::is_over(f.s) || !gave_up(model::run(f)),
    ensures
        model::run(with_more(model::run(f), b)) == model::run(with_more(f, b)),
    decreases f.s.rx.len(), model::rank(f.s),
{
    reveal(model::run);
    let more = with_more(f, b);
    match f.s.state {
        StateView::Done => {},
        StateView::Failed => {},
        StateView::Receiving(r) => {
            model::lemma_stepped(f, r);
            if let Some(g) = model::stepped(f, r) {
                if model::is_over(g.s) || !gave_up(model::run(g)) {
                    lemma_run_more(g, b);
                }
                if b.len() == 0 {
                    assert(f.s.rx + b =~= f.s.rx);
                    assert(g.s.rx + b =~= g.s.rx);
                    assert(with_more(f, b) == f);
                    assert(with_more(g, b) == g);
                } else if is_partial(f, r) {
                    lemma_stepped_partial(f, r, b);
                } else {
                    lemma_stepped_more(f, r, b);
                }
            }
        },
        _ => {
            model::lemma_taken(f.s.rx);
            lemma_taken_more(f.s.rx, b);
            match lines::taken(f.s.rx) {
                Taken::Line(line, rest) => {
                    let g = Flow { s: SessionView { rx: rest, ..f.s }, ev: f.ev };
                    model::lemma_handled_rx(g, line);
                    lemma_handled_more(g, line, b);
                    let h = model::handled(g, line);
                    if model::is_over(h.s) || !gave_up(model::run(h)) {
                        lemma_run_more(h, b);
                    }
                    assert(with_more(g, b) == (Flow {
                        s: SessionView { rx: rest + b, ..more.s },
                        ev: more.ev,
                    }));
                },
                Taken::More(rest) => {
                    let g = Flow { s: SessionView { rx: rest, ..f.s }, ev: f.ev };
                    assert(with_more(g, b).s.rx == rest + b);
                    lemma_same_line(with_more(g, b), more);
                },
                Taken::TooLong(e) => {},
            }
        },
    }
}

/// Only the next line matters.
proof fn lemma_same_line(a: Flow, b: Flow)
    requires
        !model::is_over(a.s),
        !(a.s.state is Receiving),
        a == (Flow { s: SessionView { rx: a.s.rx, ..b.s }, ev: b.ev }),
        lines::taken(a.s.rx) == lines::taken(b.s.rx),
    ensures
        model::run(a) == model::run(b),
{
    reveal(model::run);
}

proof fn lemma_checksum_preceded(f: Flow, r: ReceiverView, x: Seq<EventView>)
    requires
        f.s.rx.len() > 0,
    ensures
        model::step_checksum(preceded(f, x), r) == preceded(model::step_checksum(f, r), x),
{
    let g = model::past(f, 1);
    let rx = g.s.rx;
    assert(model::past(preceded(f, x), 1) == moved(g, rx, x));
    if r.queue.len() == 0 {
        lemma_failed(g, "received transfer data with no matching proposal"@, rx, x);
    } else {
        let p = r.queue[0];
        lemma_failed(g, p.mid + ": transfer checksum error"@, rx, x);
        lemma_failed(
            g,
            p.mid + ": got "@ + text::decimal(r.data.len()) + " bytes, proposal said "@
                + text::decimal(p.csize),
            rx,
            x,
        );
        match lzhuf::opened(r.data) {
            Err(e) => {
                lemma_failed(g, p.mid + ": "@ + e, rx, x);
            },
            Ok(raw) => match wire::read(raw) {
                Err(e) => {
                    lemma_failed(g, p.mid + ": unreadable message: "@ + e, rx, x);
                },
                Ok(m) => {
                    let mid = wire::mid_of(m);
                    let note = "proposal "@ + p.mid + " carried message "@ + mid;
                    lemma_said(g, EventView::Log(LogKind::Warn, note), rx, x);
                    let h = if mid != p.mid {
                        model::logged(g, LogKind::Warn, note)
                    } else {
                        g
                    };
                    let k = Flow {
                        s: SessionView { known: h.s.known.insert(p.mid).insert(mid), ..h.s },
                        ev: h.ev,
                    };
                    lemma_said(k, EventView::Received { message: m, raw }, rx, x);
                    let stored = model::stored(g, p, m, raw);
                    assert(model::stored(moved(g, rx, x), p, m, raw) == moved(stored, rx, x));
                    lemma_our_turn(stored, rx, x);
                    model::lemma_our_turn_rx(stored);
                },
            },
        }
    }
}

/// What was said before does not matter to a step.
#[verifier::spinoff_prover]
proof fn lemma_stepped_preceded(f: Flow, r: ReceiverView, x: Seq<EventView>)
    requires
        f.s.state == StateView::Receiving(r),
    ensures
        match model::stepped(f, r) {
            Some(g) => model::stepped(preceded(f, x), r) == Some(preceded(g, x)),
            None => model::stepped(preceded(f, x), r) is None,
        },
{
    if f.s.rx.len() > 0 {
        let b = f.s.rx[0];
        let rx = f.s.rx;
        assert(preceded(f, x) == moved(f, rx, x));
        match r.stage {
            StageView::Soh => {
                lemma_failed(
                    f,
                    "expected a message transfer, got byte "@ + lines::byte_text(b),
                    rx,
                    x,
                );
                let end = lines::break_at(rx) as int;
                let line = text::trim(crate::unicode::decoded_lossy(rx.take(end)));
                let e = match lines::error_in(line) {
                    Some(e) => e,
                    None => line,
                };
                lemma_failed(f, "remote reported an error: "@ + e, rx, x);
            },
            StageView::Header { len, bytes } => {
                let want = len - bytes.len();
                let n = if want <= 0 {
                    0
                } else if want < rx.len() {
                    want
                } else {
                    rx.len() as int
                };
                let got = bytes + rx.take(n);
                let p = model::past(f, n);
                let offset = crate::unicode::decoded_lossy(model::header_offset(got));
                let title = crate::unicode::decoded_lossy(model::header_title(got));
                let mid = model::coming(r);
                lemma_failed(
                    p,
                    "unexpected transfer offset "@ + crate::unicode::quoted(offset) + " for "@
                        + mid,
                    p.s.rx,
                    x,
                );
                let q = model::on_stage(
                    p,
                    ReceiverView { data: seq![], sum: 0, ..r },
                    StageView::Block,
                    0,
                );
                lemma_said(
                    q,
                    EventView::Log(
                        LogKind::Info,
                        "receiving "@ + mid + " \""@ + crate::charset::decoded_header(
                            text::trim(title),
                        ) + "\""@,
                    ),
                    q.s.rx,
                    x,
                );
                assert(preceded(p, x) == moved(p, p.s.rx, x));
            },
            StageView::Block => {
                let p = model::past(f, 1);
                lemma_failed(
                    p,
                    "corrupt transfer: unexpected byte "@ + lines::byte_text(b),
                    p.s.rx,
                    x,
                );
            },
            StageView::Checksum => {
                lemma_checksum_preceded(f, r, x);
            },
            _ => {},
        }
    }
}

/// What was said before does not matter.
#[verifier::spinoff_prover]
#[verifier::rlimit(40)]
proof fn lemma_run_preceded(f: Flow, x: Seq<EventView>)
    ensures
        model::run(preceded(f, x)) == preceded(model::run(f), x),
    decreases f.s.rx.len(), model::rank(f.s),
{
    reveal(model::run);
    match f.s.state {
        StateView::Done => {},
        StateView::Failed => {},
        StateView::Receiving(r) => {
            model::lemma_stepped(f, r);
            lemma_stepped_preceded(f, r, x);
            if let Some(g) = model::stepped(f, r) {
                lemma_run_preceded(g, x);
            }
        },
        _ => {
            model::lemma_taken(f.s.rx);
            match lines::taken(f.s.rx) {
                Taken::Line(line, rest) => {
                    let g = Flow { s: SessionView { rx: rest, ..f.s }, ev: f.ev };
                    model::lemma_handled_rx(g, line);
                    lemma_handled(g, line, rest, x);
                    let h = model::handled(g, line);
                    assert(moved(h, rest, x) == preceded(h, x));
                    assert(moved(g, rest, x) == preceded(g, x));
                    lemma_run_preceded(h, x);
                },
                Taken::More(_) => {},
                Taken::TooLong(e) => {
                    let g = Flow { s: SessionView { rx: seq![], ..f.s }, ev: f.ev };
                    lemma_failed(g, e, g.s.rx, x);
                },
            }
        },
    }
}

/// It does not matter in which fragments the bytes arrive: two calls of
/// `feed` give the events and the state of one call with all the bytes. The
/// one exception is a line without an end that grows too long, which is
/// given up at the end of a fragment.
pub proof fn law_fragments(s: SessionView, a: Seq<u8>, b: Seq<u8>)
    requires
        model::is_over(s) || !gave_up(model::fed(Flow { s, ev: seq![] }, a)),
    ensures
        ({
            let first = model::fed(Flow { s, ev: seq![] }, a);
            let second = model::fed(Flow { s: first.s, ev: seq![] }, b);
            model::fed(Flow { s, ev: seq![] }, a + b) == (Flow {
                s: second.s,
                ev: first.ev + second.ev,
            })
        }),
{
    let f = Flow { s: SessionView { rx: s.rx + a, ..s }, ev: Seq::<EventView>::empty() };
    let first = model::run(f);
    lemma_run_more(f, b);
    assert(s.rx + a + b =~= s.rx + (a + b));
    let next = with_more(Flow { s: first.s, ev: seq![] }, b);
    lemma_run_preceded(next, first.ev);
    assert(first.ev + Seq::<EventView>::empty() =~= first.ev);
    assert(preceded(next, first.ev) == with_more(first, b));
}

/// Nothing happens in a session that has ended.
pub proof fn law_over_is_final(s: SessionView, data: Seq<u8>)
    requires
        model::is_over(s),
    ensures
        model::fed(Flow { s, ev: seq![] }, data) == (Flow {
            s: SessionView { rx: seq![], ..s },
            ev: seq![],
        }),
{
    reveal(model::run);
}

} // verus!

//! The password itself never goes over the air: what a session does depends
//! on it only through the answers that it gives to challenges.

use vstd::prelude::*;
use vstd::utf8::*;

use crate::lzhuf;
use crate::message::wire;
use crate::secure;
use crate::session::lines;
use crate::session::lines::{Answer, Taken};
use crate::session::model;
use crate::session::model::{
    ConfigView, EventView, Flow, LogKind, ReceiverView, SessionView, StageView, StateView,
};
use crate::text;

verus! {

/// Is there a password?
pub open spec fn is_set(p: Option<Seq<char>>) -> bool {
    p matches Some(s) && s.len() > 0
}

/// Two passwords that cannot be told apart by the challenge that was asked,
/// if one was: both are missing, or they give the same answer.
pub open spec fn answer_alike(
    asked: Option<Seq<char>>,
    p: Option<Seq<char>>,
    q: Option<Seq<char>>,
) -> bool {
    is_set(p) == is_set(q) && (is_set(p) ==> (asked matches Some(challenge) ==>
        secure::login_answer(challenge, p->0) == secure::login_answer(challenge, q->0)))
}

/// The session with another password.
pub open spec fn with_password(f: Flow, q: Option<Seq<char>>) -> Flow {
    Flow {
        s: SessionView { cfg: ConfigView { password: q, ..f.s.cfg }, ..f.s },
        ev: f.ev,
    }
}

/// The configuration stays, the challenge too, and no handshake begins anew.
spec fn keeps(f: Flow, g: Flow) -> bool {
    &&& g.s.cfg == f.s.cfg
    &&& g.s.challenge == f.s.challenge
    &&& !(f.s.state is Handshake) ==> !(g.s.state is Handshake)
}

proof fn lemma_candidates(f: Flow, q: Option<Seq<char>>, n: int)
    ensures
        model::candidates(with_password(f, q).s, n) == model::candidates(f.s, n),
    decreases n,
{
    if n > 0 {
        lemma_candidates(f, q, n - 1);
    }
}

proof fn lemma_offered(f: Flow, q: Option<Seq<char>>, batch: Seq<int>)
    ensures
        model::offered(with_password(f, q), batch) == (
            with_password(model::offered(f, batch).0, q),
            model::offered(f, batch).1,
        ),
    decreases batch.len(),
{
    if batch.len() > 0 {
        lemma_offered(f, q, batch.drop_last());
    }
}

proof fn lemma_our_turn(f: Flow, q: Option<Seq<char>>)
    ensures
        model::our_turn(with_password(f, q)) == with_password(model::our_turn(f), q),
{
    let n = f.s.outbound.len() as int;
    let g = if !f.s.explained_held && f.s.remote_fw.len() > 0 {
        Flow {
            s: SessionView { explained_held: true, ..f.s },
            ev: model::held(f.ev, f.s.outbound, f.s.remote_fw, n),
        }
    } else {
        f
    };
    lemma_candidates(g, q, n);
    lemma_offered(g, q, model::next_batch(g.s));
}

proof fn lemma_replied(f: Flow, q: Option<Seq<char>>, batch: Seq<int>, answers: Seq<Answer>)
    ensures
        model::replied(with_password(f, q), batch, answers) == (
            with_password(model::replied(f, batch, answers).0, q),
            model::replied(f, batch, answers).1,
        ),
    decreases batch.len(),
{
    if batch.len() > 0 && answers.len() > 0 {
        lemma_replied(f, q, batch.drop_last(), answers.drop_last());
    }
}

proof fn lemma_delivered(f: Flow, q: Option<Seq<char>>, mids: Seq<Seq<char>>)
    ensures
        model::delivered(with_password(f, q), mids) == with_password(model::delivered(f, mids), q),
    decreases mids.len(),
{
    if mids.len() > 0 {
        lemma_delivered(f, q, mids.drop_last());
    }
}

proof fn lemma_answered(f: Flow, q: Option<Seq<char>>)
    ensures
        model::answered(with_password(f, q)) == with_password(model::answered(f), q),
{
    let ps = f.s.proposals;
    let n = ps.len() as int;
    let g = model::sent_line(
        Flow {
            s: SessionView { proposals: seq![], remote_no_msgs: false, ..f.s },
            ev: model::size_warnings(f.ev, ps, n),
        },
        "FS "@ + model::verdicts(ps, f.s.known, n),
    );
    lemma_our_turn(g, q);
}

proof fn lemma_end_of_block(f: Flow, q: Option<Seq<char>>, given: Seq<char>)
    ensures
        model::end_of_block(with_password(f, q), given) == with_password(
            model::end_of_block(f, given),
            q,
        ),
{
    let g = Flow { s: SessionView { proposal_sum: 0, ..f.s }, ev: f.ev };
    lemma_our_turn(Flow { s: SessionView { remote_no_msgs: true, ..g.s }, ev: g.ev }, q);
    lemma_answered(g, q);
}

proof fn lemma_command(f: Flow, q: Option<Seq<char>>, line: Seq<char>)
    ensures
        model::command(with_password(f, q), line) == with_password(model::command(f, line), q),
{
    let g = model::no_proposals(f);
    lemma_our_turn(Flow { s: SessionView { remote_no_msgs: true, ..g.s }, ev: g.ev }, q);
    lemma_end_of_block(f, q, text::trim(line.skip(2)));
}

proof fn lemma_their_turn(f: Flow, q: Option<Seq<char>>, line: Seq<char>)
    ensures
        model::their_turn(with_password(f, q), line) == with_password(
            model::their_turn(f, line),
            q,
        ),
{
    lemma_command(f, q, line);
}

proof fn lemma_greeted(f: Flow, q: Option<Seq<char>>)
    requires
        model::can_greet(f.s),
        answer_alike(f.s.challenge, f.s.cfg.password, q),
    ensures
        model::greeted(with_password(f, q)) == with_password(model::greeted(f), q),
{
}

proof fn lemma_client(f: Flow, q: Option<Seq<char>>, line: Seq<char>)
    requires
        is_set(f.s.cfg.password) == is_set(q),
        !(model::client_line(f, line).s.state is Handshake) ==> answer_alike(
            model::client_line(f, line).s.challenge,
            f.s.cfg.password,
            q,
        ),
    ensures
        model::client_line(with_password(f, q), line) == with_password(
            model::client_line(f, line),
            q,
        ),
{
    let g = model::logged(f, LogKind::Rx, line);
    lemma_our_turn(model::greeted(g), q);
    lemma_our_turn_config(model::greeted(g));
    if model::can_greet(g.s) && answer_alike(g.s.challenge, g.s.cfg.password, q) {
        lemma_greeted(g, q);
    }
}

proof fn lemma_handled(f: Flow, q: Option<Seq<char>>, line: Seq<char>)
    requires
        is_set(f.s.cfg.password) == is_set(q),
        !(model::handled(f, line).s.state is Handshake) ==> answer_alike(
            model::handled(f, line).s.challenge,
            f.s.cfg.password,
            q,
        ),
    ensures
        model::handled(with_password(f, q), line) == with_password(model::handled(f, line), q),
        model::handled(f, line).s.cfg == f.s.cfg,
{
    lemma_config_kept(f, line);
    let g = model::logged(f, LogKind::Rx, line);
    match f.s.state {
        StateView::Handshake => lemma_client(f, q, line),
        StateView::MasterHandshake => {
            lemma_their_turn(model::in_state(g, StateView::TheirTurn), q, line);
        },
        StateView::TheirTurn => lemma_their_turn(g, q, line),
        StateView::AwaitAnswer(batch) => {
            if let Some(rest) = text::strip_prefix(line, "FS "@) {
                if let Ok(answers) = lines::answers(
                    encode_utf8(text::trim(rest)),
                    text::trim(rest),
                ) {
                    lemma_replied(g, q, batch, answers);
                }
            }
        },
        StateView::AwaitTurnover(mids) => {
            lemma_delivered(g, q, mids);
            lemma_their_turn(
                model::in_state(model::delivered(g, mids), StateView::TheirTurn),
                q,
                line,
            );
        },
        _ => {},
    }
}

proof fn lemma_our_turn_config(f: Flow)
    ensures
        keeps(f, model::our_turn(f)),
        !(model::our_turn(f).s.state is Handshake),
{
    let n = f.s.outbound.len() as int;
    let g = if !f.s.explained_held && f.s.remote_fw.len() > 0 {
        Flow {
            s: SessionView { explained_held: true, ..f.s },
            ev: model::held(f.ev, f.s.outbound, f.s.remote_fw, n),
        }
    } else {
        f
    };
    lemma_offered_config(g, model::next_batch(g.s));
}

proof fn lemma_offered_config(f: Flow, batch: Seq<int>)
    ensures
        keeps(f, model::offered(f, batch).0),
    decreases batch.len(),
{
    if batch.len() > 0 {
        lemma_offered_config(f, batch.drop_last());
    }
}

proof fn lemma_replied_config(f: Flow, batch: Seq<int>, answers: Seq<Answer>)
    ensures
        keeps(f, model::replied(f, batch, answers).0),
    decreases batch.len(),
{
    if batch.len() > 0 && answers.len() > 0 {
        lemma_replied_config(f, batch.drop_last(), answers.drop_last());
    }
}

proof fn lemma_delivered_config(f: Flow, mids: Seq<Seq<char>>)
    ensures
        keeps(f, model::delivered(f, mids)),
    decreases mids.len(),
{
    if mids.len() > 0 {
        lemma_delivered_config(f, mids.drop_last());
    }
}

proof fn lemma_answered_config(f: Flow)
    ensures
        keeps(f, model::answered(f)),
{
    let ps = f.s.proposals;
    let n = ps.len() as int;
    let g = model::sent_line(
        Flow {
            s: SessionView { proposals: seq![], remote_no_msgs: false, ..f.s },
            ev: model::size_warnings(f.ev, ps, n),
        },
        "FS "@ + model::verdicts(ps, f.s.known, n),
    );
    lemma_our_turn_config(g);
}

proof fn lemma_their_turn_config(f: Flow, line: Seq<char>)
    ensures
        keeps(f, model::their_turn(f, line)),
{
    let g = model::no_proposals(f);
    lemma_our_turn_config(Flow { s: SessionView { remote_no_msgs: true, ..g.s }, ev: g.ev });
    let h = Flow { s: SessionView { proposal_sum: 0, ..f.s }, ev: f.ev };
    lemma_our_turn_config(Flow { s: SessionView { remote_no_msgs: true, ..h.s }, ev: h.ev });
    lemma_answered_config(h);
}

/// A line does not change the configuration, nor the challenge once the
/// handshake is over.
proof fn lemma_config_kept(f: Flow, line: Seq<char>)
    ensures
        model::handled(f, line).s.cfg == f.s.cfg,
        !(f.s.state is Handshake) ==> keeps(f, model::handled(f, line)),
{
    let g = model::logged(f, LogKind::Rx, line);
    lemma_our_turn_config(model::greeted(g));
    match f.s.state {
        StateView::MasterHandshake => {
            lemma_their_turn_config(model::in_state(g, StateView::TheirTurn), line);
        },
        StateView::TheirTurn => lemma_their_turn_config(g, line),
        StateView::AwaitAnswer(batch) => {
            if let Some(rest) = text::strip_prefix(line, "FS "@) {
                if let Ok(answers) = lines::answers(
                    encode_utf8(text::trim(rest)),
                    text::trim(rest),
                ) {
                    lemma_replied_config(g, batch, answers);
                }
            }
        },
        StateView::AwaitTurnover(mids) => {
            lemma_delivered_config(g, mids);
            lemma_their_turn_config(
                model::in_state(model::delivered(g, mids), StateView::TheirTurn),
                line,
            );
        },
        _ => {},
    }
}

proof fn lemma_checksum(f: Flow, r: ReceiverView, q: Option<Seq<char>>)
    ensures
        model::step_checksum(with_password(f, q), r) == with_password(
            model::step_checksum(f, r),
            q,
        ),
        !(f.s.state is Handshake) ==> keeps(f, model::step_checksum(f, r)),
{
    let g = model::past(f, 1);
    if r.queue.len() > 0 {
        if let Ok(raw) = lzhuf::opened(r.data) {
            if let Ok(m) = wire::read(raw) {
                let h = model::stored(g, r.queue[0], m, raw);
                lemma_our_turn(h, q);
                lemma_our_turn_config(h);
            }
        }
    }
}

proof fn lemma_soh(f: Flow, r: ReceiverView, q: Option<Seq<char>>)
    ensures
        model::step_soh(with_password(f, q), r) == (match model::step_soh(f, r) {
            Some(g) => Some(with_password(g, q)),
            None => None,
        }),
{
}

proof fn lemma_header(f: Flow, r: ReceiverView, len: nat, bytes: Seq<u8>, q: Option<Seq<char>>)
    ensures
        model::step_header(with_password(f, q), r, len, bytes) == with_password(
            model::step_header(f, r, len, bytes),
            q,
        ),
{
}

proof fn lemma_data(f: Flow, r: ReceiverView, remaining: nat, q: Option<Seq<char>>)
    ensures
        model::step_data(with_password(f, q), r, remaining) == with_password(
            model::step_data(f, r, remaining),
            q,
        ),
{
}

#[verifier::spinoff_prover]
#[verifier::rlimit(40)]
proof fn lemma_stepped(f: Flow, r: ReceiverView, q: Option<Seq<char>>)
    ensures
        model::stepped(with_password(f, q), r) == (match model::stepped(f, r) {
            Some(g) => Some(with_password(g, q)),
            None => None,
        }),
{
    match r.stage {
        StageView::Soh => lemma_soh(f, r, q),
        StageView::Header { len, bytes } => lemma_header(f, r, len, bytes, q),
        StageView::BlockData { remaining } => lemma_data(f, r, remaining, q),
        StageView::Checksum => lemma_checksum(f, r, q),
        _ => {},
    }
}

#[verifier::spinoff_prover]
proof fn lemma_stepped_keeps(f: Flow, r: ReceiverView)
    requires
        !(f.s.state is Handshake),
    ensures
        model::stepped(f, r) matches Some(g) ==> keeps(f, g),
{
    lemma_checksum(f, r, f.s.cfg.password);
}

/// The configuration stays; once the handshake is over the challenge stays
/// too.
proof fn lemma_run_keeps(f: Flow)
    ensures
        model::run(f).s.cfg == f.s.cfg,
        !(f.s.state is Handshake) ==> keeps(f, model::run(f)),
    decreases f.s.rx.len(), model::rank(f.s),
{
    reveal(model::run);
    match f.s.state {
        StateView::Done => {},
        StateView::Failed => {},
        StateView::Receiving(r) => {
            model::lemma_stepped(f, r);
            lemma_stepped_keeps(f, r);
            if let Some(g) = model::stepped(f, r) {
                lemma_run_keeps(g);
            }
        },
        _ => {
            model::lemma_taken(f.s.rx);
            if let Taken::Line(line, rest) = lines::taken(f.s.rx) {
                let g = Flow { s: SessionView { rx: rest, ..f.s }, ev: f.ev };
                model::lemma_handled_rx(g, line);
                lemma_config_kept(g, line);
                lemma_run_keeps(model::handled(g, line));
            }
        },
    }
}

/// What bytes do not change of a session: its configuration, that the
/// handshake is over, and from then on the challenge.
pub proof fn lemma_fed_keeps(f: Flow, data: Seq<u8>)
    ensures
        model::fed(f, data).s.cfg == f.s.cfg,
        !(f.s.state is Handshake) ==> !(model::fed(f, data).s.state is Handshake)
            && model::fed(f, data).s.challenge == f.s.challenge,
{
    lemma_run_keeps(Flow { s: SessionView { rx: f.s.rx + data, ..f.s }, ev: f.ev });
}

proof fn lemma_run(f: Flow, q: Option<Seq<char>>)
    requires
        is_set(f.s.cfg.password) == is_set(q),
        !(model::run(f).s.state is Handshake) ==> answer_alike(
            model::run(f).s.challenge,
            f.s.cfg.password,
            q,
        ),
    ensures
        model::run(with_password(f, q)) == with_password(model::run(f), q),
    decreases f.s.rx.len(), model::rank(f.s),
{
    reveal(model::run);
    match f.s.state {
        StateView::Done => {},
        StateView::Failed => {},
        StateView::Receiving(r) => {
            model::lemma_stepped(f, r);
            lemma_stepped(f, r, q);
            lemma_stepped_keeps(f, r);
            if let Some(g) = model::stepped(f, r) {
                lemma_run(g, q);
            }
        },
        _ => {
            model::lemma_taken(f.s.rx);
            match lines::taken(f.s.rx) {
                Taken::Line(line, rest) => {
                    let g = Flow { s: SessionView { rx: rest, ..f.s }, ev: f.ev };
                    let h = model::handled(g, line);
                    model::lemma_handled_rx(g, line);
                    lemma_config_kept(g, line);
                    lemma_run_keeps(h);
                    lemma_handled(g, q, line);
                    lemma_run(h, q);
                },
                Taken::More(rest) => {},
                Taken::TooLong(e) => {},
            }
        },
    }
}

/// Two sessions that differ only in the password do and say the same,
/// whatever the remote sends, if both passwords are set or neither is, and
/// they give the same answer to the challenge that the remote had asked when
/// the handshake was over: nothing else about the password can be learned
/// from what goes over the air.
pub proof fn law_password_is_only_hashed(f: Flow, q: Option<Seq<char>>, data: Seq<u8>)
    requires
        is_set(f.s.cfg.password) == is_set(q),
        !(model::fed(f, data).s.state is Handshake) ==> answer_alike(
            model::fed(f, data).s.challenge,
            f.s.cfg.password,
            q,
        ),
    ensures
        model::fed(with_password(f, q), data).ev == model::fed(f, data).ev,
        model::fed(with_password(f, q), data) == with_password(model::fed(f, data), q),
{
    lemma_run(Flow { s: SessionView { rx: f.s.rx + data, ..f.s }, ev: f.ev }, q);
}

/// A challenge is answered with what the password makes of it, and with
/// nothing else that depends on the password.
pub proof fn law_challenge_is_answered(f: Flow, q: Option<Seq<char>>)
    requires
        f.s.challenge is Some,
        is_set(f.s.cfg.password),
        is_set(q),
        secure::login_answer(f.s.challenge->0, f.s.cfg.password->0) == secure::login_answer(
            f.s.challenge->0,
            q->0,
        ),
    ensures
        model::greeted(with_password(f, q)) == with_password(model::greeted(f), q),
        model::greeted(f).ev.contains(
            EventView::Transmit(
                encode_utf8(
                    ";PR: "@ + secure::login_answer(f.s.challenge->0, f.s.cfg.password->0)
                        + "\r"@,
                ),
            ),
        ),
{
    lemma_greeted(f, q);
    let ev = model::greeted(f).ev;
    assert(ev[ev.len() - 3] == EventView::Transmit(
        encode_utf8(
            ";PR: "@ + secure::login_answer(f.s.challenge->0, f.s.cfg.password->0) + "\r"@,
        ),
    ));
}

/// The remote's prompt: neither a SID nor a comment.
pub open spec fn is_prompt(line: Seq<char>) -> bool {
    line.len() > 0 && line.last() == '>' && line[0] != ';' && line[0] != '['
}

/// On the remote's prompt a challenge is answered if there is a password.
/// Without one nothing is transmitted, and the session fails and says that
/// the password is missing.
pub proof fn law_challenge_needs_password(f: Flow, prompt: Seq<char>)
    requires
        f.s.state is Handshake,
        f.s.challenge is Some,
        f.s.remote_sid is Some,
        is_prompt(prompt),
    ensures
        is_set(f.s.cfg.password) ==> model::handled(f, prompt) == model::our_turn(
            model::greeted(model::logged(f, LogKind::Rx, prompt)),
        ),
        !is_set(f.s.cfg.password) ==> {
            let g = model::handled(f, prompt);
            &&& g.s.state is Failed
            &&& g.ev == f.ev.push(EventView::Log(LogKind::Rx, prompt)).push(
                EventView::Failed(
                    "the gateway asked for a secure login but no Winlink password is set"@,
                ),
            )
        },
{
    reveal_strlit(";PQ:");
    reveal_strlit(";FW:");
    assert(!text::starts_with(prompt, ";PQ:"@)) by {
        if prompt.len() >= 4 && prompt.take(4) == ";PQ:"@ {
            assert(prompt.take(4)[0] == prompt[0]);
        }
    }
    assert(!text::starts_with(prompt, ";FW:"@)) by {
        if prompt.len() >= 4 && prompt.take(4) == ";FW:"@ {
            assert(prompt.take(4)[0] == prompt[0]);
        }
    }
}

} // verus!

//! What a session does, as a function of its state and the bytes it gets.

use vstd::prelude::*;
use vstd::utf8::*;

use crate::charset;
use crate::lzhuf;
use crate::message::address;
use crate::message::wire;
use crate::message::MessageView;
use crate::secure;
use crate::session::lines;
use crate::session::lines::{Answer, ProposalView, Taken};
use crate::text;
use crate::text::Class;
use crate::unicode;

verus! {

/// What a log line is about.
#[derive(Clone, Copy, Debug, PartialEq, Eq)]
pub enum LogKind {
    Info,
    /// Protocol line we sent.
    Tx,
    /// Protocol line we received.
    Rx,
    Warn,
    Error,
    Success,
}

// ---------------------------------------------------------------------
// State

#[verifier::ext_equal]
pub struct ConfigView {
    pub mycall: Seq<char>,
    pub targetcall: Seq<char>,
    pub locator: Seq<char>,
    pub password: Option<Seq<char>>,
    pub master: bool,
}

#[verifier::ext_equal]
pub struct OutboundView {
    pub mid: Seq<char>,
    pub title: Seq<char>,
    pub size: nat,
    pub compressed: Seq<u8>,
    pub recipients: Seq<Seq<char>>,
    pub precedence: int,
}

/// Where in a transfer the receiver is.
#[verifier::ext_equal]
pub enum StageView {
    Soh,
    HeaderLen,
    Header { len: nat, bytes: Seq<u8> },
    Block,
    BlockLen,
    BlockData { remaining: nat },
    Checksum,
}

#[verifier::ext_equal]
pub struct ReceiverView {
    /// The messages that are still to come.
    pub queue: Seq<ProposalView>,
    pub stage: StageView,
    pub data: Seq<u8>,
    pub sum: int,
}

#[verifier::ext_equal]
pub enum StateView {
    /// Client: collecting the remote handshake up to its `>` prompt.
    Handshake,
    /// Master: collecting the remote handshake up to its first `F` command.
    MasterHandshake,
    TheirTurn,
    /// Our proposals are out; these messages, by index.
    AwaitAnswer(Seq<int>),
    /// The messages with these IDs are sent.
    AwaitTurnover(Seq<Seq<char>>),
    Receiving(ReceiverView),
    Done,
    Failed,
}

#[verifier::ext_equal]
pub struct SessionView {
    pub cfg: ConfigView,
    pub state: StateView,
    /// Bytes that no step has taken yet.
    pub rx: Seq<u8>,
    pub outbound: Seq<OutboundView>,
    /// Which of the messages were offered.
    pub offered: Seq<bool>,
    /// IDs of the messages that are here already.
    pub known: Set<Seq<char>>,
    pub remote_sid: Option<Seq<char>>,
    pub remote_fw: Seq<Seq<char>>,
    pub challenge: Option<Seq<char>>,
    pub remote_no_msgs: bool,
    pub proposals: Seq<ProposalView>,
    pub proposal_sum: int,
    pub handshake_sent: bool,
    pub explained_held: bool,
}

#[verifier::ext_equal]
pub enum EventView {
    Transmit(Seq<u8>),
    Log(LogKind, Seq<char>),
    Received { message: MessageView, raw: Seq<u8> },
    Delivered(Seq<char>),
    AlreadyDelivered(Seq<char>),
    Deferred(Seq<char>),
    Finished,
    Failed(Seq<char>),
}

/// A session and the events that it has given so far.
#[verifier::ext_equal]
pub struct Flow {
    pub s: SessionView,
    pub ev: Seq<EventView>,
}

pub open spec fn is_over(s: SessionView) -> bool {
    s.state is Done || s.state is Failed
}

/// Indices and counts are in range.
pub open spec fn valid(s: SessionView) -> bool {
    &&& s.offered.len() == s.outbound.len()
    &&& s.state matches StateView::AwaitAnswer(batch) ==> forall|k: int|
        0 <= k < batch.len() ==> 0 <= #[trigger] batch[k] < s.outbound.len()
    &&& s.state matches StateView::Receiving(r) ==> (r.stage matches StageView::Header {
        len,
        bytes,
    } ==> bytes.len() <= len)
}

// ---------------------------------------------------------------------
// Events

pub open spec fn said(f: Flow, e: EventView) -> Flow {
    Flow { s: f.s, ev: f.ev.push(e) }
}

pub open spec fn logged(f: Flow, kind: LogKind, line: Seq<char>) -> Flow {
    said(f, EventView::Log(kind, line))
}

/// A protocol line goes out.
pub open spec fn sent_line(f: Flow, line: Seq<char>) -> Flow {
    said(logged(f, LogKind::Tx, line), EventView::Transmit(encode_utf8(line + "\r"@)))
}

pub open spec fn in_state(f: Flow, state: StateView) -> Flow {
    Flow { s: SessionView { state, ..f.s }, ev: f.ev }
}

pub open spec fn failed(f: Flow, reason: Seq<char>) -> Flow {
    said(in_state(f, StateView::Failed), EventView::Failed(reason))
}

pub open spec fn finished(f: Flow) -> Flow {
    said(in_state(f, StateView::Done), EventView::Finished)
}

pub open spec fn starts(line: Seq<char>, c: char) -> bool {
    line.len() > 0 && line[0] == c
}

// ---------------------------------------------------------------------
// Handshake

/// `[...]`
pub open spec fn is_sid(line: Seq<char>) -> bool {
    line.len() >= 2 && line[0] == '[' && line.last() == ']'
}

/// The feature codes of a SID: what follows its last `-`.
pub open spec fn sid_codes(line: Seq<char>) -> Seq<char> {
    unicode::upper(
        text::after_last(line.subrange(1, line.len() - 1), Class::One('-')),
    )
}

/// Takes note of the remote's SID; only B2 is spoken.
pub open spec fn noted_sid(f: Flow, line: Seq<char>) -> Flow {
    if text::contains(sid_codes(line), "B2"@) {
        Flow { s: SessionView { remote_sid: Some(line), ..f.s }, ev: f.ev }
    } else {
        failed(f, "remote does not speak B2F (SID "@ + line + "); only B2 is supported"@)
    }
}

/// The call in an item of a `;FW` line, without what follows `|`.
pub open spec fn fw_call(item: Seq<char>) -> Seq<char> {
    item.take(text::first(item, Class::One('|')) as int)
}

pub open spec fn fw_calls(items: Seq<Seq<char>>) -> Seq<Seq<char>>
    decreases items.len(),
{
    if items.len() == 0 {
        seq![]
    } else if fw_call(items.last()).len() == 0 {
        fw_calls(items.drop_last())
    } else {
        fw_calls(items.drop_last()).push(unicode::upper(fw_call(items.last())))
    }
}

/// Takes note of the calls that the remote takes mail for.
pub open spec fn noted_fw(f: Flow, line: Seq<char>) -> Flow {
    match text::strip_prefix(line, ";FW:"@) {
        Some(rest) => Flow {
            s: SessionView { remote_fw: fw_calls(text::split_words(rest)), ..f.s },
            ev: f.ev,
        },
        None => f,
    }
}

/// Our SID.
pub const OUR_SID: &'static str = "[b2fmsg-0.1.0-B2FHM$]";

pub open spec fn greeting(c: ConfigView) -> Seq<char> {
    let g = "; "@ + c.targetcall + " DE "@ + c.mycall + " ("@ + c.locator + ")"@;
    if c.master {
        g + ">"@
    } else {
        g
    }
}

/// Our `;FW`, SID, optional `;PR`, and greeting.
pub open spec fn greeted(f: Flow) -> Flow {
    let c = f.s.cfg;
    let forward = ";FW: "@ + c.mycall;
    let done = match f.s.challenge {
        None => sent_line(sent_line(f, forward), OUR_SID@),
        Some(challenge) => {
            let response = ";PR: "@ + secure::login_answer(challenge, c.password->0);
            sent_line(
                sent_line(
                    sent_line(
                        logged(f, LogKind::Info, "answering secure login challenge"@),
                        forward,
                    ),
                    OUR_SID@,
                ),
                response,
            )
        },
    };
    let last = sent_line(done, greeting(c));
    Flow { s: SessionView { handshake_sent: true, ..last.s }, ev: last.ev }
}

/// A challenge can be answered: there is none, or there is a password.
pub open spec fn can_greet(s: SessionView) -> bool {
    s.challenge is Some ==> (s.cfg.password matches Some(p) && p.len() > 0)
}

pub open spec fn no_password(f: Flow) -> Flow {
    failed(f, "the gateway asked for a secure login but no Winlink password is set"@)
}

/// A line of the handshake, for the client.
pub open spec fn client_line(f: Flow, line: Seq<char>) -> Flow {
    let f = logged(f, LogKind::Rx, line);
    if is_sid(line) {
        noted_sid(f, line)
    } else {
        match text::strip_prefix(line, ";PQ:"@) {
            Some(challenge) => Flow {
                s: SessionView { challenge: Some(text::trim(challenge)), ..f.s },
                ev: f.ev,
            },
            None => if text::starts_with(line, ";FW:"@) {
                noted_fw(f, line)
            } else if line.len() > 0 && line.last() == '>' {
                if f.s.remote_sid is None {
                    failed(f, "remote sent its prompt without a SID"@)
                } else if can_greet(f.s) {
                    our_turn(greeted(f))
                } else {
                    no_password(f)
                }
            } else {
                f
            },
        }
    }
}

/// A line of the handshake, for the master.
pub open spec fn master_line(f: Flow, line: Seq<char>) -> Flow {
    let g = logged(f, LogKind::Rx, line);
    if starts(line, 'F') {
        if f.s.remote_sid is None {
            failed(g, "remote started without sending a SID"@)
        } else {
            their_turn(in_state(g, StateView::TheirTurn), line)
        }
    } else if is_sid(line) {
        noted_sid(g, line)
    } else {
        noted_fw(g, line)
    }
}

// ---------------------------------------------------------------------
// Our turn

/// The form of a recipient that forwarding calls are compared with.
pub open spec fn known_as(r: Seq<char>) -> Seq<char> {
    match address::normalized(r) {
        Ok(a) => a,
        Err(_) => unicode::upper(r),
    }
}

/// May the remote carry a message to these recipients? All of them for a
/// gateway; only those addressed to the peer's forwarding calls in
/// peer-to-peer sessions.
pub open spec fn deliverable(fw: Seq<Seq<char>>, recipients: Seq<Seq<char>>) -> bool {
    fw.len() == 0 || forall|i: int|
        0 <= i < recipients.len() ==> fw.contains(known_as(#[trigger] recipients[i]))
}

/// Says which of the first `n` messages stay here.
pub open spec fn held(
    ev: Seq<EventView>,
    outbound: Seq<OutboundView>,
    fw: Seq<Seq<char>>,
    n: int,
) -> Seq<EventView>
    decreases n,
{
    if n <= 0 {
        ev
    } else if deliverable(fw, outbound[n - 1].recipients) {
        held(ev, outbound, fw, n - 1)
    } else {
        held(ev, outbound, fw, n - 1).push(
            EventView::Log(
                LogKind::Info,
                outbound[n - 1].mid
                    + " stays in the outbox: this peer only takes mail addressed to "@
                    + text::join(fw, ", "@),
            ),
        )
    }
}

/// Those of the first `n` messages that can be offered.
pub open spec fn candidates(s: SessionView, n: int) -> Seq<int>
    decreases n,
{
    if n <= 0 {
        seq![]
    } else if !s.offered[n - 1] && deliverable(s.remote_fw, s.outbound[n - 1].recipients) {
        candidates(s, n - 1).push(n - 1)
    } else {
        candidates(s, n - 1)
    }
}

/// Urgent before less urgent, short before long, then by ID.
pub open spec fn sooner(a: OutboundView, b: OutboundView) -> bool {
    if a.precedence != b.precedence {
        a.precedence < b.precedence
    } else if a.compressed.len() != b.compressed.len() {
        a.compressed.len() < b.compressed.len()
    } else {
        text::before(a.mid, b.mid)
    }
}

/// The messages with one more put in its place.
pub open spec fn placed(outbound: Seq<OutboundView>, v: Seq<int>, i: int) -> Seq<int>
    decreases v.len(),
{
    if v.len() > 0 && sooner(outbound[i], outbound[v.last()]) {
        placed(outbound, v.drop_last(), i).push(v.last())
    } else {
        v.push(i)
    }
}

/// The messages in the order that they are offered in.
pub open spec fn ranked(outbound: Seq<OutboundView>, v: Seq<int>) -> Seq<int>
    decreases v.len(),
{
    if v.len() == 0 {
        seq![]
    } else {
        placed(outbound, ranked(outbound, v.drop_last()), v.last())
    }
}

/// The next block of proposals.
pub open spec fn next_batch(s: SessionView) -> Seq<int> {
    let all = ranked(s.outbound, candidates(s, s.outbound.len() as int));
    if all.len() > lines::MAX_BLOCK {
        all.take(lines::MAX_BLOCK as int)
    } else {
        all
    }
}

pub open spec fn offer_line(o: OutboundView) -> Seq<char> {
    "FC EM "@ + o.mid + " "@ + text::decimal(o.size) + " "@ + text::decimal(o.compressed.len())
        + " 0"@
}

/// Offers these messages: the lines go out, with their checksum.
pub open spec fn offered(f: Flow, batch: Seq<int>) -> (Flow, int)
    decreases batch.len(),
{
    if batch.len() == 0 {
        (f, 0)
    } else {
        let (g, sum) = offered(f, batch.drop_last());
        let line = offer_line(f.s.outbound[batch.last()]);
        let h = sent_line(g, line);
        (
            Flow {
                s: SessionView { offered: h.s.offered.update(batch.last(), true), ..h.s },
                ev: h.ev,
            },
            lines::line_sum(sum, line),
        )
    }
}

/// It is our turn: offer what there is, or say that there is nothing.
pub open spec fn our_turn(f: Flow) -> Flow {
    let f = if !f.s.explained_held && f.s.remote_fw.len() > 0 {
        Flow {
            s: SessionView { explained_held: true, ..f.s },
            ev: held(f.ev, f.s.outbound, f.s.remote_fw, f.s.outbound.len() as int),
        }
    } else {
        f
    };
    let batch = next_batch(f.s);
    if batch.len() == 0 {
        if f.s.remote_no_msgs {
            finished(sent_line(f, "FQ"@))
        } else {
            in_state(sent_line(f, "FF"@), StateView::TheirTurn)
        }
    } else {
        let (g, sum) = offered(f, batch);
        in_state(
            sent_line(g, "F> "@ + text::hex(lines::complement(sum) as nat, 2)),
            StateView::AwaitAnswer(batch),
        )
    }
}

// ---------------------------------------------------------------------
// Answers to our proposals

/// An offset past the end means from the start.
pub open spec fn resumed(offset: usize, len: nat) -> nat {
    if offset < len {
        offset as nat
    } else {
        0
    }
}

pub open spec fn sending_text(o: OutboundView, offset: nat) -> Seq<char> {
    "sending "@ + o.mid + " ("@ + text::decimal((o.compressed.len() - offset) as nat)
        + " bytes compressed"@ + (if offset > 0 {
        ", resuming at "@ + text::decimal(offset)
    } else {
        seq![]
    }) + ")"@
}

/// Acts on the answers; gives the IDs of the messages that were sent.
pub open spec fn replied(f: Flow, batch: Seq<int>, answers: Seq<Answer>) -> (Flow, Seq<Seq<char>>)
    decreases batch.len(),
{
    if batch.len() == 0 || answers.len() == 0 {
        (f, seq![])
    } else {
        let (g, accepted) = replied(f, batch.drop_last(), answers.drop_last());
        let o = f.s.outbound[batch.last()];
        match answers.last() {
            Answer::Accept(n) => {
                let offset = resumed(n, o.compressed.len());
                (
                    said(
                        logged(g, LogKind::Info, sending_text(o, offset)),
                        EventView::Transmit(lines::transfer(o.title, o.compressed, offset)),
                    ),
                    accepted.push(o.mid),
                )
            },
            Answer::Reject => (said(g, EventView::AlreadyDelivered(o.mid)), accepted),
            Answer::Defer => (said(g, EventView::Deferred(o.mid)), accepted),
        }
    }
}

/// A line in answer to our proposals.
pub open spec fn answer_line(f: Flow, line: Seq<char>, batch: Seq<int>) -> Flow {
    let f = logged(f, LogKind::Rx, line);
    if starts(line, ';') {
        f
    } else {
        match lines::error_in(line) {
            Some(e) => failed(f, "remote reported an error: "@ + e),
            None => match text::strip_prefix(line, "FS "@) {
                None => failed(
                    f,
                    "expected a proposal answer (FS), got "@ + unicode::quoted(line),
                ),
                Some(rest) => match lines::answers(
                    encode_utf8(text::trim(rest)),
                    text::trim(rest),
                ) {
                    Err(e) => failed(f, e),
                    Ok(answers) => if answers.len() == batch.len() {
                        let (g, accepted) = replied(f, batch, answers);
                        in_state(g, StateView::AwaitTurnover(accepted))
                    } else {
                        failed(
                            f,
                            "got "@ + text::decimal(answers.len()) + " answers for "@
                                + text::decimal(batch.len()) + " proposals"@,
                        )
                    },
                },
            },
        }
    }
}

/// The remote has these messages now.
pub open spec fn delivered(f: Flow, mids: Seq<Seq<char>>) -> Flow
    decreases mids.len(),
{
    if mids.len() == 0 {
        f
    } else {
        said(delivered(f, mids.drop_last()), EventView::Delivered(mids.last()))
    }
}

/// A line after our transfers. Only an `F` line means that they arrived.
pub open spec fn turnover_line(f: Flow, line: Seq<char>, mids: Seq<Seq<char>>) -> Flow {
    let f = logged(f, LogKind::Rx, line);
    if starts(line, ';') {
        f
    } else if starts(line, 'F') {
        their_turn(in_state(delivered(f, mids), StateView::TheirTurn), line)
    } else {
        match lines::error_in(line) {
            Some(e) => failed(f, "remote reported an error: "@ + e),
            None => failed(f, "unexpected reply after transfer: "@ + unicode::quoted(line)),
        }
    }
}

// ---------------------------------------------------------------------
// Their turn

/// What a `;PM:` line announces.
pub open spec fn pending_text(rest: Seq<char>) -> Option<Seq<char>> {
    let parts = text::split(text::trim(rest), Class::One(' '));
    if parts.len() >= 3 {
        Some("pending for "@ + parts[0] + ": "@ + parts[1] + " ("@ + parts[2] + " bytes)"@)
    } else {
        None
    }
}

/// Forgets the proposals so far.
pub open spec fn no_proposals(f: Flow) -> Flow {
    Flow { s: SessionView { proposals: seq![], proposal_sum: 0, ..f.s }, ev: f.ev }
}

/// A line while the remote has the turn.
pub open spec fn their_turn(f: Flow, line: Seq<char>) -> Flow {
    match text::strip_prefix(line, ";PM:"@) {
        Some(rest) => match pending_text(rest) {
            Some(t) => logged(f, LogKind::Info, t),
            None => f,
        },
        None => if starts(line, ';') {
            f
        } else {
            match lines::error_in(line) {
                Some(e) => failed(f, "remote reported an error: "@ + e),
                None => if line.len() < 2 || line[0] != 'F' {
                    failed(f, "unexpected protocol line "@ + unicode::quoted(line))
                } else {
                    command(f, line)
                },
            }
        },
    }
}

/// An `F` command.
pub open spec fn command(f: Flow, line: Seq<char>) -> Flow {
    let c = line[1];
    if c == 'A' || c == 'B' || c == 'C' || c == 'D' {
        let f = Flow {
            s: SessionView { proposal_sum: lines::line_sum(f.s.proposal_sum, line), ..f.s },
            ev: f.ev,
        };
        match lines::proposal(line) {
            Ok(p) => Flow {
                s: SessionView { proposals: f.s.proposals.push(p), ..f.s },
                ev: f.ev,
            },
            Err(e) => failed(f, e),
        }
    } else if c == 'F' {
        let f = no_proposals(f);
        our_turn(Flow { s: SessionView { remote_no_msgs: true, ..f.s }, ev: f.ev })
    } else if c == 'Q' {
        let g = if f.s.proposals.len() > 0 {
            logged(f, LogKind::Warn, "remote quit with unanswered proposals"@)
        } else {
            f
        };
        finished(no_proposals(g))
    } else if c == '>' {
        end_of_block(f, text::trim(line.skip(2)))
    } else {
        failed(f, "unknown protocol command "@ + unicode::quoted(line))
    }
}

/// The end of a block of proposals, with its checksum if that is given.
pub open spec fn end_of_block(f: Flow, given: Seq<char>) -> Flow {
    let expect = lines::complement(f.s.proposal_sum);
    let f = Flow { s: SessionView { proposal_sum: 0, ..f.s }, ev: f.ev };
    if given.len() > 0 && text::parse_unsigned(given, 16, 255) != Some(expect as nat) {
        failed(
            f,
            "proposal checksum mismatch (ours "@ + text::hex(expect as nat, 2) + ", theirs "@
                + given + ")"@,
        )
    } else if f.s.proposals.len() == 0 {
        our_turn(Flow { s: SessionView { remote_no_msgs: true, ..f.s }, ev: f.ev })
    } else {
        answered(f)
    }
}

/// Was the message offered before in the same block?
pub open spec fn is_repeat(ps: Seq<ProposalView>, k: int) -> bool {
    exists|j: int| 0 <= j < k && (#[trigger] ps[j]).mid == ps[k].mid
}

pub open spec fn is_oversized(p: ProposalView) -> bool {
    p.csize > lzhuf::MAX_UNCOMPRESSED || p.raw_size > lzhuf::MAX_UNCOMPRESSED
}

/// Our answer to proposal `k`: `=` later, `-` have it, `+` send it.
pub open spec fn verdict(ps: Seq<ProposalView>, k: int, known: Set<Seq<char>>) -> char {
    if is_repeat(ps, k) || ps[k].code != 'C' || is_oversized(ps[k]) {
        '='
    } else if known.contains(ps[k].mid) {
        '-'
    } else {
        '+'
    }
}

pub open spec fn oversized_text(p: ProposalView) -> Seq<char> {
    "deferring "@ + p.mid + ": declared size "@ + text::decimal(p.raw_size) + "/"@ + text::decimal(
        p.csize,
    ) + " exceeds limit 67108864"@
}

/// Says which of the first `n` proposals are too large.
pub open spec fn size_warnings(ev: Seq<EventView>, ps: Seq<ProposalView>, n: int) -> Seq<EventView>
    decreases n,
{
    if n <= 0 {
        ev
    } else {
        let k = n - 1;
        let before = size_warnings(ev, ps, k);
        if !is_repeat(ps, k) && ps[k].code == 'C' && is_oversized(ps[k]) {
            before.push(EventView::Log(LogKind::Warn, oversized_text(ps[k])))
        } else {
            before
        }
    }
}

/// Our answers to the first `n` proposals.
pub open spec fn verdicts(ps: Seq<ProposalView>, known: Set<Seq<char>>, n: int) -> Seq<char> {
    Seq::new(n as nat, |k: int| verdict(ps, k, known))
}

/// Those of the first `n` proposals that we take.
pub open spec fn accepted(ps: Seq<ProposalView>, known: Set<Seq<char>>, n: int) -> Seq<
    ProposalView,
>
    decreases n,
{
    if n <= 0 {
        seq![]
    } else if verdict(ps, n - 1, known) == '+' {
        accepted(ps, known, n - 1).push(ps[n - 1])
    } else {
        accepted(ps, known, n - 1)
    }
}

/// Answers the proposals.
pub open spec fn answered(f: Flow) -> Flow {
    let ps = f.s.proposals;
    let n = ps.len() as int;
    let queue = accepted(ps, f.s.known, n);
    let g = sent_line(
        Flow {
            s: SessionView { proposals: seq![], remote_no_msgs: false, ..f.s },
            ev: size_warnings(f.ev, ps, n),
        },
        "FS "@ + verdicts(ps, f.s.known, n),
    );
    if queue.len() == 0 {
        our_turn(g)
    } else {
        in_state(
            g,
            StateView::Receiving(
                ReceiverView { queue, stage: StageView::Soh, data: seq![], sum: 0 },
            ),
        )
    }
}

// ---------------------------------------------------------------------
// Receiving

/// The session in another stage of the transfer, with `n` bytes taken.
pub open spec fn on_stage(f: Flow, r: ReceiverView, stage: StageView, n: int) -> Flow {
    Flow {
        s: SessionView {
            state: StateView::Receiving(ReceiverView { stage, ..r }),
            rx: f.s.rx.skip(n),
            ..f.s
        },
        ev: f.ev,
    }
}

/// Without the first `n` bytes.
pub open spec fn past(f: Flow, n: int) -> Flow {
    Flow { s: SessionView { rx: f.s.rx.skip(n), ..f.s }, ev: f.ev }
}

/// Bytes before the first NUL.
pub open spec fn nul_at(b: Seq<u8>) -> nat
    decreases b.len(),
{
    if b.len() == 0 || b[0] == 0 {
        0
    } else {
        1 + nul_at(b.drop_first())
    }
}

/// The first part of a transfer header: the title.
pub open spec fn header_title(b: Seq<u8>) -> Seq<u8> {
    b.take(nul_at(b) as int)
}

/// The second part of a transfer header: the offset.
pub open spec fn header_offset(b: Seq<u8>) -> Seq<u8> {
    if nul_at(b) < b.len() {
        let rest = b.skip(nul_at(b) as int + 1);
        rest.take(nul_at(rest) as int)
    } else {
        seq![]
    }
}

/// The ID of the message that is coming.
pub open spec fn coming(r: ReceiverView) -> Seq<char> {
    if r.queue.len() > 0 {
        r.queue[0].mid
    } else {
        seq![]
    }
}

/// A transfer header is complete.
pub open spec fn header_done(f: Flow, r: ReceiverView, bytes: Seq<u8>) -> Flow {
    let title = unicode::decoded_lossy(header_title(bytes));
    let offset = unicode::decoded_lossy(header_offset(bytes));
    let mid = coming(r);
    if text::trim(offset) != "0"@ {
        failed(f, "unexpected transfer offset "@ + unicode::quoted(offset) + " for "@ + mid)
    } else {
        logged(
            on_stage(f, ReceiverView { data: seq![], sum: 0, ..r }, StageView::Block, 0),
            LogKind::Info,
            "receiving "@ + mid + " \""@ + charset::decoded_header(text::trim(title)) + "\""@,
        )
    }
}

/// At the start of a transfer.
pub open spec fn step_soh(f: Flow, r: ReceiverView) -> Option<Flow> {
    let b = f.s.rx[0];
    if b == 13 || b == 10 {
        Some(past(f, 1))
    } else if b == lines::SOH {
        Some(on_stage(f, r, StageView::HeaderLen, 1))
    } else if b == 0x2a {
        let end = lines::break_at(f.s.rx) as int;
        if end >= f.s.rx.len() {
            None
        } else {
            let line = text::trim(unicode::decoded_lossy(f.s.rx.take(end)));
            let e = match lines::error_in(line) {
                Some(e) => e,
                None => line,
            };
            Some(failed(f, "remote reported an error: "@ + e))
        }
    } else {
        Some(failed(f, "expected a message transfer, got byte "@ + lines::byte_text(b)))
    }
}

/// In the header of a transfer.
pub open spec fn step_header(f: Flow, r: ReceiverView, len: nat, bytes: Seq<u8>) -> Flow {
    let want = len - bytes.len();
    let n = if want <= 0 {
        0
    } else if want < f.s.rx.len() {
        want
    } else {
        f.s.rx.len() as int
    };
    let got = bytes + f.s.rx.take(n);
    if got.len() >= len {
        header_done(past(f, n), r, got)
    } else {
        on_stage(f, r, StageView::Header { len, bytes: got }, n)
    }
}

/// In a data block.
pub open spec fn step_data(f: Flow, r: ReceiverView, remaining: nat) -> Flow {
    let n = if remaining < f.s.rx.len() {
        remaining as int
    } else {
        f.s.rx.len() as int
    };
    let chunk = f.s.rx.take(n);
    on_stage(
        f,
        ReceiverView {
            data: r.data + chunk,
            sum: (r.sum + lines::byte_sum(chunk)) % 256,
            ..r
        },
        if remaining == n {
            StageView::Block
        } else {
            StageView::BlockData { remaining: (remaining - n) as nat }
        },
        n,
    )
}

/// A message is complete: it is checked, unpacked and read.
pub open spec fn step_checksum(f: Flow, r: ReceiverView) -> Flow {
    let check = f.s.rx[0];
    let g = past(f, 1);
    if r.queue.len() == 0 {
        failed(g, "received transfer data with no matching proposal"@)
    } else {
        let p = r.queue[0];
        let rest = r.queue.drop_first();
        if (r.sum + check) % 256 != 0 {
            failed(g, p.mid + ": transfer checksum error"@)
        } else if r.data.len() != p.csize {
            failed(
                g,
                p.mid + ": got "@ + text::decimal(r.data.len()) + " bytes, proposal said "@
                    + text::decimal(p.csize),
            )
        } else {
            match lzhuf::opened(r.data) {
                Err(e) => failed(g, p.mid + ": "@ + e),
                Ok(raw) => match wire::read(raw) {
                    Err(e) => failed(g, p.mid + ": unreadable message: "@ + e),
                    Ok(m) => {
                        let h = stored(g, p, m, raw);
                        if rest.len() == 0 {
                            our_turn(h)
                        } else {
                            in_state(
                                h,
                                StateView::Receiving(
                                    ReceiverView {
                                        queue: rest,
                                        stage: StageView::Soh,
                                        data: seq![],
                                        sum: 0,
                                    },
                                ),
                            )
                        }
                    },
                },
            }
        }
    }
}

/// A message came in.
pub open spec fn stored(f: Flow, p: ProposalView, m: MessageView, raw: Seq<u8>) -> Flow {
    let mid = wire::mid_of(m);
    let g = if mid != p.mid {
        logged(f, LogKind::Warn, "proposal "@ + p.mid + " carried message "@ + mid)
    } else {
        f
    };
    said(
        Flow { s: SessionView { known: g.s.known.insert(p.mid).insert(mid), ..g.s }, ev: g.ev },
        EventView::Received { message: m, raw },
    )
}

/// One step of receiving; `None` when more bytes are needed.
pub open spec fn stepped(f: Flow, r: ReceiverView) -> Option<Flow> {
    if f.s.rx.len() == 0 {
        None
    } else {
        let b = f.s.rx[0];
        match r.stage {
            StageView::Soh => step_soh(f, r),
            StageView::HeaderLen => Some(
                on_stage(f, r, StageView::Header { len: b as nat, bytes: seq![] }, 1),
            ),
            StageView::Header { len, bytes } => Some(step_header(f, r, len, bytes)),
            StageView::Block => if b == lines::STX {
                Some(on_stage(f, r, StageView::BlockLen, 1))
            } else if b == lines::EOT {
                Some(on_stage(f, r, StageView::Checksum, 1))
            } else {
                Some(
                    failed(
                        past(f, 1),
                        "corrupt transfer: unexpected byte "@ + lines::byte_text(b),
                    ),
                )
            },
            StageView::BlockLen => Some(
                on_stage(
                    f,
                    r,
                    StageView::BlockData {
                        remaining: if b == 0 {
                            256
                        } else {
                            b as nat
                        },
                    },
                    1,
                ),
            ),
            StageView::BlockData { remaining } => Some(step_data(f, r, remaining)),
            StageView::Checksum => Some(step_checksum(f, r)),
        }
    }
}

// ---------------------------------------------------------------------
// The whole

/// A protocol line came in.
pub open spec fn handled(f: Flow, line: Seq<char>) -> Flow {
    match f.s.state {
        StateView::Handshake => client_line(f, line),
        StateView::MasterHandshake => master_line(f, line),
        StateView::TheirTurn => their_turn(logged(f, LogKind::Rx, line), line),
        StateView::AwaitAnswer(batch) => answer_line(f, line, batch),
        StateView::AwaitTurnover(mids) => turnover_line(f, line, mids),
        _ => f,
    }
}

/// How far a state is from needing bytes.
pub open spec fn rank(s: SessionView) -> nat {
    match s.state {
        StateView::Done => 0,
        StateView::Failed => 0,
        StateView::Receiving(r) => match r.stage {
            StageView::Header { .. } => 2,
            StageView::BlockData { .. } => 2,
            _ => 1,
        },
        _ => 1,
    }
}

/// Works through the bytes that are there.
#[verifier::opaque]
pub open spec fn run(f: Flow) -> Flow
    decreases f.s.rx.len(), rank(f.s),
{
    match f.s.state {
        StateView::Done => Flow { s: SessionView { rx: seq![], ..f.s }, ev: f.ev },
        StateView::Failed => Flow { s: SessionView { rx: seq![], ..f.s }, ev: f.ev },
        StateView::Receiving(r) => {
            proof {
                lemma_stepped(f, r);
            }
            match stepped(f, r) {
                Some(g) => run(g),
                None => f,
            }
        },
        _ => {
            proof {
                lemma_taken(f.s.rx);
            }
            match lines::taken(f.s.rx) {
                Taken::Line(line, rest) => {
                    let g = Flow { s: SessionView { rx: rest, ..f.s }, ev: f.ev };
                    proof {
                        lemma_handled_rx(g, line);
                    }
                    run(handled(g, line))
                },
                Taken::More(rest) => Flow { s: SessionView { rx: rest, ..f.s }, ev: f.ev },
                Taken::TooLong(e) => failed(
                    Flow { s: SessionView { rx: seq![], ..f.s }, ev: f.ev },
                    e,
                ),
            }
        },
    }
}

/// A session is given some bytes.
pub open spec fn fed(f: Flow, data: Seq<u8>) -> Flow {
    run(Flow { s: SessionView { rx: f.s.rx + data, ..f.s }, ev: f.ev })
}

// ---------------------------------------------------------------------
// Each step takes bytes

pub proof fn lemma_taken(rx: Seq<u8>)
    ensures
        lines::taken(rx) matches Taken::Line(line, rest) ==> rest.len() < rx.len() && line.len() > 0,
        lines::taken(rx) matches Taken::More(rest) ==> rest.len() <= rx.len(),
    decreases rx.len(),
{
    lines::lemma_break_at(rx);
    let end = lines::break_at(rx) as int;
    if end < rx.len() && end <= lines::MAX_LINE {
        lemma_taken(rx.skip(end + 1));
    }
}

proof fn lemma_offered_rx(f: Flow, batch: Seq<int>)
    ensures
        offered(f, batch).0.s.rx == f.s.rx,
    decreases batch.len(),
{
    if batch.len() > 0 {
        lemma_offered_rx(f, batch.drop_last());
    }
}

pub proof fn lemma_our_turn_rx(f: Flow)
    ensures
        our_turn(f).s.rx == f.s.rx,
{
    let g = Flow {
        s: SessionView { explained_held: true, ..f.s },
        ev: held(f.ev, f.s.outbound, f.s.remote_fw, f.s.outbound.len() as int),
    };
    lemma_offered_rx(f, next_batch(f.s));
    lemma_offered_rx(g, next_batch(g.s));
}

proof fn lemma_their_turn_rx(f: Flow, line: Seq<char>)
    ensures
        their_turn(f, line).s.rx == f.s.rx,
{
    let a = no_proposals(f);
    lemma_our_turn_rx(Flow { s: SessionView { remote_no_msgs: true, ..a.s }, ev: a.ev });
    let b = Flow { s: SessionView { proposal_sum: 0, ..f.s }, ev: f.ev };
    lemma_our_turn_rx(Flow { s: SessionView { remote_no_msgs: true, ..b.s }, ev: b.ev });
    lemma_answered_rx(b);
}

proof fn lemma_answered_rx(f: Flow)
    ensures
        answered(f).s.rx == f.s.rx,
{
    let ps = f.s.proposals;
    let n = ps.len() as int;
    lemma_our_turn_rx(
        sent_line(
            Flow {
                s: SessionView { proposals: seq![], remote_no_msgs: false, ..f.s },
                ev: size_warnings(f.ev, ps, n),
            },
            "FS "@ + verdicts(ps, f.s.known, n),
        ),
    );
}

proof fn lemma_replied_rx(f: Flow, batch: Seq<int>, answers: Seq<Answer>)
    ensures
        replied(f, batch, answers).0.s == f.s,
    decreases batch.len(),
{
    if batch.len() > 0 && answers.len() > 0 {
        lemma_replied_rx(f, batch.drop_last(), answers.drop_last());
    }
}

proof fn lemma_delivered_rx(f: Flow, mids: Seq<Seq<char>>)
    ensures
        delivered(f, mids).s == f.s,
    decreases mids.len(),
{
    if mids.len() > 0 {
        lemma_delivered_rx(f, mids.drop_last());
    }
}

/// A line leaves the bytes alone.
pub proof fn lemma_handled_rx(f: Flow, line: Seq<char>)
    ensures
        handled(f, line).s.rx == f.s.rx,
{
    let g = logged(f, LogKind::Rx, line);
    match f.s.state {
        StateView::Handshake => {
            lemma_our_turn_rx(greeted(g));
        },
        StateView::MasterHandshake => {
            lemma_their_turn_rx(in_state(g, StateView::TheirTurn), line);
        },
        StateView::TheirTurn => {
            lemma_their_turn_rx(g, line);
        },
        StateView::AwaitAnswer(batch) => {
            if let Some(rest) = text::strip_prefix(line, "FS "@) {
                if let Ok(answers) = lines::answers(
                    encode_utf8(text::trim(rest)),
                    text::trim(rest),
                ) {
                    lemma_replied_rx(g, batch, answers);
                }
            }
        },
        StateView::AwaitTurnover(mids) => {
            lemma_delivered_rx(g, mids);
            lemma_their_turn_rx(in_state(delivered(g, mids), StateView::TheirTurn), line);
        },
        _ => {},
    }
}

/// A step of receiving takes bytes, or comes nearer to taking them.
pub proof fn lemma_stepped(f: Flow, r: ReceiverView)
    requires
        f.s.state == StateView::Receiving(r),
    ensures
        stepped(f, r) matches Some(g) ==> g.s.rx.len() < f.s.rx.len() || (g.s.rx.len()
            <= f.s.rx.len() && rank(g.s) < rank(f.s)),
{
    if f.s.rx.len() > 0 {
        match r.stage {
            StageView::Checksum => {
                let g = past(f, 1);
                if r.queue.len() > 0 {
                    if let Ok(raw) = lzhuf::opened(r.data) {
                        if let Ok(m) = wire::read(raw) {
                            lemma_our_turn_rx(stored(g, r.queue[0], m, raw));
                        }
                    }
                }
            },
            _ => {},
        }
    }
}

/// Our turn takes no notice of the state that it starts in.
pub proof fn lemma_our_turn_any_state(f: Flow, state: StateView)
    ensures
        our_turn(in_state(f, state)) == our_turn(f),
{
    let a = if !f.s.explained_held && f.s.remote_fw.len() > 0 {
        Flow {
            s: SessionView { explained_held: true, ..f.s },
            ev: held(f.ev, f.s.outbound, f.s.remote_fw, f.s.outbound.len() as int),
        }
    } else {
        f
    };
    let b = in_state(a, state);
    lemma_candidates_any_state(a.s, state, a.s.outbound.len() as int);
    lemma_offered_any_state(a, state, next_batch(a.s));
}

proof fn lemma_candidates_any_state(s: SessionView, state: StateView, n: int)
    ensures
        candidates(SessionView { state, ..s }, n) == candidates(s, n),
    decreases n,
{
    if n > 0 {
        lemma_candidates_any_state(s, state, n - 1);
    }
}

proof fn lemma_offered_any_state(f: Flow, state: StateView, batch: Seq<int>)
    ensures
        offered(in_state(f, state), batch) == (
            in_state(offered(f, batch).0, state),
            offered(f, batch).1,
        ),
    decreases batch.len(),
{
    if batch.len() > 0 {
        lemma_offered_any_state(f, state, batch.drop_last());
    }
}

} // verus!

//! The B2 forwarding protocol (B2F) as a network-free state machine.
//!
//! Feed received bytes with [`Session::feed`] and apply the returned
//! [`Event`]s. The flow for the client (the station that connected):
//!
//! ```text
//!  remote: [WL2K-5.0-B2FWIHJM$]   ;PQ: 12345678   CMS via X >
//!  us:     ;FW: CALL   [b2fmsg-0.1.0-B2FHM$]   ;PR: 87654321   ; WL2K DE CALL (JO89)
//!  us:     FC EM <mid> <size> <csize> 0 … F> <checksum>     (or FF: nothing to send)
//!  remote: FS +-=                                           (accept / have it / later)
//!  us:     <SOH title offset> <STX data>… <EOT checksum>    (per accepted message)
//!  remote: FC … F> …  /  FF  /  FQ                          (turn passes back and forth)
//! ```
//!
//! The session ends when one side sends `FQ` after the other side had
//! nothing left to send.

use vstd::prelude::*;
use vstd::slice::slice_to_vec;
use vstd::utf8::*;

use crate::charset;
use crate::lzhuf;
use crate::message;
use crate::message::wire;
use crate::message::{normalize_address, Message, MessageView};
use crate::secure;
use crate::text;
use crate::text::Class;
use crate::unicode;

pub mod laws;
pub mod lines;
pub mod model;
pub mod password_laws;
pub mod reply_laws;
pub mod transfer_laws;
pub mod turn_laws;

pub use crate::session::lines::{
    parse_answers, parse_proposal, remote_error, Answer, InProposal, ProposalView, EOT, MAX_BLOCK,
    MAX_CHUNK, MAX_LINE, SOH, STX,
};
pub use crate::session::model::{EventView, LogKind, OutboundView, SessionView};
use crate::session::model::{ConfigView, Flow, ReceiverView, StageView, StateView};

verus! {

/// A text that may be missing.
pub open spec fn opt_text(o: Option<String>) -> Option<Seq<char>> {
    match o {
        Some(s) => Some(s@),
        None => None,
    }
}

/// How a session introduces itself.
#[derive(Debug)]
pub struct SessionConfig {
    pub mycall: String,
    /// Whom the handshake greets (`WL2K` for the CMS, the RMS or peer call).
    pub targetcall: String,
    pub locator: String,
    /// Winlink account password, for the `;PQ` challenge.
    pub password: Option<String>,
    /// True for the answering station, which speaks first.
    pub master: bool,
}

impl View for SessionConfig {
    type V = ConfigView;

    open spec fn view(&self) -> ConfigView {
        ConfigView {
            mycall: self.mycall@,
            targetcall: self.targetcall@,
            locator: self.locator@,
            password: opt_text(self.password),
            master: self.master,
        }
    }
}

impl Clone for SessionConfig {
    fn clone(&self) -> (r: SessionConfig)
        ensures
            r@ == self@,
    {
        SessionConfig {
            mycall: self.mycall.clone(),
            targetcall: self.targetcall.clone(),
            locator: self.locator.clone(),
            password: match &self.password {
                Some(p) => Some(p.clone()),
                None => None,
            },
            master: self.master,
        }
    }
}

/// A message prepared for sending: compressed once, offered by MID.
#[derive(Debug)]
pub struct Outbound {
    pub mid: String,
    pub title: String,
    pub size: usize,
    pub compressed: Vec<u8>,
    pub recipients: Vec<String>,
    /// 0 is the most urgent.
    pub precedence: u8,
}

impl View for Outbound {
    type V = OutboundView;

    open spec fn view(&self) -> OutboundView {
        OutboundView {
            mid: self.mid@,
            title: self.title@,
            size: self.size as nat,
            compressed: self.compressed@,
            recipients: text::texts(self.recipients@),
            precedence: self.precedence as int,
        }
    }
}

impl Clone for Outbound {
    fn clone(&self) -> (r: Outbound)
        ensures
            r@ == self@,
    {
        Outbound {
            mid: self.mid.clone(),
            title: self.title.clone(),
            size: self.size,
            compressed: slice_to_vec(&self.compressed),
            recipients: text::copied(&self.recipients),
            precedence: self.precedence,
        }
    }
}

/// A message made ready for sending.
pub open spec fn prepared(m: MessageView) -> OutboundView {
    let raw = wire::written(m);
    let subject = message::subject_of(m);
    OutboundView {
        mid: wire::mid_of(m),
        title: lines::label(subject),
        size: raw.len(),
        compressed: lzhuf::container(raw),
        recipients: message::to_of(m) + message::cc_of(m),
        precedence: lines::precedence_of(subject),
    }
}

impl Outbound {
    /// Makes a message ready for sending, if the CMS would take it.
    pub fn new(message: &Message) -> (r: Result<Outbound, String>)
        ensures
            match r {
                Ok(o) => message::fault(message@) is None && o@ == prepared(message@),
                Err(e) => message::fault(message@) == Some(e@),
            },
    {
        match message.validate() {
            Ok(()) => {},
            Err(e) => {
                return Err(e);
            },
        }
        let raw = message.to_bytes();
        let subject = message.subject();
        let o = Outbound {
            mid: message.mid().to_owned(),
            title: lines::proposal_title(&subject),
            size: raw.len(),
            compressed: lzhuf::encode_b2(&raw),
            recipients: message.recipients(),
            precedence: lines::precedence(&subject),
        };
        assert(o@ =~= prepared(message@));
        Ok(o)
    }
}

/// Some messages made ready for sending.
pub open spec fn outbound_views(v: Seq<Outbound>) -> Seq<OutboundView> {
    Seq::new(v.len(), |i: int| v[i]@)
}

/// SOH header, STX blocks, EOT checksum for one message.
pub fn encode_transfer(o: &Outbound, offset: usize) -> (r: Vec<u8>)
    requires
        offset <= o@.compressed.len(),
    ensures
        r@ == lines::transfer(o@.title, o@.compressed, offset as nat),
{
    lines::encode_data(&o.title, &o.compressed, offset)
}

/// What a session wants done.
#[derive(Debug)]
pub enum Event {
    /// Bytes for the remote station.
    Transmit(Vec<u8>),
    Log(LogKind, String),
    Received { message: Message, raw: Vec<u8> },
    /// The remote accepted and received this message.
    Delivered(String),
    /// The remote already had this message; treat it as sent.
    AlreadyDelivered(String),
    /// The remote asked for this message later; keep it queued.
    Deferred(String),
    /// Protocol complete: close the link.
    Finished,
    Failed(String),
}

impl View for Event {
    type V = EventView;

    open spec fn view(&self) -> EventView {
        match self {
            Event::Transmit(b) => EventView::Transmit(b@),
            Event::Log(kind, line) => EventView::Log(*kind, line@),
            Event::Received { message, raw } => EventView::Received {
                message: message@,
                raw: raw@,
            },
            Event::Delivered(mid) => EventView::Delivered(mid@),
            Event::AlreadyDelivered(mid) => EventView::AlreadyDelivered(mid@),
            Event::Deferred(mid) => EventView::Deferred(mid@),
            Event::Finished => EventView::Finished,
            Event::Failed(reason) => EventView::Failed(reason@),
        }
    }
}

/// What some events say.
pub open spec fn event_views(v: Seq<Event>) -> Seq<EventView> {
    Seq::new(v.len(), |i: int| v[i]@)
}

#[derive(Debug)]
enum RxStage {
    Soh,
    HeaderLen,
    Header { len: usize, bytes: Vec<u8> },
    Block,
    BlockLen,
    BlockData { remaining: usize },
    Checksum,
}

impl RxStage {
    spec fn model(&self) -> StageView {
        match self {
            RxStage::Soh => StageView::Soh,
            RxStage::HeaderLen => StageView::HeaderLen,
            RxStage::Header { len, bytes } => StageView::Header { len: *len as nat, bytes: bytes@ },
            RxStage::Block => StageView::Block,
            RxStage::BlockLen => StageView::BlockLen,
            RxStage::BlockData { remaining } => StageView::BlockData {
                remaining: *remaining as nat,
            },
            RxStage::Checksum => StageView::Checksum,
        }
    }
}

#[derive(Debug)]
struct Receiver {
    queue: Vec<InProposal>,
    stage: RxStage,
    data: Vec<u8>,
    sum: u8,
}

impl Receiver {
    spec fn model(&self) -> ReceiverView {
        ReceiverView {
            queue: lines::proposal_views(self.queue@),
            stage: self.stage.model(),
            data: self.data@,
            sum: self.sum as int,
        }
    }
}

#[derive(Debug)]
enum State {
    /// Client: collecting the remote handshake up to its `>` prompt.
    Handshake,
    /// Master: collecting the remote handshake up to its first `F` command.
    MasterHandshake,
    TheirTurn,
    AwaitAnswer(Vec<usize>),
    AwaitTurnover(Vec<String>),
    Receiving(Receiver),
    Done,
    Failed,
}

/// Indices as numbers.
spec fn indices(v: Seq<usize>) -> Seq<int> {
    Seq::new(v.len(), |i: int| v[i] as int)
}

impl State {
    spec fn model(&self) -> StateView {
        match self {
            State::Handshake => StateView::Handshake,
            State::MasterHandshake => StateView::MasterHandshake,
            State::TheirTurn => StateView::TheirTurn,
            State::AwaitAnswer(batch) => StateView::AwaitAnswer(indices(batch@)),
            State::AwaitTurnover(mids) => StateView::AwaitTurnover(text::texts(mids@)),
            State::Receiving(r) => StateView::Receiving(r.model()),
            State::Done => StateView::Done,
            State::Failed => StateView::Failed,
        }
    }
}

/// A B2F session.
#[derive(Debug)]
pub struct Session {
    cfg: SessionConfig,
    state: State,
    rx: Vec<u8>,
    outbound: Vec<Outbound>,
    offered: Vec<bool>,
    known: Vec<String>,
    remote_sid: Option<String>,
    remote_fw: Vec<String>,
    challenge: Option<String>,
    remote_no_msgs: bool,
    proposals: Vec<InProposal>,
    proposal_sum: u8,
    handshake_sent: bool,
    explained_held: bool,
}

impl View for Session {
    type V = SessionView;

    closed spec fn view(&self) -> SessionView {
        SessionView {
            cfg: self.cfg@,
            state: self.state.model(),
            rx: self.rx@,
            outbound: outbound_views(self.outbound@),
            offered: self.offered@,
            known: text::texts(self.known@).to_set(),
            remote_sid: opt_text(self.remote_sid),
            remote_fw: text::texts(self.remote_fw@),
            challenge: opt_text(self.challenge),
            remote_no_msgs: self.remote_no_msgs,
            proposals: lines::proposal_views(self.proposals@),
            proposal_sum: self.proposal_sum as int,
            handshake_sent: self.handshake_sent,
            explained_held: self.explained_held,
        }
    }
}

/// A session that has not started.
pub open spec fn fresh(
    cfg: ConfigView,
    outbound: Seq<OutboundView>,
    known: Set<Seq<char>>,
) -> SessionView {
    SessionView {
        cfg,
        state: if cfg.master {
            StateView::MasterHandshake
        } else {
            StateView::Handshake
        },
        rx: seq![],
        outbound,
        offered: Seq::new(outbound.len(), |i: int| false),
        known,
        remote_sid: None,
        remote_fw: seq![],
        challenge: None,
        remote_no_msgs: false,
        proposals: seq![],
        proposal_sum: 0,
        handshake_sent: false,
        explained_held: false,
    }
}

/// A session and its events.
spec fn flow(s: Session, ev: Seq<Event>) -> Flow {
    Flow { s: s@, ev: event_views(ev) }
}

fn say(ev: &mut Vec<Event>, e: Event)
    ensures
        event_views(final(ev)@) == event_views(old(ev)@).push(e@),
{
    let ghost x = e@;
    ev.push(e);
    assert(event_views(ev@) =~= event_views(old(ev)@).push(x));
}

fn log(ev: &mut Vec<Event>, kind: LogKind, line: &str)
    ensures
        event_views(final(ev)@) == event_views(old(ev)@).push(EventView::Log(kind, line@)),
{
    say(ev, Event::Log(kind, line.to_owned()));
}

fn transmit_line(ev: &mut Vec<Event>, line: &str)
    ensures
        event_views(final(ev)@) == event_views(old(ev)@).push(
            EventView::Log(LogKind::Tx, line@),
        ).push(EventView::Transmit(encode_utf8(line@ + "\r"@))),
{
    log(ev, LogKind::Tx, line);
    say(ev, Event::Transmit(text::utf8_bytes(&text::cat2(line, "\r"))));
}

impl Session {
    /// Indices and counts are in range.
    pub open spec fn wf(&self) -> bool {
        model::valid(self@)
    }

    /// `known` holds MIDs already received, which are refused as duplicates.
    pub fn new(cfg: SessionConfig, outbound: Vec<Outbound>, known: Vec<String>) -> (r: Session)
        ensures
            r.wf(),
            r@ == fresh(cfg@, outbound_views(outbound@), text::texts(known@).to_set()),
    {
        let state = if cfg.master {
            State::MasterHandshake
        } else {
            State::Handshake
        };
        let mut offered: Vec<bool> = Vec::new();
        let n: usize = outbound.len();
        for i in 0..n
            invariant
                offered@ == Seq::new(i as nat, |j: int| false),
        {
            offered.push(false);
            assert(offered@ =~= Seq::new((i + 1) as nat, |j: int| false));
        }
        let r = Session {
            cfg,
            state,
            rx: Vec::new(),
            outbound,
            offered,
            known,
            remote_sid: None,
            remote_fw: Vec::new(),
            challenge: None,
            remote_no_msgs: false,
            proposals: Vec::new(),
            proposal_sum: 0,
            handshake_sent: false,
            explained_held: false,
        };
        assert(r@ =~= fresh(cfg@, outbound_views(outbound@), text::texts(known@).to_set()));
        r
    }

    /// Has the session ended?
    pub fn is_finished(&self) -> (r: bool)
        ensures
            r == model::is_over(self@),
    {
        match &self.state {
            State::Done => true,
            State::Failed => true,
            _ => false,
        }
    }

    /// Is a message coming in?
    pub fn is_receiving(&self) -> (r: bool)
        ensures
            r == (self@.state is Receiving),
    {
        match &self.state {
            State::Receiving(_) => true,
            _ => false,
        }
    }

    pub fn remote_sid(&self) -> (r: Option<&str>)
        ensures
            r is Some <==> self@.remote_sid is Some,
            r matches Some(s) ==> self@.remote_sid == Some(s@),
    {
        match &self.remote_sid {
            Some(s) => Some(s.as_str()),
            None => None,
        }
    }

    /// Adds a MID to those already received.
    pub fn note_known(&mut self, mid: &str)
        requires
            old(self).wf(),
        ensures
            final(self).wf(),
            final(self)@ == (SessionView { known: old(self)@.known.insert(mid@), ..old(self)@ }),
    {
        self.learn(mid);
    }

    fn learn(&mut self, mid: &str)
        ensures
            final(self)@ == (SessionView { known: old(self)@.known.insert(mid@), ..old(self)@ }),
    {
        let ghost before = text::texts(self.known@);
        self.known.push(mid.to_owned());
        assert(text::texts(self.known@) =~= before.push(mid@));
        assert(before.push(mid@).to_set() =~= before.to_set().insert(mid@)) by {
            lemma_push_to_set(before, mid@);
        }
    }

    /// Master speaks first; the client waits for the remote handshake.
    pub fn start(&mut self) -> (ev: Vec<Event>)
        requires
            old(self).wf(),
        ensures
            final(self).wf(),
            ({
                let f = Flow { s: old(self)@, ev: seq![] };
                (Flow { s: final(self)@, ev: event_views(ev@) }) == if old(self)@.cfg.master
                    && !old(self)@.handshake_sent {
                    if model::can_greet(old(self)@) {
                        model::greeted(f)
                    } else {
                        model::no_password(f)
                    }
                } else {
                    f
                }
            }),
    {
        let mut ev: Vec<Event> = Vec::new();
        assert(event_views(ev@) =~= seq![]);
        if self.cfg.master && !self.handshake_sent {
            self.send_handshake(&mut ev);
        }
        ev
    }

    /// Works through the bytes from the remote station.
    pub fn feed(&mut self, data: &[u8]) -> (ev: Vec<Event>)
        requires
            old(self).wf(),
        ensures
            final(self).wf(),
            (Flow { s: final(self)@, ev: event_views(ev@) }) == model::fed(
                Flow { s: old(self)@, ev: seq![] },
                data@,
            ),
    {
        let mut ev: Vec<Event> = Vec::new();
        assert(event_views(ev@) =~= seq![]);
        self.rx.extend_from_slice(data);
        let ghost goal = model::fed(Flow { s: old(self)@, ev: seq![] }, data@);
        assert(self@ =~= SessionView { rx: old(self)@.rx + data@, ..old(self)@ });
        loop
            invariant_except_break
                self.wf(),
                model::run(flow(*self, ev@)) == goal,
            ensures
                self.wf(),
                flow(*self, ev@) == goal,
            decreases self.rx@.len(), model::rank(self@),
        {
            proof {
                reveal(model::run);
            }
            if self.is_finished() {
                self.rx.clear();
                assert(self.rx@ =~= seq![]);
                break;
            }
            if self.is_receiving() {
                let ghost before = flow(*self, ev@);
                proof {
                    model::lemma_stepped(before, self@.state->Receiving_0);
                }
                if !self.step_binary(&mut ev) {
                    break;
                }
            } else {
                proof {
                    model::lemma_taken(self.rx@);
                }
                let ghost before = self@;
                match lines::take_line(&mut self.rx) {
                    Ok(Some(line)) => {
                        proof {
                            assert(self@ =~= SessionView { rx: self.rx@, ..before });
                            model::lemma_handled_rx(flow(*self, ev@), line@);
                        }
                        self.on_line(&line, &mut ev);
                    },
                    Ok(None) => {
                        assert(self@ =~= SessionView { rx: self.rx@, ..before });
                        break;
                    },
                    Err(e) => {
                        self.rx.clear();
                        assert(self@ =~= SessionView { rx: seq![], ..before });
                        self.fail(&mut ev, e);
                        break;
                    },
                }
            }
        }
        ev
    }

    /// The link dropped. Fine once the protocol is complete.
    pub fn remote_closed(&mut self) -> (ev: Vec<Event>)
        requires
            old(self).wf(),
        ensures
            final(self).wf(),
            ({
                let f = Flow { s: old(self)@, ev: seq![] };
                (Flow { s: final(self)@, ev: event_views(ev@) }) == if model::is_over(old(self)@) {
                    f
                } else {
                    model::failed(f, "the link closed before the exchange finished"@)
                }
            }),
    {
        self.abort("the link closed before the exchange finished")
    }

    /// Stops the session (user abort, timeout, link error).
    pub fn abort(&mut self, reason: &str) -> (ev: Vec<Event>)
        requires
            old(self).wf(),
        ensures
            final(self).wf(),
            ({
                let f = Flow { s: old(self)@, ev: seq![] };
                (Flow { s: final(self)@, ev: event_views(ev@) }) == if model::is_over(old(self)@) {
                    f
                } else {
                    model::failed(f, reason@)
                }
            }),
    {
        let mut ev: Vec<Event> = Vec::new();
        assert(event_views(ev@) =~= seq![]);
        if !self.is_finished() {
            self.fail(&mut ev, reason.to_owned());
        }
        ev
    }

    fn fail(&mut self, ev: &mut Vec<Event>, reason: String)
        requires
            old(self)@.offered.len() == old(self)@.outbound.len(),
        ensures
            final(self).wf(),
            flow(*final(self), final(ev)@) == model::failed(flow(*old(self), old(ev)@), reason@),
    {
        self.state = State::Failed;
        say(ev, Event::Failed(reason));
    }

    /// Takes the state out, leaving a failed one.
    fn take_state(&mut self) -> (r: State)
        ensures
            r.model() == old(self)@.state,
            final(self)@ == (SessionView { state: StateView::Failed, ..old(self)@ }),
    {
        let mut state = State::Failed;
        std::mem::swap(&mut self.state, &mut state);
        state
    }

    fn on_line(&mut self, line: &str, ev: &mut Vec<Event>)
        requires
            old(self).wf(),
            line@.len() > 0,
        ensures
            final(self).wf(),
            flow(*final(self), final(ev)@) == model::handled(flow(*old(self), old(ev)@), line@),
    {
        let ghost f = flow(*self, ev@);
        let ghost before = self@;
        let state = self.take_state();
        match state {
            State::Handshake => {
                self.state = State::Handshake;
                assert(self@ =~= before);
                self.client_handshake_line(line, ev);
            },
            State::MasterHandshake => {
                self.state = State::MasterHandshake;
                assert(self@ =~= before);
                self.master_handshake_line(line, ev);
            },
            State::TheirTurn => {
                self.state = State::TheirTurn;
                assert(self@ =~= before);
                log(ev, LogKind::Rx, line);
                self.their_turn_line(line, ev);
            },
            State::AwaitAnswer(batch) => {
                self.answer_line(line, batch, ev, Ghost(f));
            },
            State::AwaitTurnover(mids) => {
                self.turnover_line(line, mids, ev, Ghost(f));
            },
            other => {
                self.state = other;
                assert(self@ =~= before);
            },
        }
    }

    /// Takes note of the remote's SID.
    fn note_sid(&mut self, line: &str, ev: &mut Vec<Event>)
        requires
            old(self).wf(),
            model::is_sid(line@),
        ensures
            final(self).wf(),
            flow(*final(self), final(ev)@) == model::noted_sid(flow(*old(self), old(ev)@), line@),
    {
        let cs = text::chars(line);
        let inner = &cs[1..cs.len() - 1];
        let last = text::part_after_last(inner, Class::One('-'));
        let codes = unicode::to_uppercase(&text::string(last));
        if text::has_str(&text::chars(&codes), "B2") {
            self.remote_sid = Some(line.to_owned());
        } else {
            self.fail(
                ev,
                text::cat3("remote does not speak B2F (SID ", line, "); only B2 is supported"),
            );
        }
    }

    fn note_fw(&mut self, line: &str, Ghost(ev): Ghost<Seq<Event>>)
        requires
            old(self).wf(),
        ensures
            final(self).wf(),
            flow(*final(self), ev) == model::noted_fw(flow(*old(self), ev), line@),
    {
        let cs = text::chars(line);
        if let Some(rest) = text::without_prefix(&cs, ";FW:") {
            let items = text::words(rest);
            let mut calls: Vec<String> = Vec::new();
            let ghost all = text::views(items@);
            assert(all.take(0) =~= seq![]);
            assert(text::texts(calls@) =~= seq![]);
            for i in 0..items.len()
                invariant
                    all == text::views(items@),
                    text::texts(calls@) == model::fw_calls(all.take(i as int)),
            {
                let ghost before = text::texts(calls@);
                assert(all.take(i + 1).drop_last() =~= all.take(i as int));
                assert(all.take(i + 1).last() == items@[i as int]@);
                let n = text::find_first(&items[i], Class::One('|'));
                let item = &items[i];
                let call = &item[0..n];
                assert(call@ =~= model::fw_call(items@[i as int]@));
                if call.len() > 0 {
                    let upper = unicode::to_uppercase(&text::string(call));
                    let ghost u = upper@;
                    calls.push(upper);
                    assert(text::texts(calls@) =~= before.push(u));
                }
            }
            assert(all.take(all.len() as int) =~= all);
            self.remote_fw = calls;
        }
    }

    fn client_handshake_line(&mut self, line: &str, ev: &mut Vec<Event>)
        requires
            old(self).wf(),
            line@.len() > 0,
        ensures
            final(self).wf(),
            flow(*final(self), final(ev)@) == model::client_line(
                flow(*old(self), old(ev)@),
                line@,
            ),
    {
        log(ev, LogKind::Rx, line);
        let cs = text::chars(line);
        if cs.len() >= 2 && cs[0] == '[' && cs[cs.len() - 1] == ']' {
            self.note_sid(line, ev);
            return;
        }
        if let Some(challenge) = text::without_prefix(&cs, ";PQ:") {
            self.challenge = Some(text::string(text::trimmed(challenge)));
        } else if text::has_prefix(&cs, ";FW:") {
            self.note_fw(line, Ghost(ev@));
        } else if cs[cs.len() - 1] == '>' {
            if self.remote_sid.is_none() {
                self.fail(ev, "remote sent its prompt without a SID".to_owned());
            } else if self.send_handshake(ev) {
                self.our_turn(ev);
            }
        }
    }

    fn master_handshake_line(&mut self, line: &str, ev: &mut Vec<Event>)
        requires
            old(self).wf(),
            line@.len() > 0,
        ensures
            final(self).wf(),
            flow(*final(self), final(ev)@) == model::master_line(
                flow(*old(self), old(ev)@),
                line@,
            ),
    {
        log(ev, LogKind::Rx, line);
        let cs = text::chars(line);
        if cs[0] == 'F' {
            if self.remote_sid.is_none() {
                self.fail(ev, "remote started without sending a SID".to_owned());
            } else {
                self.state = State::TheirTurn;
                self.their_turn_line(line, ev);
            }
        } else if cs.len() >= 2 && cs[0] == '[' && cs[cs.len() - 1] == ']' {
            self.note_sid(line, ev);
        } else {
            self.note_fw(line, Ghost(ev@));
        }
    }

    /// Our `;FW`, SID, optional `;PR`, and greeting. False on failure.
    fn send_handshake(&mut self, ev: &mut Vec<Event>) -> (r: bool)
        requires
            old(self).wf(),
        ensures
            final(self).wf(),
            r == model::can_greet(old(self)@),
            flow(*final(self), final(ev)@) == if r {
                model::greeted(flow(*old(self), old(ev)@))
            } else {
                model::no_password(flow(*old(self), old(ev)@))
            },
    {
        let mut response: Option<String> = None;
        if let Some(challenge) = &self.challenge {
            let answer = match &self.cfg.password {
                Some(password) => if password.as_str().is_empty() {
                    None
                } else {
                    Some(secure::login_response(challenge, password))
                },
                None => None,
            };
            match answer {
                Some(a) => {
                    response = Some(text::cat2(";PR: ", &a));
                    log(ev, LogKind::Info, "answering secure login challenge");
                },
                None => {
                    self.fail(
                        ev,
                        "the gateway asked for a secure login but no Winlink password is set".to_owned(),
                    );
                    return false;
                },
            }
        }
        transmit_line(ev, &text::cat2(";FW: ", &self.cfg.mycall));
        transmit_line(ev, model::OUR_SID);
        if let Some(line) = &response {
            transmit_line(ev, line);
        }
        let mut greeting = text::cat5(
            "; ",
            &self.cfg.targetcall,
            " DE ",
            &self.cfg.mycall,
            " (",
        );
        greeting.append(&self.cfg.locator);
        greeting.append(")");
        if self.cfg.master {
            greeting.append(">");
        }
        transmit_line(ev, &greeting);
        self.handshake_sent = true;
        true
    }

    /// Messages the remote may carry: all of them for a gateway; only those
    /// addressed to the peer's forwarding calls in peer-to-peer sessions.
    fn deliverable(&self, out: &Outbound) -> (r: bool)
        ensures
            r == model::deliverable(self@.remote_fw, out@.recipients),
    {
        if self.remote_fw.len() == 0 {
            return true;
        }
        let ghost fw = text::texts(self.remote_fw@);
        let ghost all = out@.recipients;
        for i in 0..out.recipients.len()
            invariant
                fw == text::texts(self.remote_fw@),
                fw == self@.remote_fw,
                fw.len() > 0,
                all == out@.recipients,
                all == text::texts(out.recipients@),
                forall|j: int| 0 <= j < i ==> fw.contains(model::known_as(#[trigger] all[j])),
        {
            let r = match normalize_address(&out.recipients[i]) {
                Ok(a) => a,
                Err(_) => unicode::to_uppercase(&out.recipients[i]),
            };
            assert(all[i as int] == out.recipients@[i as int]@);
            assert(r@ == model::known_as(all[i as int]));
            if !text::is_among(&self.remote_fw, &text::chars(&r)) {
                assert(!fw.contains(model::known_as(all[i as int])));
                return false;
            }
        }
        true
    }

    /// Explains once which messages stay here.
    fn explain_held(&mut self, ev: &mut Vec<Event>)
        requires
            old(self).wf(),
        ensures
            final(self).wf(),
            final(self)@ == (SessionView { explained_held: true, ..old(self)@ }),
            event_views(final(ev)@) == model::held(
                event_views(old(ev)@),
                old(self)@.outbound,
                old(self)@.remote_fw,
                old(self)@.outbound.len() as int,
            ),
    {
        let calls = text::joined(&self.remote_fw, ", ");
        for i in 0..self.outbound.len()
            invariant
                *self == *old(self),
                calls@ == text::join(self@.remote_fw, ", "@),
                event_views(ev@) == model::held(
                    event_views(old(ev)@),
                    self@.outbound,
                    self@.remote_fw,
                    i as int,
                ),
        {
            assert(self@.outbound[i as int] == self.outbound@[i as int]@);
            if !self.deliverable(&self.outbound[i]) {
                let line = text::cat3(
                    &self.outbound[i].mid,
                    " stays in the outbox: this peer only takes mail addressed to ",
                    &calls,
                );
                log(ev, LogKind::Info, &line);
            }
        }
        self.explained_held = true;
    }

    /// The messages that can be offered.
    fn candidates(&self) -> (r: Vec<usize>)
        requires
            self.wf(),
        ensures
            indices(r@) == model::candidates(self@, self@.outbound.len() as int),
            forall|k: int| 0 <= k < r@.len() ==> (#[trigger] r@[k]) < self@.outbound.len(),
    {
        let mut out: Vec<usize> = Vec::new();
        assert(indices(out@) =~= seq![]);
        for i in 0..self.outbound.len()
            invariant
                self.wf(),
                indices(out@) == model::candidates(self@, i as int),
                forall|k: int| 0 <= k < out@.len() ==> (#[trigger] out@[k]) < i,
        {
            let ghost before = indices(out@);
            assert(self@.outbound[i as int] == self.outbound@[i as int]@);
            if !self.offered[i] && self.deliverable(&self.outbound[i]) {
                out.push(i);
                assert(indices(out@) =~= before.push(i as int));
            }
        }
        out
    }

    fn is_sooner(&self, a: usize, b: usize) -> (r: bool)
        requires
            a < self@.outbound.len(),
            b < self@.outbound.len(),
        ensures
            r == model::sooner(self@.outbound[a as int], self@.outbound[b as int]),
    {
        let x = &self.outbound[a];
        let y = &self.outbound[b];
        assert(self@.outbound[a as int] == x@ && self@.outbound[b as int] == y@);
        if x.precedence != y.precedence {
            x.precedence < y.precedence
        } else if x.compressed.len() != y.compressed.len() {
            x.compressed.len() < y.compressed.len()
        } else {
            text::is_before(&text::chars(&x.mid), &text::chars(&y.mid))
        }
    }

    /// Puts a message in its place among others.
    fn place(&self, v: &mut Vec<usize>, i: usize)
        requires
            i < self@.outbound.len(),
            forall|k: int| 0 <= k < old(v)@.len() ==> (#[trigger] old(v)@[k]) < self@.outbound.len(),
        ensures
            indices(final(v)@) == model::placed(self@.outbound, indices(old(v)@), i as int),
            forall|k: int|
                0 <= k < final(v)@.len() ==> (#[trigger] final(v)@[k]) < self@.outbound.len(),
    {
        let mut at: usize = v.len();
        let ghost all = indices(v@);
        let ghost out = self@.outbound;
        assert(all.take(all.len() as int) =~= all);
        assert(all.skip(all.len() as int) =~= seq![]);
        assert(model::placed(out, all, i as int) + seq![] =~= model::placed(out, all, i as int));
        while at > 0 && self.is_sooner(i, v[at - 1])
            invariant
                at <= v@.len(),
                all == indices(v@),
                v@ == old(v)@,
                out == self@.outbound,
                i < out.len(),
                forall|k: int| 0 <= k < v@.len() ==> (#[trigger] v@[k]) < out.len(),
                model::placed(out, all, i as int) == model::placed(out, all.take(at as int), i as int)
                    + all.skip(at as int),
            decreases at,
        {
            let ghost upto = all.take(at as int);
            assert(upto.last() == all[at - 1]);
            assert(upto.drop_last() =~= all.take(at - 1));
            assert(model::placed(out, all.take(at - 1), i as int).push(all[at - 1]) + all.skip(
                at as int,
            ) =~= model::placed(out, all.take(at - 1), i as int) + all.skip(at - 1));
            at -= 1;
        }
        proof {
            if at > 0 {
                assert(all.take(at as int).last() == all[at - 1]);
            }
            assert(model::placed(out, all, i as int) =~= all.take(at as int).push(i as int)
                + all.skip(at as int));
        }
        v.insert(at, i);
        assert(indices(v@) =~= all.take(at as int).push(i as int) + all.skip(at as int));
    }

    /// The next block of proposals.
    fn next_batch(&self) -> (r: Vec<usize>)
        requires
            self.wf(),
        ensures
            indices(r@) == model::next_batch(self@),
            forall|k: int| 0 <= k < r@.len() ==> (#[trigger] r@[k]) < self@.outbound.len(),
    {
        let all = self.candidates();
        let mut out: Vec<usize> = Vec::new();
        let ghost given = indices(all@);
        assert(given.take(0) =~= seq![]);
        assert(indices(out@) =~= seq![]);
        for i in 0..all.len()
            invariant
                given == indices(all@),
                indices(out@) == model::ranked(self@.outbound, given.take(i as int)),
                forall|k: int| 0 <= k < all@.len() ==> (#[trigger] all@[k]) < self@.outbound.len(),
                forall|k: int| 0 <= k < out@.len() ==> (#[trigger] out@[k]) < self@.outbound.len(),
        {
            assert(given.take(i + 1).drop_last() =~= given.take(i as int));
            self.place(&mut out, all[i]);
        }
        assert(given.take(given.len() as int) =~= given);
        if out.len() > MAX_BLOCK {
            let ghost ranked = indices(out@);
            out.truncate(MAX_BLOCK);
            assert(indices(out@) =~= ranked.take(MAX_BLOCK as int));
        }
        out
    }

    fn our_turn(&mut self, ev: &mut Vec<Event>)
        requires
            old(self).wf(),
        ensures
            final(self).wf(),
            flow(*final(self), final(ev)@) == model::our_turn(flow(*old(self), old(ev)@)),
    {
        if !self.explained_held && self.remote_fw.len() > 0 {
            self.explain_held(ev);
        }
        let ghost f = flow(*self, ev@);
        let batch = self.next_batch();
        assert(indices(batch@).len() == batch@.len());
        if batch.len() == 0 {
            if self.remote_no_msgs {
                transmit_line(ev, "FQ");
                self.state = State::Done;
                say(ev, Event::Finished);
            } else {
                transmit_line(ev, "FF");
                self.state = State::TheirTurn;
            }
            return;
        }
        let mut sum: u8 = 0;
        let ghost all = indices(batch@);
        assert(all.take(0) =~= seq![]);
        for k in 0..batch.len()
            invariant
                all == indices(batch@),
                self.wf(),
                self@.outbound == f.s.outbound,
                model::offered(f, all.take(k as int)) == (flow(*self, ev@), sum as int),
                forall|j: int| 0 <= j < batch@.len() ==> (#[trigger] batch@[j]) < f.s.outbound.len(),
                self@.offered.len() == f.s.outbound.len(),
                self@.state == f.s.state,
        {
            let i = batch[k];
            assert(all.take(k + 1).drop_last() =~= all.take(k as int));
            assert(all.take(k + 1).last() == i);
            let o = &self.outbound[i];
            assert(f.s.outbound[i as int] == o@);
            let mut line = text::cat5("FC EM ", &o.mid, " ", &text::size_text(o.size), " ");
            line.append(&text::size_text(o.compressed.len()));
            line.append(" 0");
            sum = lines::add_line(sum, &line);
            transmit_line(ev, &line);
            self.offered.set(i, true);
        }
        assert(all.take(all.len() as int) =~= all);
        let last = text::cat2("F> ", &lines::hex2(lines::complement_of(sum)));
        transmit_line(ev, &last);
        self.state = State::AwaitAnswer(batch);
    }

    /// A line in answer to our proposals; the state is taken out.
    fn answer_line(
        &mut self,
        line: &str,
        batch: Vec<usize>,
        ev: &mut Vec<Event>,
        Ghost(f): Ghost<Flow>,
    )
        requires
            old(self)@ == (SessionView { state: StateView::Failed, ..f.s }),
            event_views(old(ev)@) == f.ev,
            f.s.state == StateView::AwaitAnswer(indices(batch@)),
            model::valid(f.s),
            line@.len() > 0,
        ensures
            final(self).wf(),
            flow(*final(self), final(ev)@) == model::answer_line(f, line@, indices(batch@)),
    {
        log(ev, LogKind::Rx, line);
        let ghost g = model::logged(f, LogKind::Rx, line@);
        let cs = text::chars(line);
        if cs[0] == ';' {
            self.state = State::AwaitAnswer(batch);
            assert(self@ =~= f.s);
            return;
        }
        assert(model::in_state(flow(*self, ev@), StateView::Failed) == model::in_state(
            g,
            StateView::Failed,
        ));
        if let Some(e) = remote_error(line) {
            self.fail(ev, text::cat2("remote reported an error: ", &e));
            return;
        }
        let rest = match text::without_prefix(&cs, "FS ") {
            Some(r) => r,
            None => {
                self.fail(
                    ev,
                    text::cat2("expected a proposal answer (FS), got ", &unicode::quote(line)),
                );
                return;
            },
        };
        let parsed = match parse_answers(&text::string(text::trimmed(rest))) {
            Ok(p) => p,
            Err(e) => {
                self.fail(ev, e);
                return;
            },
        };
        assert(indices(batch@).len() == batch@.len());
        if parsed.len() != batch.len() {
            let reason = text::cat5(
                "got ",
                &text::size_text(parsed.len()),
                " answers for ",
                &text::size_text(batch.len()),
                " proposals",
            );
            self.fail(ev, reason);
            return;
        }
        let mut accepted: Vec<String> = Vec::new();
        let ghost all = indices(batch@);
        let ghost replies = parsed@;
        assert(all.take(0) =~= seq![]);
        assert(text::texts(accepted@) =~= seq![]);
        assert forall|j: int| 0 <= j < batch@.len() implies (#[trigger] batch@[j])
            < g.s.outbound.len() by {
            assert(all == f.s.state->AwaitAnswer_0);
            assert(all[j] == batch@[j]);
            assert(0 <= f.s.state->AwaitAnswer_0[j] < f.s.outbound.len());
        }
        for k in 0..batch.len()
            invariant
                all == indices(batch@),
                replies == parsed@,
                replies.len() == all.len(),
                *self == *old(self),
                self@.outbound == g.s.outbound,
                forall|j: int| 0 <= j < batch@.len() ==> (#[trigger] batch@[j]) < g.s.outbound.len(),
                model::replied(g, all.take(k as int), replies.take(k as int)) == (
                    Flow { s: g.s, ev: event_views(ev@) },
                    text::texts(accepted@),
                ),
        {
            let i = batch[k];
            assert(all.take(k + 1).drop_last() =~= all.take(k as int));
            assert(all.take(k + 1).last() == i);
            assert(replies.take(k + 1).drop_last() =~= replies.take(k as int));
            assert(replies.take(k + 1).last() == parsed@[k as int]);
            let o = &self.outbound[i];
            assert(g.s.outbound[i as int] == o@);
            match parsed[k] {
                Answer::Accept(n) => {
                    let offset: usize = if n < o.compressed.len() {
                        n
                    } else {
                        0
                    };
                    let resume = if offset > 0 {
                        text::cat2(", resuming at ", &text::size_text(offset))
                    } else {
                        String::new()
                    };
                    assert(offset == 0 ==> resume@ =~= seq![]);
                    let mut t = text::cat5(
                        "sending ",
                        &o.mid,
                        " (",
                        &text::size_text(o.compressed.len() - offset),
                        " bytes compressed",
                    );
                    t.append(&resume);
                    t.append(")");
                    log(ev, LogKind::Info, &t);
                    say(ev, Event::Transmit(encode_transfer(o, offset)));
                    let ghost before = text::texts(accepted@);
                    accepted.push(o.mid.clone());
                    assert(text::texts(accepted@) =~= before.push(o@.mid));
                },
                Answer::Reject => {
                    say(ev, Event::AlreadyDelivered(o.mid.clone()));
                },
                Answer::Defer => {
                    say(ev, Event::Deferred(o.mid.clone()));
                },
            }
        }
        assert(all.take(all.len() as int) =~= all);
        assert(replies.take(replies.len() as int) =~= replies);
        self.state = State::AwaitTurnover(accepted);
        assert(self@ =~= SessionView {
            state: StateView::AwaitTurnover(text::texts(accepted@)),
            ..g.s
        });
    }

    /// A line after our transfers; the state is taken out. `;` lines are
    /// comments; only `F…` means turnover.
    fn turnover_line(
        &mut self,
        line: &str,
        mids: Vec<String>,
        ev: &mut Vec<Event>,
        Ghost(f): Ghost<Flow>,
    )
        requires
            old(self)@ == (SessionView { state: StateView::Failed, ..f.s }),
            event_views(old(ev)@) == f.ev,
            f.s.state == StateView::AwaitTurnover(text::texts(mids@)),
            model::valid(f.s),
            line@.len() > 0,
        ensures
            final(self).wf(),
            flow(*final(self), final(ev)@) == model::turnover_line(f, line@, text::texts(mids@)),
    {
        log(ev, LogKind::Rx, line);
        let ghost g = model::logged(f, LogKind::Rx, line@);
        let cs = text::chars(line);
        if cs[0] == ';' {
            self.state = State::AwaitTurnover(mids);
            assert(self@ =~= f.s);
            return;
        }
        assert(model::in_state(flow(*self, ev@), StateView::Failed) == model::in_state(
            g,
            StateView::Failed,
        ));
        if cs[0] == 'F' {
            let ghost all = text::texts(mids@);
            assert(all.take(0) =~= seq![]);
            for k in 0..mids.len()
                invariant
                    all == text::texts(mids@),
                    *self == *old(self),
                    model::delivered(g, all.take(k as int)) == (Flow {
                        s: g.s,
                        ev: event_views(ev@),
                    }),
            {
                assert(all.take(k + 1).drop_last() =~= all.take(k as int));
                assert(all.take(k + 1).last() == mids@[k as int]@);
                say(ev, Event::Delivered(mids[k].clone()));
            }
            assert(all.take(all.len() as int) =~= all);
            self.state = State::TheirTurn;
            assert(flow(*self, ev@) == model::in_state(
                model::delivered(g, all),
                StateView::TheirTurn,
            ));
            self.their_turn_line(line, ev);
        } else if let Some(e) = remote_error(line) {
            self.fail(ev, text::cat2("remote reported an error: ", &e));
        } else {
            self.fail(
                ev,
                text::cat2("unexpected reply after transfer: ", &unicode::quote(line)),
            );
        }
    }

    /// A line while the remote has the turn.
    fn their_turn_line(&mut self, line: &str, ev: &mut Vec<Event>)
        requires
            old(self).wf(),
        ensures
            final(self).wf(),
            flow(*final(self), final(ev)@) == model::their_turn(flow(*old(self), old(ev)@), line@),
    {
        let cs = text::chars(line);
        if let Some(pm) = text::without_prefix(&cs, ";PM:") {
            let parts = text::pieces(text::trimmed(pm), Class::One(' '));
            let ghost all = text::views(parts@);
            assert(all.len() == parts@.len());
            if parts.len() >= 3 {
                assert(all[0] == parts@[0]@ && all[1] == parts@[1]@ && all[2] == parts@[2]@);
                let mut t = text::cat5(
                    "pending for ",
                    &text::string(&parts[0]),
                    ": ",
                    &text::string(&parts[1]),
                    " (",
                );
                t.append(&text::string(&parts[2]));
                t.append(" bytes)");
                log(ev, LogKind::Info, &t);
            }
            return;
        }
        if cs.len() > 0 && cs[0] == ';' {
            return;
        }
        if let Some(e) = remote_error(line) {
            self.fail(ev, text::cat2("remote reported an error: ", &e));
            return;
        }
        if cs.len() < 2 || cs[0] != 'F' {
            self.fail(ev, text::cat2("unexpected protocol line ", &unicode::quote(line)));
            return;
        }
        self.command(line, cs[1], ev);
    }

    /// An `F` command.
    fn command(&mut self, line: &str, c: char, ev: &mut Vec<Event>)
        requires
            old(self).wf(),
            line@.len() >= 2,
            c == line@[1],
        ensures
            final(self).wf(),
            flow(*final(self), final(ev)@) == model::command(flow(*old(self), old(ev)@), line@),
    {
        if c == 'A' || c == 'B' || c == 'C' || c == 'D' {
            self.proposal_sum = lines::add_line(self.proposal_sum, line);
            match parse_proposal(line) {
                Ok(p) => {
                    let ghost before = self@.proposals;
                    let ghost v = p@;
                    self.proposals.push(p);
                    assert(lines::proposal_views(self.proposals@) =~= before.push(v));
                },
                Err(e) => {
                    self.fail(ev, e);
                },
            }
        } else if c == 'F' {
            self.proposals.clear();
            assert(lines::proposal_views(self.proposals@) =~= seq![]);
            self.proposal_sum = 0;
            self.remote_no_msgs = true;
            self.our_turn(ev);
        } else if c == 'Q' {
            assert(self@.proposals.len() == self.proposals@.len());
            if self.proposals.len() > 0 {
                log(ev, LogKind::Warn, "remote quit with unanswered proposals");
            }
            self.proposals.clear();
            assert(lines::proposal_views(self.proposals@) =~= seq![]);
            self.proposal_sum = 0;
            self.state = State::Done;
            say(ev, Event::Finished);
        } else if c == '>' {
            let cs = text::chars(line);
            let tail = &cs[2..cs.len()];
            assert(tail@ =~= line@.skip(2));
            self.end_of_block(text::trimmed(tail), ev);
        } else {
            self.fail(ev, text::cat2("unknown protocol command ", &unicode::quote(line)));
        }
    }

    /// The end of a block of proposals.
    fn end_of_block(&mut self, given: &[char], ev: &mut Vec<Event>)
        requires
            old(self).wf(),
        ensures
            final(self).wf(),
            flow(*final(self), final(ev)@) == model::end_of_block(
                flow(*old(self), old(ev)@),
                given@,
            ),
    {
        let expect = lines::complement_of(self.proposal_sum);
        self.proposal_sum = 0;
        if given.len() > 0 {
            let matches = match text::unsigned(given, 16, 255) {
                Some(v) => v == expect as u64,
                None => false,
            };
            if !matches {
                let reason = text::cat5(
                    "proposal checksum mismatch (ours ",
                    &lines::hex2(expect),
                    ", theirs ",
                    &text::string(given),
                    ")",
                );
                self.fail(ev, reason);
                return;
            }
        }
        assert(self@.proposals.len() == self.proposals@.len());
        if self.proposals.len() == 0 {
            self.remote_no_msgs = true;
            self.our_turn(ev);
        } else {
            self.answer_proposals(ev);
        }
    }

    fn answer_proposals(&mut self, ev: &mut Vec<Event>)
        requires
            old(self).wf(),
        ensures
            final(self).wf(),
            flow(*final(self), final(ev)@) == model::answered(flow(*old(self), old(ev)@)),
    {
        let mut proposals: Vec<InProposal> = Vec::new();
        std::mem::swap(&mut proposals, &mut self.proposals);
        let ghost ps = lines::proposal_views(proposals@);
        let ghost known = self@.known;
        let mut seen: Vec<String> = Vec::new();
        let mut answers: Vec<char> = Vec::new();
        let mut queue: Vec<InProposal> = Vec::new();
        assert(lines::proposal_views(queue@) =~= seq![]);
        assert(lines::proposal_views(self.proposals@) =~= seq![]);
        for k in 0..proposals.len()
            invariant
                ps == lines::proposal_views(proposals@),
                known == self@.known,
                self@ == (SessionView { proposals: seq![], ..old(self)@ }),
                text::texts(seen@) == Seq::new(k as nat, |j: int| ps[j].mid),
                answers@ == model::verdicts(ps, known, k as int),
                lines::proposal_views(queue@) == model::accepted(ps, known, k as int),
                event_views(ev@) == model::size_warnings(event_views(old(ev)@), ps, k as int),
        {
            let p = &proposals[k];
            assert(ps[k as int] == p@);
            let mid = text::chars(&p.mid);
            let repeat = text::is_among(&seen, &mid);
            proof {
                let texts = text::texts(seen@);
                if repeat {
                    let j = choose|j: int| 0 <= j < texts.len() && texts[j] == p.mid@;
                    assert(ps[j].mid == ps[k as int].mid);
                } else if model::is_repeat(ps, k as int) {
                    let j = choose|j: int|
                        0 <= j < k && (#[trigger] ps[j]).mid == ps[k as int].mid;
                    assert(texts[j] == p.mid@);
                }
            }
            let oversized = p.csize > lzhuf::MAX_UNCOMPRESSED || p.raw_size
                > lzhuf::MAX_UNCOMPRESSED;
            let answer = if repeat || p.code != 'C' {
                '='
            } else if oversized {
                let mut t = text::cat5(
                    "deferring ",
                    &p.mid,
                    ": declared size ",
                    &text::size_text(p.raw_size),
                    "/",
                );
                t.append(&text::size_text(p.csize));
                t.append(" exceeds limit 67108864");
                log(ev, LogKind::Warn, &t);
                '='
            } else if text::is_among(&self.known, &mid) {
                '-'
            } else {
                '+'
            };
            assert(answer == model::verdict(ps, k as int, known));
            let ghost so_far = answers@;
            answers.push(answer);
            assert(model::verdicts(ps, known, k + 1) =~= so_far.push(answer));
            let ghost old_seen = text::texts(seen@);
            seen.push(p.mid.clone());
            assert(text::texts(seen@) =~= old_seen.push(p@.mid));
            assert(Seq::new((k + 1) as nat, |j: int| ps[j].mid) =~= old_seen.push(p@.mid));
            if answer == '+' {
                let ghost old_queue = lines::proposal_views(queue@);
                let q = InProposal {
                    code: p.code,
                    mid: p.mid.clone(),
                    raw_size: p.raw_size,
                    csize: p.csize,
                };
                assert(q@ == p@);
                queue.push(q);
                assert(lines::proposal_views(queue@) =~= old_queue.push(p@));
            }
        }
        self.remote_no_msgs = false;
        transmit_line(ev, &text::cat2("FS ", &text::string(&answers)));
        assert(lines::proposal_views(queue@).len() == queue@.len());
        if queue.len() == 0 {
            self.our_turn(ev);
        } else {
            let data: Vec<u8> = Vec::new();
            assert(data@ =~= seq![]);
            self.state = State::Receiving(
                Receiver { queue, stage: RxStage::Soh, data, sum: 0 },
            );
        }
    }

    /// Consumes binary transfer bytes; false when more input is needed.
    fn step_binary(&mut self, ev: &mut Vec<Event>) -> (r: bool)
        requires
            old(self).wf(),
            old(self)@.state is Receiving,
        ensures
            final(self).wf(),
            ({
                let f = flow(*old(self), old(ev)@);
                match model::stepped(f, f.s.state->Receiving_0) {
                    Some(g) => r && flow(*final(self), final(ev)@) == g,
                    None => !r && flow(*final(self), final(ev)@) == f,
                }
            }),
    {
        if self.rx.len() == 0 {
            return false;
        }
        let ghost f = flow(*self, ev@);
        let state = self.take_state();
        match state {
            State::Receiving(r) => {
                let b = self.rx[0];
                match r.stage {
                    RxStage::Soh => self.step_soh(r, ev, Ghost(f)),
                    RxStage::HeaderLen => {
                        let bytes: Vec<u8> = Vec::new();
                        assert(bytes@ =~= seq![]);
                        self.go_on(
                            r,
                            RxStage::Header { len: b as usize, bytes },
                            1,
                            Ghost(f),
                            Ghost(ev@),
                        );
                        true
                    },
                    RxStage::Header { len, bytes } => {
                        let r = Receiver {
                            queue: r.queue,
                            stage: RxStage::Soh,
                            data: r.data,
                            sum: r.sum,
                        };
                        self.step_header(r, len, bytes, ev, Ghost(f));
                        true
                    },
                    RxStage::Block => {
                        if b == STX {
                            self.go_on(r, RxStage::BlockLen, 1, Ghost(f), Ghost(ev@));
                        } else if b == EOT {
                            self.go_on(r, RxStage::Checksum, 1, Ghost(f), Ghost(ev@));
                        } else {
                            lines::drop_front(&mut self.rx, 1);
                            self.fail(
                                ev,
                                text::cat2(
                                    "corrupt transfer: unexpected byte ",
                                    &lines::show_byte(b),
                                ),
                            );
                        }
                        true
                    },
                    RxStage::BlockLen => {
                        let remaining: usize = if b == 0 {
                            256
                        } else {
                            b as usize
                        };
                        self.go_on(r, RxStage::BlockData { remaining }, 1, Ghost(f), Ghost(ev@));
                        true
                    },
                    RxStage::BlockData { remaining } => {
                        self.step_data(r, remaining, Ghost(f), Ghost(ev@));
                        true
                    },
                    RxStage::Checksum => {
                        self.step_checksum(r, ev, Ghost(f));
                        true
                    },
                }
            },
            other => {
                self.state = other;
                false
            },
        }
    }

    /// Goes on in another stage, with `n` bytes taken.
    fn go_on(
        &mut self,
        r: Receiver,
        stage: RxStage,
        n: usize,
        Ghost(f): Ghost<Flow>,
        Ghost(ev): Ghost<Seq<Event>>,
    )
        requires
            old(self)@ == (SessionView { state: StateView::Failed, ..f.s }),
            event_views(ev) == f.ev,
            n <= f.s.rx.len(),
            f.s.offered.len() == f.s.outbound.len(),
            stage.model() matches StageView::Header { len, bytes } ==> bytes.len() <= len,
        ensures
            final(self).wf(),
            flow(*final(self), ev) == model::on_stage(f, r.model(), stage.model(), n as int),
    {
        lines::drop_front(&mut self.rx, n);
        self.state = State::Receiving(
            Receiver { queue: r.queue, stage, data: r.data, sum: r.sum },
        );
    }

    /// At the start of a transfer.
    fn step_soh(&mut self, r: Receiver, ev: &mut Vec<Event>, Ghost(f): Ghost<Flow>) -> (done: bool)
        requires
            old(self)@ == (SessionView { state: StateView::Failed, ..f.s }),
            event_views(old(ev)@) == f.ev,
            f.s.state == StateView::Receiving(r.model()),
            r.stage is Soh,
            f.s.rx.len() > 0,
            model::valid(f.s),
        ensures
            final(self).wf(),
            match model::step_soh(f, r.model()) {
                Some(g) => done && flow(*final(self), final(ev)@) == g,
                None => !done && flow(*final(self), final(ev)@) == f,
            },
    {
        let b = self.rx[0];
        if b == 13 || b == 10 {
            self.go_on(r, RxStage::Soh, 1, Ghost(f), Ghost(ev@));
            true
        } else if b == SOH {
            self.go_on(r, RxStage::HeaderLen, 1, Ghost(f), Ghost(ev@));
            true
        } else if b == 0x2a {
            let end = lines::find_break(&self.rx);
            if end == self.rx.len() {
                self.state = State::Receiving(r);
                assert(self@ =~= f.s);
                return false;
            }
            let part = &self.rx[0..end];
            assert(part@ =~= f.s.rx.take(end as int));
            let decoded = unicode::decode_lossy(part);
            let line = text::trimmed_str(&decoded).to_owned();
            let e = match remote_error(&line) {
                Some(e) => e,
                None => line,
            };
            self.fail(ev, text::cat2("remote reported an error: ", &e));
            true
        } else {
            self.fail(
                ev,
                text::cat2("expected a message transfer, got byte ", &lines::show_byte(b)),
            );
            true
        }
    }

    /// In the header of a transfer.
    fn step_header(
        &mut self,
        r: Receiver,
        len: usize,
        bytes: Vec<u8>,
        ev: &mut Vec<Event>,
        Ghost(f): Ghost<Flow>,
    )
        requires
            old(self)@ == (SessionView { state: StateView::Failed, ..f.s }),
            event_views(old(ev)@) == f.ev,
            f.s.state is Receiving,
            f.s.offered.len() == f.s.outbound.len(),
            bytes@.len() <= len,
        ensures
            final(self).wf(),
            flow(*final(self), final(ev)@) == model::step_header(
                f,
                r.model(),
                len as nat,
                bytes@,
            ),
    {
        let want: usize = len - bytes.len();
        let n: usize = if want < self.rx.len() {
            want
        } else {
            self.rx.len()
        };
        let ghost so_far = bytes@;
        let mut got = bytes;
        got.extend_from_slice(&self.rx[0..n]);
        assert(self.rx@.subrange(0, n as int) =~= f.s.rx.take(n as int));
        assert(got@ =~= so_far + f.s.rx.take(n as int));
        if got.len() < len {
            self.go_on(r, RxStage::Header { len, bytes: got }, n, Ghost(f), Ghost(ev@));
            return;
        }
        lines::drop_front(&mut self.rx, n);
        let ghost g = model::past(f, n as int);
        let (title_part, offset_part) = header_parts(&got);
        let title = unicode::decode_lossy(&title_part);
        let offset = unicode::decode_lossy(&offset_part);
        assert(r.model().queue.len() == r.queue@.len());
        let mid = if r.queue.len() > 0 {
            r.queue[0].mid.clone()
        } else {
            String::new()
        };
        assert(mid@ =~= model::coming(r.model()));
        let trimmed = text::trim_str(&offset);
        if !text::equals_str(&text::chars(&trimmed), "0") {
            let reason = text::cat4(
                "unexpected transfer offset ",
                &unicode::quote(&offset),
                " for ",
                &mid,
            );
            assert(model::in_state(flow(*self, ev@), StateView::Failed) == model::in_state(
                g,
                StateView::Failed,
            ));
            self.fail(ev, reason);
            return;
        }
        let shown = charset::decode_header(text::trimmed_str(&title));
        log(ev, LogKind::Info, &text::cat5("receiving ", &mid, " \"", &shown, "\""));
        let data: Vec<u8> = Vec::new();
        assert(data@ =~= seq![]);
        self.state = State::Receiving(
            Receiver { queue: r.queue, stage: RxStage::Block, data, sum: 0 },
        );
        assert(g.s.rx.skip(0) =~= g.s.rx);
    }

    /// In a data block.
    fn step_data(
        &mut self,
        r: Receiver,
        remaining: usize,
        Ghost(f): Ghost<Flow>,
        Ghost(ev): Ghost<Seq<Event>>,
    )
        requires
            old(self)@ == (SessionView { state: StateView::Failed, ..f.s }),
            event_views(ev) == f.ev,
            f.s.offered.len() == f.s.outbound.len(),
        ensures
            final(self).wf(),
            flow(*final(self), ev) == model::step_data(f, r.model(), remaining as nat),
    {
        let n: usize = if remaining < self.rx.len() {
            remaining
        } else {
            self.rx.len()
        };
        let chunk = slice_to_vec(&self.rx[0..n]);
        assert(chunk@ =~= f.s.rx.take(n as int));
        let mut data = r.data;
        data.extend_from_slice(&chunk);
        let sum = ((r.sum as u32 + lines::sum_bytes(&chunk) as u32) % 256) as u8;
        let stage = if remaining == n {
            RxStage::Block
        } else {
            RxStage::BlockData { remaining: remaining - n }
        };
        let next = Receiver { queue: r.queue, stage: RxStage::Block, data, sum };
        self.go_on(next, stage, n, Ghost(f), Ghost(ev));
    }

    /// A message is complete.
    fn step_checksum(&mut self, r: Receiver, ev: &mut Vec<Event>, Ghost(f): Ghost<Flow>)
        requires
            old(self)@ == (SessionView { state: StateView::Failed, ..f.s }),
            event_views(old(ev)@) == f.ev,
            f.s.state is Receiving,
            f.s.rx.len() > 0,
            f.s.offered.len() == f.s.outbound.len(),
        ensures
            final(self).wf(),
            flow(*final(self), final(ev)@) == model::step_checksum(f, r.model()),
    {
        let check = self.rx[0];
        lines::drop_front(&mut self.rx, 1);
        let ghost g = model::past(f, 1);
        assert(model::in_state(flow(*self, ev@), StateView::Failed) == model::in_state(
            g,
            StateView::Failed,
        ));
        assert(r.model().queue.len() == r.queue@.len());
        if r.queue.len() == 0 {
            self.fail(ev, "received transfer data with no matching proposal".to_owned());
            return;
        }
        let mut queue = r.queue;
        let p = queue.remove(0);
        let ghost pv = p@;
        assert(pv == r.model().queue[0]);
        assert(lines::proposal_views(queue@) =~= r.model().queue.drop_first());
        if (r.sum as u32 + check as u32) % 256 != 0 {
            self.fail(ev, text::cat2(&p.mid, ": transfer checksum error"));
            return;
        }
        let data = r.data;
        if data.len() != p.csize {
            let reason = text::cat5(
                &p.mid,
                ": got ",
                &text::size_text(data.len()),
                " bytes, proposal said ",
                &text::size_text(p.csize),
            );
            self.fail(ev, reason);
            return;
        }
        let raw = match lzhuf::decode_b2(&data) {
            Ok(raw) => raw,
            Err(e) => {
                self.fail(ev, text::cat3(&p.mid, ": ", &e));
                return;
            },
        };
        let message = match Message::parse(&raw) {
            Ok(m) => m,
            Err(e) => {
                self.fail(ev, text::cat3(&p.mid, ": unreadable message: ", &e));
                return;
            },
        };
        let mid = message.mid().to_owned();
        if !text::equals_str(&text::chars(&mid), &p.mid) {
            log(
                ev,
                LogKind::Warn,
                &text::cat4("proposal ", &p.mid, " carried message ", &mid),
            );
        }
        self.learn(&p.mid);
        self.learn(&mid);
        say(ev, Event::Received { message, raw });
        if queue.len() == 0 {
            self.resume_turn(ev, Ghost(g), Ghost(pv), Ghost(message@), Ghost(raw@));
        } else {
            let data: Vec<u8> = Vec::new();
            assert(data@ =~= seq![]);
            self.state = State::Receiving(
                Receiver { queue, stage: RxStage::Soh, data, sum: 0 },
            );
            assert(self@ =~= model::in_state(
                model::stored(g, pv, message@, raw@),
                self@.state,
            ).s);
        }
    }

    /// All messages of a block are in.
    fn resume_turn(
        &mut self,
        ev: &mut Vec<Event>,
        Ghost(g): Ghost<Flow>,
        Ghost(p): Ghost<ProposalView>,
        Ghost(m): Ghost<MessageView>,
        Ghost(raw): Ghost<Seq<u8>>,
    )
        requires
            old(self)@ == (SessionView {
                state: StateView::Failed,
                ..model::stored(g, p, m, raw).s
            }),
            event_views(old(ev)@) == model::stored(g, p, m, raw).ev,
            g.s.offered.len() == g.s.outbound.len(),
        ensures
            final(self).wf(),
            flow(*final(self), final(ev)@) == model::our_turn(model::stored(g, p, m, raw)),
    {
        proof {
            model::lemma_our_turn_any_state(model::stored(g, p, m, raw), StateView::Failed);
        }
        self.our_turn(ev);
    }
}

proof fn lemma_push_to_set(v: Seq<Seq<char>>, x: Seq<char>)
    ensures
        v.push(x).to_set() == v.to_set().insert(x),
{
    let a = v.push(x).to_set();
    let b = v.to_set().insert(x);
    assert forall|y: Seq<char>| a.contains(y) implies b.contains(y) by {
        let i = choose|i: int| 0 <= i < v.push(x).len() && v.push(x)[i] == y;
        if i < v.len() {
            assert(v[i] == y);
        }
    }
    assert forall|y: Seq<char>| b.contains(y) implies a.contains(y) by {
        if y == x {
            assert(v.push(x)[v.len() as int] == x);
        } else {
            let i = choose|i: int| 0 <= i < v.len() && v[i] == y;
            assert(v.push(x)[i] == y);
        }
    }
    assert(a =~= b);
}

/// Title and offset of a transfer header.
fn header_parts(b: &[u8]) -> (r: (Vec<u8>, Vec<u8>))
    ensures
        r.0@ == model::header_title(b@),
        r.1@ == model::header_offset(b@),
{
    let n = find_nul(b);
    let title = slice_to_vec(&b[0..n]);
    assert(title@ =~= model::header_title(b@));
    if n < b.len() {
        let rest = &b[n + 1..b.len()];
        assert(rest@ =~= b@.skip(n + 1));
        let m = find_nul(rest);
        let offset = slice_to_vec(&rest[0..m]);
        assert(offset@ =~= model::header_offset(b@));
        (title, offset)
    } else {
        let offset: Vec<u8> = Vec::new();
        assert(offset@ =~= model::header_offset(b@));
        (title, offset)
    }
}

fn find_nul(b: &[u8]) -> (r: usize)
    ensures
        r == model::nul_at(b@),
        r <= b@.len(),
{
    let mut n: usize = 0;
    assert(b@.skip(0) =~= b@);
    while n < b.len() && b[n] != 0
        invariant
            n <= b@.len(),
            model::nul_at(b@) == n + model::nul_at(b@.skip(n as int)),
        decreases b@.len() - n,
    {
        assert(b@.skip(n as int).drop_first() =~= b@.skip(n + 1));
        n += 1;
    }
    n
}

} // verus!

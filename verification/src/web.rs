//! The exchange and the message format for the browser page. Bytes cross the
//! border as base64. Networking and storage stay with the page; reading the
//! clock stays with the caller.

use vstd::prelude::*;

use crate::base64;
use crate::clock;
use crate::exchange;
use crate::exchange::model::Run;
use crate::exchange::{Action, ActionView, Exchange, ExchangeConfig, ExchangeConfigView, ExchangeView, LinkSpec, LinkSpecView};
use crate::message;
use crate::message::address;
use crate::message::body;
use crate::message::wire;
use crate::message::{display_address, generate_mid, Attachment, Draft, DraftView, Message, MessageView};
use crate::session;
use crate::session::{LogKind, Outbound, OutboundView};
use crate::text;
use crate::unicode;

pub mod laws;

verus! {

pub const DEFAULT_PACLEN: usize = 128;

/// What the page says about an exchange.
#[derive(Debug)]
pub struct ExchangeOptions {
    /// `cms` (telnet through the bridge) or `agw` (Direwolf).
    pub mode: String,
    pub call: String,
    pub password: Option<String>,
    pub locator: String,
    /// RMS gateway callsign for `agw`.
    pub gateway: String,
    pub via: Vec<String>,
    pub agw_port: u8,
    pub paclen: usize,
    /// Raw messages waiting to be sent, in base64.
    pub outbox: Vec<String>,
    /// MIDs already received.
    pub known: Vec<String>,
}

#[verifier::ext_equal]
pub struct OptionsView {
    pub mode: Seq<char>,
    pub call: Seq<char>,
    pub password: Option<Seq<char>>,
    pub locator: Seq<char>,
    pub gateway: Seq<char>,
    pub via: Seq<Seq<char>>,
    pub agw_port: u8,
    pub paclen: int,
    pub outbox: Seq<Seq<char>>,
    pub known: Seq<Seq<char>>,
}

impl View for ExchangeOptions {
    type V = OptionsView;

    open spec fn view(&self) -> OptionsView {
        OptionsView {
            mode: self.mode@,
            call: self.call@,
            password: session::opt_text(self.password),
            locator: self.locator@,
            gateway: self.gateway@,
            via: text::texts(self.via@),
            agw_port: self.agw_port,
            paclen: self.paclen as int,
            outbox: text::texts(self.outbox@),
            known: text::texts(self.known@),
        }
    }
}

/// A callsign as it is used: upper case, without white space around it.
pub open spec fn call_of(s: Seq<char>) -> Seq<char> {
    unicode::upper(text::trim(s))
}

fn to_call(s: &str) -> (r: String)
    ensures
        r@ == call_of(s@),
{
    unicode::to_uppercase(text::trimmed_str(s))
}

/// The digipeaters; blank ones are left out.
pub open spec fn path_of(digis: Seq<Seq<char>>) -> Seq<Seq<char>>
    decreases digis.len(),
{
    if digis.len() == 0 {
        seq![]
    } else if call_of(digis.last()).len() == 0 {
        path_of(digis.drop_last())
    } else {
        path_of(digis.drop_last()).push(call_of(digis.last()))
    }
}

fn to_path(digis: &[String]) -> (r: Vec<String>)
    ensures
        text::texts(r@) == path_of(text::texts(digis@)),
{
    let mut out: Vec<String> = Vec::new();
    let ghost all = text::texts(digis@);
    assert(all.take(0) =~= seq![]);
    assert(text::texts(out@) =~= seq![]);
    for i in 0..digis.len()
        invariant
            all == text::texts(digis@),
            text::texts(out@) == path_of(all.take(i as int)),
    {
        let ghost before = text::texts(out@);
        assert(all.take(i + 1).drop_last() =~= all.take(i as int));
        assert(all.take(i + 1).last() == digis@[i as int]@);
        let call = to_call(&digis[i]);
        if !call.as_str().is_empty() {
            out.push(call);
            assert(text::texts(out@) =~= before.push(call@));
        }
    }
    assert(all.take(all.len() as int) =~= all);
    out
}

/// The link and the station that the options name.
pub open spec fn link_of(o: OptionsView) -> Result<(LinkSpecView, Seq<char>), Seq<char>> {
    if o.mode == "cms"@ {
        Ok(
            (
                LinkSpecView::Telnet { login_password: crate::CMS_TELNET_PASSWORD@ },
                crate::CMS_TARGET@,
            ),
        )
    } else if o.mode == "agw"@ {
        if call_of(o.gateway).len() == 0 {
            Err("enter the RMS gateway callsign"@)
        } else {
            Ok(
                (
                    LinkSpecView::Agw { port: o.agw_port, via: path_of(o.via), paclen: o.paclen },
                    call_of(o.gateway),
                ),
            )
        }
    } else {
        Err("mode must be cms or agw, not "@ + unicode::quoted(o.mode))
    }
}

/// A stored message, ready for sending.
#[verifier::opaque]
pub open spec fn ready(stored: Seq<char>) -> Result<OutboundView, Seq<char>> {
    match base64::decoded(stored) {
        None => Err("invalid base64"@),
        Some(raw) => match wire::read(raw) {
            Err(e) => Err(e),
            Ok(m) => match message::fault(m) {
                Some(e) => Err(e),
                None => Ok(session::prepared(m)),
            },
        },
    }
}

/// The stored messages, ready for sending, or what is wrong with the first
/// that cannot be sent.
pub open spec fn all_ready(stored: Seq<Seq<char>>) -> Result<Seq<OutboundView>, Seq<char>>
    decreases stored.len(),
{
    if stored.len() == 0 {
        Ok(seq![])
    } else {
        match all_ready(stored.drop_last()) {
            Err(e) => Err(e),
            Ok(out) => match ready(stored.last()) {
                Err(e) => Err(e),
                Ok(o) => Ok(out.push(o)),
            },
        }
    }
}

/// The exchange that the options describe, or what is wrong with them.
pub open spec fn planned(o: OptionsView) -> Result<ExchangeView, Seq<char>> {
    if call_of(o.call).len() == 0 {
        Err("enter your callsign"@)
    } else {
        match link_of(o) {
            Err(e) => Err(e),
            Ok((link, target)) => match all_ready(o.outbox) {
                Err(e) => Err(e),
                Ok(outbound) => Ok(
                    exchange::fresh(
                        ExchangeConfigView {
                            mycall: call_of(o.call),
                            target,
                            locator: call_of(o.locator),
                            password: match o.password {
                                Some(p) => if p.len() > 0 {
                                    Some(p)
                                } else {
                                    None
                                },
                                None => None,
                            },
                            link,
                            idle_timeout_ms: exchange::usual_timeout(link),
                        },
                        outbound,
                        o.known.to_set(),
                    ),
                ),
            },
        }
    }
}

fn make_ready(stored: &str) -> (r: Result<Outbound, String>)
    ensures
        match r {
            Ok(o) => ready(stored@) == Ok::<_, Seq<char>>(o@),
            Err(e) => ready(stored@) == Err::<OutboundView, _>(e@),
        },
{
    reveal(ready);
    let raw = match base64::decode(stored) {
        Ok(raw) => raw,
        Err(e) => {
            return Err(e);
        },
    };
    match Message::parse(&raw) {
        Ok(m) => Outbound::new(&m),
        Err(e) => Err(e),
    }
}

fn make_all_ready(stored: &[String]) -> (r: Result<Vec<Outbound>, String>)
    ensures
        match r {
            Ok(v) => all_ready(text::texts(stored@)) == Ok::<_, Seq<char>>(
                session::outbound_views(v@),
            ),
            Err(e) => all_ready(text::texts(stored@)) == Err::<Seq<OutboundView>, _>(e@),
        },
{
    let mut out: Vec<Outbound> = Vec::new();
    let ghost all = text::texts(stored@);
    assert(all.take(0) =~= seq![]);
    assert(session::outbound_views(out@) =~= seq![]);
    for i in 0..stored.len()
        invariant
            all == text::texts(stored@),
            all_ready(all.take(i as int)) == Ok::<_, Seq<char>>(session::outbound_views(out@)),
    {
        let ghost before = session::outbound_views(out@);
        assert(all.take(i + 1).drop_last() =~= all.take(i as int));
        assert(all.take(i + 1).last() == stored@[i as int]@);
        match make_ready(&stored[i]) {
            Ok(o) => {
                let ghost made = o@;
                out.push(o);
                assert(session::outbound_views(out@) =~= before.push(made));
            },
            Err(e) => {
                proof {
                    lemma_first_error(all, i + 1, e@);
                }
                return Err(e);
            },
        }
    }
    assert(all.take(all.len() as int) =~= all);
    Ok(out)
}

proof fn lemma_first_error(v: Seq<Seq<char>>, n: int, e: Seq<char>)
    requires
        0 <= n <= v.len(),
        all_ready(v.take(n)) == Err::<Seq<OutboundView>, _>(e),
    ensures
        all_ready(v) == Err::<Seq<OutboundView>, _>(e),
    decreases v.len() - n,
{
    if n < v.len() {
        assert(v.take(n + 1).drop_last() =~= v.take(n));
        lemma_first_error(v, n + 1, e);
    } else {
        assert(v.take(n) =~= v);
    }
}

// ---------------------------------------------------------------------
// Actions

/// What the page is to do.
#[derive(Debug)]
pub enum WebAction {
    Send { data: String },
    Log { kind: &'static str, text: String },
    Received { mid: String, raw: String },
    Delivered { mid: String },
    AlreadyDelivered { mid: String },
    Deferred { mid: String },
    Close,
    Done { ok: bool, text: String },
}

#[verifier::ext_equal]
pub enum WebActionView {
    Send { data: Seq<char> },
    Log { kind: Seq<char>, text: Seq<char> },
    Received { mid: Seq<char>, raw: Seq<char> },
    Delivered { mid: Seq<char> },
    AlreadyDelivered { mid: Seq<char> },
    Deferred { mid: Seq<char> },
    Close,
    Done { ok: bool, text: Seq<char> },
}

impl View for WebAction {
    type V = WebActionView;

    open spec fn view(&self) -> WebActionView {
        match self {
            WebAction::Send { data } => WebActionView::Send { data: data@ },
            WebAction::Log { kind, text } => WebActionView::Log { kind: kind@, text: text@ },
            WebAction::Received { mid, raw } => WebActionView::Received { mid: mid@, raw: raw@ },
            WebAction::Delivered { mid } => WebActionView::Delivered { mid: mid@ },
            WebAction::AlreadyDelivered { mid } => WebActionView::AlreadyDelivered { mid: mid@ },
            WebAction::Deferred { mid } => WebActionView::Deferred { mid: mid@ },
            WebAction::Close => WebActionView::Close,
            WebAction::Done { ok, text } => WebActionView::Done { ok: *ok, text: text@ },
        }
    }
}

pub open spec fn web_views(v: Seq<WebAction>) -> Seq<WebActionView> {
    Seq::new(v.len(), |i: int| v[i]@)
}

pub open spec fn kind_of(kind: LogKind) -> Seq<char> {
    match kind {
        LogKind::Info => "info"@,
        LogKind::Tx => "tx"@,
        LogKind::Rx => "rx"@,
        LogKind::Warn => "warn"@,
        LogKind::Error => "error"@,
        LogKind::Success => "ok"@,
    }
}

pub fn kind_name(kind: LogKind) -> (r: &'static str)
    ensures
        r@ == kind_of(kind),
{
    match kind {
        LogKind::Info => "info",
        LogKind::Tx => "tx",
        LogKind::Rx => "rx",
        LogKind::Warn => "warn",
        LogKind::Error => "error",
        LogKind::Success => "ok",
    }
}

/// An action as the page gets it.
pub open spec fn for_page(a: ActionView) -> WebActionView {
    match a {
        ActionView::Transmit(bytes) => WebActionView::Send { data: base64::encoded(bytes) },
        ActionView::Log(kind, text) => WebActionView::Log { kind: kind_of(kind), text },
        ActionView::Received { message, raw } => WebActionView::Received {
            mid: wire::mid_of(message),
            raw: base64::encoded(raw),
        },
        ActionView::Delivered(mid) => WebActionView::Delivered { mid },
        ActionView::AlreadyDelivered(mid) => WebActionView::AlreadyDelivered { mid },
        ActionView::Deferred(mid) => WebActionView::Deferred { mid },
        ActionView::Close => WebActionView::Close,
        ActionView::Done { ok, summary } => WebActionView::Done { ok, text: summary },
    }
}

pub open spec fn all_for_page(v: Seq<ActionView>) -> Seq<WebActionView> {
    Seq::new(v.len(), |i: int| for_page(v[i]))
}

fn encode_action(a: &Action) -> (r: WebAction)
    ensures
        r@ == for_page(a@),
{
    match a {
        Action::Transmit(bytes) => WebAction::Send { data: base64::encode(bytes) },
        Action::Log(kind, s) => WebAction::Log { kind: kind_name(*kind), text: s.clone() },
        Action::Received { message, raw } => WebAction::Received {
            mid: message.mid().to_owned(),
            raw: base64::encode(raw),
        },
        Action::Delivered(mid) => WebAction::Delivered { mid: mid.clone() },
        Action::AlreadyDelivered(mid) => WebAction::AlreadyDelivered { mid: mid.clone() },
        Action::Deferred(mid) => WebAction::Deferred { mid: mid.clone() },
        Action::Close => WebAction::Close,
        Action::Done { ok, summary } => WebAction::Done { ok: *ok, text: summary.clone() },
    }
}

/// The actions as the page gets them.
pub fn encode_actions(actions: Vec<Action>) -> (r: Vec<WebAction>)
    ensures
        web_views(r@) == all_for_page(exchange::action_views(actions@)),
{
    let mut out: Vec<WebAction> = Vec::new();
    let ghost all = all_for_page(exchange::action_views(actions@));
    for i in 0..actions.len()
        invariant
            all == all_for_page(exchange::action_views(actions@)),
            web_views(out@) == all.take(i as int),
    {
        let ghost before = web_views(out@);
        out.push(encode_action(&actions[i]));
        assert(web_views(out@) =~= before.push(all[i as int]));
    }
    assert(all.take(all.len() as int) =~= all);
    out
}

/// The exchange after a step, and what the page is to do.
pub open spec fn stepped(x: ExchangeView, out: Seq<WebActionView>, f: Run) -> bool {
    x == f.x && out == all_for_page(f.out)
}

/// One mail exchange over a WebSocket to the bridge.
#[derive(Debug)]
pub struct WebExchange {
    ex: Exchange,
}

impl View for WebExchange {
    type V = ExchangeView;

    closed spec fn view(&self) -> ExchangeView {
        self.ex@
    }
}

impl WebExchange {
    pub closed spec fn wf(&self) -> bool {
        self.ex.wf()
    }

    pub fn new(o: ExchangeOptions) -> (r: Result<WebExchange, String>)
        ensures
            match r {
                Ok(w) => w.wf() && planned(o@) == Ok::<_, Seq<char>>(w@),
                Err(e) => planned(o@) == Err::<ExchangeView, _>(e@),
            },
    {
        let call = to_call(&o.call);
        if call.as_str().is_empty() {
            return Err("enter your callsign".to_owned());
        }
        let (link, target) = if text::same(&o.mode, "cms") {
            (
                LinkSpec::Telnet { login_password: crate::CMS_TELNET_PASSWORD.to_owned() },
                crate::CMS_TARGET.to_owned(),
            )
        } else if text::same(&o.mode, "agw") {
            let gateway = to_call(&o.gateway);
            if gateway.as_str().is_empty() {
                return Err("enter the RMS gateway callsign".to_owned());
            }
            (
                LinkSpec::Agw { port: o.agw_port, via: to_path(&o.via), paclen: o.paclen },
                gateway,
            )
        } else {
            return Err(
                text::cat2("mode must be cms or agw, not ", &unicode::quote(&o.mode)),
            );
        };
        let outbound = match make_all_ready(&o.outbox) {
            Ok(v) => v,
            Err(e) => {
                return Err(e);
            },
        };
        let idle_timeout_ms = ExchangeConfig::default_timeout(&link);
        let password = match o.password {
            Some(p) => if p.as_str().is_empty() {
                None
            } else {
                Some(p)
            },
            None => None,
        };
        let cfg = ExchangeConfig {
            mycall: call,
            target,
            locator: to_call(&o.locator),
            password,
            link,
            idle_timeout_ms,
        };
        Ok(WebExchange { ex: Exchange::new(cfg, outbound, o.known) })
    }

    /// Call once the WebSocket is open.
    pub fn start(&mut self, now_ms: u64) -> (r: Vec<WebAction>)
        requires
            old(self).wf(),
        ensures
            final(self).wf(),
            stepped(
                final(self)@,
                web_views(r@),
                exchange::model::started(old(self)@, now_ms as int),
            ),
    {
        encode_actions(self.ex.start(now_ms))
    }

    /// Feed a WebSocket message (binary payload).
    pub fn on_bytes(&mut self, data: &[u8], now_ms: u64) -> (r: Vec<WebAction>)
        requires
            old(self).wf(),
        ensures
            final(self).wf(),
            stepped(
                final(self)@,
                web_views(r@),
                exchange::model::on_bytes(old(self)@, data@, now_ms as int),
            ),
    {
        encode_actions(self.ex.on_bytes(data, now_ms))
    }

    /// The WebSocket closed.
    pub fn on_closed(&mut self) -> (r: Vec<WebAction>)
        requires
            old(self).wf(),
        ensures
            final(self).wf(),
            stepped(final(self)@, web_views(r@), exchange::model::on_closed(old(self)@)),
    {
        encode_actions(self.ex.on_closed())
    }

    /// Timers; call about once a second.
    pub fn poll(&mut self, now_ms: u64) -> (r: Vec<WebAction>)
        requires
            old(self).wf(),
        ensures
            final(self).wf(),
            stepped(
                final(self)@,
                web_views(r@),
                exchange::model::polled(old(self)@, now_ms as int),
            ),
    {
        encode_actions(self.ex.poll(now_ms))
    }

    pub fn abort(&mut self) -> (r: Vec<WebAction>)
        requires
            old(self).wf(),
        ensures
            final(self).wf(),
            stepped(
                final(self)@,
                web_views(r@),
                exchange::model::aborted(
                    Run { x: old(self)@, out: seq![] },
                    "aborted by operator"@,
                ),
            ),
    {
        encode_actions(self.ex.abort("aborted by operator"))
    }

    pub fn is_done(&self) -> (r: bool)
        ensures
            r == self@.done,
    {
        self.ex.is_done()
    }
}

// ---------------------------------------------------------------------
// Messages

/// A file from the page: its name, and its content in base64.
#[derive(Debug)]
pub struct FileIn {
    pub name: String,
    pub data: String,
}

/// A message as it is written on the page.
#[derive(Debug)]
pub struct DraftIn {
    pub from: String,
    pub to: String,
    pub cc: String,
    pub subject: String,
    pub body: String,
    pub files: Vec<FileIn>,
}

/// A message for the outbox, in base64.
#[derive(Debug)]
pub struct Composed {
    pub mid: String,
    pub raw: String,
    pub warnings: Vec<String>,
}

#[verifier::ext_equal]
pub struct ComposedView {
    pub mid: Seq<char>,
    pub raw: Seq<char>,
    pub warnings: Seq<Seq<char>>,
}

impl View for Composed {
    type V = ComposedView;

    open spec fn view(&self) -> ComposedView {
        ComposedView { mid: self.mid@, raw: self.raw@, warnings: text::texts(self.warnings@) }
    }
}

pub open spec fn file_pairs(v: Seq<FileIn>) -> Seq<(Seq<char>, Seq<char>)> {
    Seq::new(v.len(), |i: int| (v[i].name@, v[i].data@))
}

/// The files with their contents; none if one cannot be decoded.
pub open spec fn unpacked(v: Seq<(Seq<char>, Seq<char>)>) -> Option<Seq<(Seq<char>, Seq<u8>)>>
    decreases v.len(),
{
    if v.len() == 0 {
        Some(seq![])
    } else {
        match (unpacked(v.drop_last()), base64::decoded(v.last().1)) {
            (Some(out), Some(data)) => Some(out.push((v.last().0, data))),
            _ => None,
        }
    }
}

/// The draft that the page's message makes at that time.
pub open spec fn draft_of(
    d: DraftIn,
    files: Seq<(Seq<char>, Seq<u8>)>,
    now_ms: int,
    entropy: int,
) -> DraftView {
    DraftView {
        from: call_of(d.from@),
        to: seq![d.to@],
        cc: seq![d.cc@],
        subject: d.subject@,
        body: d.body@,
        files,
        date: now_ms / 1000,
        mid: body::mid_for(call_of(d.from@), now_ms as nat, entropy as nat),
    }
}

/// The message for the outbox, or what is wrong with it.
pub open spec fn written_on_page(d: DraftIn, now_ms: int, entropy: int) -> Result<
    ComposedView,
    Seq<char>,
> {
    match unpacked(file_pairs(d.files@)) {
        None => Err("invalid base64"@),
        Some(files) => match message::composed(draft_of(d, files, now_ms, entropy)) {
            Err(e) => Err(e),
            Ok((m, warnings)) => Ok(
                ComposedView {
                    mid: wire::mid_of(m),
                    raw: base64::encoded(wire::written(m)),
                    warnings,
                },
            ),
        },
    }
}

proof fn lemma_unpacked_prefix(v: Seq<(Seq<char>, Seq<char>)>, n: int)
    requires
        0 <= n <= v.len(),
        unpacked(v.take(n)) is None,
    ensures
        unpacked(v) is None,
    decreases v.len() - n,
{
    if n < v.len() {
        assert(v.take(n + 1).drop_last() =~= v.take(n));
        lemma_unpacked_prefix(v, n + 1);
    } else {
        assert(v.take(n) =~= v);
    }
}

fn unpack(v: &[FileIn]) -> (r: Result<Vec<Attachment>, String>)
    ensures
        match r {
            Ok(files) => unpacked(file_pairs(v@)) == Some(message::file_views(files@)),
            Err(e) => unpacked(file_pairs(v@)) is None && e@ == "invalid base64"@,
        },
{
    let mut out: Vec<Attachment> = Vec::new();
    let ghost all = file_pairs(v@);
    assert(all.take(0) =~= seq![]);
    assert(message::file_views(out@) =~= seq![]);
    for i in 0..v.len()
        invariant
            all == file_pairs(v@),
            unpacked(all.take(i as int)) == Some(message::file_views(out@)),
    {
        let ghost before = message::file_views(out@);
        assert(all.take(i + 1).drop_last() =~= all.take(i as int));
        assert(all.take(i + 1).last() == (v@[i as int].name@, v@[i as int].data@));
        match base64::decode(&v[i].data) {
            Ok(data) => {
                let ghost made = (v@[i as int].name@, data@);
                out.push(Attachment { name: v[i].name.clone(), data });
                assert(message::file_views(out@) =~= before.push(made));
            },
            Err(e) => {
                proof {
                    lemma_unpacked_prefix(all, i + 1);
                }
                return Err(e);
            },
        }
    }
    assert(all.take(all.len() as int) =~= all);
    Ok(out)
}

/// Builds a message for the outbox.
pub fn compose_message(d: DraftIn, now_ms: u64, entropy: u64) -> (r: Result<Composed, String>)
    ensures
        match r {
            Ok(c) => written_on_page(d, now_ms as int, entropy as int) == Ok::<_, Seq<char>>(c@),
            Err(e) => written_on_page(d, now_ms as int, entropy as int) == Err::<ComposedView, _>(
                e@,
            ),
        },
{
    let files = match unpack(&d.files) {
        Ok(files) => files,
        Err(e) => {
            return Err(e);
        },
    };
    let from = to_call(&d.from);
    let mid = generate_mid(&from, now_ms, entropy);
    let ghost view = draft_of(d, message::file_views(files@), now_ms as int, entropy as int);
    let draft = Draft {
        mid,
        from,
        to: vec![d.to],
        cc: vec![d.cc],
        subject: d.subject,
        body: d.body,
        files,
        date: clock::now_secs(now_ms),
    };
    assert(text::texts(draft.to@) =~= seq![d.to@]);
    assert(text::texts(draft.cc@) =~= seq![d.cc@]);
    assert(draft@ =~= view);
    match Message::compose(draft) {
        Ok((m, warnings)) => Ok(
            Composed {
                mid: m.mid().to_owned(),
                raw: base64::encode(&m.to_bytes()),
                warnings,
            },
        ),
        Err(e) => Err(e),
    }
}

/// An attachment as the page shows it.
#[derive(Debug)]
pub struct FileOut {
    pub name: String,
    pub size: usize,
    /// Base64.
    pub data: String,
}

/// A message as the page shows it.
#[derive(Debug)]
pub struct Shown {
    pub mid: String,
    pub from: String,
    pub to: Vec<String>,
    pub cc: Vec<String>,
    pub subject: String,
    pub date: String,
    /// Seconds since the epoch, for sorting.
    pub time: Option<i64>,
    pub body: String,
    pub files: Vec<FileOut>,
    pub size: usize,
}

pub open spec fn file_outs(v: Seq<FileOut>) -> Seq<(Seq<char>, int, Seq<char>)> {
    Seq::new(v.len(), |i: int| (v[i].name@, v[i].size as int, v[i].data@))
}

/// The addresses as they are shown.
pub open spec fn displayed_all(v: Seq<Seq<char>>) -> Seq<Seq<char>> {
    Seq::new(v.len(), |i: int| address::displayed(v[i]))
}

pub open spec fn packed(v: Seq<(Seq<char>, Seq<u8>)>) -> Seq<(Seq<char>, int, Seq<char>)> {
    Seq::new(v.len(), |i: int| (v[i].0, v[i].1.len() as int, base64::encoded(v[i].1)))
}

/// Does this show that message, read from so many bytes?
pub open spec fn shows(s: Shown, m: MessageView, size: nat) -> bool {
    &&& s.mid@ == wire::mid_of(m)
    &&& s.from@ == address::displayed(message::from_of(m))
    &&& text::texts(s.to@) == displayed_all(message::to_of(m))
    &&& text::texts(s.cc@) == displayed_all(message::cc_of(m))
    &&& s.subject@ == message::subject_of(m)
    &&& s.date@ == message::date_of(m)
    &&& match s.time {
        Some(t) => crate::date::parsed(message::date_of(m)) == Some(t as int),
        None => crate::date::parsed(message::date_of(m)) is None,
    }
    &&& s.body@ == message::body_text_of(m)
    &&& file_outs(s.files@) == packed(m.files)
    &&& s.size == size
}

fn display_all(v: &[String]) -> (r: Vec<String>)
    ensures
        text::texts(r@) == displayed_all(text::texts(v@)),
{
    let mut out: Vec<String> = Vec::new();
    let ghost all = displayed_all(text::texts(v@));
    for i in 0..v.len()
        invariant
            all == displayed_all(text::texts(v@)),
            text::texts(out@) == all.take(i as int),
    {
        let ghost before = text::texts(out@);
        out.push(display_address(&v[i]).to_owned());
        assert(text::texts(out@) =~= before.push(all[i as int]));
    }
    assert(all.take(all.len() as int) =~= all);
    out
}

fn pack(v: &[Attachment]) -> (r: Vec<FileOut>)
    ensures
        file_outs(r@) == packed(message::file_views(v@)),
{
    let mut out: Vec<FileOut> = Vec::new();
    let ghost all = packed(message::file_views(v@));
    for i in 0..v.len()
        invariant
            all == packed(message::file_views(v@)),
            file_outs(out@) == all.take(i as int),
    {
        let ghost before = file_outs(out@);
        out.push(
            FileOut {
                name: v[i].name.clone(),
                size: v[i].data.len(),
                data: base64::encode(&v[i].data),
            },
        );
        assert(file_outs(out@) =~= before.push(all[i as int]));
    }
    assert(all.take(all.len() as int) =~= all);
    out
}

/// Parses a stored raw message (base64) for display.
pub fn read_message(stored: &str) -> (r: Result<Shown, String>)
    ensures
        match base64::decoded(stored@) {
            None => r matches Err(e) && e@ == "invalid base64"@,
            Some(raw) => match wire::read(raw) {
                Err(fault) => r matches Err(e) && e@ == fault,
                Ok(m) => r matches Ok(s) && shows(s, m, raw.len()),
            },
        },
{
    let raw = match base64::decode(stored) {
        Ok(raw) => raw,
        Err(e) => {
            return Err(e);
        },
    };
    let m = match Message::parse(&raw) {
        Ok(m) => m,
        Err(e) => {
            return Err(e);
        },
    };
    let from = m.from();
    Ok(
        Shown {
            mid: m.mid().to_owned(),
            from: display_address(&from).to_owned(),
            to: display_all(&m.to()),
            cc: display_all(&m.cc()),
            subject: m.subject(),
            date: m.date().to_owned(),
            time: m.unix_date(),
            body: m.body_text(),
            files: pack(&m.files),
            size: raw.len(),
        },
    )
}

// ---------------------------------------------------------------------
// Laws

/// What the page sends on is what the exchange wanted sent: each chunk is
/// decoded to the bytes.
pub proof fn law_page_sends_the_bytes(bytes: Seq<u8>)
    ensures
        for_page(ActionView::Transmit(bytes)) matches WebActionView::Send { data }
            && base64::decoded(data) == Some(bytes),
{
    base64::law_base64_roundtrip(bytes);
}

/// A message that the page stores is read again as it was received.
pub proof fn law_page_keeps_the_message(m: MessageView, raw: Seq<u8>)
    ensures
        for_page(ActionView::Received { message: m, raw }) matches WebActionView::Received {
            mid,
            raw: stored,
        } && mid == wire::mid_of(m) && base64::decoded(stored) == Some(raw),
{
    base64::law_base64_roundtrip(raw);
}

/// What the page stores of a message that was written on it are the bytes
/// that go on the wire.
pub proof fn law_page_stores_the_message(
    d: DraftIn,
    files: Seq<(Seq<char>, Seq<u8>)>,
    m: MessageView,
    warnings: Seq<Seq<char>>,
    now_ms: int,
    entropy: int,
)
    requires
        unpacked(file_pairs(d.files@)) == Some(files),
        message::composed(draft_of(d, files, now_ms, entropy)) == Ok::<_, Seq<char>>((m, warnings)),
    ensures
        written_on_page(d, now_ms, entropy) matches Ok(c) && base64::decoded(c.raw) == Some(
            wire::written(m),
        ),
{
    base64::law_base64_roundtrip(wire::written(m));
}

} // verus!

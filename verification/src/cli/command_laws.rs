//! Laws of the commands: what a station is reached by, what becomes of a
//! message that is written, and what the commands are for.

use vstd::prelude::*;

use crate::agw;
use crate::charset;
use crate::cli::args::{Config, ConfigView};
use crate::cli::compose;
use crate::cli::compose::{ComposeView, Stage};
use crate::cli::model;
use crate::cli::model::{AppView, AskView, ModeView, PurposeView, TurnView};
use crate::cli::say::SayView;
use crate::cli::target;
use crate::cli::target::{Plan, Target, TargetView};
use crate::date;
use crate::exchange;
use crate::exchange::{ActionView, LinkSpec, LinkSpecView};
use crate::mailbox;
use crate::mailbox::{Folder, FoundView};
use crate::message;
use crate::message::address;
use crate::message::body;
use crate::message::compose_laws;
use crate::message::header;
use crate::message::laws::one_line;
use crate::message::wire;
use crate::message::MessageView;
use crate::session::OutboundView;
use crate::text;
use crate::text::Class;
use crate::unicode;

verus! {

// ---------------------------------------------------------------------
// Stations

/// How each station is reached. A gateway on the radio: through the AGW
/// server, on its port, by its callsign, through exactly the digipeaters that
/// were named, in order. The Winlink system: by its address, with the password
/// that is the same for everyone. A peer: by its own address and callsign,
/// with no password.
pub proof fn law_stations_are_reached(cfg: Config, t: Target, p: Plan)
    requires
        p@ == target::plan_for(cfg@, t@),
    ensures
        match t {
            Target::Ax25 { gateway, via } => {
                &&& p.addr@ == cfg.agw@
                &&& p.remote@ == gateway@
                &&& p.link matches LinkSpec::Agw { port, via: through, paclen } && {
                    &&& port == cfg.agw_port
                    &&& paclen == cfg.paclen
                    &&& through@.len() == via@.len()
                    &&& forall|i: int| 0 <= i < via@.len() ==> through@[i]@ == (#[trigger] via@[i])@
                }
            },
            Target::Cms => {
                &&& p.addr@ == cfg.cms@
                &&& p.remote@ == "WL2K"@
                &&& p.link matches LinkSpec::Telnet { login_password } && login_password@
                    == "CMSTelnet"@
            },
            Target::P2p { addr, call } => {
                &&& p.addr@ == addr@
                &&& p.remote@ == call@
                &&& p.link matches LinkSpec::Telnet { login_password } && login_password@.len() == 0
            },
        },
{
    reveal_strlit("");
    if let Target::Ax25 { gateway, via } = t {
        if let LinkSpec::Agw { port, via: through, paclen } = p.link {
            assert(text::texts(through@) == text::texts(via@));
            assert(text::texts(through@).len() == text::texts(via@).len());
            assert forall|i: int| 0 <= i < via@.len() implies through@[i]@ == (
            #[trigger] via@[i])@ by {
                assert(text::texts(through@)[i] == text::texts(via@)[i]);
            }
        }
    }
}

proof fn lemma_split_concat(a: Seq<char>, b: Seq<char>, c: char)
    ensures
        text::split(a + seq![c] + b, Class::One(c)) == text::split(a, Class::One(c)) + text::split(
            b,
            Class::One(c),
        ),
    decreases a.len(),
{
    let k = Class::One(c);
    text::lemma_first(a, k);
    let n = text::first(a, k) as int;
    let s = a + seq![c] + b;
    if n < a.len() {
        let (x, y) = (a.take(n), a.skip(n + 1));
        lemma_split_concat(y, b, c);
        assert(a =~= x + seq![c] + y);
        assert(s =~= x + seq![c] + (y + seq![c] + b));
        text::lemma_split_at(x, c, y + seq![c] + b, k);
        text::lemma_split_at(x, c, y, k);
        assert(seq![x] + (text::split(y, k) + text::split(b, k)) =~= seq![x] + text::split(y, k)
            + text::split(b, k));
    } else {
        text::lemma_split_at(a, c, b, k);
    }
}

/// Names that can stand in a list with commas.
pub open spec fn are_names(v: Seq<Seq<char>>) -> bool {
    forall|i: int|
        0 <= i < v.len() ==> (#[trigger] v[i]).len() > 0 && text::free_of(v[i], Class::One(','))
}

proof fn lemma_list_read(v: Seq<Seq<char>>)
    requires
        v.len() > 0,
        are_names(v),
    ensures
        text::split(text::join(v, ","@), Class::One(',')) == v,
    decreases v.len(),
{
    reveal_strlit(",");
    let less = v.drop_last();
    let last = v[v.len() - 1];
    text::lemma_free_of_first(last, Class::One(','));
    assert(last.len() > 0);
    if v.len() == 1 {
        assert(v =~= seq![last]);
    } else {
        assert(are_names(less)) by {
            assert forall|i: int| 0 <= i < less.len() implies (#[trigger] less[i]).len() > 0
                && text::free_of(less[i], Class::One(',')) by {
                assert(less[i] == v[i]);
            }
        }
        lemma_list_read(less);
        assert(","@ =~= seq![',']);
        lemma_split_concat(text::join(less, ","@), last, ',');
        assert(less + seq![last] =~= v);
    }
}

proof fn lemma_none_empty(v: Seq<Seq<char>>)
    requires
        are_names(v),
    ensures
        text::non_empty(v) == v,
    decreases v.len(),
{
    if v.len() > 0 {
        let less = v.drop_last();
        assert(v[v.len() - 1].len() > 0);
        assert(are_names(less)) by {
            assert forall|i: int| 0 <= i < less.len() implies (#[trigger] less[i]).len() > 0
                && text::free_of(less[i], Class::One(',')) by {
                assert(less[i] == v[i]);
            }
        }
        lemma_none_empty(less);
        assert(less.push(v.last()) =~= v);
    } else {
        assert(text::non_empty(v) =~= v);
    }
}

/// `ax25 GATEWAY via A,B,C` names the gateway and the digipeaters A, B and C,
/// in that order; without `via` there are none. `p2p ADDRESS CALL` names a
/// peer. No argument, `cms` and `telnet` name the Winlink system.
pub proof fn law_connect_names_stations(gw: Seq<char>, v: Seq<Seq<char>>)
    requires
        v.len() > 0,
        are_names(v),
    ensures
        target::target_in(seq!["ax25"@, gw]) matches Some(TargetView::Ax25 { gateway, via })
            && gateway == unicode::upper(gw) && via.len() == 0,
        target::target_in(seq!["ax25"@, gw, "via"@, text::join(v, ","@)]) matches Some(
            TargetView::Ax25 { gateway, via },
        ) && gateway == unicode::upper(gw) && via.len() == v.len() && forall|i: int|
            0 <= i < v.len() ==> #[trigger] via[i] == unicode::upper(v[i]),
        target::target_in(seq!["p2p"@, gw, v[0]]) matches Some(TargetView::P2p { addr, call })
            && call == unicode::upper(v[0]) && addr.take(gw.len() as int) == gw,
        target::target_in(seq![]) == Some(TargetView::Cms),
        target::target_in(seq!["cms"@]) == Some(TargetView::Cms),
        target::target_in(seq!["telnet"@]) == Some(TargetView::Cms),
{
    reveal_strlit("ax25");
    reveal_strlit("via");
    reveal_strlit("p2p");
    lemma_list_read(v);
    lemma_none_empty(v);
    let addr = target::ported(gw, crate::P2P_PORT);
    assert(addr.take(gw.len() as int) =~= gw);
    assert(seq!["p2p"@, gw, v[0]].len() == 3);
}

/// A peer's address keeps the port that it names, and gets the usual one
/// where it names none.
pub proof fn law_ports(addr: Seq<char>, port: u16)
    ensures
        addr.contains(':') ==> target::ported(addr, port) == addr,
        !addr.contains(':') ==> target::ported(addr, port) == addr + ":"@ + text::decimal(
            port as nat,
        ),
{
    text::lemma_first(addr, Class::One(':'));
    let n = text::first(addr, Class::One(':')) as int;
    if n < addr.len() {
        assert(addr[n] == ':');
    } else if addr.contains(':') {
        let k = choose|k: int| 0 <= k < addr.len() && addr[k] == ':';
        assert(!text::is_in(Class::One(':'), addr[k]));
    }
}

/// An exchange with a gateway on the radio begins by asking the AGW server,
/// under our callsign, for a connection to that gateway through the
/// digipeaters that were named.
pub proof fn law_gateway_is_called(
    cfg: ConfigView,
    gateway: Seq<char>,
    via: Seq<Seq<char>>,
    outbound: Seq<OutboundView>,
    known: Set<Seq<char>>,
    now: int,
)
    ensures
        ({
            let p = target::plan_for(cfg, TargetView::Ax25 { gateway, via });
            let x = exchange::fresh(
                model::exchange_config(cfg, p.link, p.remote),
                outbound,
                known,
            );
            exchange::model::started(x, now).out.last() == ActionView::Transmit(
                agw::encoded(agw::frame(0x58, cfg.agw_port, cfg.call, ""@, seq![])) + agw::encoded(
                    agw::connect_frame(cfg.agw_port, cfg.call, gateway, via),
                ),
            )
        }),
{
}

/// An exchange is made with our own callsign, locator and password, to the
/// station that was asked for, over the link that leads there, with the
/// messages of the outbox and what is held already.
pub proof fn law_exchange_is_ours(
    a: AppView,
    link: LinkSpecView,
    remote: Seq<char>,
    outbox: Result<Seq<FoundView>, Seq<char>>,
    known: Seq<Seq<char>>,
    now_ms: int,
)
    requires
        !(link is TelnetAnswer),
        !(link is Raw),
    ensures
        ({
            let (b, t) = model::begun(a, link, remote, outbox, known, None, now_ms);
            let x = b.mode->x;
            &&& b.mode is Exchange
            &&& x.mycall == a.cfg.call
            &&& x.target == remote
            &&& x.locator == a.cfg.locator
            &&& x.password == a.cfg.password
            &&& x.link is Agw == link is Agw
            &&& x.link is Telnet == link is Telnet
            &&& x.session matches Some(s) && {
                &&& s.cfg.mycall == a.cfg.call
                &&& s.cfg.targetcall == remote
                &&& s.cfg.locator == a.cfg.locator
                &&& s.cfg.password == a.cfg.password
                &&& !s.cfg.master
                &&& s.outbound == model::outbound(outbox).0
                &&& s.known == mailbox::stems(known).to_set()
            }
            &&& t.ask is Apply
        }),
{
}

// ---------------------------------------------------------------------
// Writing messages

/// A message that is queued has the addresses, the subject, the text and the
/// files that were given, is from our callsign, and bears the time.
#[verifier::spinoff_prover]
#[verifier::rlimit(60)]
pub proof fn law_queued_is_what_was_given(cfg: ConfigView, c: ComposeView, now_ms: int, entropy: int)
    requires
        one_line(text::trim(cfg.call)),
    ensures
        model::queued(cfg, c, now_ms, entropy).ask matches AskView::StoreOutgoing(m) ==> {
            let f = m.fields;
            &&& address::addresses(c.to) == Ok::<_, Seq<char>>(header::values_of(f, "To"@))
            &&& address::addresses(c.cc) == Ok::<_, Seq<char>>(header::values_of(f, "Cc"@))
            &&& header::values_of(f, "From"@) == seq![unicode::upper(text::trim(cfg.call))]
            &&& header::values_of(f, "Subject"@) == seq![
                charset::encoded_header(text::trim(c.subject)),
            ]
            &&& header::values_of(f, "Date"@) == seq![date::formatted(now_ms / 1000)]
            &&& header::values_of(f, "Mid"@) == seq![
                body::mid_for(cfg.call, now_ms as nat, entropy as nat),
            ]
            &&& m.body == charset::encoded_text(body::normalized_body(text::join(c.body, "\n"@)))
            &&& m.files.len() == c.files.len()
            &&& forall|i: int|
                0 <= i < c.files.len() ==> #[trigger] m.files[i] == (
                    body::sanitized(c.files[i].0),
                    c.files[i].1,
                )
        },
        model::queued(cfg, c, now_ms, entropy).ask is StoreOutgoing || (model::queued(
            cfg,
            c,
            now_ms,
            entropy,
        ).ask is Nothing && model::queued(cfg, c, now_ms, entropy).says.len() == 1 && model::queued(
            cfg,
            c,
            now_ms,
            entropy,
        ).says[0] is Error),
{
    let d = message::DraftView {
        from: cfg.call,
        to: c.to,
        cc: c.cc,
        subject: c.subject,
        body: text::join(c.body, "\n"@),
        files: c.files,
        date: now_ms / 1000,
        mid: body::mid_for(cfg.call, now_ms as nat, entropy as nat),
    };
    body::law_mid_is_valid(cfg.call, now_ms as nat, entropy as nat);
    assert(one_line(d.mid)) by {
        assert forall|i: int| 0 <= i < d.mid.len() implies !text::is_in(
            Class::One('\n'),
            #[trigger] d.mid[i],
        ) by {
            assert(body::is_base32(d.mid[i]));
        }
    }
    compose_laws::lemma_one_line_trim(d.mid);
    if message::composed(d) is Ok {
        compose_laws::law_header_is_what_was_given(d);
        assert(model::queued(cfg, c, now_ms, entropy).ask == AskView::StoreOutgoing(
            compose_laws::made(d),
        ));
    }
}

/// The answer at each prompt becomes that part of the message: the addresses
/// after To, those after Cc, then the subject. An answer that is no list of
/// addresses is asked for again.
pub proof fn law_prompts_are_answered(c: ComposeView, line: Seq<char>)
    requires
        text::trim(compose::chopped(line)) != "~q"@,
    ensures
        ({
            let (step, _) = compose::stepped(c, line);
            let s = compose::chopped(line);
            &&& c.stage == Stage::To && text::trim(s).len() > 0 ==> match address::addresses(
                seq![s],
            ) {
                Ok(v) => step matches compose::StepView::More(d) && d.to == v && d.cc == c.cc
                    && d.subject == c.subject && d.body == c.body && d.files == c.files && d.stage
                    == Stage::Cc,
                Err(_) => step == compose::StepView::More(c),
            }
            &&& c.stage == Stage::Cc ==> match address::addresses(seq![s]) {
                Ok(v) => step matches compose::StepView::More(d) && d.cc == v && d.to == c.to
                    && d.subject == c.subject && d.body == c.body && d.files == c.files && d.stage
                    == Stage::Subject,
                Err(_) => step == compose::StepView::More(c),
            }
            &&& c.stage == Stage::Subject && text::trim(s).len() > 0 ==> (
            step matches compose::StepView::More(d) && d.subject == text::trim(s) && d.to == c.to
                && d.cc == c.cc && d.body == c.body && d.files == c.files && d.stage == Stage::Body)
            &&& c.stage == Stage::Body && s == "."@ ==> (step matches compose::StepView::More(d)
                && d.to == c.to && d.cc == c.cc && d.subject == c.subject && d.body == c.body
                && d.files == c.files && d.stage == Stage::Attach)
            &&& c.stage == Stage::Attach && text::trim(s).len() == 0 ==> step
                == compose::StepView::Complete(c)
            &&& c.stage == Stage::Attach && text::trim(s).len() > 0 ==> step
                == compose::StepView::Attach(text::trim(s), c)
        }),
{
}

/// A file that could be read is attached behind those that are there, with
/// all of its data; nothing else of the message changes.
pub proof fn law_file_is_attached(c: ComposeView, path: Seq<char>, f: compose::Read)
    ensures
        ({
            let d = compose::with_file(c, path, Ok(f)).0;
            &&& d.files.len() == c.files.len() + 1
            &&& d.files.take(c.files.len() as int) == c.files
            &&& d.files.last().1 == f.data@
            &&& f.name matches Some(name) ==> d.files.last().0 == name@
            &&& d.to == c.to && d.cc == c.cc && d.subject == c.subject && d.body == c.body
                && d.stage == c.stage
        }),
{
    let d = compose::with_file(c, path, Ok(f)).0;
    assert(d.files.take(c.files.len() as int) =~= c.files);
}

/// The message that is being written, and after the last line the turn.
pub open spec fn after_lines(a: AppView, lines: Seq<Seq<char>>, now_ms: int, entropy: int) -> (
    AppView,
    TurnView,
)
    decreases lines.len(),
{
    if lines.len() == 0 {
        (a, TurnView { says: seq![], ask: AskView::Nothing })
    } else {
        model::line_read(
            after_lines(a, lines.drop_last(), now_ms, entropy).0,
            lines.last(),
            now_ms,
            entropy,
        )
    }
}

proof fn lemma_body_lines(a: AppView, c: ComposeView, lines: Seq<Seq<char>>, now_ms: int, entropy: int)
    requires
        a.mode == ModeView::Compose(c),
        c.stage == Stage::Body,
        compose::are_body_lines(lines),
    ensures
        after_lines(a, lines, now_ms, entropy).0 == (AppView {
            mode: ModeView::Compose(ComposeView { body: c.body + lines, ..c }),
            ..a
        }),
    decreases lines.len(),
{
    if lines.len() == 0 {
        assert(c.body + lines =~= c.body);
    } else {
        let less = lines.drop_last();
        assert(compose::are_body_lines(less)) by {
            assert forall|i: int| 0 <= i < less.len() implies (#[trigger] less[i])
                == compose::chopped(less[i]) && less[i] != "."@ && text::trim(less[i])
                != "~q"@ by {
                assert(less[i] == lines[i]);
            }
        }
        lemma_body_lines(a, c, less, now_ms, entropy);
        let last = lines[lines.len() - 1];
        assert(last == compose::chopped(last) && last != "."@ && text::trim(last) != "~q"@);
        assert((c.body + less).push(last) =~= c.body + lines);
    }
}

/// A message that is written at the prompts, line by line, is stored with the
/// addresses that were answered at To and at Cc, the subject that was
/// answered, and the lines that were typed up to the full stop.
#[verifier::spinoff_prover]
#[verifier::rlimit(40)]
pub proof fn law_written_message_is_stored(
    a: AppView,
    to_line: Seq<char>,
    cc_line: Seq<char>,
    subject_line: Seq<char>,
    lines: Seq<Seq<char>>,
    to: Seq<Seq<char>>,
    cc: Seq<Seq<char>>,
    now_ms: int,
    entropy: int,
)
    requires
        a.mode == ModeView::Compose(compose::blank()),
        one_line(text::trim(a.cfg.call)),
        address::addresses(seq![compose::chopped(to_line)]) == Ok::<_, Seq<char>>(to),
        address::addresses(seq![compose::chopped(cc_line)]) == Ok::<_, Seq<char>>(cc),
        text::trim(compose::chopped(to_line)).len() > 0,
        text::trim(compose::chopped(subject_line)).len() > 0,
        text::trim(compose::chopped(to_line)) != "~q"@,
        text::trim(compose::chopped(cc_line)) != "~q"@,
        text::trim(compose::chopped(subject_line)) != "~q"@,
        compose::are_body_lines(lines),
    ensures
        ({
            let b = after_lines(a, seq![to_line, cc_line, subject_line], now_ms, entropy).0;
            let c = after_lines(b, lines, now_ms, entropy).0;
            let (d, turn) = after_lines(c, seq!["."@, ""@], now_ms, entropy);
            &&& d.mode is Idle
            &&& turn.ask matches AskView::StoreOutgoing(m) ==> {
                &&& address::addresses(to) == Ok::<_, Seq<char>>(
                    header::values_of(m.fields, "To"@),
                )
                &&& address::addresses(cc) == Ok::<_, Seq<char>>(
                    header::values_of(m.fields, "Cc"@),
                )
                &&& header::values_of(m.fields, "Subject"@) == seq![
                    charset::encoded_header(
                        text::trim(text::trim(compose::chopped(subject_line))),
                    ),
                ]
                &&& m.body == charset::encoded_text(
                    body::normalized_body(text::join(lines, "\n"@)),
                )
                &&& m.files.len() == 0
            }
        }),
{
    let c3 = ComposeView {
        subject: text::trim(compose::chopped(subject_line)),
        stage: Stage::Body,
        to,
        cc,
        ..compose::blank()
    };
    lemma_first_lines(a, to_line, cc_line, subject_line, to, cc, now_ms, entropy);
    let b = AppView { mode: ModeView::Compose(c3), ..a };
    lemma_body_lines(b, c3, lines, now_ms, entropy);
    assert(c3.body + lines =~= lines);
    let c4 = ComposeView { body: lines, ..c3 };
    let c = AppView { mode: ModeView::Compose(c4), ..a };
    assert(after_lines(b, lines, now_ms, entropy).0 == c);
    lemma_last_lines(c, c4, now_ms, entropy);
    lemma_stored(a.cfg, ComposeView { stage: Stage::Attach, ..c4 }, now_ms, entropy);
}

/// What is stored of a message, part by part.
proof fn lemma_stored(cfg: ConfigView, c: ComposeView, now_ms: int, entropy: int)
    requires
        one_line(text::trim(cfg.call)),
    ensures
        model::queued(cfg, c, now_ms, entropy).ask matches AskView::StoreOutgoing(m) ==> {
            &&& address::addresses(c.to) == Ok::<_, Seq<char>>(header::values_of(m.fields, "To"@))
            &&& address::addresses(c.cc) == Ok::<_, Seq<char>>(header::values_of(m.fields, "Cc"@))
            &&& header::values_of(m.fields, "Subject"@) == seq![
                charset::encoded_header(text::trim(c.subject)),
            ]
            &&& m.body == charset::encoded_text(body::normalized_body(text::join(c.body, "\n"@)))
            &&& m.files.len() == c.files.len()
        },
{
    law_queued_is_what_was_given(cfg, c, now_ms, entropy);
}

#[verifier::spinoff_prover]
proof fn lemma_first_lines(
    a: AppView,
    to_line: Seq<char>,
    cc_line: Seq<char>,
    subject_line: Seq<char>,
    to: Seq<Seq<char>>,
    cc: Seq<Seq<char>>,
    now_ms: int,
    entropy: int,
)
    requires
        a.mode == ModeView::Compose(compose::blank()),
        address::addresses(seq![compose::chopped(to_line)]) == Ok::<_, Seq<char>>(to),
        address::addresses(seq![compose::chopped(cc_line)]) == Ok::<_, Seq<char>>(cc),
        text::trim(compose::chopped(to_line)).len() > 0,
        text::trim(compose::chopped(subject_line)).len() > 0,
        text::trim(compose::chopped(to_line)) != "~q"@,
        text::trim(compose::chopped(cc_line)) != "~q"@,
        text::trim(compose::chopped(subject_line)) != "~q"@,
    ensures
        after_lines(a, seq![to_line, cc_line, subject_line], now_ms, entropy).0 == (AppView {
            mode: ModeView::Compose(
                ComposeView {
                    subject: text::trim(compose::chopped(subject_line)),
                    stage: Stage::Body,
                    to,
                    cc,
                    ..compose::blank()
                },
            ),
            ..a
        }),
{
    let c0 = compose::blank();
    let c1 = ComposeView { to, stage: Stage::Cc, ..c0 };
    let c2 = ComposeView { cc, stage: Stage::Subject, ..c1 };
    let c3 = ComposeView {
        subject: text::trim(compose::chopped(subject_line)),
        stage: Stage::Body,
        ..c2
    };
    let all = seq![to_line, cc_line, subject_line];
    assert(compose::stepped(c0, all[0]).0 == compose::StepView::More(c1));
    assert(compose::stepped(c1, all[1]).0 == compose::StepView::More(c2));
    assert(compose::stepped(c2, all[2]).0 == compose::StepView::More(c3));
    lemma_three_lines(a, all, c1, c2, c3, now_ms, entropy);
}

/// One line of a message that is being written.
proof fn lemma_one_more(
    a: AppView,
    c: ComposeView,
    line: Seq<char>,
    d: ComposeView,
    now_ms: int,
    entropy: int,
)
    requires
        a.mode == ModeView::Compose(c),
        compose::stepped(c, line).0 == compose::StepView::More(d),
    ensures
        model::line_read(a, line, now_ms, entropy).0 == (AppView {
            mode: ModeView::Compose(d),
            ..a
        }),
{
}

proof fn lemma_three_lines(
    a: AppView,
    all: Seq<Seq<char>>,
    c1: ComposeView,
    c2: ComposeView,
    c3: ComposeView,
    now_ms: int,
    entropy: int,
)
    requires
        a.mode == ModeView::Compose(compose::blank()),
        all.len() == 3,
        compose::stepped(compose::blank(), all[0]).0 == compose::StepView::More(c1),
        compose::stepped(c1, all[1]).0 == compose::StepView::More(c2),
        compose::stepped(c2, all[2]).0 == compose::StepView::More(c3),
    ensures
        after_lines(a, all, now_ms, entropy).0 == (AppView { mode: ModeView::Compose(c3), ..a }),
{
    let two = all.drop_last();
    let one = two.drop_last();
    assert(one.drop_last() =~= seq![]);
    assert(one.last() == all[0] && two.last() == all[1] && all.last() == all[2]);
    assert(after_lines(a, one.drop_last(), now_ms, entropy).0 == a);
    lemma_one_more(a, compose::blank(), all[0], c1, now_ms, entropy);
    let a1 = AppView { mode: ModeView::Compose(c1), ..a };
    assert(after_lines(a, one, now_ms, entropy).0 == a1);
    lemma_one_more(a1, c1, all[1], c2, now_ms, entropy);
    let a2 = AppView { mode: ModeView::Compose(c2), ..a };
    assert(after_lines(a, two, now_ms, entropy).0 == a2);
    lemma_one_more(a2, c2, all[2], c3, now_ms, entropy);
}

#[verifier::spinoff_prover]
#[verifier::rlimit(60)]
proof fn lemma_last_lines(a: AppView, c: ComposeView, now_ms: int, entropy: int)
    requires
        a.mode == ModeView::Compose(c),
        c.stage == Stage::Body,
    ensures
        after_lines(a, seq!["."@, ""@], now_ms, entropy) == (
            AppView { mode: ModeView::Idle, ..a },
            model::queued(
                a.cfg,
                ComposeView { stage: Stage::Attach, ..c },
                now_ms,
                entropy,
            ),
        ),
{
    reveal_strlit("");
    reveal_strlit(".");
    reveal_strlit("~q");
    let end = seq!["."@, ""@];
    let one = end.drop_last();
    assert(one.drop_last() =~= seq![]);
    assert(one.last() == "."@ && end.last() == ""@);
    lemma_chopped(".");
    lemma_chopped("");
    let d = ComposeView { stage: Stage::Attach, ..c };
    assert(after_lines(a, one.drop_last(), now_ms, entropy).0 == a);
    lemma_one_more(a, c, "."@, d, now_ms, entropy);
    let b = AppView { mode: ModeView::Compose(d), ..a };
    assert(after_lines(a, one, now_ms, entropy).0 == b);
    assert(compose::stepped(d, ""@).0 == compose::StepView::Complete(d));
}

proof fn lemma_chopped(s: &str)
    requires
        s@ == "."@ || s@ == ""@,
    ensures
        compose::chopped(s@) == s@,
        text::trim(s@) == s@,
{
    reveal_strlit(".");
    reveal_strlit("");
    text::lemma_trim_id(s@, Class::Space);
    text::lemma_trailing(s@, Class::Two('\r', '\n'));
    assert(compose::chopped(s@) =~= s@);
}

/// A quick message goes to the one address that is named, with the rest of
/// the line as its text.
pub proof fn law_quick_message(to: Seq<char>, s: Seq<char>)
    ensures
        ({
            let c = model::quick(to, s);
            &&& c.to == seq![to]
            &&& c.cc.len() == 0
            &&& c.body == seq![s]
            &&& c.files.len() == 0
            &&& s.len() <= 60 ==> c.subject == s
            &&& s.len() > 60 ==> c.subject == s.take(60)
        }),
{
    assert(s.len() <= 60 ==> s.take(s.len() as int) =~= s);
}

// ---------------------------------------------------------------------
// Commands

proof fn lemma_literals()
    ensures
        which("help"@) == 1 && which("?"@) == 1,
        which("compose"@) == 2,
        which("msg"@) == 3,
        which("inbox"@) == 4 && which("in"@) == 4,
        which("outbox"@) == 5 && which("out"@) == 5,
        which("sent"@) == 6,
        which("archive"@) == 7,
        which("read"@) == 8 && which("show"@) == 8,
        which("save"@) == 9,
        which("delete"@) == 10 && which("rm"@) == 10,
        which("connect"@) == 11 && which("c"@) == 11,
        which("listen"@) == 12,
        which("stop"@) == 13,
        which("trace"@) == 14,
        which("abort"@) == 15,
        which("quit"@) == 16 && which("exit"@) == 16 && which("q"@) == 16,
{
    reveal_strlit("help");
    reveal_strlit("?");
    reveal_strlit("compose");
    reveal_strlit("msg");
    reveal_strlit("inbox");
    reveal_strlit("in");
    reveal_strlit("outbox");
    reveal_strlit("out");
    reveal_strlit("sent");
    reveal_strlit("archive");
    reveal_strlit("read");
    reveal_strlit("show");
    reveal_strlit("save");
    reveal_strlit("delete");
    reveal_strlit("rm");
    reveal_strlit("connect");
    reveal_strlit("c");
    reveal_strlit("listen");
    reveal_strlit("stop");
    reveal_strlit("trace");
    reveal_strlit("abort");
    reveal_strlit("quit");
    reveal_strlit("exit");
    reveal_strlit("q");
}

/// A number for each command, by its length and letters.
spec fn which(cmd: Seq<char>) -> int {
    if cmd.len() == 1 {
        if cmd[0] == '?' {
            1
        } else if cmd[0] == 'c' {
            11
        } else if cmd[0] == 'q' {
            16
        } else {
            0
        }
    } else if cmd.len() == 2 {
        if cmd[0] == 'i' {
            4
        } else if cmd[0] == 'r' {
            10
        } else {
            0
        }
    } else if cmd.len() == 3 {
        if cmd[0] == 'm' {
            3
        } else if cmd[0] == 'o' {
            5
        } else {
            0
        }
    } else if cmd.len() == 4 {
        if cmd[0] == 'h' {
            1
        } else if cmd[0] == 'r' {
            8
        } else if cmd[0] == 'q' {
            16
        } else if cmd[0] == 'e' {
            16
        } else if cmd[1] == 'h' {
            8
        } else if cmd[1] == 'e' {
            6
        } else if cmd[1] == 'a' {
            9
        } else if cmd[1] == 't' {
            13
        } else {
            0
        }
    } else if cmd.len() == 5 {
        if cmd[0] == 'i' {
            4
        } else if cmd[0] == 't' {
            14
        } else if cmd[0] == 'a' {
            15
        } else {
            0
        }
    } else if cmd.len() == 6 {
        if cmd[0] == 'o' {
            5
        } else if cmd[0] == 'd' {
            10
        } else if cmd[0] == 'l' {
            12
        } else {
            0
        }
    } else if cmd.len() == 7 {
        if cmd[0] == 'a' {
            7
        } else if cmd[2] == 'm' {
            2
        } else if cmd[2] == 'n' {
            11
        } else {
            0
        }
    } else {
        0
    }
}

/// The words of a line that is typed while nothing goes on.
pub open spec fn are_words(a: AppView, line: Seq<char>, words: Seq<Seq<char>>) -> bool {
    a.mode is Idle && words.len() > 0 && text::split_words(text::trim(line)) == words
}

/// `inbox`, `outbox`, `sent` and `archive` list the folder of that name.
pub proof fn law_folders_are_listed(
    a: AppView,
    line: Seq<char>,
    words: Seq<Seq<char>>,
    now_ms: int,
    entropy: int,
)
    requires
        are_words(a, line, words),
    ensures
        ({
            let (b, t) = model::line_read(a, line, now_ms, entropy);
            &&& words[0] == "inbox"@ || words[0] == "in"@ ==> b == a && t.ask == AskView::List(
                Folder::Inbox,
            )
            &&& words[0] == "outbox"@ || words[0] == "out"@ ==> b == a && t.ask == AskView::List(
                Folder::Outbox,
            )
            &&& words[0] == "sent"@ ==> b == a && t.ask == AskView::List(Folder::Sent)
            &&& words[0] == "archive"@ ==> b == a && t.ask == AskView::List(Folder::Archive)
        }),
{
    lemma_literals();
}

/// A number names the message that stands there in the last list, in the
/// folder that was listed: `read` shows it, `save` writes its attachments to
/// the directory that is named, or here, and `delete` deletes it.
pub proof fn law_numbers_name_messages(
    a: AppView,
    line: Seq<char>,
    words: Seq<Seq<char>>,
    folder: Folder,
    mids: Seq<Seq<char>>,
    n: nat,
    now_ms: int,
    entropy: int,
)
    requires
        are_words(a, line, words),
        a.listing == Some((folder, mids)),
        words.len() >= 2,
        words[1] == text::decimal(n),
        1 <= n <= mids.len(),
        n <= u64::MAX,
    ensures
        ({
            let (b, t) = model::line_read(a, line, now_ms, entropy);
            let mid = mids[n - 1];
            &&& words[0] == "read"@ || words[0] == "show"@ ==> b == a && t.ask == AskView::Read {
                purpose: PurposeView::Show,
                folder,
                mid,
            }
            &&& words[0] == "delete"@ || words[0] == "rm"@ ==> b == a && t.ask == AskView::Read {
                purpose: PurposeView::Delete,
                folder,
                mid,
            }
            &&& words[0] == "save"@ ==> b == a && t.ask == AskView::Read {
                purpose: PurposeView::Save(
                    if words.len() >= 3 {
                        words[2]
                    } else {
                        "."@
                    },
                ),
                folder,
                mid,
            }
        }),
{
    lemma_literals();
    text::lemma_parse_decimal(n, u64::MAX as nat);
}

/// What is then done with the message: it is shown, or its attachments are
/// saved, or it is deleted from the folder that it was read from.
pub proof fn law_message_is_handled(
    folder: Folder,
    mid: Seq<char>,
    bytes: Seq<u8>,
    m: MessageView,
    dir: Seq<char>,
)
    requires
        wire::read(bytes) == Ok::<_, Seq<char>>(m),
    ensures
        model::read(PurposeView::Show, folder, mid, Ok(bytes)).says == seq![SayView::Whole(m)],
        model::read(PurposeView::Delete, folder, mid, Ok(bytes)).ask == (AskView::Delete {
            folder,
            mid,
        }),
        m.files.len() > 0 ==> model::read(PurposeView::Save(dir), folder, mid, Ok(bytes)).ask == (
        AskView::Save { message: m, dir }),
{
}

/// After a folder was listed, the numbers stand for its messages in the order
/// that they are shown in.
pub proof fn law_listing_is_remembered(a: AppView, folder: Folder, v: Seq<FoundView>)
    ensures
        ({
            let (b, t) = model::listed(a, folder, Ok(v));
            &&& b.listing matches Some((f, mids)) && f == folder && mids.len()
                == mailbox::listed(v).len() && forall|i: int|
                0 <= i < mids.len() ==> #[trigger] mids[i] == mailbox::listed(v)[i].mid
            &&& t.says.last() == SayView::Listing(folder, mailbox::listed(v))
        }),
{
}

/// `connect` and a station connect to it, once a password is there or none is
/// needed.
#[verifier::spinoff_prover]
#[verifier::rlimit(60)]
pub proof fn law_connect_connects(
    a: AppView,
    line: Seq<char>,
    words: Seq<Seq<char>>,
    station: TargetView,
    now_ms: int,
    entropy: int,
)
    requires
        are_words(a, line, words),
        words[0] == "connect"@ || words[0] == "c"@,
        target::target_in(words.skip(1)) == Some(station),
        a.cfg.password is Some || station is P2p,
    ensures
        ({
            let (b, t) = model::line_read(a, line, now_ms, entropy);
            &&& b == a
            &&& t.ask matches AskView::Connect { addr, target } && target == station && addr == (
            match station {
                TargetView::Cms => a.cfg.cms,
                TargetView::Ax25 { .. } => a.cfg.agw,
                TargetView::P2p { addr, .. } => addr,
            })
        }),
        model::reached(a, station, None).1.ask matches AskView::Begin { link, remote } && match station {
            TargetView::Ax25 { gateway, via } => {
                &&& remote == gateway
                &&& link matches LinkSpecView::Agw { port, via: through, paclen } && through == via
                    && port == a.cfg.agw_port && paclen == a.cfg.paclen
            },
            TargetView::P2p { addr, call } => remote == call && link is Telnet,
            TargetView::Cms => remote == "WL2K"@ && link is Telnet,
        },
{
    lemma_literals();
}

/// `compose` begins a new message; `quit` ends the program with status 0.
#[verifier::spinoff_prover]
#[verifier::rlimit(60)]
pub proof fn law_compose_and_quit(
    a: AppView,
    line: Seq<char>,
    words: Seq<Seq<char>>,
    now_ms: int,
    entropy: int,
)
    requires
        are_words(a, line, words),
        a.exit_code is None,
    ensures
        ({
            let (b, t) = model::line_read(a, line, now_ms, entropy);
            &&& words[0] == "compose"@ ==> (b.mode matches ModeView::Compose(c) && c.stage
                == Stage::To && c.to.len() == 0 && c.cc.len() == 0 && c.subject.len() == 0
                && c.body.len() == 0 && c.files.len() == 0)
            &&& words[0] == "quit"@ || words[0] == "exit"@ || words[0] == "q"@
                ==> model::exit_status(b) == Some(0i32)
        }),
{
    lemma_literals();
    reveal_strlit("");
}

/// What an exchange asks for is done: bytes are sent as they are, a message
/// that was delivered leaves the outbox, and one that was deferred does not.
pub proof fn law_actions_are_carried_out(a: AppView, bytes: Seq<u8>, mid: Seq<char>)
    requires
        a.mode is Exchange,
    ensures
        model::acted(a, ActionView::Transmit(bytes)).1.ask == AskView::Send(bytes),
        model::acted(a, ActionView::Delivered(mid)).1.ask == (AskView::MoveToSent {
            mid,
            already: false,
        }),
        model::acted(a, ActionView::AlreadyDelivered(mid)).1.ask == (AskView::MoveToSent {
            mid,
            already: true,
        }),
        model::acted(a, ActionView::Deferred(mid)).1.ask is Nothing,
        model::acted(a, ActionView::Close).1.ask is Shutdown,
{
}

/// An answer to a caller is an exchange in which the caller logs in.
pub proof fn law_callers_log_in(a: AppView, peer: Seq<char>)
    requires
        a.mode is Idle,
    ensures
        model::accepted(a, peer).ask matches AskView::Begin { link, .. } && link is TelnetAnswer,
{
}

/// `--timeout` sets how many seconds of silence end an exchange.
pub proof fn law_timeout_is_in_seconds(cfg: ConfigView, link: LinkSpecView, s: u64)
    requires
        cfg.timeout == Some(s),
        0 <= s * 1000 <= u64::MAX,
    ensures
        model::exchange_config(cfg, link, seq![]).idle_timeout_ms == 1000 * s,
{
}

} // verus!

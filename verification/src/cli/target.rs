//! Whom to exchange mail with.

use vstd::prelude::*;

use crate::cli::args::{Config, ConfigView};
use crate::exchange::{LinkSpec, LinkSpecView};
use crate::text;
use crate::text::Class;
use crate::unicode;

verus! {

/// How the arguments of `connect` are to be written.
pub const CONNECT_USAGE: &'static str = "usage: connect | connect ax25 GATEWAY [via DIGI,DIGI] | connect p2p HOST:PORT CALL";

/// A station to connect to.
#[derive(Debug)]
pub enum Target {
    /// The Winlink CMS over the internet.
    Cms,
    /// An RMS gateway over packet radio.
    Ax25 { gateway: String, via: Vec<String> },
    /// Another station over TCP.
    P2p { addr: String, call: String },
}

#[verifier::ext_equal]
pub enum TargetView {
    Cms,
    Ax25 { gateway: Seq<char>, via: Seq<Seq<char>> },
    P2p { addr: Seq<char>, call: Seq<char> },
}

impl View for Target {
    type V = TargetView;

    open spec fn view(&self) -> TargetView {
        match self {
            Target::Cms => TargetView::Cms,
            Target::Ax25 { gateway, via } => TargetView::Ax25 {
                gateway: gateway@,
                via: text::texts(via@),
            },
            Target::P2p { addr, call } => TargetView::P2p { addr: addr@, call: call@ },
        }
    }
}

impl Clone for Target {
    fn clone(&self) -> (r: Target)
        ensures
            r@ == self@,
    {
        match self {
            Target::Cms => Target::Cms,
            Target::Ax25 { gateway, via } => Target::Ax25 {
                gateway: gateway.clone(),
                via: text::copied(via),
            },
            Target::P2p { addr, call } => Target::P2p { addr: addr.clone(), call: call.clone() },
        }
    }
}

/// An address with a port: the usual one if it names none.
pub open spec fn ported(addr: Seq<char>, port: u16) -> Seq<char> {
    if text::has(addr, Class::One(':')) {
        addr
    } else {
        addr + ":"@ + text::decimal(port as nat)
    }
}

pub fn with_port(addr: &str, port: u16) -> (r: String)
    ensures
        r@ == ported(addr@, port),
{
    if text::has_any(&text::chars(addr), Class::One(':')) {
        addr.to_owned()
    } else {
        text::cat3(addr, ":", &text::number(port as u64))
    }
}

/// Upper case of each text.
pub open spec fn all_upper(v: Seq<Seq<char>>) -> Seq<Seq<char>> {
    Seq::new(v.len(), |i: int| unicode::upper(v[i]))
}

/// The digipeaters of a list with commas.
pub open spec fn digipeaters(s: Seq<char>) -> Seq<Seq<char>> {
    all_upper(text::non_empty(text::split(s, Class::One(','))))
}

/// The station that the arguments of `connect` name.
pub open spec fn target_in(words: Seq<Seq<char>>) -> Option<TargetView> {
    if words.len() == 0 || words == seq!["cms"@] || words == seq!["telnet"@] {
        Some(TargetView::Cms)
    } else if words.len() == 2 && words[0] == "ax25"@ {
        Some(TargetView::Ax25 { gateway: unicode::upper(words[1]), via: seq![] })
    } else if words.len() == 4 && words[0] == "ax25"@ && words[2] == "via"@ {
        Some(
            TargetView::Ax25 { gateway: unicode::upper(words[1]), via: digipeaters(words[3]) },
        )
    } else if words.len() == 3 && words[0] == "p2p"@ {
        Some(
            TargetView::P2p {
                addr: ported(words[1], crate::P2P_PORT),
                call: unicode::upper(words[2]),
            },
        )
    } else {
        None
    }
}

fn to_all_upper(v: &[Vec<char>]) -> (r: Vec<String>)
    ensures
        text::texts(r@) == all_upper(text::views(v@)),
{
    let mut out: Vec<String> = Vec::new();
    let ghost all = all_upper(text::views(v@));
    for i in 0..v.len()
        invariant
            all == all_upper(text::views(v@)),
            text::texts(out@) == all.take(i as int),
    {
        let ghost before = text::texts(out@);
        out.push(unicode::to_uppercase(&text::string(&v[i])));
        assert(text::texts(out@) =~= before.push(all[i as int]));
    }
    assert(all.take(all.len() as int) =~= all);
    out
}

impl Target {
    /// The station that the arguments of `connect` name.
    pub fn parse(words: &[String]) -> (r: Result<Target, String>)
        ensures
            match r {
                Ok(t) => target_in(text::texts(words@)) == Some(t@),
                Err(e) => target_in(text::texts(words@)) is None && e@ == CONNECT_USAGE@,
            },
    {
        let ghost all = text::texts(words@);
        assert(all.len() == words@.len());
        assert(forall|i: int| 0 <= i < words@.len() ==> all[i] == words@[i]@);
        assert(all.len() == 1 ==> (all =~= seq![all[0]]));
        assert(seq!["cms"@].len() == 1 && seq!["cms"@][0] == "cms"@);
        assert(seq!["telnet"@].len() == 1 && seq!["telnet"@][0] == "telnet"@);
        let n = words.len();
        if n == 0 {
            Ok(Target::Cms)
        } else if n == 1 && (text::same(&words[0], "cms") || text::same(&words[0], "telnet")) {
            Ok(Target::Cms)
        } else if n == 2 && text::same(&words[0], "ax25") {
            let via: Vec<String> = Vec::new();
            assert(text::texts(via@) =~= seq![]);
            Ok(Target::Ax25 { gateway: unicode::to_uppercase(&words[1]), via })
        } else if n == 4 && text::same(&words[0], "ax25") && text::same(&words[2], "via") {
            let parts = text::pieces(&text::chars(&words[3]), Class::One(','));
            let via = to_all_upper(&text::keep_non_empty(parts));
            Ok(Target::Ax25 { gateway: unicode::to_uppercase(&words[1]), via })
        } else if n == 3 && text::same(&words[0], "p2p") {
            Ok(
                Target::P2p {
                    addr: with_port(&words[1], crate::P2P_PORT),
                    call: unicode::to_uppercase(&words[2]),
                },
            )
        } else {
            Err(CONNECT_USAGE.to_owned())
        }
    }

    /// The Winlink system asks for a password; a peer does not.
    pub fn needs_password(&self) -> (r: bool)
        ensures
            r == !(self@ is P2p),
    {
        match self {
            Target::P2p { .. } => false,
            _ => true,
        }
    }
}

/// What it takes to reach a station: the address, the link and its callsign.
#[derive(Debug)]
pub struct Plan {
    pub addr: String,
    pub link: LinkSpec,
    pub remote: String,
}

#[verifier::ext_equal]
pub struct PlanView {
    pub addr: Seq<char>,
    pub link: LinkSpecView,
    pub remote: Seq<char>,
}

impl View for Plan {
    type V = PlanView;

    open spec fn view(&self) -> PlanView {
        PlanView { addr: self.addr@, link: self.link@, remote: self.remote@ }
    }
}

pub open spec fn plan_for(cfg: ConfigView, target: TargetView) -> PlanView {
    match target {
        TargetView::Cms => PlanView {
            addr: cfg.cms,
            link: LinkSpecView::Telnet { login_password: crate::CMS_TELNET_PASSWORD@ },
            remote: crate::CMS_TARGET@,
        },
        TargetView::Ax25 { gateway, via } => PlanView {
            addr: cfg.agw,
            link: LinkSpecView::Agw { port: cfg.agw_port, via, paclen: cfg.paclen },
            remote: gateway,
        },
        TargetView::P2p { addr, call } => PlanView {
            addr,
            link: LinkSpecView::Telnet { login_password: ""@ },
            remote: call,
        },
    }
}

/// How a station is reached.
pub fn plan(cfg: &Config, target: &Target) -> (r: Plan)
    ensures
        r@ == plan_for(cfg@, target@),
{
    match target {
        Target::Cms => Plan {
            addr: cfg.cms.clone(),
            link: LinkSpec::Telnet { login_password: crate::CMS_TELNET_PASSWORD.to_owned() },
            remote: crate::CMS_TARGET.to_owned(),
        },
        Target::Ax25 { gateway, via } => Plan {
            addr: cfg.agw.clone(),
            link: LinkSpec::Agw { port: cfg.agw_port, via: text::copied(via), paclen: cfg.paclen },
            remote: gateway.clone(),
        },
        Target::P2p { addr, call } => Plan {
            addr: addr.clone(),
            link: LinkSpec::Telnet { login_password: "".to_owned() },
            remote: call.clone(),
        },
    }
}

} // verus!

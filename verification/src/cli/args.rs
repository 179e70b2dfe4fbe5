//! The command line of the mail program.

use vstd::prelude::*;

use crate::session;
use crate::text;
use crate::text::Class;
use crate::unicode;

verus! {

/// Where Direwolf listens unless told otherwise.
pub const DEFAULT_AGW: &'static str = "127.0.0.1:8000";

/// The settings of the mail program.
#[derive(Debug)]
pub struct Config {
    pub call: String,
    pub locator: String,
    /// The mailbox base; the usual place if there is none.
    pub mailbox: Option<String>,
    pub cms: String,
    pub agw: String,
    pub agw_port: u8,
    pub paclen: usize,
    /// Seconds.
    pub timeout: Option<u64>,
    pub password: Option<String>,
    pub once: Option<String>,
    pub quiet: bool,
    pub no_color: bool,
}

#[verifier::ext_equal]
pub struct ConfigView {
    pub call: Seq<char>,
    pub locator: Seq<char>,
    pub mailbox: Option<Seq<char>>,
    pub cms: Seq<char>,
    pub agw: Seq<char>,
    pub agw_port: u8,
    pub paclen: int,
    pub timeout: Option<u64>,
    pub password: Option<Seq<char>>,
    pub once: Option<Seq<char>>,
    pub quiet: bool,
    pub no_color: bool,
}

impl View for Config {
    type V = ConfigView;

    open spec fn view(&self) -> ConfigView {
        ConfigView {
            call: self.call@,
            locator: self.locator@,
            mailbox: session::opt_text(self.mailbox),
            cms: self.cms@,
            agw: self.agw@,
            agw_port: self.agw_port,
            paclen: self.paclen as int,
            timeout: self.timeout,
            password: session::opt_text(self.password),
            once: session::opt_text(self.once),
            quiet: self.quiet,
            no_color: self.no_color,
        }
    }
}

/// A command line that is read up to some point.
#[derive(Debug)]
pub struct Rest {
    args: Vec<String>,
    at: usize,
    call: Option<String>,
    cfg: Config,
}

#[verifier::ext_equal]
pub struct RestView {
    /// What is still to be read.
    pub args: Seq<Seq<char>>,
    pub call: Option<Seq<char>>,
    pub cfg: ConfigView,
}

impl View for Rest {
    type V = RestView;

    closed spec fn view(&self) -> RestView {
        RestView {
            args: text::texts(self.args@).skip(self.at as int),
            call: session::opt_text(self.call),
            cfg: self.cfg@,
        }
    }
}

/// What a command line comes to.
#[derive(Debug)]
pub enum Outcome {
    Settings(Config),
    /// Help was asked for.
    Help,
    /// It cannot be used.
    Refused(String),
    /// The password is in this file: read it, and go on with the rest.
    Password { path: String, rest: Rest },
}

#[verifier::ext_equal]
pub enum OutcomeView {
    Settings(ConfigView),
    Help,
    Refused(Seq<char>),
    Password { path: Seq<char>, rest: RestView },
}

impl View for Outcome {
    type V = OutcomeView;

    open spec fn view(&self) -> OutcomeView {
        match self {
            Outcome::Settings(cfg) => OutcomeView::Settings(cfg@),
            Outcome::Help => OutcomeView::Help,
            Outcome::Refused(e) => OutcomeView::Refused(e@),
            Outcome::Password { path, rest } => OutcomeView::Password {
                path: path@,
                rest: rest@,
            },
        }
    }
}

/// The settings before any argument is read.
pub open spec fn usual(password: Option<Seq<char>>) -> ConfigView {
    ConfigView {
        call: ""@,
        locator: ""@,
        mailbox: None,
        cms: crate::CMS_ADDRESS@,
        agw: DEFAULT_AGW@,
        agw_port: 0,
        paclen: 128,
        timeout: None,
        password: match password {
            Some(p) => if p.len() > 0 {
                Some(p)
            } else {
                None
            },
            None => None,
        },
        once: None,
        quiet: false,
        no_color: false,
    }
}

/// The options that are followed by a value.
pub open spec fn takes_value(name: Seq<char>) -> bool {
    ||| name == "--call"@
    ||| name == "--locator"@
    ||| name == "--mailbox"@
    ||| name == "--password-file"@
    ||| name == "--cms"@
    ||| name == "--agw"@
    ||| name == "--agw-port"@
    ||| name == "--paclen"@
    ||| name == "--timeout"@
    ||| name == "--once"@
}

/// The packet length within its limits.
pub open spec fn paclen_in(value: Seq<char>) -> Option<nat> {
    match text::parse_unsigned(value, 10, 256) {
        Some(n) => if n >= 16 {
            Some(n)
        } else {
            None
        },
        None => None,
    }
}

pub open spec fn timeout_in(value: Seq<char>) -> Option<nat> {
    match text::parse_unsigned(value, 10, u64::MAX as nat) {
        Some(n) => if n >= 10 {
            Some(n)
        } else {
            None
        },
        None => None,
    }
}

/// What an option with its value makes of the settings.
pub open spec fn with_option(r: RestView, name: Seq<char>, value: Seq<char>) -> Result<
    RestView,
    Seq<char>,
> {
    if name == "--call"@ {
        Ok(RestView { call: Some(value), ..r })
    } else if name == "--locator"@ {
        Ok(RestView { cfg: ConfigView { locator: unicode::upper(value), ..r.cfg }, ..r })
    } else if name == "--mailbox"@ {
        Ok(RestView { cfg: ConfigView { mailbox: Some(value), ..r.cfg }, ..r })
    } else if name == "--cms"@ {
        Ok(RestView { cfg: ConfigView { cms: value, ..r.cfg }, ..r })
    } else if name == "--agw"@ {
        Ok(RestView { cfg: ConfigView { agw: value, ..r.cfg }, ..r })
    } else if name == "--agw-port"@ {
        match text::parse_unsigned(value, 10, 255) {
            Some(n) => Ok(RestView { cfg: ConfigView { agw_port: n as u8, ..r.cfg }, ..r }),
            None => Err("--agw-port must be 0-255"@),
        }
    } else if name == "--paclen"@ {
        match paclen_in(value) {
            Some(n) => Ok(RestView { cfg: ConfigView { paclen: n as int, ..r.cfg }, ..r }),
            None => Err("--paclen must be 16-256"@),
        }
    } else if name == "--timeout"@ {
        match timeout_in(value) {
            Some(n) => Ok(RestView { cfg: ConfigView { timeout: Some(n as u64), ..r.cfg }, ..r }),
            None => Err("--timeout must be at least 10 seconds"@),
        }
    } else {
        Ok(RestView { cfg: ConfigView { once: Some(value), ..r.cfg }, ..r })
    }
}

/// The characters of a callsign on the command line.
pub open spec fn is_call_char(c: char) -> bool {
    ||| 'A' <= c && c <= 'Z'
    ||| 'a' <= c && c <= 'z'
    ||| '0' <= c && c <= '9'
    ||| c == '-'
}

pub open spec fn is_callsign(s: Seq<char>) -> bool {
    s.len() > 0 && forall|i: int| 0 <= i < s.len() ==> is_call_char(#[trigger] s[i])
}

/// The command line at its end: the callsign must be there.
pub open spec fn completed(r: RestView) -> OutcomeView {
    match r.call {
        None => OutcomeView::Refused("--call is required"@),
        Some(given) => {
            let call = unicode::upper(text::trim(given));
            if is_callsign(call) {
                OutcomeView::Settings(ConfigView { call, ..r.cfg })
            } else {
                OutcomeView::Refused(unicode::quoted(call) + " is not a callsign"@)
            }
        },
    }
}

/// What the rest of a command line comes to.
pub open spec fn parsed(r: RestView) -> OutcomeView
    decreases r.args.len(),
{
    if r.args.len() == 0 {
        completed(r)
    } else {
        let name = r.args[0];
        let one = r.args.skip(1);
        if name == "--quiet"@ {
            parsed(RestView { args: one, cfg: ConfigView { quiet: true, ..r.cfg }, ..r })
        } else if name == "--no-color"@ {
            parsed(RestView { args: one, cfg: ConfigView { no_color: true, ..r.cfg }, ..r })
        } else if name == "-h"@ || name == "--help"@ {
            OutcomeView::Help
        } else if !takes_value(name) {
            OutcomeView::Refused("unknown argument "@ + unicode::quoted(name))
        } else if r.args.len() < 2 {
            OutcomeView::Refused(name + " needs a value"@)
        } else {
            let value = r.args[1];
            let rest = RestView { args: r.args.skip(2), ..r };
            if name == "--password-file"@ {
                OutcomeView::Password { path: value, rest }
            } else {
                match with_option(rest, name, value) {
                    Err(e) => OutcomeView::Refused(e),
                    Ok(next) => parsed(next),
                }
            }
        }
    }
}

/// The password in a file: its content without the line end.
pub open spec fn with_password(r: RestView, content: Seq<char>) -> RestView {
    RestView {
        cfg: ConfigView {
            password: Some(text::trim_end(content, Class::Two('\r', '\n'))),
            ..r.cfg
        },
        ..r
    }
}

fn valued(name: &str) -> (r: bool)
    ensures
        r == takes_value(name@),
{
    text::same(name, "--call") || text::same(name, "--locator") || text::same(name, "--mailbox")
        || text::same(name, "--password-file") || text::same(name, "--cms") || text::same(
        name,
        "--agw",
    ) || text::same(name, "--agw-port") || text::same(name, "--paclen") || text::same(
        name,
        "--timeout",
    ) || text::same(name, "--once")
}

pub fn is_call(s: &str) -> (r: bool)
    ensures
        r == is_callsign(s@),
{
    let chars = text::chars(s);
    if chars.len() == 0 {
        return false;
    }
    for i in 0..chars.len()
        invariant
            chars@ == s@,
            forall|j: int| 0 <= j < i ==> is_call_char(#[trigger] chars@[j]),
    {
        let c = chars[i];
        if !(('A' <= c && c <= 'Z') || ('a' <= c && c <= 'z') || ('0' <= c && c <= '9') || c == '-')
        {
            return false;
        }
    }
    true
}

impl Rest {
    /// The reading position is within the command line.
    pub closed spec fn wf(&self) -> bool {
        self.at <= self.args@.len()
    }

    /// Takes an option with its value.
    fn take(&mut self, name: &str, value: String) -> (r: Result<(), String>)
        requires
            old(self).wf(),
        ensures
            match r {
                Ok(_) => with_option(old(self)@, name@, value@) == Ok::<_, Seq<char>>(
                    final(self)@,
                ) && final(self).wf(),
                Err(e) => with_option(old(self)@, name@, value@) == Err::<RestView, _>(e@),
            },
    {
        if text::same(name, "--call") {
            self.call = Some(value);
        } else if text::same(name, "--locator") {
            self.cfg.locator = unicode::to_uppercase(&value);
        } else if text::same(name, "--mailbox") {
            self.cfg.mailbox = Some(value);
        } else if text::same(name, "--cms") {
            self.cfg.cms = value;
        } else if text::same(name, "--agw") {
            self.cfg.agw = value;
        } else if text::same(name, "--agw-port") {
            match text::unsigned(&text::chars(&value), 10, 255) {
                Some(n) => {
                    self.cfg.agw_port = n as u8;
                },
                None => {
                    return Err("--agw-port must be 0-255".to_owned());
                },
            }
        } else if text::same(name, "--paclen") {
            match text::unsigned(&text::chars(&value), 10, 256) {
                Some(n) if n >= 16 => {
                    self.cfg.paclen = n as usize;
                },
                _ => {
                    return Err("--paclen must be 16-256".to_owned());
                },
            }
        } else if text::same(name, "--timeout") {
            match text::unsigned(&text::chars(&value), 10, u64::MAX) {
                Some(n) if n >= 10 => {
                    self.cfg.timeout = Some(n);
                },
                _ => {
                    return Err("--timeout must be at least 10 seconds".to_owned());
                },
            }
        } else {
            self.cfg.once = Some(value);
        }
        Ok(())
    }

    fn complete(self) -> (r: Outcome)
        ensures
            r@ == completed(self@),
    {
        let mut cfg = self.cfg;
        match self.call {
            None => Outcome::Refused("--call is required".to_owned()),
            Some(given) => {
                let call = unicode::to_uppercase(text::trimmed_str(&given));
                if is_call(&call) {
                    cfg.call = call;
                    Outcome::Settings(cfg)
                } else {
                    Outcome::Refused(text::cat2(&unicode::quote(&call), " is not a callsign"))
                }
            },
        }
    }

    /// Reads on.
    fn parse(self) -> (r: Outcome)
        requires
            self.wf(),
        ensures
            r@ == parsed(self@),
            r matches Outcome::Password { rest, .. } ==> rest.wf(),
    {
        let ghost goal = parsed(self@);
        let mut rest = self;
        while rest.at < rest.args.len()
            invariant
                rest.wf(),
                goal == parsed(rest@),
                goal == parsed(self@),
            decreases rest@.args.len(),
        {
            let ghost before = rest@;
            let ghost all = text::texts(rest.args@);
            let name = rest.args[rest.at].clone();
            assert(before.args[0] == all[rest.at as int]);
            assert(before.args.skip(1) =~= all.skip(rest.at + 1));
            if text::same(&name, "--quiet") {
                rest.cfg.quiet = true;
                rest.at += 1;
                assert(rest@ =~= RestView {
                    args: before.args.skip(1),
                    cfg: ConfigView { quiet: true, ..before.cfg },
                    ..before
                });
            } else if text::same(&name, "--no-color") {
                rest.cfg.no_color = true;
                rest.at += 1;
                assert(rest@ =~= RestView {
                    args: before.args.skip(1),
                    cfg: ConfigView { no_color: true, ..before.cfg },
                    ..before
                });
            } else if text::same(&name, "-h") || text::same(&name, "--help") {
                return Outcome::Help;
            } else if !valued(&name) {
                return Outcome::Refused(text::cat2("unknown argument ", &unicode::quote(&name)));
            } else if rest.args.len() - rest.at < 2 {
                return Outcome::Refused(text::cat2(&name, " needs a value"));
            } else {
                let value = rest.args[rest.at + 1].clone();
                assert(before.args[1] == all[rest.at + 1]);
                assert(before.args.skip(2) =~= all.skip(rest.at + 2));
                rest.at += 2;
                assert(rest@ =~= RestView { args: before.args.skip(2), ..before });
                if text::same(&name, "--password-file") {
                    return Outcome::Password { path: value, rest };
                }
                match rest.take(&name, value) {
                    Ok(()) => {},
                    Err(e) => {
                        return Outcome::Refused(e);
                    },
                }
            }
        }
        assert(text::texts(rest.args@).skip(rest.at as int) =~= seq![]);
        rest.complete()
    }

    /// Goes on with what the password file held, or why it could not be read.
    pub fn resume(self, path: &str, content: Result<String, String>) -> (r: Outcome)
        requires
            self.wf(),
        ensures
            r@ == (match content {
                Ok(s) => parsed(with_password(self@, s@)),
                Err(e) => OutcomeView::Refused(path@ + ": "@ + e@),
            }),
            r matches Outcome::Password { rest, .. } ==> rest.wf(),
    {
        match content {
            Ok(s) => {
                let mut rest = self;
                let chars = text::chars(&s);
                let kept = text::trimmed_end(&chars, Class::Two('\r', '\n'));
                rest.cfg.password = Some(text::string(kept));
                assert(rest@ =~= with_password(self@, s@));
                rest.parse()
            },
            Err(e) => Outcome::Refused(text::cat3(path, ": ", &e)),
        }
    }
}

/// Reads a command line (without the program's name). `password` is what the
/// environment gives.
pub fn parse_args(args: Vec<String>, password: Option<String>) -> (r: Outcome)
    ensures
        r@ == parsed(
            RestView {
                args: text::texts(args@),
                call: None,
                cfg: usual(session::opt_text(password)),
            },
        ),
        r matches Outcome::Password { rest, .. } ==> rest.wf(),
{
    let given = match password {
        Some(p) => if p.as_str().is_empty() {
            None
        } else {
            Some(p)
        },
        None => None,
    };
    let cfg = Config {
        call: "".to_owned(),
        locator: "".to_owned(),
        mailbox: None,
        cms: crate::CMS_ADDRESS.to_owned(),
        agw: DEFAULT_AGW.to_owned(),
        agw_port: 0,
        paclen: 128,
        timeout: None,
        password: given,
        once: None,
        quiet: false,
        no_color: false,
    };
    assert(cfg@ =~= usual(session::opt_text(password)));
    assert(text::texts(args@).skip(0) =~= text::texts(args@));
    let rest = Rest { args, at: 0, call: None, cfg };
    rest.parse()
}

/// Settings with everything in range.
pub open spec fn in_range(cfg: ConfigView) -> bool {
    &&& 16 <= cfg.paclen <= 256
    &&& cfg.timeout matches Some(t) ==> t >= 10
}

/// Whatever the command line says, settings that come out of it are in
/// range, and the callsign is one. Every password file on the way is
/// covered by the second clause.
pub proof fn law_settings_are_valid(r: RestView)
    requires
        in_range(r.cfg),
    ensures
        parsed(r) matches OutcomeView::Settings(cfg) ==> in_range(cfg) && is_callsign(cfg.call),
        parsed(r) matches OutcomeView::Password { rest, .. } ==> in_range(rest.cfg),
    decreases r.args.len(),
{
    if r.args.len() > 0 {
        let name = r.args[0];
        let one = r.args.skip(1);
        if name == "--quiet"@ {
            law_settings_are_valid(
                RestView { args: one, cfg: ConfigView { quiet: true, ..r.cfg }, ..r },
            );
        } else if name == "--no-color"@ {
            law_settings_are_valid(
                RestView { args: one, cfg: ConfigView { no_color: true, ..r.cfg }, ..r },
            );
        } else if r.args.len() >= 2 {
            let rest = RestView { args: r.args.skip(2), ..r };
            if let Ok(next) = with_option(rest, name, r.args[1]) {
                law_settings_are_valid(next);
            }
        }
    }
}

} // verus!

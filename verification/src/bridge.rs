//! The bridge between a browser page and the Winlink CMS or Direwolf's AGW
//! port. Routes are fixed (`/cms`, `/agw`), so that a page cannot point the
//! bridge at arbitrary hosts, and only pages from allowed origins may
//! connect: otherwise any website could key the transmitter. The sockets are
//! the caller's.

use vstd::prelude::*;

use crate::text;
use crate::text::Class;
use crate::unicode;

pub mod laws;

verus! {

pub const DEFAULT_LISTEN: &'static str = "127.0.0.1:8765";

pub const DEFAULT_CMS: &'static str = "server.winlink.org:8772";

pub const DEFAULT_AGW: &'static str = "127.0.0.1:8000";

/// How the bridge is started.
pub const USAGE: &'static str = "usage: b2fmsg-bridge [--listen 127.0.0.1:8765] [--cms server.winlink.org:8772] [--agw 127.0.0.1:8000]
                     [--allow-origin URL ...]

Lets the b2fmsg web page reach the Winlink CMS (ws://HOST/cms) or
Direwolf's AGW port (ws://HOST/agw). Pages are accepted only from
https://mashu.github.io, http://localhost, http://127.0.0.1 (any port for localhost);
add your own with --allow-origin, or --allow-origin '*' to accept any.";

/// The origins that are always allowed.
pub open spec fn default_origins() -> Seq<Seq<char>> {
    seq!["https://mashu.github.io"@, "http://localhost"@, "http://127.0.0.1"@]
}

/// The settings of the bridge.
#[derive(Debug)]
pub struct Settings {
    pub listen: String,
    pub cms: String,
    pub agw: String,
    pub origins: Vec<String>,
    pub any_origin: bool,
}

#[verifier::ext_equal]
pub struct SettingsView {
    pub listen: Seq<char>,
    pub cms: Seq<char>,
    pub agw: Seq<char>,
    pub origins: Seq<Seq<char>>,
    pub any_origin: bool,
}

impl View for Settings {
    type V = SettingsView;

    open spec fn view(&self) -> SettingsView {
        SettingsView {
            listen: self.listen@,
            cms: self.cms@,
            agw: self.agw@,
            origins: text::texts(self.origins@),
            any_origin: self.any_origin,
        }
    }
}

/// The settings before any argument is read.
pub open spec fn usual() -> SettingsView {
    SettingsView {
        listen: DEFAULT_LISTEN@,
        cms: DEFAULT_CMS@,
        agw: DEFAULT_AGW@,
        origins: default_origins(),
        any_origin: false,
    }
}

impl Default for Settings {
    fn default() -> (r: Settings)
        ensures
            r@ == usual(),
    {
        let origins = vec![
            "https://mashu.github.io".to_owned(),
            "http://localhost".to_owned(),
            "http://127.0.0.1".to_owned(),
        ];
        assert(text::texts(origins@) =~= default_origins());
        Settings {
            listen: DEFAULT_LISTEN.to_owned(),
            cms: DEFAULT_CMS.to_owned(),
            agw: DEFAULT_AGW.to_owned(),
            origins,
            any_origin: false,
        }
    }
}

/// What a command line comes to.
#[derive(Debug)]
pub enum Outcome {
    Run(Settings),
    /// Help was asked for.
    Help,
    /// It cannot be used.
    Refused(String),
}

#[verifier::ext_equal]
pub enum OutcomeView {
    Run(SettingsView),
    Help,
    Refused(Seq<char>),
}

impl View for Outcome {
    type V = OutcomeView;

    open spec fn view(&self) -> OutcomeView {
        match self {
            Outcome::Run(s) => OutcomeView::Run(s@),
            Outcome::Help => OutcomeView::Help,
            Outcome::Refused(e) => OutcomeView::Refused(e@),
        }
    }
}

/// The settings with an option.
pub open spec fn with_option(s: SettingsView, name: Seq<char>, value: Seq<char>) -> SettingsView {
    if name == "--listen"@ {
        SettingsView { listen: value, ..s }
    } else if name == "--cms"@ {
        SettingsView { cms: value, ..s }
    } else if name == "--agw"@ {
        SettingsView { agw: value, ..s }
    } else if value == "*"@ {
        SettingsView { any_origin: true, ..s }
    } else {
        SettingsView { origins: s.origins.push(text::trim_end(value, Class::One('/'))), ..s }
    }
}

pub open spec fn takes_value(name: Seq<char>) -> bool {
    name == "--listen"@ || name == "--cms"@ || name == "--agw"@ || name == "--allow-origin"@
}

/// What the rest of a command line makes of the settings so far.
pub open spec fn parsed(s: SettingsView, args: Seq<Seq<char>>) -> OutcomeView
    decreases args.len(),
{
    if args.len() == 0 {
        OutcomeView::Run(s)
    } else if args[0] == "-h"@ || args[0] == "--help"@ {
        OutcomeView::Help
    } else if !takes_value(args[0]) {
        OutcomeView::Refused("unknown argument "@ + unicode::quoted(args[0]))
    } else if args.len() < 2 {
        OutcomeView::Refused(args[0] + " needs a value"@)
    } else {
        parsed(with_option(s, args[0], args[1]), args.skip(2))
    }
}

/// Reads a command line (without the program's name).
pub fn parse_args(args: &[String]) -> (r: Outcome)
    ensures
        r@ == parsed(usual(), text::texts(args@)),
{
    let ghost all = text::texts(args@);
    let ghost goal = parsed(usual(), all);
    let mut s = Settings::default();
    let mut at: usize = 0;
    assert(all.skip(0) =~= all);
    while at < args.len()
        invariant
            at <= args@.len(),
            all == text::texts(args@),
            goal == parsed(usual(), all),
            goal == parsed(s@, all.skip(at as int)),
        decreases args@.len() - at,
    {
        let ghost rest = all.skip(at as int);
        assert(rest[0] == args@[at as int]@);
        let name = &args[at];
        if text::same(name, "-h") || text::same(name, "--help") {
            return Outcome::Help;
        }
        if !(text::same(name, "--listen") || text::same(name, "--cms") || text::same(name, "--agw")
            || text::same(name, "--allow-origin")) {
            return Outcome::Refused(text::cat2("unknown argument ", &unicode::quote(name)));
        }
        if args.len() - at < 2 {
            return Outcome::Refused(text::cat2(name, " needs a value"));
        }
        let value = &args[at + 1];
        assert(rest[1] == args@[at + 1]@);
        assert(rest.skip(2) =~= all.skip(at + 2));
        let ghost before = s@;
        if text::same(name, "--listen") {
            s.listen = value.clone();
        } else if text::same(name, "--cms") {
            s.cms = value.clone();
        } else if text::same(name, "--agw") {
            s.agw = value.clone();
        } else if text::same(value, "*") {
            s.any_origin = true;
        } else {
            let chars = text::chars(value);
            let kept = text::string(text::trimmed_end(&chars, Class::One('/')));
            s.origins.push(kept);
            assert(text::texts(s.origins@) =~= before.origins.push(kept@));
        }
        assert(s@ =~= with_option(before, name@, value@));
        at += 2;
    }
    assert(all.skip(at as int) =~= seq![]);
    Outcome::Run(s)
}

// ---------------------------------------------------------------------
// Who may connect to what

/// Where a connection goes.
#[derive(Clone, Copy, Debug, PartialEq, Eq, Structural)]
pub enum Route {
    Cms,
    Agw,
}

pub open spec fn route_name(route: Route) -> Seq<char> {
    match route {
        Route::Cms => "Winlink CMS"@,
        Route::Agw => "Direwolf AGW port"@,
    }
}

impl Route {
    pub fn name(self) -> (r: &'static str)
        ensures
            r@ == route_name(self),
    {
        match self {
            Route::Cms => "Winlink CMS",
            Route::Agw => "Direwolf AGW port",
        }
    }
}

/// A colon and digits, as a port is written.
pub open spec fn is_port(s: Seq<char>) -> bool {
    s.len() > 0 && s[0] == ':' && text::all_digits(s.skip(1))
}

/// Is the origin this one, on whatever port?
pub open spec fn matches_origin(origin: Seq<char>, allowed: Seq<char>) -> bool {
    origin == allowed || (text::starts_with(origin, allowed) && is_port(
        origin.skip(allowed.len() as int),
    ))
}

/// May pages from there connect? Clients that are no browser send no origin;
/// they could open the connection themselves.
pub open spec fn allowed(s: SettingsView, origin: Option<Seq<char>>) -> bool {
    match origin {
        None => true,
        Some(o) => s.any_origin || exists|i: int|
            0 <= i < s.origins.len() && matches_origin(o, #[trigger] s.origins[i]),
    }
}

fn port_only(s: &[char]) -> (r: bool)
    ensures
        r == is_port(s@),
{
    if s.len() == 0 || s[0] != ':' {
        return false;
    }
    let ghost rest = s@.skip(1);
    for i in 1..s.len()
        invariant
            s@.len() > 0,
            rest == s@.skip(1),
            forall|j: int| 0 <= j < i - 1 ==> '0' <= #[trigger] rest[j] && rest[j] <= '9',
    {
        assert(rest[i - 1] == s@[i as int]);
        if !('0' <= s[i] && s[i] <= '9') {
            return false;
        }
    }
    true
}

fn is_from(origin: &str, known: &str) -> (r: bool)
    ensures
        r == matches_origin(origin@, known@),
{
    if text::same(origin, known) {
        return true;
    }
    let chars = text::chars(origin);
    match text::without_prefix(&chars, known) {
        Some(rest) => port_only(rest),
        None => false,
    }
}

/// May pages from this origin connect?
pub fn origin_allowed(settings: &Settings, origin: Option<&str>) -> (r: bool)
    ensures
        r == allowed(
            settings@,
            match origin {
                Some(o) => Some(o@),
                None => None,
            },
        ),
{
    if settings.any_origin {
        return true;
    }
    let o = match origin {
        Some(o) => o,
        None => {
            return true;
        },
    };
    for i in 0..settings.origins.len()
        invariant
            origin == Some(o),
            !settings.any_origin,
            forall|j: int| 0 <= j < i ==> !matches_origin(o@, #[trigger] settings@.origins[j]),
    {
        assert(settings@.origins[i as int] == settings.origins@[i as int]@);
        if is_from(o, &settings.origins[i]) {
            return true;
        }
    }
    false
}

/// What a page that wants to connect is told.
#[derive(Debug)]
pub enum Admission {
    Open(Route),
    /// Forbidden: the answer, and a note for the operator.
    Forbidden { answer: String, note: String },
    /// There is no such route: the answer.
    Unknown(String),
}

#[verifier::ext_equal]
pub enum AdmissionView {
    Open(Route),
    Forbidden { answer: Seq<char>, note: Seq<char> },
    Unknown(Seq<char>),
}

impl View for Admission {
    type V = AdmissionView;

    open spec fn view(&self) -> AdmissionView {
        match self {
            Admission::Open(route) => AdmissionView::Open(*route),
            Admission::Forbidden { answer, note } => AdmissionView::Forbidden {
                answer: answer@,
                note: note@,
            },
            Admission::Unknown(answer) => AdmissionView::Unknown(answer@),
        }
    }
}

pub open spec fn admitted(s: SettingsView, origin: Option<Seq<char>>, path: Seq<char>) -> AdmissionView {
    let route = text::trim_end(path, Class::One('/'));
    if !allowed(s, origin) {
        let o = origin->0;
        AdmissionView::Forbidden {
            answer: "origin "@ + o + " is not allowed"@,
            note: "refused page from "@ + o + " (add --allow-origin "@ + o + " to permit)"@,
        }
    } else if route == "/cms"@ {
        AdmissionView::Open(Route::Cms)
    } else if route == "/agw"@ {
        AdmissionView::Open(Route::Agw)
    } else {
        AdmissionView::Unknown(
            "unknown route "@ + unicode::quoted(route) + "; use /cms or /agw"@,
        )
    }
}

/// Decides on a page that wants to connect.
pub fn judge(settings: &Settings, origin: Option<&str>, path: &str) -> (r: Admission)
    ensures
        r@ == admitted(
            settings@,
            match origin {
                Some(o) => Some(o@),
                None => None,
            },
            path@,
        ),
{
    if !origin_allowed(settings, origin) {
        let o = match origin {
            Some(o) => o,
            None => "",
        };
        let note = text::cat5("refused page from ", o, " (add --allow-origin ", o, " to permit)");
        return Admission::Forbidden { answer: text::cat3("origin ", o, " is not allowed"), note };
    }
    let chars = text::chars(path);
    let route = text::string(text::trimmed_end(&chars, Class::One('/')));
    if text::same(&route, "/cms") {
        Admission::Open(Route::Cms)
    } else if text::same(&route, "/agw") {
        Admission::Open(Route::Agw)
    } else {
        Admission::Unknown(
            text::cat3("unknown route ", &unicode::quote(&route), "; use /cms or /agw"),
        )
    }
}

/// The address behind a route.
pub open spec fn target_of(s: SettingsView, route: Route) -> Seq<char> {
    match route {
        Route::Cms => s.cms,
        Route::Agw => s.agw,
    }
}

pub fn target<'a>(settings: &'a Settings, route: Route) -> (r: &'a str)
    ensures
        r@ == target_of(settings@, route),
{
    match route {
        Route::Cms => settings.cms.as_str(),
        Route::Agw => settings.agw.as_str(),
    }
}

/// What the page is told when the other end cannot be reached.
pub open spec fn unreachable_text(s: SettingsView, route: Route, e: Seq<char>) -> Seq<char> {
    route_name(route) + " not reachable at "@ + target_of(s, route) + " ("@ + e + ")"@ + (
    match route {
        Route::Agw => " — start Direwolf with its AGW port enabled"@,
        Route::Cms => " — check your internet connection"@,
    })
}

pub fn not_reachable(settings: &Settings, route: Route, e: &str) -> (r: String)
    ensures
        r@ == unreachable_text(settings@, route, e@),
{
    let hint = match route {
        Route::Agw => " — start Direwolf with its AGW port enabled",
        Route::Cms => " — check your internet connection",
    };
    let mut s = text::cat5(
        route.name(),
        " not reachable at ",
        target(settings, route),
        " (",
        e,
    );
    s.append(")");
    s.append(hint);
    s
}

// ---------------------------------------------------------------------
// Passing bytes

/// A message from the page.
#[derive(Debug)]
pub enum FromPage {
    Binary(Vec<u8>),
    Words(String),
    Ping(Vec<u8>),
    Pong,
    Close,
}

/// What is done with a message from the page.
#[derive(Debug)]
pub enum Relay {
    /// Write the bytes to the other end.
    Write(Vec<u8>),
    /// Answer the ping.
    Pong(Vec<u8>),
    /// Close the connection.
    End,
    Nothing,
}

/// Bytes and text go to the other end as they are; pings are answered.
pub fn relay(m: FromPage) -> (r: Relay)
    ensures
        match m {
            FromPage::Binary(data) => r matches Relay::Write(out) && out@ == data@,
            FromPage::Words(s) => r matches Relay::Write(out) && out@
                == vstd::utf8::encode_utf8(s@),
            FromPage::Ping(data) => r matches Relay::Pong(out) && out@ == data@,
            FromPage::Pong => r is Nothing,
            FromPage::Close => r is End,
        },
{
    match m {
        FromPage::Binary(data) => Relay::Write(data),
        FromPage::Words(s) => Relay::Write(text::utf8_bytes(&s)),
        FromPage::Ping(data) => Relay::Pong(data),
        FromPage::Pong => Relay::Nothing,
        FromPage::Close => Relay::End,
    }
}

/// What the operator is told at the start; `addr` is where the bridge
/// listens.
pub open spec fn greeting(s: SettingsView, addr: Seq<char>) -> Seq<Seq<char>> {
    seq![
        "ws://"@ + addr + "/cms → tcp://"@ + s.cms,
        "ws://"@ + addr + "/agw → tcp://"@ + s.agw,
        if s.any_origin {
            "accepting pages from any origin"@
        } else {
            "accepting pages from "@ + text::join(s.origins, ", "@)
        },
    ]
}

pub fn greet(settings: &Settings, addr: &str) -> (r: Vec<String>)
    ensures
        text::texts(r@) == greeting(settings@, addr@),
{
    let pages = if settings.any_origin {
        "accepting pages from any origin".to_owned()
    } else {
        text::cat2("accepting pages from ", &text::joined(&settings.origins, ", "))
    };
    let out = vec![
        text::cat4("ws://", addr, "/cms → tcp://", &settings.cms),
        text::cat4("ws://", addr, "/agw → tcp://", &settings.agw),
        pages,
    ];
    assert(text::texts(out@) =~= greeting(settings@, addr@));
    out
}

// ---------------------------------------------------------------------
// Laws

/// Whatever a page asks for, it is connected to nothing but the two
/// addresses in the settings, and only if its origin is allowed.
pub proof fn law_routes_are_fixed(s: SettingsView, origin: Option<Seq<char>>, path: Seq<char>)
    ensures
        admitted(s, origin, path) matches AdmissionView::Open(route) ==> allowed(s, origin) && (
        target_of(s, route) == s.cms || target_of(s, route) == s.agw),
        !allowed(s, origin) ==> admitted(s, origin, path) is Forbidden,
{
}

/// The origins on the command line come on top of those that are always
/// allowed: no argument shuts one of these out.
pub proof fn law_default_origins_stay(s: SettingsView, args: Seq<Seq<char>>, o: Seq<char>)
    requires
        allowed(s, Some(o)),
    ensures
        parsed(s, args) matches OutcomeView::Run(t) ==> allowed(t, Some(o)),
    decreases args.len(),
{
    if args.len() >= 2 && takes_value(args[0]) {
        let t = with_option(s, args[0], args[1]);
        if !s.any_origin {
            let i = choose|i: int|
                0 <= i < s.origins.len() && matches_origin(o, #[trigger] s.origins[i]);
            assert(t.origins[i] == s.origins[i]);
        }
        law_default_origins_stay(t, args.skip(2), o);
    }
}

} // verus!

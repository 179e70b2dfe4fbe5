//! Laws of the command line: each option sets what it is named for.

use vstd::prelude::*;

use crate::cli::args;
use crate::cli::args::{ConfigView, OutcomeView, RestView};
use crate::text;
use crate::text::Class;
use crate::unicode;

verus! {

/// An option with a value sets what it is named for, and the last one counts;
/// every other setting that no option is given for stays as it was.
pub proof fn law_options_with_values(r: RestView, name: Seq<char>, value: Seq<char>, rest: Seq<Seq<char>>)
    requires
        r.args == seq![name, value] + rest,
        !rest.contains(name),
        name != "--quiet"@,
        name != "--no-color"@,
    ensures
        args::parsed(r) matches OutcomeView::Settings(c) ==> {
            &&& name == "--call"@ ==> c.call == unicode::upper(text::trim(value))
            &&& name == "--locator"@ ==> c.locator == unicode::upper(value)
            &&& name == "--mailbox"@ ==> c.mailbox == Some(value)
            &&& name == "--cms"@ ==> c.cms == value
            &&& name == "--agw"@ ==> c.agw == value
            &&& name == "--agw-port"@ ==> text::parse_unsigned(value, 10, 255) == Some(
                c.agw_port as nat,
            )
            &&& name == "--paclen"@ ==> text::parse_unsigned(value, 10, 256) == Some(
                c.paclen as nat,
            ) && 16 <= c.paclen <= 256
            &&& name == "--timeout"@ ==> c.timeout is Some && text::parse_unsigned(
                value,
                10,
                u64::MAX as nat,
            ) == Some(c.timeout->0 as nat) && c.timeout->0 >= 10
            &&& name == "--once"@ ==> c.once == Some(value)
            &&& others_stay(r, name, rest, c)
        },
{
    lemma_names();
    assert(r.args[0] == name && r.args[1] == value);
    assert(r.args.skip(2) =~= rest);
    if let OutcomeView::Settings(c) = args::parsed(r) {
        let next = args::with_option(RestView { args: rest, ..r }, name, value)->Ok_0;
        assert(args::parsed(next) == OutcomeView::Settings(c));
        lemma_untouched(next);
    }
}

/// A flag sets what it is named for.
pub proof fn law_flags(r: RestView, name: Seq<char>, rest: Seq<Seq<char>>)
    requires
        r.args == seq![name] + rest,
        name == "--quiet"@ || name == "--no-color"@,
    ensures
        args::parsed(r) matches OutcomeView::Settings(c) ==> {
            &&& name == "--quiet"@ ==> c.quiet
            &&& name == "--no-color"@ ==> c.no_color
            &&& others_stay(r, name, rest, c)
        },
{
    lemma_names();
    assert(r.args[0] == name);
    assert(r.args.skip(1) =~= rest);
    if let OutcomeView::Settings(c) = args::parsed(r) {
        let cfg = if name == "--quiet"@ {
            ConfigView { quiet: true, ..r.cfg }
        } else {
            ConfigView { no_color: true, ..r.cfg }
        };
        lemma_untouched(RestView { args: rest, cfg, ..r });
    }
}

/// What is set by an option that is neither this one nor among the rest is as
/// it was.
pub open spec fn others_stay(
    r: RestView,
    name: Seq<char>,
    rest: Seq<Seq<char>>,
    c: ConfigView,
) -> bool {
    &&& name != "--locator"@ && !rest.contains("--locator"@) ==> c.locator == r.cfg.locator
    &&& name != "--mailbox"@ && !rest.contains("--mailbox"@) ==> c.mailbox == r.cfg.mailbox
    &&& name != "--cms"@ && !rest.contains("--cms"@) ==> c.cms == r.cfg.cms
    &&& name != "--agw"@ && !rest.contains("--agw"@) ==> c.agw == r.cfg.agw
    &&& name != "--agw-port"@ && !rest.contains("--agw-port"@) ==> c.agw_port == r.cfg.agw_port
    &&& name != "--paclen"@ && !rest.contains("--paclen"@) ==> c.paclen == r.cfg.paclen
    &&& name != "--timeout"@ && !rest.contains("--timeout"@) ==> c.timeout == r.cfg.timeout
    &&& name != "--once"@ && !rest.contains("--once"@) ==> c.once == r.cfg.once
    &&& name != "--quiet"@ && !rest.contains("--quiet"@) ==> c.quiet == r.cfg.quiet
    &&& name != "--no-color"@ && !rest.contains("--no-color"@) ==> c.no_color == r.cfg.no_color
    &&& c.password == r.cfg.password
}

/// Does this setting come through the rest of the command line unchanged?
spec fn untouched(r: RestView, c: ConfigView) -> bool {
    &&& !r.args.contains("--call"@) ==> r.call is Some && c.call == unicode::upper(
        text::trim(r.call->0),
    )
    &&& !r.args.contains("--locator"@) ==> c.locator == r.cfg.locator
    &&& !r.args.contains("--mailbox"@) ==> c.mailbox == r.cfg.mailbox
    &&& !r.args.contains("--cms"@) ==> c.cms == r.cfg.cms
    &&& !r.args.contains("--agw"@) ==> c.agw == r.cfg.agw
    &&& !r.args.contains("--agw-port"@) ==> c.agw_port == r.cfg.agw_port
    &&& !r.args.contains("--paclen"@) ==> c.paclen == r.cfg.paclen
    &&& !r.args.contains("--timeout"@) ==> c.timeout == r.cfg.timeout
    &&& !r.args.contains("--once"@) ==> c.once == r.cfg.once
    &&& !r.args.contains("--quiet"@) ==> c.quiet == r.cfg.quiet
    &&& !r.args.contains("--no-color"@) ==> c.no_color == r.cfg.no_color
    &&& r.cfg.quiet ==> c.quiet
    &&& r.cfg.no_color ==> c.no_color
    &&& c.password == r.cfg.password
}

#[verifier::spinoff_prover]
#[verifier::rlimit(40)]
proof fn lemma_untouched(r: RestView)
    ensures
        args::parsed(r) matches OutcomeView::Settings(c) ==> untouched(r, c),
    decreases r.args.len(),
{
    if let OutcomeView::Settings(c) = args::parsed(r) {
        if r.args.len() > 0 {
            lemma_names();
            let name = r.args[0];
            assert(r.args.contains(name));
            if name == "--quiet"@ || name == "--no-color"@ {
                let one = r.args.skip(1);
                let cfg = if name == "--quiet"@ {
                    ConfigView { quiet: true, ..r.cfg }
                } else {
                    ConfigView { no_color: true, ..r.cfg }
                };
                lemma_fewer(r.args, 1);
                lemma_untouched(RestView { args: one, cfg, ..r });
            } else {
                let rest = RestView { args: r.args.skip(2), ..r };
                lemma_fewer(r.args, 2);
                let next = args::with_option(rest, name, r.args[1])->Ok_0;
                lemma_untouched(next);
            }
        }
    }
}

proof fn lemma_fewer(v: Seq<Seq<char>>, n: int)
    requires
        0 <= n <= v.len(),
    ensures
        forall|name: Seq<char>| #[trigger] v.skip(n).contains(name) ==> v.contains(name),
{
    assert forall|name: Seq<char>| #[trigger] v.skip(n).contains(name) implies v.contains(name) by {
        let i = choose|i: int| 0 <= i < v.skip(n).len() && v.skip(n)[i] == name;
        assert(v[i + n] == name);
    }
}

/// The options are told apart by their length and third character.
proof fn lemma_names()
    ensures
        "--call"@.len() == 6 && "--call"@[2] == 'c',
        "--locator"@.len() == 9 && "--locator"@[2] == 'l',
        "--mailbox"@.len() == 9 && "--mailbox"@[2] == 'm',
        "--password-file"@.len() == 15,
        "--cms"@.len() == 5 && "--cms"@[2] == 'c',
        "--agw"@.len() == 5 && "--agw"@[2] == 'a',
        "--agw-port"@.len() == 10 && "--agw-port"@[2] == 'a',
        "--paclen"@.len() == 8,
        "--timeout"@.len() == 9 && "--timeout"@[2] == 't',
        "--once"@.len() == 6 && "--once"@[2] == 'o',
        "--quiet"@.len() == 7,
        "--no-color"@.len() == 10 && "--no-color"@[2] == 'n',
        "-h"@.len() == 2,
        "--help"@.len() == 6 && "--help"@[2] == 'h',
{
    reveal_strlit("--call");
    reveal_strlit("--locator");
    reveal_strlit("--mailbox");
    reveal_strlit("--password-file");
    reveal_strlit("--cms");
    reveal_strlit("--agw");
    reveal_strlit("--agw-port");
    reveal_strlit("--paclen");
    reveal_strlit("--timeout");
    reveal_strlit("--once");
    reveal_strlit("--quiet");
    reveal_strlit("--no-color");
    reveal_strlit("-h");
    reveal_strlit("--help");
}

/// The password from a file is its content up to the line ends behind it.
pub proof fn law_password_from_a_file(r: RestView, password: Seq<char>, ends: Seq<char>)
    requires
        password.len() > 0 ==> password.last() != '\r' && password.last() != '\n',
        forall|i: int| 0 <= i < ends.len() ==> #[trigger] ends[i] == '\r' || ends[i] == '\n',
    ensures
        args::with_password(r, password + ends).cfg.password == Some(password),
        args::with_password(r, password + ends).call == r.call,
        args::with_password(r, password + ends).args == r.args,
{
    let k = Class::Two('\r', '\n');
    let all = password + ends;
    text::lemma_trailing_is(all, k, ends.len() as int);
    assert(text::trim_end(all, k) =~= password);
}

} // verus!

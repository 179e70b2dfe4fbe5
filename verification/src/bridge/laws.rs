//! Laws of the bridge: where a route leads, who is let in, and what each
//! option sets.

use vstd::prelude::*;

use crate::bridge;
use crate::bridge::{AdmissionView, OutcomeView, Settings, SettingsView};
use crate::text;
use crate::text::Class;

verus! {

/// With any number of slashes behind it, `/cms` leads to the CMS address and
/// `/agw` to the AGW address.
pub proof fn law_route_leads_to_its_address(s: Settings, slashes: nat)
    ensures
        ({
            let tail = Seq::new(slashes, |i: int| '/');
            let to_cms = bridge::admitted(s@, None, "/cms"@ + tail);
            let to_agw = bridge::admitted(s@, None, "/agw"@ + tail);
            &&& to_cms matches AdmissionView::Open(route) && bridge::target_of(s@, route) == s.cms@
            &&& to_agw matches AdmissionView::Open(route) && bridge::target_of(s@, route) == s.agw@
        }),
{
    let tail = Seq::new(slashes, |i: int| '/');
    reveal_strlit("/cms");
    reveal_strlit("/agw");
    lemma_slashes("/cms"@, tail);
    lemma_slashes("/agw"@, tail);
    assert("/cms"@[1] != "/agw"@[1]);
}

proof fn lemma_slashes(s: Seq<char>, tail: Seq<char>)
    requires
        s.len() > 0,
        s.last() != '/',
        forall|i: int| 0 <= i < tail.len() ==> tail[i] == '/',
    ensures
        text::trim_end(s + tail, Class::One('/')) == s,
{
    let k = Class::One('/');
    let all = s + tail;
    text::lemma_trailing_is(all, k, tail.len() as int);
    assert(text::trim_end(all, k) =~= s);
}

/// A page is let in if its origin is one of those in the settings, with or
/// without a port; no other page is, unless every origin is allowed.
pub proof fn law_origins(s: Settings, origin: Seq<char>)
    ensures
        s.any_origin ==> bridge::allowed(s@, Some(origin)),
        bridge::allowed(s@, None),
        forall|i: int|
            0 <= i < s.origins@.len() && is_at(origin, #[trigger] s.origins@[i]@)
                ==> bridge::allowed(s@, Some(origin)),
        bridge::allowed(s@, Some(origin)) && !s.any_origin ==> exists|i: int|
            0 <= i < s.origins@.len() && is_at(origin, #[trigger] s.origins@[i]@),
{
    let v = text::texts(s.origins@);
    assert forall|i: int| 0 <= i < s.origins@.len() && is_at(origin, #[trigger] s.origins@[i]@) implies bridge::allowed(
        s@,
        Some(origin),
    ) by {
        assert(v[i] == s.origins@[i]@);
        lemma_at(origin, v[i]);
        assert(bridge::matches_origin(origin, s@.origins[i]));
    }
    if bridge::allowed(s@, Some(origin)) && !s.any_origin {
        let i = choose|i: int|
            0 <= i < v.len() && bridge::matches_origin(origin, #[trigger] v[i]);
        lemma_at(origin, v[i]);
        assert(is_at(origin, s.origins@[i]@));
    }
}

/// The same text, or the same with a colon and nothing but decimal digits behind it.
pub open spec fn is_at(origin: Seq<char>, site: Seq<char>) -> bool {
    origin == site || {
        &&& origin.len() > site.len()
        &&& forall|k: int| 0 <= k < site.len() ==> #[trigger] origin[k] == site[k]
        &&& origin[site.len() as int] == ':'
        &&& forall|k: int|
            site.len() < k < origin.len() ==> '0' <= #[trigger] origin[k] && origin[k] <= '9'
    }
}

proof fn lemma_at(origin: Seq<char>, site: Seq<char>)
    ensures
        is_at(origin, site) <==> bridge::matches_origin(origin, site),
{
    let n = site.len() as int;
    if is_at(origin, site) && origin != site {
        assert(origin.take(n) =~= site);
        let port = origin.skip(n);
        assert forall|k: int| 0 <= k < port.skip(1).len() implies '0' <= #[trigger] port.skip(1)[k]
            && port.skip(1)[k] <= '9' by {
            assert(port.skip(1)[k] == origin[n + 1 + k]);
        }
    }
    if bridge::matches_origin(origin, site) && origin != site {
        assert(origin.take(n) == site);
        let port = origin.skip(n);
        assert forall|k: int| 0 <= k < n implies #[trigger] origin[k] == site[k] by {
            assert(origin.take(n)[k] == origin[k]);
        }
        assert(port[0] == origin[n]);
        assert forall|k: int| n < k < origin.len() implies '0' <= #[trigger] origin[k]
            && origin[k] <= '9' by {
            assert(port.skip(1)[k - n - 1] == origin[k]);
        }
    }
}

/// A page that is not let in is refused, whatever it asks for.
pub proof fn law_other_pages_are_refused(s: Settings, origin: Seq<char>, path: Seq<char>)
    requires
        !s.any_origin,
        forall|i: int| 0 <= i < s.origins@.len() ==> !is_at(origin, #[trigger] s.origins@[i]@),
    ensures
        bridge::admitted(s@, Some(origin), path) is Forbidden,
{
    law_origins(s, origin);
}

/// Each option sets what it is named for, and the last one counts; what no
/// option is given for stays as it was.
pub proof fn law_options(s: SettingsView, name: Seq<char>, value: Seq<char>, rest: Seq<Seq<char>>)
    requires
        !rest.contains(name),
    ensures
        bridge::parsed(s, seq![name, value] + rest) matches OutcomeView::Run(t) ==> {
            &&& name == "--listen"@ ==> t.listen == value
            &&& name == "--cms"@ ==> t.cms == value
            &&& name == "--agw"@ ==> t.agw == value
            &&& name == "--allow-origin"@ && value == "*"@ ==> t.any_origin
            &&& name == "--allow-origin"@ && value != "*"@ ==> t.origins == s.origins.push(
                text::trim_end(value, Class::One('/')),
            ) && t.any_origin == s.any_origin
            &&& name != "--listen"@ && !rest.contains("--listen"@) ==> t.listen == s.listen
            &&& name != "--cms"@ && !rest.contains("--cms"@) ==> t.cms == s.cms
            &&& name != "--agw"@ && !rest.contains("--agw"@) ==> t.agw == s.agw
            &&& name != "--allow-origin"@ && !rest.contains("--allow-origin"@) ==> t.any_origin
                == s.any_origin && t.origins == s.origins
        },
{
    lemma_names();
    let all = seq![name, value] + rest;
    assert(all[0] == name && all[1] == value);
    assert(all.skip(2) =~= rest);
    if bridge::parsed(s, all) is Run {
        lemma_untouched(bridge::with_option(s, name, value), rest);
    }
}

proof fn lemma_untouched(s: SettingsView, args: Seq<Seq<char>>)
    ensures
        bridge::parsed(s, args) matches OutcomeView::Run(t) ==> {
            &&& !args.contains("--listen"@) ==> t.listen == s.listen
            &&& !args.contains("--cms"@) ==> t.cms == s.cms
            &&& !args.contains("--agw"@) ==> t.agw == s.agw
            &&& !args.contains("--allow-origin"@) ==> t.any_origin == s.any_origin && t.origins
                == s.origins
        },
    decreases args.len(),
{
    if bridge::parsed(s, args) is Run && args.len() > 0 {
        lemma_names();
        let rest = args.skip(2);
        lemma_untouched(bridge::with_option(s, args[0], args[1]), rest);
        assert(args.contains(args[0]));
        lemma_fewer(args, "--listen"@);
        lemma_fewer(args, "--cms"@);
        lemma_fewer(args, "--agw"@);
        lemma_fewer(args, "--allow-origin"@);
    }
}

proof fn lemma_fewer(args: Seq<Seq<char>>, name: Seq<char>)
    requires
        args.len() >= 2,
    ensures
        args.skip(2).contains(name) ==> args.contains(name),
{
    if args.skip(2).contains(name) {
        let i = choose|i: int| 0 <= i < args.skip(2).len() && args.skip(2)[i] == name;
        assert(args[i + 2] == name);
    }
}

proof fn lemma_names()
    ensures
        "--listen"@ != "--cms"@ && "--listen"@ != "--agw"@ && "--listen"@ != "--allow-origin"@,
        "--cms"@ != "--agw"@ && "--cms"@ != "--allow-origin"@ && "--agw"@ != "--allow-origin"@,
{
    reveal_strlit("--listen");
    reveal_strlit("--cms");
    reveal_strlit("--agw");
    reveal_strlit("--allow-origin");
    assert("--cms"@[2] != "--agw"@[2]);
    assert("--listen"@.len() == 8 && "--cms"@.len() == 5 && "--agw"@.len() == 5);
    assert("--allow-origin"@.len() == 14);
}

} // verus!

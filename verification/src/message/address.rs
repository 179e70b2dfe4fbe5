//! Winlink addresses.

use vstd::prelude::*;

use crate::text;
use crate::text::Class;
use crate::unicode;

verus! {

/// Neither white space nor a control character.
pub open spec fn is_compact(s: Seq<char>) -> bool {
    forall|i: int| 0 <= i < s.len() ==> !text::is_space(#[trigger] s[i]) && !text::is_control(s[i])
}

/// The characters of a callsign: ASCII letters and digits, `-` and `/`.
pub open spec fn is_call_char(c: char) -> bool {
    ||| 'A' <= c && c <= 'Z'
    ||| 'a' <= c && c <= 'z'
    ||| '0' <= c && c <= '9'
    ||| c == '-'
    ||| c == '/'
}

pub open spec fn is_call_text(s: Seq<char>) -> bool {
    forall|i: int| 0 <= i < s.len() ==> is_call_char(#[trigger] s[i])
}

/// The Winlink form of an address: callsigns upper-case, e-mail as
/// `SMTP:user@host`, `CALL@winlink.org` as plain `CALL`.
pub open spec fn normalized(given: Seq<char>) -> Result<Seq<char>, Seq<char>> {
    let addr = text::trim_both(text::trim(given), Class::Two('<', '>'));
    if addr.len() == 0 {
        Err("empty address"@)
    } else if !is_compact(addr) {
        Err("address "@ + unicode::quoted(addr) + " contains spaces"@)
    } else {
        match text::split_once(addr, Class::One(':')) {
            Some((proto, rest)) => if text::same_text(proto, "smtp"@) && text::has(
                rest,
                Class::One('@'),
            ) {
                Ok("SMTP:"@ + rest)
            } else {
                Err("unsupported address "@ + unicode::quoted(addr))
            },
            None => match text::split_once(addr, Class::One('@')) {
                Some((local, domain)) => if local.len() == 0 || domain.len() == 0 || text::has(
                    domain,
                    Class::One('@'),
                ) {
                    Err("malformed e-mail address "@ + unicode::quoted(addr))
                } else if text::same_text(domain, "winlink.org"@) {
                    Ok(unicode::upper(local))
                } else {
                    Ok("SMTP:"@ + addr)
                },
                None => if is_call_text(addr) {
                    Ok(unicode::upper(addr))
                } else {
                    Err(unicode::quoted(addr) + " is neither a callsign nor an e-mail address"@)
                },
            },
        }
    }
}

/// The parts of some lists, each separated by commas or semicolons.
pub open spec fn list_parts(items: Seq<Seq<char>>) -> Seq<Seq<char>>
    decreases items.len(),
{
    if items.len() == 0 {
        seq![]
    } else {
        list_parts(items.drop_last()) + text::split(items.last(), Class::Two(',', ';'))
    }
}

/// The addresses that these parts give: blank parts are left out, and what
/// is there already is not taken again. The first part that is no address
/// makes all of it an error.
pub open spec fn gathered(parts: Seq<Seq<char>>) -> Result<Seq<Seq<char>>, Seq<char>>
    decreases parts.len(),
{
    if parts.len() == 0 {
        Ok(seq![])
    } else {
        match gathered(parts.drop_last()) {
            Err(e) => Err(e),
            Ok(out) => if text::trim(parts.last()).len() == 0 {
                Ok(out)
            } else {
                match normalized(parts.last()) {
                    Err(e) => Err(e),
                    Ok(addr) => if out.contains(addr) {
                        Ok(out)
                    } else {
                        Ok(out.push(addr))
                    },
                }
            },
        }
    }
}

/// The addresses of some lists.
pub open spec fn addresses(items: Seq<Seq<char>>) -> Result<Seq<Seq<char>>, Seq<char>> {
    gathered(list_parts(items))
}

fn all_compact(s: &[char]) -> (r: bool)
    ensures
        r == is_compact(s@),
{
    for i in 0..s.len()
        invariant
            forall|j: int|
                0 <= j < i ==> !text::is_space(#[trigger] s@[j]) && !text::is_control(s@[j]),
    {
        if text::char_is_space(s[i]) || text::char_is_control(s[i]) {
            return false;
        }
    }
    true
}

fn all_call_chars(s: &[char]) -> (r: bool)
    ensures
        r == is_call_text(s@),
{
    for i in 0..s.len()
        invariant
            forall|j: int| 0 <= j < i ==> is_call_char(#[trigger] s@[j]),
    {
        let c = s[i];
        if !(('A' <= c && c <= 'Z') || ('a' <= c && c <= 'z') || ('0' <= c && c <= '9') || c == '-'
            || c == '/') {
            return false;
        }
    }
    true
}

/// Winlink address form: callsigns upper-case, e-mail as `SMTP:user@host`,
/// `CALL@winlink.org` as plain `CALL`.
pub fn normalize_address(addr: &str) -> (r: Result<String, String>)
    ensures
        r is Ok <==> normalized(addr@) is Ok,
        r matches Ok(a) ==> normalized(addr@) == Ok::<Seq<char>, Seq<char>>(a@),
        r matches Err(e) ==> normalized(addr@) == Err::<Seq<char>, Seq<char>>(e@),
{
    let cs = text::chars(addr);
    let a = text::trimmed_both(text::trimmed(&cs), Class::Two('<', '>'));
    if a.len() == 0 {
        return Err("empty address".to_owned());
    }
    let shown = unicode::quote(&text::string(a));
    if !all_compact(a) {
        return Err(text::cat3("address ", &shown, " contains spaces"));
    }
    if let Some((proto, rest)) = text::split_in_two(a, Class::One(':')) {
        if text::equal_ignoring_case(proto, &text::chars("smtp")) && text::has_any(
            rest,
            Class::One('@'),
        ) {
            return Ok(text::cat2("SMTP:", &text::string(rest)));
        }
        return Err(text::cat2("unsupported address ", &shown));
    }
    if let Some((local, domain)) = text::split_in_two(a, Class::One('@')) {
        if local.len() == 0 || domain.len() == 0 || text::has_any(domain, Class::One('@')) {
            return Err(text::cat2("malformed e-mail address ", &shown));
        }
        if text::equal_ignoring_case(domain, &text::chars("winlink.org")) {
            return Ok(unicode::to_uppercase(&text::string(local)));
        }
        return Ok(text::cat2("SMTP:", &text::string(a)));
    }
    if !all_call_chars(a) {
        return Err(text::cat2(&shown, " is neither a callsign nor an e-mail address"));
    }
    Ok(unicode::to_uppercase(&text::string(a)))
}

/// Takes in the parts of one list.
fn gather(out: &mut Vec<String>, parts: &[Vec<char>], Ghost(before): Ghost<Seq<Seq<char>>>) -> (r:
    Result<(), String>)
    requires
        gathered(before) == Ok::<Seq<Seq<char>>, Seq<char>>(text::texts(old(out)@)),
    ensures
        r is Ok <==> gathered(before + text::views(parts@)) is Ok,
        r is Ok ==> gathered(before + text::views(parts@)) == Ok::<Seq<Seq<char>>, Seq<char>>(
            text::texts(final(out)@),
        ),
        r matches Err(e) ==> gathered(before + text::views(parts@)) == Err::<
            Seq<Seq<char>>,
            Seq<char>,
        >(e@),
{
    let ghost all = before + text::views(parts@);
    assert(all.take(before.len() as int) =~= before);
    for i in 0..parts.len()
        invariant
            all == before + text::views(parts@),
            gathered(all.take(before.len() + i)) == Ok::<Seq<Seq<char>>, Seq<char>>(
                text::texts(out@),
            ),
    {
        let ghost upto = all.take(before.len() + i + 1);
        assert(upto.drop_last() =~= all.take(before.len() + i));
        assert(upto.last() == parts@[i as int]@);
        let part = text::string(&parts[i]);
        if text::trimmed(&parts[i]).len() > 0 {
            match normalize_address(&part) {
                Ok(addr) => {
                    let cs = text::chars(&addr);
                    if !text::is_among(out, &cs) {
                        let ghost known = text::texts(out@);
                        out.push(addr);
                        assert(text::texts(out@) =~= known.push(addr@));
                    }
                },
                Err(e) => {
                    proof {
                        lemma_error_stays(all, before.len() + i + 1);
                    }
                    return Err(e);
                },
            }
        }
    }
    assert(all.take(all.len() as int) =~= all);
    Ok(())
}

/// An error among the first parts is the error of all.
proof fn lemma_error_stays(parts: Seq<Seq<char>>, n: int)
    requires
        0 <= n <= parts.len(),
        gathered(parts.take(n)) is Err,
    ensures
        gathered(parts) == gathered(parts.take(n)),
    decreases parts.len() - n,
{
    if n == parts.len() {
        assert(parts.take(n) =~= parts);
    } else {
        assert(parts.take(n + 1).drop_last() =~= parts.take(n));
        lemma_error_stays(parts, n + 1);
    }
}

proof fn lemma_list_parts_more(items: Seq<Seq<char>>, n: int)
    requires
        0 <= n <= items.len(),
    ensures
        list_parts(items.take(n)).len() <= list_parts(items).len(),
        list_parts(items).take(list_parts(items.take(n)).len() as int) == list_parts(items.take(n)),
    decreases items.len() - n,
{
    if n == items.len() {
        assert(items.take(n) =~= items);
        assert(list_parts(items).take(list_parts(items).len() as int) =~= list_parts(items));
    } else {
        assert(items.take(n + 1).drop_last() =~= items.take(n));
        lemma_list_parts_more(items, n + 1);
        let m = list_parts(items.take(n)).len() as int;
        assert(list_parts(items).take(m) =~= list_parts(items).take(
            list_parts(items.take(n + 1)).len() as int,
        ).take(m));
        assert(list_parts(items.take(n + 1)).take(m) =~= list_parts(items.take(n)));
    }
}

/// Splits comma/semicolon separated address lists and normalises them.
pub fn parse_addresses(items: &[String]) -> (r: Result<Vec<String>, String>)
    ensures
        r is Ok <==> addresses(text::texts(items@)) is Ok,
        r matches Ok(v) ==> addresses(text::texts(items@)) == Ok::<Seq<Seq<char>>, Seq<char>>(
            text::texts(v@),
        ),
        r matches Err(e) ==> addresses(text::texts(items@)) == Err::<Seq<Seq<char>>, Seq<char>>(e@),
{
    let mut out: Vec<String> = Vec::new();
    let ghost all = text::texts(items@);
    assert(all.take(0) =~= seq![]);
    assert(text::texts(out@) =~= seq![]);
    for i in 0..items.len()
        invariant
            all == text::texts(items@),
            gathered(list_parts(all.take(i as int))) == Ok::<Seq<Seq<char>>, Seq<char>>(
                text::texts(out@),
            ),
    {
        assert(all.take(i + 1).drop_last() =~= all.take(i as int));
        assert(all.take(i + 1).last() == items@[i as int]@);
        let parts = text::pieces(&text::chars(&items[i]), Class::Two(',', ';'));
        let done = gather(&mut out, &parts, Ghost(list_parts(all.take(i as int))));
        if let Err(e) = done {
            proof {
                lemma_list_parts_more(all, i + 1);
                lemma_error_stays(list_parts(all), list_parts(all.take(i + 1)).len() as int);
            }
            return Err(e);
        }
    }
    assert(all.take(all.len() as int) =~= all);
    Ok(out)
}

/// Human-friendly form of an address.
pub open spec fn displayed(addr: Seq<char>) -> Seq<char> {
    if text::starts_with(addr, "SMTP:"@) || text::starts_with(addr, "smtp:"@) {
        addr.skip(5)
    } else {
        addr
    }
}

/// Human-friendly form of a Winlink address (drops the `SMTP:` prefix).
pub fn display_address(addr: &str) -> (r: &str)
    ensures
        r@ == displayed(addr@),
{
    proof {
        reveal_strlit("SMTP:");
        reveal_strlit("smtp:");
    }
    let cs = text::chars(addr);
    if text::has_prefix(&cs, "SMTP:") || text::has_prefix(&cs, "smtp:") {
        text::str_from(addr, 5)
    } else {
        addr
    }
}

// ---------------------------------------------------------------------
// Laws

/// No address is listed twice.
pub proof fn law_addresses_distinct(items: Seq<Seq<char>>)
    ensures
        addresses(items) matches Ok(v) ==> v.no_duplicates(),
{
    lemma_gathered_distinct(list_parts(items));
}

proof fn lemma_gathered_distinct(parts: Seq<Seq<char>>)
    ensures
        gathered(parts) matches Ok(v) ==> v.no_duplicates(),
    decreases parts.len(),
{
    if parts.len() > 0 {
        lemma_gathered_distinct(parts.drop_last());
    }
}

/// A Winlink address without white space is left as it is when it is
/// normalised again: a callsign in upper case, or `SMTP:` and an address
/// with `@`.
pub proof fn law_normalized_stays(addr: Seq<char>)
    requires
        addr.len() > 0,
        is_compact(addr),
        addr[0] != '<' && addr[0] != '>' && addr.last() != '<' && addr.last() != '>',
        ({
            ||| is_call_text(addr) && forall|i: int|
                0 <= i < addr.len() ==> !('a' <= #[trigger] addr[i] && addr[i] <= 'z')
            ||| text::starts_with(addr, "SMTP:"@) && text::has(addr, Class::One('@'))
        }),
    ensures
        normalized(addr) == Ok::<Seq<char>, Seq<char>>(addr),
{
    text::lemma_trim_id(addr, Class::Space);
    text::lemma_trim_id(addr, Class::Two('<', '>'));
    if is_call_text(addr) {
        text::lemma_free_of_first(addr, Class::One(':'));
        text::lemma_free_of_first(addr, Class::One('@'));
        assert(vstd::utf8::is_ascii_chars(addr));
        assert(unicode::ascii_upper(addr) =~= addr);
    } else {
        reveal_strlit("SMTP:");
        reveal_strlit("smtp");
        let proto = seq!['S', 'M', 'T', 'P'];
        let rest = addr.skip(5);
        assert forall|i: int| 0 <= i < 5 implies addr[i] == "SMTP:"@[i] by {
            assert(addr.take(5)[i] == addr[i]);
        }
        assert(addr =~= proto + seq![':'] + rest);
        text::lemma_split_at(proto, ':', rest, Class::One(':'));
        assert(text::ascii_lower(proto) =~= text::ascii_lower("smtp"@));
        text::lemma_first(addr, Class::One('@'));
        text::lemma_first(rest, Class::One('@'));
        let n = text::first(addr, Class::One('@')) as int;
        assert(rest[n - 5] == addr[n]);
        assert("SMTP:"@ + rest =~= addr);
    }
}

} // verus!

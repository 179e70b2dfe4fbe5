//! Laws of what a message must have, and of its address lists.

use vstd::prelude::*;
use vstd::utf8::*;

use crate::message;
use crate::message::address;
use crate::message::header;
use crate::message::wire;
use crate::message::MessageView;
use crate::text;
use crate::text::Class;
use crate::unicode;

verus! {

/// A message can be sent exactly if it has an ID of at most 12 bytes, a
/// recipient, a sender, a text, a subject of at most 128 bytes, and no
/// attachment whose name takes more than 255 bytes.
pub proof fn law_what_a_message_needs(m: MessageView)
    ensures
        message::fault(m) is None <==> {
            let mid = encode_utf8(wire::mid_of(m));
            let subject = header::value_or(m.fields, "Subject"@, ""@);
            &&& wire::mid_of(m).len() > 0 && mid.len() <= 12
            &&& header::values_of(m.fields, "To"@).len() + header::values_of(
                m.fields,
                "Cc"@,
            ).len() > 0
            &&& text::trim(header::value_or(m.fields, "From"@, ""@)).len() > 0
            &&& m.body.len() > 0
            &&& subject.len() > 0 && encode_utf8(subject).len() <= 128
            &&& forall|i: int|
                0 <= i < m.files.len() ==> encode_utf8((#[trigger] m.files[i]).0).len() <= 255
        },
{
    lemma_names(m.files);
}

proof fn lemma_names(files: Seq<(Seq<char>, Seq<u8>)>)
    ensures
        message::long_name(files) is None <==> forall|i: int|
            0 <= i < files.len() ==> encode_utf8((#[trigger] files[i]).0).len() <= 255,
    decreases files.len(),
{
    if files.len() > 0 {
        let rest = files.drop_first();
        lemma_names(rest);
        if message::long_name(files) is None {
            assert forall|i: int| 0 <= i < files.len() implies encode_utf8(
                (#[trigger] files[i]).0,
            ).len() <= 255 by {
                if i > 0 {
                    assert(files[i] == rest[i - 1]);
                }
            }
        }
        if forall|i: int|
            0 <= i < files.len() ==> encode_utf8((#[trigger] files[i]).0).len() <= 255 {
            assert(encode_utf8(files[0].0).len() <= 255);
            assert forall|i: int| 0 <= i < rest.len() implies encode_utf8(
                (#[trigger] rest[i]).0,
            ).len() <= 255 by {
                assert(rest[i] == files[i + 1]);
            }
        }
    }
}

/// Every address that is given is taken: whatever stands between commas or
/// semicolons, if it is not blank, is among the addresses.
pub proof fn law_every_address_is_taken(items: Seq<Seq<char>>, i: int, k: int)
    requires
        0 <= i < items.len(),
        0 <= k < text::split(items[i], Class::Two(',', ';')).len(),
    ensures
        address::addresses(items) matches Ok(v) ==> {
            let part = text::split(items[i], Class::Two(',', ';'))[k];
            text::trim(part).len() > 0 ==> address::normalized(part) is Ok && v.contains(
                address::normalized(part)->Ok_0,
            )
        },
{
    let parts = address::list_parts(items);
    let j = lemma_part_at(items, i, k);
    lemma_gathered(parts, j);
}

proof fn lemma_part_at(items: Seq<Seq<char>>, i: int, k: int) -> (j: int)
    requires
        0 <= i < items.len(),
        0 <= k < text::split(items[i], Class::Two(',', ';')).len(),
    ensures
        0 <= j < address::list_parts(items).len(),
        address::list_parts(items)[j] == text::split(items[i], Class::Two(',', ';'))[k],
    decreases items.len(),
{
    let less = items.drop_last();
    if i < items.len() - 1 {
        assert(less[i] == items[i]);
        lemma_part_at(less, i, k)
    } else {
        address::list_parts(less).len() + k
    }
}

proof fn lemma_gathered(parts: Seq<Seq<char>>, j: int)
    requires
        0 <= j < parts.len(),
    ensures
        address::gathered(parts) matches Ok(v) ==> (text::trim(parts[j]).len() > 0
            ==> address::normalized(parts[j]) is Ok && v.contains(
            address::normalized(parts[j])->Ok_0,
        )),
    decreases parts.len(),
{
    if let Ok(v) = address::gathered(parts) {
        let less = parts.drop_last();
        let w = address::gathered(less)->Ok_0;
        if j < less.len() {
            lemma_gathered(less, j);
            assert(less[j] == parts[j]);
            if text::trim(parts[j]).len() > 0 {
                let a = address::normalized(parts[j])->Ok_0;
                let n = choose|n: int| 0 <= n < w.len() && w[n] == a;
                assert(v[n] == a);
            }
        } else if text::trim(parts[j]).len() > 0 {
            let a = address::normalized(parts[j])->Ok_0;
            if !w.contains(a) {
                assert(v[v.len() - 1] == a);
            }
        }
    }
}

/// An e-mail address goes out as `SMTP:` and the address; one at winlink.org,
/// in capitals or not, is the callsign before the `@`, in upper case.
pub proof fn law_email_addresses(local: Seq<char>, domain: Seq<char>)
    requires
        local.len() > 0,
        domain.len() > 0,
        is_name_part(local),
        is_name_part(domain),
    ensures
        text::ascii_lower(domain) == "winlink.org"@ ==> address::normalized(
            local + "@"@ + domain,
        ) == Ok::<_, Seq<char>>(unicode::upper(local)),
        text::ascii_lower(domain) != "winlink.org"@ ==> address::normalized(
            local + "@"@ + domain,
        ) == Ok::<_, Seq<char>>("SMTP:"@ + local + "@"@ + domain),
{
    reveal_strlit("@");
    reveal_strlit("winlink.org");
    let addr = local + "@"@ + domain;
    assert(addr =~= local + seq!['@'] + domain);
    assert(text::ascii_lower("winlink.org"@) =~= "winlink.org"@);
    assert(addr[0] == local[0] && addr.last() == domain.last());
    assert(fits(local[0]) && fits(domain[domain.len() - 1]));
    text::lemma_trim_id(addr, Class::Space);
    text::lemma_trim_id(addr, Class::Two('<', '>'));
    assert(address::is_compact(addr)) by {
        assert forall|i: int| 0 <= i < addr.len() implies !text::is_space(#[trigger] addr[i])
            && !text::is_control(addr[i]) by {
            if i < local.len() {
                assert(fits(local[i]));
            } else if i > local.len() {
                assert(fits(domain[i - local.len() - 1]));
            }
        }
    }
    assert(text::free_of(addr, Class::One(':'))) by {
        assert forall|i: int| 0 <= i < addr.len() implies !text::is_in(
            Class::One(':'),
            #[trigger] addr[i],
        ) by {
            if i < local.len() {
                assert(fits(local[i]));
            } else if i > local.len() {
                assert(fits(domain[i - local.len() - 1]));
            }
        }
    }
    text::lemma_free_of_first(addr, Class::One(':'));
    assert(text::free_of(local, Class::One('@'))) by {
        assert forall|i: int| 0 <= i < local.len() implies !text::is_in(
            Class::One('@'),
            #[trigger] local[i],
        ) by {
            assert(fits(local[i]));
        }
    }
    assert(text::free_of(domain, Class::One('@'))) by {
        assert forall|i: int| 0 <= i < domain.len() implies !text::is_in(
            Class::One('@'),
            #[trigger] domain[i],
        ) by {
            assert(fits(domain[i]));
        }
    }
    text::lemma_split_at(local, '@', domain, Class::One('@'));
    text::lemma_free_of_first(domain, Class::One('@'));
    assert("SMTP:"@ + addr =~= "SMTP:"@ + local + "@"@ + domain);
}

/// May the character stand in a part of an e-mail address?
pub open spec fn fits(c: char) -> bool {
    '!' <= c && c <= '~' && c != '<' && c != '>' && c != ':' && c != '@'
}

pub open spec fn is_name_part(s: Seq<char>) -> bool {
    forall|i: int| 0 <= i < s.len() ==> fits(#[trigger] s[i])
}

/// A field is found by its name, in capitals or not: the first one of that
/// name, and all of them in order.
pub proof fn law_fields_by_name(f: Seq<(Seq<char>, Seq<char>)>, key: Seq<char>)
    ensures
        header::value_of(f, key) is Some <==> header::values_of(f, key).len() > 0,
        header::value_of(f, key) matches Some(v) ==> header::values_of(f, key)[0] == v,
        forall|i: int|
            0 <= i < f.len() && text::ascii_lower((#[trigger] f[i]).0) == text::ascii_lower(key)
                ==> header::values_of(f, key).contains(f[i].1),
    decreases f.len(),
{
    if f.len() > 0 {
        let less = f.drop_last();
        law_fields_by_name(less, key);
        lemma_value_of_last(f, key);
        let (a, b) = (header::values_of(less, key), header::values_of(f, key));
        assert forall|i: int|
            0 <= i < f.len() && text::ascii_lower((#[trigger] f[i]).0) == text::ascii_lower(
                key,
            ) implies b.contains(f[i].1) by {
            if i < less.len() {
                assert(less[i] == f[i]);
                let n = choose|n: int| 0 <= n < a.len() && a[n] == f[i].1;
                assert(b[n] == f[i].1);
            } else {
                assert(b[b.len() - 1] == f[i].1);
            }
        }
    }
}

proof fn lemma_value_of_last(f: Seq<(Seq<char>, Seq<char>)>, key: Seq<char>)
    requires
        f.len() > 0,
    ensures
        header::value_of(f, key) == (match header::value_of(f.drop_last(), key) {
            Some(v) => Some(v),
            None => if text::same_text(f.last().0, key) {
                Some(f.last().1)
            } else {
                None
            },
        }),
    decreases f.len(),
{
    if f.len() > 1 {
        lemma_value_of_last(f.drop_first(), key);
        assert(f.drop_first().drop_last() =~= f.drop_last().drop_first());
    } else {
        reveal_with_fuel(header::value_of, 2);
    }
}

// ---------------------------------------------------------------------
// The wire

/// A message is written with its ID first, and with its text between empty
/// line and line end, after the header; each attachment comes behind that,
/// with a line end of its own.
pub proof fn law_message_on_the_wire(m: MessageView, name: Seq<char>, data: Seq<u8>)
    ensures
        ({
            let w = wire::written(m);
            let first = encode_utf8("Mid: "@ + wire::mid_of(m) + "\r\n"@);
            let n = m.body.len();
            &&& w.len() >= first.len() && w.take(first.len() as int) == first
            &&& m.files.len() == 0 ==> w.len() >= n + 4 && w.skip(w.len() - n - 4) == seq![
                13u8,
                10u8,
            ] + m.body + seq![13u8, 10u8]
        }),
        wire::written(MessageView { files: m.files.push((name, data)), ..m }) == wire::written(m)
            + data + seq![13u8, 10u8],
{
    let w = wire::written(m);
    let first = encode_utf8("Mid: "@ + wire::mid_of(m) + "\r\n"@);
    assert(w.take(first.len() as int) =~= first);
    if m.files.len() == 0 {
        assert(w.skip(w.len() - m.body.len() - 4) =~= seq![13u8, 10u8] + m.body + seq![13u8, 10u8]);
    }
    lemma_sections(m.files, (name, data));
    let more = MessageView { files: m.files.push((name, data)), ..m };
    assert(wire::written(more) =~= w + data + seq![13u8, 10u8]);
}

proof fn lemma_sections(files: Seq<(Seq<char>, Seq<u8>)>, f: (Seq<char>, Seq<u8>))
    ensures
        wire::file_sections(files.push(f)) == wire::file_sections(files) + f.1 + seq![13u8, 10u8],
    decreases files.len(),
{
    let all = files.push(f);
    if files.len() > 0 {
        lemma_sections(files.drop_first(), f);
        assert(all.drop_first() =~= files.drop_first().push(f));
        assert(wire::file_sections(all) =~= wire::file_sections(files) + f.1 + seq![13u8, 10u8]);
    } else {
        assert(all.drop_first() =~= seq![]);
        assert(wire::file_sections(all.drop_first()) =~= seq![]);
        assert(wire::file_sections(all) =~= wire::file_sections(files) + f.1 + seq![13u8, 10u8]);
    }
}

/// Every field is written on a line of its own: the name, a colon, a space
/// and the value.
pub proof fn law_fields_on_the_wire(m: MessageView, i: int)
    requires
        0 <= i < m.fields.len(),
        !text::same_text(m.fields[i].0, "Mid"@),
    ensures
        exists|a: Seq<u8>, b: Seq<u8>|
            wire::written(m) == #[trigger] (a + encode_utf8(
                m.fields[i].0 + ": "@ + text::trim(m.fields[i].1) + "\r\n"@,
            ) + b),
{
    let x = m.fields[i];
    let kept = header::without(m.fields, "Mid"@);
    lemma_without(m.fields, "Mid"@, i);
    lemma_sorted(kept, x);
    let f = wire::sorted(kept);
    let n = choose|n: int| 0 <= n < f.len() && f[n] == x;
    lemma_line_at(f, n);
    let line = encode_utf8(x.0 + ": "@ + text::trim(x.1) + "\r\n"@);
    let first = encode_utf8("Mid: "@ + wire::mid_of(m) + "\r\n"@);
    let (before, after) = (wire::field_lines(f.take(n)), wire::field_lines(f.skip(n + 1)));
    let tail = wire::crlf() + m.body + wire::crlf() + wire::file_sections(m.files);
    assert(wire::written(m) =~= (first + before) + line + (after + tail));
}

proof fn lemma_without(f: Seq<(Seq<char>, Seq<char>)>, key: Seq<char>, i: int)
    requires
        0 <= i < f.len(),
        !text::same_text(f[i].0, key),
    ensures
        header::without(f, key).contains(f[i]),
    decreases f.len(),
{
    let (less, all) = (header::without(f.drop_last(), key), header::without(f, key));
    if i < f.len() - 1 {
        lemma_without(f.drop_last(), key, i);
        assert(f.drop_last()[i] == f[i]);
        let n = choose|n: int| 0 <= n < less.len() && less[n] == f[i];
        assert(all[n] == f[i]);
    } else {
        assert(all[all.len() - 1] == f[i]);
    }
}

proof fn lemma_inserted(f: Seq<(Seq<char>, Seq<char>)>, x: (Seq<char>, Seq<char>))
    ensures
        wire::inserted(f, x).contains(x),
        forall|y: (Seq<char>, Seq<char>)|
            f.contains(y) ==> #[trigger] wire::inserted(f, x).contains(y),
    decreases f.len(),
{
    let g = wire::inserted(f, x);
    if f.len() > 0 && text::before(x.0, f.last().0) {
        let less = wire::inserted(f.drop_last(), x);
        lemma_inserted(f.drop_last(), x);
        let n = choose|n: int| 0 <= n < less.len() && less[n] == x;
        assert(g[n] == x);
        assert forall|y: (Seq<char>, Seq<char>)| f.contains(y) implies #[trigger] g.contains(y) by {
            let k = choose|k: int| 0 <= k < f.len() && f[k] == y;
            if k < f.len() - 1 {
                assert(f.drop_last()[k] == y);
                assert(f.drop_last().contains(y));
                assert(less.contains(y));
                let j = choose|j: int| 0 <= j < less.len() && less[j] == y;
                assert(g[j] == y);
            } else {
                assert(g[g.len() - 1] == y);
            }
        }
    } else {
        assert(g[g.len() - 1] == x);
        assert forall|y: (Seq<char>, Seq<char>)| f.contains(y) implies #[trigger] g.contains(y) by {
            let k = choose|k: int| 0 <= k < f.len() && f[k] == y;
            assert(g[k] == y);
        }
    }
}

proof fn lemma_sorted(f: Seq<(Seq<char>, Seq<char>)>, x: (Seq<char>, Seq<char>))
    requires
        f.contains(x),
    ensures
        wire::sorted(f).contains(x),
    decreases f.len(),
{
    let less = f.drop_last();
    lemma_inserted(wire::sorted(less), f.last());
    let k = choose|k: int| 0 <= k < f.len() && f[k] == x;
    if k < f.len() - 1 {
        assert(less[k] == x);
        lemma_sorted(less, x);
    }
}

proof fn lemma_line_at(f: Seq<(Seq<char>, Seq<char>)>, n: int)
    requires
        0 <= n < f.len(),
    ensures
        wire::field_lines(f) == wire::field_lines(f.take(n)) + wire::field_line(f[n])
            + wire::field_lines(f.skip(n + 1)),
    decreases f.len(),
{
    if n == 0 {
        assert(f.take(0) =~= seq![]);
        assert(f.skip(1) =~= f.drop_first());
        assert(wire::field_lines(f.take(0)) =~= seq![]);
        assert(wire::field_lines(f) =~= wire::field_lines(f.take(n)) + wire::field_line(f[n])
            + wire::field_lines(f.skip(n + 1)));
    } else {
        let rest = f.drop_first();
        lemma_line_at(rest, n - 1);
        assert(f.take(n).drop_first() =~= rest.take(n - 1));
        assert(f.take(n)[0] == f[0]);
        assert(rest.skip(n) =~= f.skip(n + 1));
        assert(wire::field_lines(f) =~= wire::field_lines(f.take(n)) + wire::field_line(f[n])
            + wire::field_lines(f.skip(n + 1)));
    }
}

} // verus!

//! Laws of what becomes of a text and of a file's name.

use vstd::prelude::*;
use vstd::utf8::*;

use crate::message::body;
use crate::text;
use crate::text::laws::law_join;
use crate::text::Class;

verus! {

/// Lines, each with CRLF behind it.
pub open spec fn as_sent(v: Seq<Seq<char>>) -> Seq<char>
    decreases v.len(),
{
    if v.len() == 0 {
        seq![]
    } else {
        as_sent(v.drop_last()) + v.last() + seq!['\r', '\n']
    }
}

/// The lines of a text are sent as they are, each with CRLF behind it, as long
/// as none takes more than 998 bytes.
pub proof fn law_lines_are_kept(v: Seq<Seq<char>>)
    requires
        v.len() > 0,
        v.last().len() > 0,
        forall|i: int|
            0 <= i < v.len() ==> text::free_of(#[trigger] v[i], Class::Two('\r', '\n'))
                && encode_utf8(v[i]).len() <= 998,
    ensures
        body::normalized_body(text::join(v, seq!['\n'])) == as_sent(v),
{
    let k = Class::One('\n');
    let s = text::join(v, seq!['\n']);
    assert forall|i: int| 0 <= i < v.len() implies text::free_of(#[trigger] v[i], k) by {
        assert forall|j: int| 0 <= j < v[i].len() implies !text::is_in(k, #[trigger] v[i][j]) by {
            assert(!text::is_in(Class::Two('\r', '\n'), v[i][j]));
        }
    }
    law_join(v, '\n');
    lemma_no_returns(v);
    lemma_plain(s);
    lemma_ends(v);
    assert(s.last() == v.last().last());
    assert(!text::is_in(Class::Two('\r', '\n'), v.last()[v.last().len() - 1])) by {
        assert(text::free_of(v[v.len() - 1], Class::Two('\r', '\n')));
    }
    text::lemma_trailing_is(s, k, 0);
    assert(text::trim_end(s, k) =~= s);
    lemma_cut(v);
}

proof fn lemma_ends(v: Seq<Seq<char>>)
    requires
        v.len() > 0,
        v.last().len() > 0,
    ensures
        text::join(v, seq!['\n']).len() > 0,
        text::join(v, seq!['\n']).last() == v.last().last(),
{
}

proof fn lemma_no_returns(v: Seq<Seq<char>>)
    requires
        forall|i: int|
            0 <= i < v.len() ==> text::free_of(#[trigger] v[i], Class::Two('\r', '\n')),
    ensures
        forall|j: int|
            0 <= j < text::join(v, seq!['\n']).len() ==> #[trigger] text::join(v, seq!['\n'])[j]
                != '\r',
    decreases v.len(),
{
    let s = text::join(v, seq!['\n']);
    if v.len() > 0 {
        let less = v.drop_last();
        assert forall|i: int| 0 <= i < less.len() implies text::free_of(
            #[trigger] less[i],
            Class::Two('\r', '\n'),
        ) by {
            assert(less[i] == v[i]);
        }
        lemma_no_returns(less);
        let t = text::join(less, seq!['\n']);
        assert(text::free_of(v[v.len() - 1], Class::Two('\r', '\n')));
        assert forall|j: int| 0 <= j < s.len() implies #[trigger] s[j] != '\r' by {
            if v.len() == 1 {
                assert(!text::is_in(Class::Two('\r', '\n'), v[0][j]));
            } else if j < t.len() {
                assert(s[j] == t[j]);
            } else if j > t.len() {
                assert(s[j] == v.last()[j - t.len() - 1]);
                assert(!text::is_in(Class::Two('\r', '\n'), v.last()[j - t.len() - 1]));
            }
        }
    }
}

proof fn lemma_plain(s: Seq<char>)
    requires
        forall|j: int| 0 <= j < s.len() ==> #[trigger] s[j] != '\r',
    ensures
        body::plain_lines(s) == s,
    decreases s.len(),
{
    if s.len() > 0 {
        let rest = s.skip(1);
        assert forall|j: int| 0 <= j < rest.len() implies #[trigger] rest[j] != '\r' by {
            assert(rest[j] == s[j + 1]);
        }
        lemma_plain(rest);
        assert(s[0] != '\r');
        assert(seq![s[0]] + rest =~= s);
    }
}

proof fn lemma_fits(s: Seq<char>, room: int)
    requires
        encode_utf8(s).len() <= room,
    ensures
        body::fitting(s, room) == s.len(),
    decreases s.len(),
{
    if s.len() > 0 {
        let (one, rest) = (seq![s[0]], s.drop_first());
        assert(s =~= one + rest);
        text::lemma_utf8_concat(one, rest);
        lemma_fits(rest, room - encode_utf8(one).len());
    }
}

proof fn lemma_cut(v: Seq<Seq<char>>)
    requires
        forall|i: int|
            0 <= i < v.len() ==> text::free_of(#[trigger] v[i], Class::Two('\r', '\n'))
                && encode_utf8(v[i]).len() <= 998,
    ensures
        body::cut_lines(v) == as_sent(v),
    decreases v.len(),
{
    if v.len() > 0 {
        let less = v.drop_last();
        assert forall|i: int| 0 <= i < less.len() implies text::free_of(
            #[trigger] less[i],
            Class::Two('\r', '\n'),
        ) && encode_utf8(less[i]).len() <= 998 by {
            assert(less[i] == v[i]);
        }
        lemma_cut(less);
        let line = v[v.len() - 1];
        let k = Class::One('\r');
        assert(text::free_of(line, Class::Two('\r', '\n')));
        if line.len() > 0 {
            assert(!text::is_in(Class::Two('\r', '\n'), line[line.len() - 1]));
            text::lemma_trailing_is(line, k, 0);
        } else {
            text::lemma_trailing(line, k);
        }
        assert(text::trim_end(line, k) =~= line);
        lemma_fits(line, 998);
        reveal_strlit("\r\n");
        assert("\r\n"@ =~= seq!['\r', '\n']);
        assert(body::cut_lines(v) =~= as_sent(v));
    }
}

/// A plain name keeps its form, whatever directory stands before it.
pub proof fn law_plain_names_stay(dir: Seq<char>, name: Seq<char>)
    requires
        name.len() > 0,
        forall|i: int|
            0 <= i < name.len() ==> '!' <= #[trigger] name[i] && name[i] <= '~' && name[i] != '/'
                && name[i] != '\\',
        name[0] != '.',
    ensures
        body::sanitized(dir + seq!['/'] + name) == name,
        body::sanitized(dir + seq!['\\'] + name) == name,
        body::sanitized(name) == name,
{
    lemma_after(dir + seq!['/'], name);
    lemma_after(dir + seq!['\\'], name);
    lemma_after(Seq::<char>::empty(), name);
    assert(Seq::<char>::empty() + name =~= name);
    lemma_no_controls(name);
    assert(name[0] <= '~' && name[name.len() - 1] <= '~');
    text::lemma_trim_id(name, Class::Space);
    text::lemma_leading_is(name, Class::One('.'), 0);
    assert(name.skip(0) =~= name);
}

proof fn lemma_after(dir: Seq<char>, name: Seq<char>)
    requires
        dir.len() > 0 ==> dir.last() == '/' || dir.last() == '\\',
        forall|i: int|
            0 <= i < name.len() ==> #[trigger] name[i] != '/' && name[i] != '\\',
    ensures
        text::after_last(dir + name, Class::Two('/', '\\')) == name,
    decreases name.len(),
{
    let all = dir + name;
    if name.len() > 0 {
        let less = name.drop_last();
        assert forall|i: int| 0 <= i < less.len() implies #[trigger] less[i] != '/' && less[i]
            != '\\' by {
            assert(less[i] == name[i]);
        }
        lemma_after(dir, less);
        assert(all.drop_last() =~= dir + less);
        assert(name[name.len() - 1] != '/');
        assert(less.push(name.last()) =~= name);
    } else {
        assert(all =~= dir);
    }
}

proof fn lemma_no_controls(s: Seq<char>)
    requires
        forall|i: int| 0 <= i < s.len() ==> '!' <= #[trigger] s[i] && s[i] <= '~',
    ensures
        body::without_controls(s) == s,
    decreases s.len(),
{
    if s.len() > 0 {
        let less = s.drop_last();
        assert forall|i: int| 0 <= i < less.len() implies '!' <= #[trigger] less[i] && less[i]
            <= '~' by {
            assert(less[i] == s[i]);
        }
        lemma_no_controls(less);
        assert('!' <= s[s.len() - 1]);
        assert(less.push(s.last()) =~= s);
    }
}

} // verus!

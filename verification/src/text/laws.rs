//! Laws of taking texts apart and putting them together.

use vstd::prelude::*;

use crate::text;
use crate::text::Class;

verus! {

/// A text that is split at a character is put together again with that
/// character, and none of its parts holds it.
pub proof fn law_split(s: Seq<char>, c: char)
    ensures
        text::join(text::split(s, Class::One(c)), seq![c]) == s,
        text::split(s, Class::One(c)).len() > 0,
        forall|i: int, j: int|
            0 <= i < text::split(s, Class::One(c)).len() && 0 <= j < text::split(
                s,
                Class::One(c),
            )[i].len() ==> #[trigger] text::split(s, Class::One(c))[i][j] != c,
    decreases s.len(),
{
    let k = Class::One(c);
    let n = text::first(s, k) as int;
    text::lemma_first(s, k);
    let v = text::split(s, k);
    if n < s.len() {
        let (head, tail) = (s.take(n), s.skip(n + 1));
        law_split(tail, c);
        let rest = text::split(tail, k);
        lemma_join_first(head, rest, seq![c]);
        assert(text::is_in(k, s[n]));
        assert(head + seq![c] + tail =~= s);
        assert forall|i: int, j: int| 0 <= i < v.len() && 0 <= j < v[i].len() implies #[trigger] v[i][j]
            != c by {
            if i == 0 {
                assert(!text::is_in(k, s[j]));
            } else {
                assert(v[i] == rest[i - 1]);
                assert(rest[i - 1][j] != c);
            }
        }
    } else {
        assert forall|i: int, j: int| 0 <= i < v.len() && 0 <= j < v[i].len() implies #[trigger] v[i][j]
            != c by {
            assert(!text::is_in(k, s[j]));
        }
    }
}

proof fn lemma_join_first(a: Seq<char>, v: Seq<Seq<char>>, sep: Seq<char>)
    requires
        v.len() > 0,
    ensures
        text::join(seq![a] + v, sep) == a + sep + text::join(v, sep),
    decreases v.len(),
{
    let all = seq![a] + v;
    assert(all.last() == v.last());
    assert(all.drop_last() =~= seq![a] + v.drop_last());
    if v.len() > 1 {
        lemma_join_first(a, v.drop_last(), sep);
        assert(text::join(all, sep) =~= a + sep + text::join(v, sep));
    } else {
        assert(all.drop_last() =~= seq![a]);
        assert(text::join(seq![a], sep) == a);
        assert(text::join(all, sep) =~= a + sep + v[0]);
    }
}

/// What is put together with a character is split at it into the same parts.
pub proof fn law_join(v: Seq<Seq<char>>, c: char)
    requires
        v.len() > 0,
        forall|i: int| 0 <= i < v.len() ==> text::free_of(#[trigger] v[i], Class::One(c)),
    ensures
        text::split(text::join(v, seq![c]), Class::One(c)) == v,
    decreases v.len(),
{
    let k = Class::One(c);
    assert(text::free_of(v[0], k));
    if v.len() == 1 {
        text::lemma_free_of_first(v[0], k);
        assert(v =~= seq![v[0]]);
    } else {
        let rest = v.drop_first();
        assert forall|i: int| 0 <= i < rest.len() implies text::free_of(#[trigger] rest[i], k) by {
            assert(rest[i] == v[i + 1]);
        }
        law_join(rest, c);
        lemma_join_first(v[0], rest, seq![c]);
        assert(v =~= seq![v[0]] + rest);
        text::lemma_split_at(v[0], c, text::join(rest, seq![c]), k);
    }
}

/// Words are told apart by white space of any kind and amount.
pub proof fn law_words(word: Seq<char>, gap: char, rest: Seq<char>)
    requires
        word.len() > 0,
        text::free_of(word, Class::Space),
        text::is_space(gap),
    ensures
        text::split_words(word + seq![gap] + rest) == seq![word] + text::split_words(rest),
        text::split_words(seq![gap] + rest) == text::split_words(rest),
        text::split_words(word) == seq![word],
{
    let k = Class::Space;
    text::lemma_split_at(word, gap, rest, k);
    lemma_non_empty(word, text::split(rest, k));
    let none = Seq::<char>::empty();
    text::lemma_split_at(none, gap, rest, k);
    assert(none + seq![gap] + rest =~= seq![gap] + rest);
    lemma_non_empty(none, text::split(rest, k));
    text::lemma_free_of_first(word, k);
    lemma_non_empty(word, seq![]);
    assert(seq![word] + Seq::<Seq<char>>::empty() =~= seq![word]);
    assert(text::non_empty(Seq::<Seq<char>>::empty()) =~= seq![]);
}

proof fn lemma_non_empty(a: Seq<char>, v: Seq<Seq<char>>)
    ensures
        a.len() > 0 ==> text::non_empty(seq![a] + v) == seq![a] + text::non_empty(v),
        a.len() == 0 ==> text::non_empty(seq![a] + v) == text::non_empty(v),
    decreases v.len(),
{
    let all = seq![a] + v;
    if v.len() > 0 {
        lemma_non_empty(a, v.drop_last());
        assert(all.drop_last() =~= seq![a] + v.drop_last());
        assert(all.last() == v.last());
        if a.len() > 0 {
            assert(text::non_empty(all) =~= seq![a] + text::non_empty(v));
        }
    } else {
        assert(all =~= seq![a]);
        assert(all.drop_last() =~= seq![]);
        assert(text::non_empty(all.drop_last()) =~= seq![]);
        assert(text::non_empty(v) =~= seq![]);
        if a.len() > 0 {
            assert(text::non_empty(all) =~= seq![a]);
        }
    }
}

/// Trimming takes white space from both ends, all of it, and nothing else.
pub proof fn law_trim(before: Seq<char>, s: Seq<char>, after: Seq<char>)
    requires
        forall|i: int| 0 <= i < before.len() ==> text::is_space(#[trigger] before[i]),
        forall|i: int| 0 <= i < after.len() ==> text::is_space(#[trigger] after[i]),
        s.len() > 0,
        !text::is_space(s[0]),
        !text::is_space(s[s.len() - 1]),
    ensures
        text::trim(before + s + after) == s,
{
    let k = Class::Space;
    let all = before + s + after;
    assert forall|i: int| 0 <= i < before.len() implies text::is_in(k, #[trigger] all[i]) by {
        assert(text::is_space(before[i]));
    }
    text::lemma_leading_is(all, k, before.len() as int);
    let rest = text::trim_start(all, k);
    assert(rest =~= s + after);
    assert forall|i: int| rest.len() - after.len() <= i < rest.len() implies text::is_in(
        k,
        #[trigger] rest[i],
    ) by {
        assert(text::is_space(after[i - s.len()]));
    }
    text::lemma_trailing_is(rest, k, after.len() as int);
    assert(text::trim_end(rest, k) =~= s);
}

/// A line ends at a line feed, with or without a carriage return before it.
pub proof fn law_lines(line: Seq<char>, rest: Seq<char>)
    requires
        text::free_of(line, Class::Two('\r', '\n')),
    ensures
        text::lines(line + seq!['\n'] + rest) == seq![line] + text::lines(rest),
        text::lines(line + seq!['\r', '\n'] + rest) == seq![line] + text::lines(rest),
        line.len() > 0 ==> text::lines(line) == seq![line],
{
    let k = Class::One('\n');
    assert forall|i: int| 0 <= i < line.len() implies line[i] != '\n' && #[trigger] line[i]
        != '\r' by {
        assert(!text::is_in(Class::Two('\r', '\n'), line[i]));
    }
    assert(text::free_of(line, k));
    text::lemma_split_at(line, '\n', rest, k);
    let a = line + seq!['\n'] + rest;
    assert(a.take(line.len() as int) =~= line);
    assert(a.skip(line.len() as int + 1) =~= rest);
    let long = line.push('\r');
    assert(text::free_of(long, k));
    text::lemma_split_at(long, '\n', rest, k);
    let b = line + seq!['\r', '\n'] + rest;
    assert(b =~= long + seq!['\n'] + rest);
    assert(b.take(long.len() as int) =~= long);
    assert(b.skip(long.len() as int + 1) =~= rest);
    assert(long.drop_last() =~= line);
    text::lemma_free_of_first(line, k);
}

} // verus!

//! Names for attachments that are saved.

use vstd::prelude::*;

use crate::text;
use crate::text::Class;

verus! {

/// A file name in two: what stands before the last full stop, and the rest
/// from there on. A name without one, or with one only at its start, is all
/// stem.
pub open spec fn stem_and_ending(name: Seq<char>) -> (Seq<char>, Seq<char>) {
    let ending = text::after_last(name, Class::One('.'));
    let dot = name.len() - ending.len() - 1;
    if dot > 0 {
        (name.take(dot), name.skip(dot))
    } else {
        (name, ""@)
    }
}

/// The `n`-th name to try: the name itself, then with numbers, as in
/// `log (1).txt`.
pub open spec fn candidate(name: Seq<char>, n: nat) -> Seq<char> {
    let (stem, ending) = stem_and_ending(name);
    if n == 0 {
        name
    } else {
        stem + " ("@ + text::decimal(n) + ")"@ + ending
    }
}

/// The `n`-th name to try for a file, until one is free.
pub fn save_name(name: &str, n: u64) -> (r: String)
    ensures
        r@ == candidate(name@, n as nat),
{
    if n == 0 {
        return name.to_owned();
    }
    let chars = text::chars(name);
    let ending = text::part_after_last(&chars, Class::One('.'));
    proof {
        lemma_after_last_len(name@, Class::One('.'));
        reveal_strlit("");
    }
    assert(""@ =~= seq![]);
    let number = text::number(n);
    if chars.len() - ending.len() > 1 {
        let dot: usize = chars.len() - ending.len() - 1;
        let stem = vstd::slice::slice_subrange(chars.as_slice(), 0, dot);
        let rest = vstd::slice::slice_subrange(chars.as_slice(), dot, chars.len());
        assert(stem@ =~= name@.take(dot as int));
        assert(rest@ =~= name@.skip(dot as int));
        text::cat5(&text::string(stem), " (", &number, ")", &text::string(rest))
    } else {
        text::cat5(name, " (", &number, ")", "")
    }
}

proof fn lemma_after_last_len(s: Seq<char>, k: Class)
    ensures
        text::after_last(s, k).len() <= s.len(),
    decreases s.len(),
{
    if s.len() > 0 && !text::is_in(k, s.last()) {
        lemma_after_last_len(s.drop_last(), k);
    }
}

/// No name is tried twice: so a free one is found among the first as many as
/// there are files, and one more.
pub proof fn law_candidates_differ(name: Seq<char>, a: nat, b: nat)
    requires
        a != b,
    ensures
        candidate(name, a) != candidate(name, b),
{
    let (stem, ending) = stem_and_ending(name);
    reveal_strlit("");
    assert(""@ =~= seq![]);
    reveal_strlit(" (");
    reveal_strlit(")");
    lemma_after_last_len(name, Class::One('.'));
    text::lemma_decimal(a);
    text::lemma_decimal(b);
    assert(stem.len() + ending.len() == name.len());
    let (x, y) = (candidate(name, a), candidate(name, b));
    if x == y {
        if a > 0 && b > 0 {
            let (p, q) = (text::decimal(a), text::decimal(b));
            let from = stem.len() as int + 2;
            assert(x =~= stem + " ("@ + p + ")"@ + ending);
            assert(y =~= stem + " ("@ + q + ")"@ + ending);
            assert(x.len() == stem.len() + p.len() + ending.len() + 3);
            assert(y.len() == stem.len() + q.len() + ending.len() + 3);
            assert(x.subrange(from, from + p.len()) =~= p);
            assert(y.subrange(from, from + p.len()) =~= q);
            assert(p == q);
        } else {
            assert(x.len() != y.len());
        }
    }
}

/// A name that is taken gets a number before its ending.
pub proof fn law_numbered_names(stem: Seq<char>, ending: Seq<char>, n: nat)
    requires
        stem.len() > 0,
        text::free_of(ending, Class::One('.')),
        n > 0,
    ensures
        candidate(stem + seq!['.'] + ending, 0) == stem + seq!['.'] + ending,
        candidate(stem + seq!['.'] + ending, n) == stem + " ("@ + text::decimal(n) + ")"@ + seq!['.']
            + ending,
{
    let name = stem + seq!['.'] + ending;
    let k = Class::One('.');
    assert forall|i: int| stem.len() + 1 <= i < name.len() implies !text::is_in(
        k,
        #[trigger] name[i],
    ) by {
        assert(!text::is_in(k, ending[i - stem.len() - 1]));
    }
    text::lemma_after_last(name, k, stem.len() as int + 1);
    assert(name.skip(stem.len() as int + 1) =~= ending);
    assert(name.take(stem.len() as int) =~= stem);
    assert(name.skip(stem.len() as int) =~= seq!['.'] + ending);
    assert(candidate(name, n) =~= stem + " ("@ + text::decimal(n) + ")"@ + seq!['.'] + ending);
}

} // verus!

//! Header fields: names and values in order, names compared without regard
//! to ASCII case.

use vstd::prelude::*;

use crate::text;
use crate::unicode;

verus! {

/// A field's name as it is written: `content-type` is `Content-Type`.
pub open spec fn canonical(key: Seq<char>) -> Seq<char> {
    let t = text::trim(key);
    Seq::new(
        t.len(),
        |i: int|
            if i == 0 || t[i - 1] == '-' {
                unicode::upper_char(t[i])
            } else {
                text::lower_char(t[i])
            },
    )
}

/// The value of the first field of that name.
pub open spec fn value_of(f: Seq<(Seq<char>, Seq<char>)>, key: Seq<char>) -> Option<Seq<char>>
    decreases f.len(),
{
    if f.len() == 0 {
        None
    } else if text::same_text(f[0].0, key) {
        Some(f[0].1)
    } else {
        value_of(f.drop_first(), key)
    }
}

/// The value of the first field of that name, or a default.
pub open spec fn value_or(
    f: Seq<(Seq<char>, Seq<char>)>,
    key: Seq<char>,
    default: Seq<char>,
) -> Seq<char> {
    match value_of(f, key) {
        Some(v) => v,
        None => default,
    }
}

/// The values of all fields of that name, in order.
pub open spec fn values_of(f: Seq<(Seq<char>, Seq<char>)>, key: Seq<char>) -> Seq<Seq<char>>
    decreases f.len(),
{
    if f.len() == 0 {
        seq![]
    } else if text::same_text(f.last().0, key) {
        values_of(f.drop_last(), key).push(f.last().1)
    } else {
        values_of(f.drop_last(), key)
    }
}

/// The fields that do not have that name, in order.
pub open spec fn without(f: Seq<(Seq<char>, Seq<char>)>, key: Seq<char>) -> Seq<
    (Seq<char>, Seq<char>),
>
    decreases f.len(),
{
    if f.len() == 0 {
        seq![]
    } else if text::same_text(f.last().0, key) {
        without(f.drop_last(), key)
    } else {
        without(f.drop_last(), key).push(f.last())
    }
}

/// The fields with one more at the end.
pub open spec fn with_field(
    f: Seq<(Seq<char>, Seq<char>)>,
    key: Seq<char>,
    value: Seq<char>,
) -> Seq<(Seq<char>, Seq<char>)> {
    f.push((canonical(key), value))
}

/// The fields with this value as the only one of its name.
pub open spec fn with_value(
    f: Seq<(Seq<char>, Seq<char>)>,
    key: Seq<char>,
    value: Seq<char>,
) -> Seq<(Seq<char>, Seq<char>)> {
    with_field(without(f, key), key, value)
}

/// The texts of some pairs of strings.
pub open spec fn pair_texts(v: Seq<(String, String)>) -> Seq<(Seq<char>, Seq<char>)> {
    Seq::new(v.len(), |i: int| (v[i].0@, v[i].1@))
}

/// The header of a message.
#[derive(Debug, PartialEq, Eq)]
pub struct Header {
    fields: Vec<(String, String)>,
}

impl View for Header {
    type V = Seq<(Seq<char>, Seq<char>)>;

    closed spec fn view(&self) -> Seq<(Seq<char>, Seq<char>)> {
        pair_texts(self.fields@)
    }
}

impl Default for Header {
    fn default() -> (r: Header)
        ensures
            r@ == Seq::<(Seq<char>, Seq<char>)>::empty(),
    {
        let r = Header { fields: Vec::new() };
        assert(r@ =~= Seq::empty());
        r
    }
}

impl Clone for Header {
    fn clone(&self) -> (r: Header)
        ensures
            r@ == self@,
    {
        let mut fields: Vec<(String, String)> = Vec::new();
        for i in 0..self.fields.len()
            invariant
                pair_texts(fields@) == self@.take(i as int),
        {
            let ghost before = pair_texts(fields@);
            fields.push((self.fields[i].0.clone(), self.fields[i].1.clone()));
            assert(pair_texts(fields@) =~= before.push(self@[i as int]));
        }
        assert(self@.take(self@.len() as int) =~= self@);
        Header { fields }
    }
}

/// `content-type` → `Content-Type`, like MIME header canonicalisation.
pub fn canonical_key(key: &str) -> (r: String)
    ensures
        r@ == canonical(key@),
{
    let cs = text::chars(key);
    let t = text::trimmed(&cs);
    let mut out: Vec<char> = Vec::new();
    let mut upper = true;
    for i in 0..t.len()
        invariant
            t@ == text::trim(key@),
            upper == (i == 0 || t@[i - 1] == '-'),
            out@ == canonical(key@).take(i as int),
    {
        let c = t[i];
        out.push(
            if upper {
                text::to_upper_char(c)
            } else {
                text::to_lower_char(c)
            },
        );
        upper = c == '-';
        assert(canonical(key@).take(i + 1) =~= canonical(key@).take(i as int).push(
            canonical(key@)[i as int],
        ));
    }
    assert(canonical(key@).take(t@.len() as int) =~= canonical(key@));
    text::string(&out)
}

fn same(a: &str, b: &[char]) -> (r: bool)
    ensures
        r == text::same_text(a@, b@),
{
    text::equal_ignoring_case(&text::chars(a), b)
}

impl Header {
    /// The value of the first field of that name.
    pub fn get(&self, key: &str) -> (r: Option<&str>)
        ensures
            r is Some <==> value_of(self@, key@) is Some,
            r matches Some(v) ==> value_of(self@, key@) == Some(v@),
    {
        let cs = text::chars(key);
        assert(self@.skip(0) =~= self@);
        for i in 0..self.fields.len()
            invariant
                cs@ == key@,
                value_of(self@, key@) == value_of(self@.skip(i as int), key@),
        {
            let ghost rest = self@.skip(i as int);
            assert(rest[0] == (self.fields@[i as int].0@, self.fields@[i as int].1@));
            assert(rest.drop_first() =~= self@.skip(i + 1));
            if same(&self.fields[i].0, &cs) {
                return Some(self.fields[i].1.as_str());
            }
        }
        None
    }

    /// The value of the first field of that name, or a default.
    pub fn get_or(&self, key: &str, default: &'static str) -> (r: &str)
        ensures
            r@ == value_or(self@, key@, default@),
    {
        match self.get(key) {
            Some(v) => v,
            None => default,
        }
    }

    /// The values of all fields of that name, in order.
    pub fn get_all(&self, key: &str) -> (r: Vec<&str>)
        ensures
            r@.len() == values_of(self@, key@).len(),
            forall|i: int| 0 <= i < r@.len() ==> #[trigger] r@[i]@ == values_of(self@, key@)[i],
    {
        let cs = text::chars(key);
        let mut out: Vec<&str> = Vec::new();
        assert(self@.take(0) =~= seq![]);
        for i in 0..self.fields.len()
            invariant
                cs@ == key@,
                out@.len() == values_of(self@.take(i as int), key@).len(),
                forall|j: int|
                    0 <= j < out@.len() ==> #[trigger] out@[j]@ == values_of(
                        self@.take(i as int),
                        key@,
                    )[j],
        {
            let ghost upto = self@.take(i + 1);
            assert(upto.last() == (self.fields@[i as int].0@, self.fields@[i as int].1@));
            assert(upto.drop_last() =~= self@.take(i as int));
            if same(&self.fields[i].0, &cs) {
                out.push(self.fields[i].1.as_str());
            }
        }
        assert(self@.take(self@.len() as int) =~= self@);
        out
    }

    /// Makes this value the only one of its name.
    pub fn set(&mut self, key: &str, value: &str)
        ensures
            final(self)@ == with_value(old(self)@, key@, value@),
    {
        self.remove(key);
        self.add(key, value);
    }

    /// Adds a field at the end.
    pub fn add(&mut self, key: &str, value: &str)
        ensures
            final(self)@ == with_field(old(self)@, key@, value@),
    {
        self.fields.push((canonical_key(key), value.to_owned()));
        assert(self@ =~= with_field(old(self)@, key@, value@));
    }

    /// Removes all fields of that name.
    pub fn remove(&mut self, key: &str)
        ensures
            final(self)@ == without(old(self)@, key@),
    {
        let cs = text::chars(key);
        let mut kept: Vec<(String, String)> = Vec::new();
        assert(self@.take(0) =~= seq![]);
        assert(pair_texts(kept@) =~= seq![]);
        for i in 0..self.fields.len()
            invariant
                cs@ == key@,
                self.fields@ == old(self).fields@,
                pair_texts(kept@) == without(self@.take(i as int), key@),
        {
            let ghost upto = self@.take(i + 1);
            let ghost before = pair_texts(kept@);
            assert(upto.last() == (self.fields@[i as int].0@, self.fields@[i as int].1@));
            assert(upto.drop_last() =~= self@.take(i as int));
            if !same(&self.fields[i].0, &cs) {
                kept.push((self.fields[i].0.clone(), self.fields[i].1.clone()));
                assert(pair_texts(kept@) =~= before.push(upto.last()));
            }
        }
        assert(self@.take(self@.len() as int) =~= self@);
        self.fields = kept;
    }

    /// All fields in order.
    pub fn iter(&self) -> (r: &[(String, String)])
        ensures
            pair_texts(r@) == self@,
    {
        &self.fields
    }

    /// Appends a continuation line to the last value; without a field it is
    /// dropped.
    pub fn fold(&mut self, more: &str)
        ensures
            final(self)@ == folded(old(self)@, more@),
    {
        if let Some((key, value)) = self.fields.pop() {
            let value = text::cat3(&value, " ", more);
            self.fields.push((key, value));
        }
        assert(self@ =~= folded(old(self)@, more@));
    }
}

/// The fields with `more` appended to the last value.
pub open spec fn folded(f: Seq<(Seq<char>, Seq<char>)>, more: Seq<char>) -> Seq<
    (Seq<char>, Seq<char>),
> {
    if f.len() == 0 {
        f
    } else {
        f.drop_last().push((f.last().0, f.last().1 + " "@ + more))
    }
}

// ---------------------------------------------------------------------
// Laws

/// A value that was set is the one and only value of that name, whatever
/// case the name is asked for in.
pub proof fn law_set_get(
    f: Seq<(Seq<char>, Seq<char>)>,
    key: Seq<char>,
    value: Seq<char>,
    asked: Seq<char>,
)
    requires
        text::trim(key) == key,
        text::same_text(key, asked),
    ensures
        value_of(with_value(f, key, value), asked) == Some(value),
        values_of(with_value(f, key, value), asked) == seq![value],
{
    lemma_canonical_same(key);
    lemma_without(f, key, asked);
    let g = with_value(f, key, value);
    assert(g.drop_last() =~= without(f, key));
    lemma_value_of_push(without(f, key), g.last(), asked);
    assert(g =~= without(f, key).push(g.last()));
    assert(values_of(g, asked) =~= seq![value]);
}

/// Setting or adding a value leaves those of other names alone.
pub proof fn law_set_keeps_others(
    f: Seq<(Seq<char>, Seq<char>)>,
    key: Seq<char>,
    value: Seq<char>,
    other: Seq<char>,
)
    requires
        text::trim(key) == key,
        !text::same_text(key, other),
    ensures
        value_of(with_value(f, key, value), other) == value_of(f, other),
        values_of(with_value(f, key, value), other) == values_of(f, other),
        value_of(with_field(f, key, value), other) == value_of(f, other),
        values_of(with_field(f, key, value), other) == values_of(f, other),
{
    lemma_canonical_same(key);
    lemma_without_other(f, key, other);
    lemma_value_of_push(f, (canonical(key), value), other);
    lemma_value_of_push(without(f, key), (canonical(key), value), other);
    assert(with_field(f, key, value).drop_last() =~= f);
    assert(with_value(f, key, value).drop_last() =~= without(f, key));
}

/// The canonical form differs from the name in case only.
pub proof fn lemma_canonical_same(key: Seq<char>)
    ensures
        text::same_text(canonical(key), text::trim(key)),
{
    let t = text::trim(key);
    assert(text::ascii_lower(canonical(key)) =~= text::ascii_lower(t));
}

/// A field at the end is found if none before it has the name.
pub proof fn lemma_value_of_push(
    f: Seq<(Seq<char>, Seq<char>)>,
    x: (Seq<char>, Seq<char>),
    key: Seq<char>,
)
    ensures
        value_of(f.push(x), key) == (match value_of(f, key) {
            Some(v) => Some(v),
            None => if text::same_text(x.0, key) {
                Some(x.1)
            } else {
                None
            },
        }),
    decreases f.len(),
{
    if f.len() == 0 {
        assert(f.push(x).drop_first() =~= f);
        reveal_with_fuel(value_of, 2);
    } else {
        lemma_value_of_push(f.drop_first(), x, key);
        assert(f.push(x).drop_first() =~= f.drop_first().push(x));
    }
}

/// The first value is the first of all.
pub proof fn lemma_value_of_first(f: Seq<(Seq<char>, Seq<char>)>, key: Seq<char>)
    ensures
        value_of(f, key) is Some <==> values_of(f, key).len() > 0,
        value_of(f, key) matches Some(v) ==> v == values_of(f, key)[0],
    decreases f.len(),
{
    if f.len() > 0 {
        lemma_value_of_first(f.drop_last(), key);
        lemma_value_of_push(f.drop_last(), f.last(), key);
        assert(f.drop_last().push(f.last()) =~= f);
    }
}

proof fn lemma_without(f: Seq<(Seq<char>, Seq<char>)>, key: Seq<char>, asked: Seq<char>)
    requires
        text::same_text(key, asked),
    ensures
        value_of(without(f, key), asked) is None,
        values_of(without(f, key), asked).len() == 0,
    decreases f.len(),
{
    if f.len() > 0 {
        let g = without(f.drop_last(), key);
        lemma_without(f.drop_last(), key, asked);
        if !text::same_text(f.last().0, key) {
            lemma_value_of_push(g, f.last(), asked);
            assert(g.push(f.last()).drop_last() =~= g);
        }
    }
}

pub proof fn lemma_without_other(
    f: Seq<(Seq<char>, Seq<char>)>,
    key: Seq<char>,
    other: Seq<char>,
)
    requires
        !text::same_text(key, other),
    ensures
        value_of(without(f, key), other) == value_of(f, other),
        values_of(without(f, key), other) == values_of(f, other),
    decreases f.len(),
{
    if f.len() > 0 {
        let g = without(f.drop_last(), key);
        lemma_without_other(f.drop_last(), key, other);
        lemma_value_of_push(f.drop_last(), f.last(), other);
        assert(f.drop_last().push(f.last()) =~= f);
        if !text::same_text(f.last().0, key) {
            lemma_value_of_push(g, f.last(), other);
            assert(g.push(f.last()).drop_last() =~= g);
        }
    }
}

} // verus!

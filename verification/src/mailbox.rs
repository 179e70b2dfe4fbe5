//! The mailbox on disk: `<base>/<CALL>/{in,out,sent,archive}/<MID>.b2f`, one
//! raw Winlink message per file. This is Pat's layout, so both programs can
//! share one mailbox. Reading and writing the files is left to the caller:
//! here are the names they have and the order in which they are shown.

use vstd::prelude::*;

use crate::date;
use crate::message;
use crate::message::wire;
use crate::message::{Message, MessageView};
use crate::text;
use crate::text::Class;
use crate::unicode;

pub mod laws;

verus! {

#[derive(Clone, Copy, Debug, PartialEq, Eq, Structural)]
pub enum Folder {
    Inbox,
    Outbox,
    Sent,
    Archive,
}

/// The directory of a folder.
pub open spec fn dir_of(folder: Folder) -> Seq<char> {
    match folder {
        Folder::Inbox => "in"@,
        Folder::Outbox => "out"@,
        Folder::Sent => "sent"@,
        Folder::Archive => "archive"@,
    }
}

/// What a folder is called.
pub open spec fn label_of(folder: Folder) -> Seq<char> {
    match folder {
        Folder::Inbox => "inbox"@,
        Folder::Outbox => "outbox"@,
        Folder::Sent => "sent"@,
        Folder::Archive => "archive"@,
    }
}

impl Folder {
    pub const ALL: [Folder; 4] = [Folder::Inbox, Folder::Outbox, Folder::Sent, Folder::Archive];

    pub fn dir(self) -> (r: &'static str)
        ensures
            r@ == dir_of(self),
    {
        match self {
            Folder::Inbox => "in",
            Folder::Outbox => "out",
            Folder::Sent => "sent",
            Folder::Archive => "archive",
        }
    }

    pub fn label(self) -> (r: &'static str)
        ensures
            r@ == label_of(self),
    {
        match self {
            Folder::Inbox => "inbox",
            Folder::Outbox => "outbox",
            Folder::Sent => "sent",
            Folder::Archive => "archive",
        }
    }
}

/// Does a message in this folder count as held, so that it is not taken
/// again? What was received does, read or archived.
pub fn counts_as_held(folder: Folder) -> (r: bool)
    ensures
        r == (folder == Folder::Inbox || folder == Folder::Archive),
{
    match folder {
        Folder::Inbox | Folder::Archive => true,
        Folder::Outbox | Folder::Sent => false,
    }
}

/// A message in a folder.
#[derive(Debug)]
pub struct Entry {
    pub mid: String,
    pub message: Message,
    /// Size of the file.
    pub bytes: usize,
}

#[verifier::ext_equal]
pub struct EntryView {
    pub mid: Seq<char>,
    pub message: MessageView,
    pub bytes: int,
}

impl View for Entry {
    type V = EntryView;

    open spec fn view(&self) -> EntryView {
        EntryView { mid: self.mid@, message: self.message@, bytes: self.bytes as int }
    }
}

impl Clone for Entry {
    fn clone(&self) -> (r: Entry)
        ensures
            r@ == self@,
    {
        Entry { mid: self.mid.clone(), message: self.message.clone(), bytes: self.bytes }
    }
}

pub open spec fn entry_views(v: Seq<Entry>) -> Seq<EntryView> {
    Seq::new(v.len(), |i: int| v[i]@)
}

/// The IDs of some messages.
pub open spec fn mids(v: Seq<EntryView>) -> Seq<Seq<char>> {
    Seq::new(v.len(), |i: int| v[i].mid)
}

/// A message file that was found: its path for display, and its content or
/// why it could not be read.
#[derive(Debug)]
pub struct Found {
    pub path: String,
    pub raw: Result<Vec<u8>, String>,
}

#[verifier::ext_equal]
pub struct FoundView {
    pub path: Seq<char>,
    pub raw: Result<Seq<u8>, Seq<char>>,
}

impl View for Found {
    type V = FoundView;

    open spec fn view(&self) -> FoundView {
        FoundView {
            path: self.path@,
            raw: match self.raw {
                Ok(raw) => Ok(raw@),
                Err(e) => Err(e@),
            },
        }
    }
}

pub open spec fn found_views(v: Seq<Found>) -> Seq<FoundView> {
    Seq::new(v.len(), |i: int| v[i]@)
}

// ---------------------------------------------------------------------
// What is in a folder

/// The message in a file, or why there is none.
pub open spec fn entry_in(f: FoundView) -> Result<EntryView, Seq<char>> {
    match f.raw {
        Err(e) => Err(f.path + ": "@ + e),
        Ok(raw) => match wire::read(raw) {
            Err(e) => Err(f.path + ": "@ + e),
            Ok(m) => Ok(EntryView { mid: wire::mid_of(m), message: m, bytes: raw.len() as int }),
        },
    }
}

/// When a message was written, where its date can be read.
pub open spec fn written_at(e: EntryView) -> Option<int> {
    date::parsed(message::date_of(e.message))
}

/// Does `a` stand before `b` in a list? The older message does, and one
/// without a date before all that have one; between equals the ID decides.
pub open spec fn entry_before(a: EntryView, b: EntryView) -> bool {
    match (written_at(a), written_at(b)) {
        (None, Some(_)) => true,
        (Some(_), None) => false,
        (Some(x), Some(y)) => x < y || (x == y && text::before(a.mid, b.mid)),
        (None, None) => text::before(a.mid, b.mid),
    }
}

/// The list with `x` put in its place: behind all that are not after it.
pub open spec fn placed(v: Seq<EntryView>, x: EntryView) -> Seq<EntryView>
    decreases v.len(),
{
    if v.len() > 0 && entry_before(x, v.last()) {
        placed(v.drop_last(), x).push(v.last())
    } else {
        v.push(x)
    }
}

/// The messages in these files, oldest first.
pub open spec fn listed(v: Seq<FoundView>) -> Seq<EntryView>
    decreases v.len(),
{
    if v.len() == 0 {
        seq![]
    } else {
        match entry_in(v.last()) {
            Ok(e) => placed(listed(v.drop_last()), e),
            Err(_) => listed(v.drop_last()),
        }
    }
}

/// What is wrong with those of these files that hold no message.
pub open spec fn problems(v: Seq<FoundView>) -> Seq<Seq<char>>
    decreases v.len(),
{
    if v.len() == 0 {
        seq![]
    } else {
        match entry_in(v.last()) {
            Ok(_) => problems(v.drop_last()),
            Err(e) => problems(v.drop_last()).push(e),
        }
    }
}

fn is_entry_before(a: &Entry, b: &Entry) -> (r: bool)
    ensures
        r == entry_before(a@, b@),
{
    let x = a.message.unix_date();
    let y = b.message.unix_date();
    let mids = text::is_before(&text::chars(&a.mid), &text::chars(&b.mid));
    match (x, y) {
        (None, Some(_)) => true,
        (Some(_), None) => false,
        (Some(x), Some(y)) => x < y || (x == y && mids),
        (None, None) => mids,
    }
}

fn place(v: &mut Vec<Entry>, x: Entry)
    ensures
        entry_views(final(v)@) == placed(entry_views(old(v)@), x@),
{
    let ghost all = entry_views(v@);
    let mut at: usize = v.len();
    assert(all.take(at as int) =~= all);
    assert(placed(all, x@) =~= placed(all.take(at as int), x@) + all.skip(at as int));
    while at > 0 && is_entry_before(&x, &v[at - 1])
        invariant
            at <= v@.len(),
            all == entry_views(v@),
            placed(all, x@) == placed(all.take(at as int), x@) + all.skip(at as int),
        decreases at,
    {
        let ghost front = all.take(at as int);
        assert(front.drop_last() =~= all.take(at - 1));
        assert(front.last() == v@[at - 1]@);
        assert(placed(front, x@) == placed(all.take(at - 1), x@).push(front.last()));
        assert(placed(all.take(at - 1), x@).push(front.last()) + all.skip(at as int) =~= placed(
            all.take(at - 1),
            x@,
        ) + all.skip(at - 1));
        at -= 1;
    }
    let ghost e = x@;
    assert(placed(all.take(at as int), e) == all.take(at as int).push(e)) by {
        if at > 0 {
            assert(all.take(at as int).last() == v@[at - 1]@);
        }
    }
    v.insert(at, x);
    assert(entry_views(v@) =~= all.take(at as int).push(e) + all.skip(at as int));
}

// ---------------------------------------------------------------------
// Names

/// May this be the name of a message file? It holds no path separator and no
/// full stop.
pub open spec fn is_mid(mid: Seq<char>) -> bool {
    mid.len() > 0 && !text::has(mid, Class::Three('/', '\\', '.'))
}

/// The file of a message.
pub open spec fn file_of(mid: Seq<char>) -> Seq<char> {
    mid + ".b2f"@
}

/// The ID in the name of a message file; none for any other file.
pub open spec fn stem(name: Seq<char>) -> Option<Seq<char>> {
    if name.len() > 4 && text::ends_with(name, ".b2f"@) {
        Some(name.take(name.len() - 4))
    } else {
        None
    }
}

/// The IDs in those of these names that are names of message files.
pub open spec fn stems(names: Seq<Seq<char>>) -> Seq<Seq<char>>
    decreases names.len(),
{
    if names.len() == 0 {
        seq![]
    } else {
        match stem(names.last()) {
            Some(mid) => stems(names.drop_last()).push(mid),
            None => stems(names.drop_last()),
        }
    }
}

/// The part of a path below the mailbox base: the station, the folder, the
/// file.
#[derive(Debug)]
pub struct Place {
    pub root: String,
    pub dir: &'static str,
    pub file: String,
}

/// The mailbox of one station.
#[derive(Debug)]
pub struct Mailbox {
    root: String,
}

impl View for Mailbox {
    /// The name of the station's directory.
    type V = Seq<char>;

    closed spec fn view(&self) -> Seq<char> {
        self.root@
    }
}

impl Mailbox {
    /// The mailbox for `call`.
    pub fn open(call: &str) -> (r: Mailbox)
        ensures
            r@ == unicode::upper(call@),
    {
        Mailbox { root: unicode::to_uppercase(call) }
    }

    /// The directory of the station below the mailbox base.
    pub fn root(&self) -> (r: &str)
        ensures
            r@ == self@,
    {
        self.root.as_str()
    }

    /// Where a message is kept.
    pub fn path(&self, folder: Folder, mid: &str) -> (r: Place)
        ensures
            r.root@ == self@,
            r.dir@ == dir_of(folder),
            r.file@ == file_of(mid@),
    {
        Place { root: self.root.clone(), dir: folder.dir(), file: text::cat2(mid, ".b2f") }
    }

    /// Where a message is to be written: first to a temporary file, which is
    /// then renamed.
    pub fn store(&self, folder: Folder, mid: &str) -> (r: Result<(Place, Place), String>)
        ensures
            r is Ok <==> is_mid(mid@),
            r matches Ok((tmp, place)) ==> {
                &&& tmp.root@ == self@ && place.root@ == self@
                &&& tmp.dir@ == dir_of(folder) && place.dir@ == dir_of(folder)
                &&& tmp.file@ == file_of(mid@) + ".tmp"@
                &&& place.file@ == file_of(mid@)
            },
            r matches Err(e) ==> e@ == "bad MID "@ + unicode::quoted(mid@),
    {
        let chars = text::chars(mid);
        if mid.is_empty() || text::has_any(&chars, Class::Three('/', '\\', '.')) {
            return Err(text::cat2("bad MID ", &unicode::quote(mid)));
        }
        let place = self.path(folder, mid);
        let tmp = Place {
            root: self.root.clone(),
            dir: folder.dir(),
            file: text::cat2(&place.file, ".tmp"),
        };
        Ok((tmp, place))
    }

    /// The message ID in a file name; none if it is no message file.
    pub fn stem(name: &str) -> (r: Option<String>)
        ensures
            r is Some <==> stem(name@) is Some,
            r matches Some(mid) ==> stem(name@) == Some(mid@),
    {
        let chars = text::chars(name);
        proof {
            reveal_strlit(".b2f");
        }
        if chars.len() > 4 && text::has_suffix(&chars, ".b2f") {
            let n: usize = chars.len() - 4;
            let front = vstd::slice::slice_subrange(chars.as_slice(), 0, n);
            assert(front@ =~= name@.take(name@.len() - 4));
            Some(text::string(front))
        } else {
            None
        }
    }

    /// The messages in these files, oldest first, and what is wrong with the
    /// files that could not be read.
    pub fn list(found: Vec<Found>) -> (r: (Vec<Entry>, Vec<String>))
        ensures
            entry_views(r.0@) == listed(found_views(found@)),
            text::texts(r.1@) == problems(found_views(found@)),
    {
        let mut entries: Vec<Entry> = Vec::new();
        let mut faults: Vec<String> = Vec::new();
        let ghost all = found_views(found@);
        assert(all.take(0) =~= seq![]);
        assert(entry_views(entries@) =~= seq![]);
        assert(text::texts(faults@) =~= seq![]);
        for i in 0..found.len()
            invariant
                all == found_views(found@),
                entry_views(entries@) == listed(all.take(i as int)),
                text::texts(faults@) == problems(all.take(i as int)),
        {
            let ghost before = text::texts(faults@);
            assert(all.take(i + 1).drop_last() =~= all.take(i as int));
            assert(all.take(i + 1).last() == found@[i as int]@);
            match &found[i].raw {
                Err(e) => {
                    faults.push(text::cat3(&found[i].path, ": ", e));
                    assert(text::texts(faults@) =~= before.push(faults@.last()@));
                },
                Ok(raw) => match Message::parse(raw) {
                    Ok(message) => {
                        let e = Entry { mid: message.mid().to_owned(), bytes: raw.len(), message };
                        place(&mut entries, e);
                    },
                    Err(e) => {
                        faults.push(text::cat3(&found[i].path, ": ", &e));
                        assert(text::texts(faults@) =~= before.push(faults@.last()@));
                    },
                },
            }
        }
        assert(all.take(all.len() as int) =~= all);
        (entries, faults)
    }

    /// The message IDs among these file names: what is held already, so that
    /// the remote's copies are refused.
    pub fn known_mids(names: &[String]) -> (r: Vec<String>)
        ensures
            text::texts(r@) == stems(text::texts(names@)),
    {
        let mut out: Vec<String> = Vec::new();
        let ghost all = text::texts(names@);
        assert(all.take(0) =~= seq![]);
        assert(text::texts(out@) =~= seq![]);
        for i in 0..names.len()
            invariant
                all == text::texts(names@),
                text::texts(out@) == stems(all.take(i as int)),
        {
            let ghost before = text::texts(out@);
            assert(all.take(i + 1).drop_last() =~= all.take(i as int));
            assert(all.take(i + 1).last() == names@[i as int]@);
            if let Some(mid) = Mailbox::stem(&names[i]) {
                out.push(mid);
                assert(text::texts(out@) =~= before.push(mid@));
            }
        }
        assert(all.take(all.len() as int) =~= all);
        out
    }
}

// ---------------------------------------------------------------------
// Laws

/// No message stands behind one that it should stand before.
pub open spec fn in_order(v: Seq<EntryView>) -> bool {
    forall|i: int, j: int|
        0 <= i < j < v.len() ==> !entry_before(#[trigger] v[j], #[trigger] v[i])
}

proof fn lemma_transitive(a: EntryView, b: EntryView, c: EntryView)
    requires
        entry_before(a, b),
        !entry_before(c, b),
    ensures
        entry_before(a, c),
{
    text::lemma_before_total(b.mid, c.mid);
    if text::before(a.mid, b.mid) && text::before(b.mid, c.mid) {
        text::lemma_before_transitive(a.mid, b.mid, c.mid);
    }
}

proof fn lemma_asymmetric(a: EntryView, b: EntryView)
    requires
        entry_before(a, b),
    ensures
        !entry_before(b, a),
{
    if text::before(a.mid, b.mid) && text::before(b.mid, a.mid) {
        text::lemma_before_transitive(a.mid, b.mid, a.mid);
        text::lemma_before_irreflexive(a.mid);
    }
}

proof fn lemma_placed(v: Seq<EntryView>, x: EntryView)
    requires
        in_order(v),
    ensures
        in_order(placed(v, x)),
        placed(v, x).to_multiset() == v.to_multiset().insert(x),
    decreases v.len(),
{
    broadcast use vstd::seq_lib::group_to_multiset_ensures;

    let g = placed(v, x);
    if v.len() > 0 && entry_before(x, v.last()) {
        let less = v.drop_last();
        let h = placed(less, x);
        assert(in_order(less)) by {
            assert forall|i: int, j: int| 0 <= i < j < less.len() implies !entry_before(
                #[trigger] less[j],
                #[trigger] less[i],
            ) by {
                assert(!entry_before(v[j], v[i]));
            }
        }
        lemma_placed(less, x);
        assert(v =~= less.push(v.last()));
        assert(g.to_multiset() =~= v.to_multiset().insert(x));
        assert forall|i: int, j: int| 0 <= i < j < g.len() implies !entry_before(
            #[trigger] g[j],
            #[trigger] g[i],
        ) by {
            if j < h.len() {
                assert(g[j] == h[j] && g[i] == h[i]);
            } else {
                assert(g[i] == h[i]);
                assert(h.to_multiset().count(h[i]) > 0);
                assert(less.to_multiset().insert(x).count(h[i]) > 0);
                if h[i] == x {
                    lemma_asymmetric(x, v.last());
                } else {
                    assert(less.to_multiset().count(h[i]) > 0);
                    assert(less.contains(h[i]));
                    let k = choose|k: int| 0 <= k < less.len() && less[k] == h[i];
                    assert(!entry_before(v[v.len() - 1], v[k]));
                }
            }
        }
    } else {
        assert(g =~= v.push(x));
        assert forall|i: int, j: int| 0 <= i < j < g.len() implies !entry_before(
            #[trigger] g[j],
            #[trigger] g[i],
        ) by {
            if j < v.len() {
                assert(g[j] == v[j] && g[i] == v[i]);
            } else if entry_before(x, v[i]) {
                assert(i < v.len() - 1 ==> !entry_before(v[v.len() - 1], v[i]));
                if i < v.len() - 1 {
                    lemma_transitive(x, v[i], v.last());
                }
            }
        }
    }
}

/// The messages that these files hold, in the order of the files.
pub open spec fn held(v: Seq<FoundView>) -> Seq<EntryView>
    decreases v.len(),
{
    if v.len() == 0 {
        seq![]
    } else {
        match entry_in(v.last()) {
            Ok(e) => held(v.drop_last()).push(e),
            Err(_) => held(v.drop_last()),
        }
    }
}

/// A folder is listed oldest first, and every message that was read is there
/// as often as it was found.
pub proof fn law_listing(v: Seq<FoundView>)
    ensures
        in_order(listed(v)),
        listed(v).to_multiset() == held(v).to_multiset(),
    decreases v.len(),
{
    broadcast use vstd::seq_lib::group_to_multiset_ensures;

    if v.len() > 0 {
        law_listing(v.drop_last());
        if let Ok(e) = entry_in(v.last()) {
            lemma_placed(listed(v.drop_last()), e);
        }
    }
}

/// The ID is found again in the name that a message is stored under.
pub proof fn law_stored_is_known(mid: Seq<char>)
    requires
        is_mid(mid),
    ensures
        stem(file_of(mid)) == Some(mid),
{
    reveal_strlit(".b2f");
    assert(file_of(mid).skip(file_of(mid).len() - 4) =~= ".b2f"@);
    assert(file_of(mid).take(file_of(mid).len() - 4) =~= mid);
}

/// Files are kept inside the mailbox: no stored file's name has a path
/// separator, and none begins with a full stop.
pub proof fn law_names_are_safe(mid: Seq<char>)
    requires
        is_mid(mid),
    ensures
        !text::has(file_of(mid), Class::Two('/', '\\')),
        file_of(mid)[0] != '.',
{
    reveal_strlit(".b2f");
    let all = file_of(mid);
    text::lemma_first(mid, Class::Three('/', '\\', '.'));
    text::lemma_first(all, Class::Two('/', '\\'));
    let n = text::first(all, Class::Two('/', '\\')) as int;
    if n < mid.len() {
        assert(all[n] == mid[n]);
    }
}

} // verus!

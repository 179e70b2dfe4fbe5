//! Laws of the mailbox: where a message is kept, and what a folder shows.

use vstd::prelude::*;

use crate::date;
use crate::mailbox;
use crate::mailbox::{Folder, FoundView};
use crate::message;
use crate::message::wire;
use crate::text;

verus! {

/// Every folder has a directory and a name of its own. The directories are
/// `in`, `out`, `sent` and `archive`.
pub proof fn law_folders_are_apart(a: Folder, b: Folder)
    ensures
        mailbox::dir_of(a) == mailbox::dir_of(b) ==> a == b,
        mailbox::label_of(a) == mailbox::label_of(b) ==> a == b,
        a is Inbox ==> mailbox::dir_of(a) == "in"@,
        a is Outbox ==> mailbox::dir_of(a) == "out"@,
        mailbox::dir_of(a) == "sent"@ ==> a is Sent,
        mailbox::dir_of(a) == "archive"@ ==> a is Archive,
        a is Sent || a is Archive ==> mailbox::dir_of(a) == mailbox::label_of(a),
        a is Inbox || a is Outbox ==> mailbox::label_of(a) == mailbox::dir_of(a) + "box"@,
{
    reveal_strlit("in");
    reveal_strlit("out");
    reveal_strlit("sent");
    reveal_strlit("archive");
    reveal_strlit("inbox");
    reveal_strlit("outbox");
    reveal_strlit("box");
    assert("in"@.len() == 2 && "out"@.len() == 3 && "sent"@.len() == 4);
    assert("archive"@.len() == 7 && "inbox"@.len() == 5 && "outbox"@.len() == 6);
    assert("inbox"@ =~= "in"@ + "box"@);
    assert("outbox"@ =~= "out"@ + "box"@);
}

/// A message is kept in a file of its ID with the ending `.b2f`; two IDs do
/// not share a file.
pub proof fn law_file_of_a_message(mid: Seq<char>, other: Seq<char>)
    ensures
        mailbox::file_of(mid).len() == mid.len() + 4,
        forall|i: int| 0 <= i < mid.len() ==> #[trigger] mailbox::file_of(mid)[i] == mid[i],
        mailbox::file_of(mid).skip(mid.len() as int) == ".b2f"@,
        mailbox::file_of(mid) == mailbox::file_of(other) ==> mid == other,
{
    reveal_strlit(".b2f");
    assert(mailbox::file_of(mid).skip(mid.len() as int) =~= ".b2f"@);
    if mailbox::file_of(mid) == mailbox::file_of(other) {
        assert(mid =~= mailbox::file_of(mid).take(mid.len() as int));
        assert(other =~= mailbox::file_of(other).take(other.len() as int));
    }
}

/// A file that can be read shows as the message in it, with its ID and the
/// size of the file; one that cannot is named in the complaint.
pub proof fn law_file_shows_its_message(f: FoundView)
    ensures
        mailbox::entry_in(f) matches Ok(e) ==> f.raw is Ok && wire::read(f.raw->Ok_0) == Ok::<
            _,
            Seq<char>,
        >(e.message) && e.mid == wire::mid_of(e.message) && e.bytes == f.raw->Ok_0.len(),
        mailbox::entry_in(f) matches Err(t) ==> text::starts_with(t, f.path) && t.len()
            > f.path.len(),
        f.raw is Err ==> mailbox::entry_in(f) is Err,
        f.raw is Ok && wire::read(f.raw->Ok_0) is Ok ==> mailbox::entry_in(f) is Ok,
{
    reveal_strlit(": ");
    if let Err(t) = mailbox::entry_in(f) {
        assert(t.take(f.path.len() as int) =~= f.path);
    }
}

/// In a list, a message that was written later does not stand before one that
/// was written earlier, and one without a date does not stand behind one that
/// has a date.
pub proof fn law_oldest_first(v: Seq<FoundView>, i: int, j: int)
    requires
        0 <= i < j < mailbox::listed(v).len(),
    ensures
        ({
            let (a, b) = (mailbox::listed(v)[i], mailbox::listed(v)[j]);
            let (x, y) = (
                date::parsed(message::date_of(a.message)),
                date::parsed(message::date_of(b.message)),
            );
            &&& y is None ==> x is None
            &&& x is Some && y is Some ==> x->0 <= y->0
            &&& x == y ==> a.mid == b.mid || text::before(a.mid, b.mid)
        }),
{
    mailbox::law_listing(v);
    let (a, b) = (mailbox::listed(v)[i], mailbox::listed(v)[j]);
    assert(!mailbox::entry_before(b, a));
    text::lemma_before_total(a.mid, b.mid);
}

/// Every file that holds a message is in the list.
pub proof fn law_nothing_is_left_out(v: Seq<FoundView>, i: int)
    requires
        0 <= i < v.len(),
        mailbox::entry_in(v[i]) is Ok,
    ensures
        mailbox::listed(v).contains(mailbox::entry_in(v[i])->Ok_0),
    decreases v.len(),
{
    broadcast use vstd::seq_lib::group_to_multiset_ensures;

    let e = mailbox::entry_in(v[i])->Ok_0;
    mailbox::law_listing(v);
    lemma_held(v, i);
    assert(mailbox::held(v).to_multiset().count(e) > 0);
    assert(mailbox::listed(v).to_multiset().count(e) > 0);
}

proof fn lemma_held(v: Seq<FoundView>, i: int)
    requires
        0 <= i < v.len(),
        mailbox::entry_in(v[i]) is Ok,
    ensures
        mailbox::held(v).contains(mailbox::entry_in(v[i])->Ok_0),
    decreases v.len(),
{
    let e = mailbox::entry_in(v[i])->Ok_0;
    let (all, less) = (mailbox::held(v), mailbox::held(v.drop_last()));
    if i < v.len() - 1 {
        lemma_held(v.drop_last(), i);
        assert(v.drop_last()[i] == v[i]);
        let k = choose|k: int| 0 <= k < less.len() && less[k] == e;
        assert(all[k] == e);
    } else {
        assert(all[all.len() - 1] == e);
    }
}

} // verus!

//! What storing, replacing and deleting a record does to a collection's
//! records.

use super::state::{
    chains_apart, docs_at, record_owned, records_owned, reowned, step, Owner, Owners,
};
use crate::data::{
    data_slot, is_data_page, is_overflow_page, lemma_record_chain, lemma_record_frame, record_at,
    record_chain, record_deleted, record_replaced, record_stored, stays, storable,
};
use crate::document::DocModel;
use crate::index::entries::{
    find, has_key, inserted, inserted_is_found, key_position, lemma_has_key, lemma_inserted_sorted,
    lemma_key_position, lemma_removed_sorted, removed, removed_is_not_found, sorted,
};
use crate::index::tree::Entry;
use crate::order::lemma_lt_irreflexive;
use crate::storage::{PageId, RecordLocation};
use vstd::prelude::*;

verus! {

/// Every entry of a list with one more is the new one or an old one, not the
/// one that it replaces.
pub proof fn lemma_inserted_entries(entries: Seq<Entry>, key: Seq<u8>, loc: RecordLocation, i: int)
    requires
        sorted(entries),
        0 <= i < inserted(entries, key, loc).len(),
    ensures
        ({
            let e = inserted(entries, key, loc)[i];
            e == (key, loc) || (e.0 != key && entries.contains(e))
        }),
{
    let now = inserted(entries, key, loc);
    lemma_key_position(entries, key);
    lemma_inserted_sorted(entries, key, loc);
    let at = key_position(entries, key);
    if i != at {
        let j = if i < at || has_key(entries, key) {
            i
        } else {
            i - 1
        };
        assert(now[i] == entries[j]);
        assert(now[at].0 == key);
        lemma_lt_irreflexive(key);
        if i < at {
            assert(crate::order::bytes_lt(now[i].0, now[at].0));
        } else {
            assert(crate::order::bytes_lt(now[at].0, now[i].0));
        }
    }
}

/// Every entry of a list with one less is an old one.
pub proof fn lemma_removed_entries(entries: Seq<Entry>, key: Seq<u8>, i: int)
    requires
        sorted(entries),
        0 <= i < removed(entries, key).len(),
    ensures
        removed(entries, key)[i].0 != key,
        entries.contains(removed(entries, key)[i]),
{
    let now = removed(entries, key);
    lemma_key_position(entries, key);
    let at = key_position(entries, key);
    if has_key(entries, key) {
        let j = if i < at {
            i
        } else {
            i + 1
        };
        assert(now[i] == entries[j]);
        lemma_lt_irreflexive(key);
        if j < at {
            assert(crate::order::bytes_lt(entries[j].0, entries[at].0));
        } else {
            assert(crate::order::bytes_lt(entries[at].0, entries[j].0));
        }
    } else {
        assert(now[i] == entries[i]);
        if now[i].0 == key {
            lemma_has_key(entries, key, i);
        }
    }
}

/// What an entry that is in the list leads to is what its key finds.
pub proof fn lemma_contained(entries: Seq<Entry>, e: Entry)
    requires
        sorted(entries),
        entries.contains(e),
    ensures
        find(entries, e.0) == Some(e.1),
{
    let i = choose|i: int| 0 <= i < entries.len() && entries[i] == e;
    lemma_has_key(entries, e.0, i);
}

/// What a key finds is in the list.
pub proof fn lemma_found(entries: Seq<Entry>, key: Seq<u8>)
    requires
        find(entries, key) is Some,
    ensures
        entries.contains((key, find(entries, key)->Some_0)),
{
    lemma_key_position(entries, key);
    let at = key_position(entries, key);
    assert(entries[at] == (key, find(entries, key)->Some_0));
}

/// A record of a list that stands.
proof fn lemma_owned_entry(
    pages: Map<PageId, Seq<u8>>,
    own: Owners,
    root: PageId,
    entries: Seq<Entry>,
    current: PageId,
    e: Entry,
)
    requires
        records_owned(pages, own, root, entries, current),
        entries.contains(e),
    ensures
        record_owned(pages, own, root, e),
        data_slot(pages, e.1) is Some,
        is_data_page(pages, e.1.page),
{
    reveal(records_owned);
    let i = choose|i: int| 0 <= i < entries.len() && entries[i] == e;
    assert(record_owned(pages, own, root, entries[i]));
}

/// Two records of a list share no overflow page.
proof fn lemma_apart(
    pages: Map<PageId, Seq<u8>>,
    own: Owners,
    root: PageId,
    entries: Seq<Entry>,
    current: PageId,
    a: Entry,
    b: Entry,
)
    requires
        records_owned(pages, own, root, entries, current),
        entries.contains(a),
        entries.contains(b),
        a.0 != b.0,
    ensures
        chains_apart(pages, a.1, b.1),
        a.1 != b.1,
{
    reveal(records_owned);
    let i = choose|i: int| 0 <= i < entries.len() && entries[i] == a;
    let j = choose|j: int| 0 <= j < entries.len() && entries[j] == b;
    assert(record_owned(pages, own, root, entries[i]));
    assert(record_owned(pages, own, root, entries[j]));
    assert(chains_apart(pages, entries[i].1, entries[j].1));
}

/// A record that a change leaves alone.
proof fn lemma_left_alone(
    before: Map<PageId, Seq<u8>>,
    after: Map<PageId, Seq<u8>>,
    own: Owners,
    root: PageId,
    e: Entry,
)
    requires
        record_owned(before, own, root, e),
        data_slot(after, e.1) == data_slot(before, e.1),
        forall|p: PageId| #[trigger]
            record_chain(before, e.1)->Some_0.contains(p) ==> after.dom().contains(p) && after[p]
                == before[p],
    ensures
        record_owned(after, reowned(before, own, Owner::Data(root)), root, e),
        record_at(after, e.1) == record_at(before, e.1),
        record_chain(after, e.1) == record_chain(before, e.1),
{
    let now = reowned(before, own, Owner::Data(root));
    let pids = record_chain(before, e.1)->Some_0;
    lemma_record_chain(before, e.1);
    assert forall|i: int| 0 <= i < pids.len() implies after.dom().contains(#[trigger] pids[i])
        && after[pids[i]] == before[pids[i]] by {
        assert(pids.contains(pids[i]));
    }
    lemma_record_frame(before, after, e.1);
    assert(before.dom().contains(e.1.page));
}

/// The documents once one is stored.
proof fn lemma_docs_inserted(
    before: Map<PageId, Seq<u8>>,
    after: Map<PageId, Seq<u8>>,
    entries: Seq<Entry>,
    id: Seq<u8>,
    loc: RecordLocation,
    doc: DocModel,
)
    requires
        sorted(entries),
        record_at(after, loc) == Some((id, doc)),
        forall|e: Entry| #[trigger]
            entries.contains(e) && e.0 != id ==> record_at(after, e.1) == record_at(before, e.1),
    ensures
        docs_at(after, inserted(entries, id, loc)) == docs_at(before, entries).insert(
            id,
            (loc, doc),
        ),
{
    let a = docs_at(after, inserted(entries, id, loc));
    let b = docs_at(before, entries).insert(id, (loc, doc));
    assert forall|k: Seq<u8>| #[trigger] a.dom().contains(k) <==> b.dom().contains(k) by {
        inserted_is_found(entries, id, loc, k);
    }
    assert forall|k: Seq<u8>| #[trigger] a.dom().contains(k) implies a[k] == b[k] by {
        inserted_is_found(entries, id, loc, k);
        if k != id {
            lemma_found(entries, k);
        }
    }
    assert(a =~= b);
}

/// The documents once one is deleted.
proof fn lemma_docs_removed(
    before: Map<PageId, Seq<u8>>,
    after: Map<PageId, Seq<u8>>,
    entries: Seq<Entry>,
    id: Seq<u8>,
)
    requires
        sorted(entries),
        forall|e: Entry| #[trigger]
            entries.contains(e) && e.0 != id ==> record_at(after, e.1) == record_at(before, e.1),
    ensures
        docs_at(after, removed(entries, id)) == docs_at(before, entries).remove(id),
{
    let a = docs_at(after, removed(entries, id));
    let b = docs_at(before, entries).remove(id);
    assert forall|k: Seq<u8>| #[trigger] a.dom().contains(k) <==> b.dom().contains(k) by {
        removed_is_not_found(entries, id, k);
    }
    assert forall|k: Seq<u8>| #[trigger] a.dom().contains(k) implies a[k] == b[k] by {
        removed_is_not_found(entries, id, k);
        if k != id {
            lemma_found(entries, k);
        }
    }
    assert(a =~= b);
}

/// A list of records, given that each is owned and no two share a page.
proof fn lemma_records_make(
    pages: Map<PageId, Seq<u8>>,
    own: Owners,
    root: PageId,
    entries: Seq<Entry>,
    current: PageId,
)
    requires
        sorted(entries),
        forall|e: Entry| #[trigger] entries.contains(e) ==> record_owned(pages, own, root, e),
        forall|a: Entry, b: Entry| #[trigger]
            entries.contains(a) && #[trigger] entries.contains(b) && a.0 != b.0 ==> chains_apart(
                pages,
                a.1,
                b.1,
            ),
        current != 0 ==> is_data_page(pages, current) && own[current] == Owner::Data(root),
    ensures
        records_owned(pages, own, root, entries, current),
{
    reveal(records_owned);
    assert forall|i: int| 0 <= i < entries.len() implies record_owned(
        pages,
        own,
        root,
        #[trigger] entries[i],
    ) by {
        assert(entries.contains(entries[i]));
    }
    assert forall|i: int, j: int|
        0 <= i < entries.len() && 0 <= j < entries.len() && i != j implies chains_apart(
        pages,
        (#[trigger] entries[i]).1,
        (#[trigger] entries[j]).1,
    ) by {
        assert(entries.contains(entries[i]));
        assert(entries.contains(entries[j]));
        lemma_lt_irreflexive(entries[i].0);
        if i < j {
            assert(crate::order::bytes_lt(entries[i].0, entries[j].0));
        } else {
            assert(crate::order::bytes_lt(entries[j].0, entries[i].0));
        }
    }
}

/// A collection's records once one is stored.
pub proof fn lemma_record_added(
    before: Map<PageId, Seq<u8>>,
    after: Map<PageId, Seq<u8>>,
    own: Owners,
    root: PageId,
    entries: Seq<Entry>,
    current: PageId,
    loc: RecordLocation,
    id: Seq<u8>,
    doc: DocModel,
)
    requires
        records_owned(before, own, root, entries, current),
        sorted(entries),
        find(entries, id) is None,
        !before.dom().contains(0),
        record_stored(before, after, current, loc, id, doc),
        storable(doc),
        id.len() == 16,
        loc.page != 0,
    ensures
        ({
            let now = reowned(before, own, Owner::Data(root));
            &&& step(before, after, own, now, Owner::Data(root))
            &&& records_owned(after, now, root, inserted(entries, id, loc), loc.page)
            &&& docs_at(after, inserted(entries, id, loc)) == docs_at(before, entries).insert(
                id,
                (loc, doc),
            )
            &&& forall|e: Entry| #[trigger]
                entries.contains(e) ==> record_chain(after, e.1) == record_chain(before, e.1)
        }),
{
    reveal(records_owned);
    let tag = Owner::Data(root);
    let now = reowned(before, own, tag);
    let longer = inserted(entries, id, loc);
    assert forall|p: PageId|
        #![trigger before.dom().contains(p)]
        #![trigger own[p]]
        before.dom().contains(p) && own[p] != tag implies after.dom().contains(p) && after[p]
        == before[p] && now[p] == own[p] by {
        assert(p != current);
    }
    assert forall|e: Entry| #[trigger] entries.contains(e) implies record_owned(after, now, root, e)
        && record_at(after, e.1) == record_at(before, e.1) && record_chain(after, e.1)
        == record_chain(before, e.1) && e.1 != loc && e.0 != id by {
        lemma_owned_entry(before, own, root, entries, current, e);
        lemma_contained(entries, e);
        assert(data_slot(after, e.1) == data_slot(before, e.1));
        lemma_record_chain(before, e.1);
        let pids = record_chain(before, e.1)->Some_0;
        assert forall|p: PageId| #[trigger] pids.contains(p) implies after.dom().contains(p)
            && after[p] == before[p] by {
            let i = choose|i: int| 0 <= i < pids.len() && pids[i] == p;
            assert(is_overflow_page(before, pids[i]) && !is_data_page(before, pids[i]));
            assert(p != current);
        }
        lemma_left_alone(before, after, own, root, e);
    }
    let new_ids = record_chain(after, loc)->Some_0;
    assert(record_owned(after, now, root, (id, loc))) by {
        assert(now[loc.page] == tag);
        assert forall|p: PageId| #[trigger] new_ids.contains(p) implies now[p] == tag by {}
    }
    lemma_inserted_sorted(entries, id, loc);
    assert forall|e: Entry| #[trigger] longer.contains(e) implies e == (id, loc)
        || entries.contains(e) by {
        let i = choose|i: int| 0 <= i < longer.len() && longer[i] == e;
        lemma_inserted_entries(entries, id, loc, i);
    }
    assert forall|a: Entry, b: Entry| #[trigger]
        longer.contains(a) && #[trigger] longer.contains(b) && a.0 != b.0 implies chains_apart(
        after,
        a.1,
        b.1,
    ) by {
        if entries.contains(a) && entries.contains(b) {
            lemma_apart(before, own, root, entries, current, a, b);
            assert forall|p: PageId| !(#[trigger] record_chain(after, a.1)->Some_0.contains(p)
                && record_chain(after, b.1)->Some_0.contains(p)) by {
                assert(!(record_chain(before, a.1)->Some_0.contains(p) && record_chain(
                    before,
                    b.1,
                )->Some_0.contains(p)));
            }
        } else {
            let old_one = if entries.contains(a) {
                a
            } else {
                b
            };
            assert(entries.contains(old_one));
            lemma_owned_entry(before, own, root, entries, current, old_one);
            lemma_record_chain(before, old_one.1);
            let pids = record_chain(before, old_one.1)->Some_0;
            assert forall|p: PageId| #[trigger] pids.contains(p) implies !new_ids.contains(p) by {
                let i = choose|i: int| 0 <= i < pids.len() && pids[i] == p;
                assert(is_overflow_page(before, pids[i]));
            }
        }
    }
    lemma_records_make(after, now, root, longer, loc.page);
    lemma_docs_inserted(before, after, entries, id, loc, doc);
}

/// A collection's records once one is deleted.
pub proof fn lemma_record_gone(
    before: Map<PageId, Seq<u8>>,
    after: Map<PageId, Seq<u8>>,
    own: Owners,
    root: PageId,
    entries: Seq<Entry>,
    current: PageId,
    loc: RecordLocation,
    id: Seq<u8>,
)
    requires
        records_owned(before, own, root, entries, current),
        sorted(entries),
        find(entries, id) == Some(loc),
        record_deleted(before, after, current, loc),
    ensures
        ({
            let now = reowned(before, own, Owner::Data(root));
            &&& step(before, after, own, now, Owner::Data(root))
            &&& records_owned(after, now, root, removed(entries, id), current)
            &&& docs_at(after, removed(entries, id)) == docs_at(before, entries).remove(id)
        }),
{
    reveal(records_owned);
    let tag = Owner::Data(root);
    let now = reowned(before, own, tag);
    let less = removed(entries, id);
    let gone = (id, loc);
    lemma_found(entries, id);
    lemma_owned_entry(before, own, root, entries, current, gone);
    let gone_ids = record_chain(before, loc)->Some_0;
    lemma_record_chain(before, loc);
    assert forall|p: PageId|
        #![trigger before.dom().contains(p)]
        #![trigger own[p]]
        before.dom().contains(p) && own[p] != tag implies after.dom().contains(p) && after[p]
        == before[p] && now[p] == own[p] by {
        assert(!gone_ids.contains(p));
        assert(p != loc.page);
        assert(after.dom().contains(p));
    }
    assert forall|e: Entry| #[trigger] entries.contains(e) && e.0 != id implies record_owned(
        after,
        now,
        root,
        e,
    ) && record_at(after, e.1) == record_at(before, e.1) && record_chain(after, e.1)
        == record_chain(before, e.1) by {
        lemma_owned_entry(before, own, root, entries, current, e);
        lemma_apart(before, own, root, entries, current, e, gone);
        assert(data_slot(after, e.1) == data_slot(before, e.1));
        lemma_record_chain(before, e.1);
        let pids = record_chain(before, e.1)->Some_0;
        assert forall|p: PageId| #[trigger] pids.contains(p) implies after.dom().contains(p)
            && after[p] == before[p] by {
            let i = choose|i: int| 0 <= i < pids.len() && pids[i] == p;
            assert(is_overflow_page(before, pids[i]) && !is_data_page(before, pids[i]));
            assert(!(record_chain(before, e.1)->Some_0.contains(p) && record_chain(
                before,
                loc,
            )->Some_0.contains(p)));
            assert(after.dom().contains(p));
        }
        lemma_left_alone(before, after, own, root, e);
    }
    lemma_removed_sorted(entries, id);
    assert forall|e: Entry| #[trigger] less.contains(e) implies entries.contains(e) && e.0 != id by {
        let i = choose|i: int| 0 <= i < less.len() && less[i] == e;
        lemma_removed_entries(entries, id, i);
    }
    assert forall|a: Entry, b: Entry| #[trigger]
        less.contains(a) && #[trigger] less.contains(b) && a.0 != b.0 implies chains_apart(
        after,
        a.1,
        b.1,
    ) by {
        lemma_apart(before, own, root, entries, current, a, b);
        assert forall|p: PageId| !(#[trigger] record_chain(after, a.1)->Some_0.contains(p)
            && record_chain(after, b.1)->Some_0.contains(p)) by {
            assert(!(record_chain(before, a.1)->Some_0.contains(p) && record_chain(
                before,
                b.1,
            )->Some_0.contains(p)));
        }
    }
    if current != 0 {
        if gone_ids.contains(current) {
            let i = choose|i: int| 0 <= i < gone_ids.len() && gone_ids[i] == current;
            assert(!is_data_page(before, gone_ids[i]));
        }
        assert(after.dom().contains(current));
    }
    lemma_records_make(after, now, root, less, current);
    lemma_docs_removed(before, after, entries, id);
}

/// A collection's records once one is replaced.
pub proof fn lemma_record_changed(
    before: Map<PageId, Seq<u8>>,
    after: Map<PageId, Seq<u8>>,
    own: Owners,
    root: PageId,
    entries: Seq<Entry>,
    current: PageId,
    loc: RecordLocation,
    at: RecordLocation,
    id: Seq<u8>,
    doc: DocModel,
    next: PageId,
)
    requires
        records_owned(before, own, root, entries, current),
        sorted(entries),
        find(entries, id) == Some(loc),
        record_replaced(before, after, current, loc, at, id, doc),
        storable(doc),
        next == (if stays(before, loc, doc) {
            current
        } else {
            at.page
        }),
        !before.dom().contains(0),
    ensures
        ({
            let now = reowned(before, own, Owner::Data(root));
            &&& step(before, after, own, now, Owner::Data(root))
            &&& records_owned(after, now, root, inserted(entries, id, at), next)
            &&& docs_at(after, inserted(entries, id, at)) == docs_at(before, entries).insert(
                id,
                (at, doc),
            )
        }),
{
    reveal(records_owned);
    let tag = Owner::Data(root);
    let now = reowned(before, own, tag);
    let longer = inserted(entries, id, at);
    let was = (id, loc);
    lemma_found(entries, id);
    lemma_owned_entry(before, own, root, entries, current, was);
    let old_ids = record_chain(before, loc)->Some_0;
    lemma_record_chain(before, loc);
    assert forall|p: PageId|
        #![trigger before.dom().contains(p)]
        #![trigger own[p]]
        before.dom().contains(p) && own[p] != tag implies after.dom().contains(p) && after[p]
        == before[p] && now[p] == own[p] by {
        assert(!old_ids.contains(p));
        assert(p != loc.page);
        assert(p != current);
        assert(after.dom().contains(p));
    }
    assert forall|e: Entry| #[trigger] entries.contains(e) && e.0 != id implies record_owned(
        after,
        now,
        root,
        e,
    ) && record_at(after, e.1) == record_at(before, e.1) && record_chain(after, e.1)
        == record_chain(before, e.1) by {
        lemma_owned_entry(before, own, root, entries, current, e);
        lemma_apart(before, own, root, entries, current, e, was);
        assert(e.1 != at);
        assert(data_slot(after, e.1) == data_slot(before, e.1));
        lemma_record_chain(before, e.1);
        let pids = record_chain(before, e.1)->Some_0;
        assert forall|p: PageId| #[trigger] pids.contains(p) implies after.dom().contains(p)
            && after[p] == before[p] by {
            let i = choose|i: int| 0 <= i < pids.len() && pids[i] == p;
            assert(is_overflow_page(before, pids[i]) && !is_data_page(before, pids[i]));
            assert(!(record_chain(before, e.1)->Some_0.contains(p) && record_chain(
                before,
                loc,
            )->Some_0.contains(p)));
            assert(p != loc.page && p != current);
            assert(after.dom().contains(p));
        }
        lemma_left_alone(before, after, own, root, e);
    }
    let new_ids = record_chain(after, at)->Some_0;
    assert forall|p: PageId| #[trigger] old_ids.contains(p) implies own[p] == tag
        && before.dom().contains(p) by {
        let i = choose|i: int| 0 <= i < old_ids.len() && old_ids[i] == p;
        assert(is_overflow_page(before, old_ids[i]));
    }
    assert(record_owned(after, now, root, (id, at))) by {
        assert(before.dom().contains(loc.page));
        assert(now[at.page] == tag);
        assert forall|p: PageId| #[trigger] new_ids.contains(p) implies now[p] == tag by {}
    }
    lemma_inserted_sorted(entries, id, at);
    assert forall|e: Entry| #[trigger] longer.contains(e) implies e == (id, at) || (
    entries.contains(e) && e.0 != id) by {
        let i = choose|i: int| 0 <= i < longer.len() && longer[i] == e;
        lemma_inserted_entries(entries, id, at, i);
    }
    assert forall|a: Entry, b: Entry| #[trigger]
        longer.contains(a) && #[trigger] longer.contains(b) && a.0 != b.0 implies chains_apart(
        after,
        a.1,
        b.1,
    ) by {
        if a != (id, at) && b != (id, at) {
            lemma_apart(before, own, root, entries, current, a, b);
            assert forall|p: PageId| !(#[trigger] record_chain(after, a.1)->Some_0.contains(p)
                && record_chain(after, b.1)->Some_0.contains(p)) by {
                assert(!(record_chain(before, a.1)->Some_0.contains(p) && record_chain(
                    before,
                    b.1,
                )->Some_0.contains(p)));
            }
        } else {
            let other = if a == (id, at) {
                b
            } else {
                a
            };
            assert(entries.contains(other) && other.0 != id);
            lemma_owned_entry(before, own, root, entries, current, other);
            lemma_apart(before, own, root, entries, current, other, was);
            lemma_record_chain(before, other.1);
            let pids = record_chain(before, other.1)->Some_0;
            assert forall|p: PageId| #[trigger] pids.contains(p) implies !new_ids.contains(p) by {
                let i = choose|i: int| 0 <= i < pids.len() && pids[i] == p;
                assert(is_overflow_page(before, pids[i]));
                assert(!(record_chain(before, other.1)->Some_0.contains(p) && record_chain(
                    before,
                    loc,
                )->Some_0.contains(p)));
            }
        }
    }
    assert(is_data_page(after, at.page));
    lemma_records_make(after, now, root, longer, next);
    lemma_docs_inserted(before, after, entries, id, at, doc);
}

} // verus!

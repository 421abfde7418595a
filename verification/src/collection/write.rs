//! Writing documents: each change brings the records, the primary index and
//! every secondary index along.

use super::apply::contents_of;
use super::maintain::{
    check_unique, entry_collides, insert_keys, lemma_grown_twice, remove_keys,
};
use super::records::{lemma_contained, lemma_found};
use super::state::{
    collection_docs, collection_sound, docs_at, entries_at, expected, index_sound, index_true,
    lemma_catalog_stands, lemma_collection_stands, lemma_records_stand, lemma_tree_facts,
    lemma_tree_stands, lemma_tree_step, record_owned, records_owned, reowned, roots_distinct,
    roots_of, tree_owned, Docs, Owner, Owners,
};
use crate::catalog::chain::chain;
use crate::catalog::entry::{index_name, IndexModel};
use crate::catalog::{agrees, index_models, CollectionModel, IndexMeta};
use crate::data::record_at;
use crate::decode::corrupt;
use crate::document::{models, DocId, DocModel, Document};
use crate::error::Error;
use crate::index::btree::tree_grown;
use crate::index::entries::{find, in_range, sorted};
use crate::index::key::{key_id, MAX_COMPOUND_FIELDS, MAX_KEY_LEN};
use crate::index::range::{prefix_range, prefix_range_is_exact};
use crate::index::tree::{has_tree, Entry};
use crate::secondary::{
    collides, doc_has_key, documents_collide, equal_tuples_share_a_key, has_tuple, index_keys,
    key_models, lemma_key_of_doc, tuple_key, tuples_are_indexed, tuples_equal, unique_tuples,
};
use crate::storage::{PageId, PageStore, RecordLocation};
use vstd::prelude::*;

verus! {

/// A write on its way: collection `at`'s records and primary index are where
/// they will be (`entries`, `current`, `docs`), its first `k` secondary
/// indexes agree with them, the others still with the documents as they
/// `were`; everything else is as it should be.
#[verifier::opaque]
pub open spec fn underway(
    pages: Map<PageId, Seq<u8>>,
    list: Seq<CollectionModel>,
    own: Owners,
    at: int,
    entries: Seq<Entry>,
    current: PageId,
    were: Docs,
    docs: Docs,
    k: int,
) -> bool {
    &&& 0 <= at < list.len()
    &&& agrees(list, pages)
    &&& forall|p: PageId| #[trigger] chain(pages).contains(p) ==> own[p] == Owner::Catalog
    &&& roots_distinct(list)
    &&& forall|i: int|
        0 <= i < list.len() && i != at ==> collection_sound(pages, own, #[trigger] list[i])
    &&& tree_owned(pages, own, list[at].meta.index_root)
    &&& entries_at(pages, list[at].meta.index_root) == entries
    &&& records_owned(pages, own, list[at].meta.index_root, entries, current)
    &&& docs_at(pages, entries) == docs
    &&& forall|j: int|
        0 <= j < list[at].indexes.len() ==> index_sound(
            pages,
            own,
            if j < k {
                docs
            } else {
                were
            },
            #[trigger] list[at].indexes[j],
        )
}

/// What the other collections hold is the same.
pub open spec fn others_same(
    before: Map<PageId, Seq<u8>>,
    after: Map<PageId, Seq<u8>>,
    list: Seq<CollectionModel>,
    at: int,
) -> bool {
    forall|i: int|
        0 <= i < list.len() && i != at ==> collection_docs(after, #[trigger] list[i])
            == collection_docs(before, list[i])
}

/// No other index has the root of secondary index `k`.
pub proof fn lemma_root_apart(list: Seq<CollectionModel>, at: int, k: int, i: int, a: int)
    requires
        roots_distinct(list),
        0 <= at < list.len(),
        0 <= k < roots_of(list[at]).len(),
        0 <= i < list.len(),
        0 <= a < roots_of(list[i]).len(),
        i != at || a != k,
    ensures
        roots_of(list[i])[a] != roots_of(list[at])[k],
{
    reveal(roots_distinct);
}

/// A change to secondary index `k` leaves everything else as it was.
pub proof fn lemma_underway_step(
    before: Map<PageId, Seq<u8>>,
    after: Map<PageId, Seq<u8>>,
    list: Seq<CollectionModel>,
    own: Owners,
    at: int,
    entries: Seq<Entry>,
    current: PageId,
    were: Docs,
    docs: Docs,
    k: int,
)
    requires
        underway(before, list, own, at, entries, current, were, docs, k),
        0 <= k < list[at].indexes.len(),
        has_tree(after, list[at].indexes[k].root),
        tree_grown(before, after, list[at].indexes[k].root),
    ensures
        ({
            let root = list[at].indexes[k].root;
            let now = reowned(before, own, Owner::Tree(root));
            &&& tree_owned(after, now, root)
            &&& agrees(list, after)
            &&& forall|p: PageId| #[trigger] chain(after).contains(p) ==> now[p] == Owner::Catalog
            &&& forall|i: int|
                0 <= i < list.len() && i != at ==> collection_sound(after, now, #[trigger] list[i])
            &&& others_same(before, after, list, at)
            &&& tree_owned(after, now, list[at].meta.index_root)
            &&& entries_at(after, list[at].meta.index_root) == entries
            &&& records_owned(after, now, list[at].meta.index_root, entries, current)
            &&& docs_at(after, entries) == docs
            &&& forall|j: int|
                0 <= j < list[at].indexes.len() && j != k ==> index_sound(
                    after,
                    now,
                    if j < k {
                        docs
                    } else {
                        were
                    },
                    #[trigger] list[at].indexes[j],
                )
        }),
{
    reveal(underway);
    let c = list[at];
    let root = c.indexes[k].root;
    let tag = Owner::Tree(root);
    let now = reowned(before, own, tag);
    assert(index_sound(before, own, were, c.indexes[k]));
    lemma_tree_step(before, after, own, root);
    lemma_catalog_stands(before, after, own, now, tag, list);
    assert(roots_of(c)[k + 1] == root);
    assert(roots_of(c)[0] == c.meta.index_root);
    assert forall|i: int| 0 <= i < list.len() && i != at implies collection_sound(
        after,
        now,
        #[trigger] list[i],
    ) && collection_docs(after, list[i]) == collection_docs(before, list[i]) by {
        assert forall|a: int| 0 <= a < roots_of(list[i]).len() implies tag != Owner::Tree(
            #[trigger] roots_of(list[i])[a],
        ) by {
            lemma_root_apart(list, at, k + 1, i, a);
        }
        lemma_collection_stands(before, after, own, now, tag, list[i]);
    }
    lemma_root_apart(list, at, k + 1, at, 0);
    lemma_tree_facts(before, c.meta.index_root);
    lemma_tree_stands(before, after, own, now, tag, c.meta.index_root);
    lemma_records_stand(before, after, own, now, tag, c.meta.index_root, entries, current);
    assert forall|j: int| 0 <= j < c.indexes.len() && j != k implies index_sound(
        after,
        now,
        if j < k {
            docs
        } else {
            were
        },
        #[trigger] c.indexes[j],
    ) by {
        assert(roots_of(c)[j + 1] == c.indexes[j].root);
        lemma_root_apart(list, at, k + 1, at, j + 1);
        assert(index_sound(
            before,
            own,
            if j < k {
                docs
            } else {
                were
            },
            c.indexes[j],
        ));
        lemma_tree_stands(before, after, own, now, tag, c.indexes[j].root);
    }
}

/// The documents as a change of one makes them.
pub open spec fn docs_with(
    docs: Docs,
    id: Seq<u8>,
    new: Option<(DocModel, RecordLocation)>,
) -> Docs {
    match new {
        Some((doc, loc)) => docs.insert(id, (loc, doc)),
        None => docs.remove(id),
    }
}

/// A document, with where it is.
pub open spec fn placed_model(doc: Option<(&Document, RecordLocation)>) -> Option<
    (DocModel, RecordLocation),
> {
    match doc {
        Some((doc, loc)) => Some((doc@, loc)),
        None => None,
    }
}

/// What is known of a document before a change.
pub open spec fn known(docs: Docs, id: Seq<u8>, was: Option<(DocModel, RecordLocation)>) -> bool {
    match was {
        Some((doc, loc)) => docs.dom().contains(id) && docs[id] == (loc, doc),
        None => !docs.dom().contains(id),
    }
}

/// An index brought from a document's old keys to its new ones is true.
pub proof fn lemma_index_updated(
    before: Seq<Entry>,
    middle: Seq<Entry>,
    after: Seq<Entry>,
    docs: Docs,
    index: IndexModel,
    id: Seq<u8>,
    was: Option<(DocModel, RecordLocation)>,
    new: Option<(DocModel, RecordLocation)>,
    old_keys: Seq<Seq<u8>>,
    new_keys: Seq<Seq<u8>>,
    moved: bool,
)
    requires
        index_true(before, docs, index),
        known(docs, id, was),
        id.len() == 16,
        1 <= index.fields.len() <= MAX_COMPOUND_FIELDS,
        forall|k: Seq<u8>| #[trigger]
            old_keys.contains(k) <==> (was matches Some((doc, _)) && doc_has_key(doc, index, id, k)),
        forall|k: Seq<u8>| #[trigger]
            new_keys.contains(k) <==> (new matches Some((doc, _)) && doc_has_key(doc, index, id, k)),
        !moved ==> was is Some && new is Some && was->Some_0.1 == new->Some_0.1,
        forall|key: Seq<u8>| #[trigger]
            find(middle, key) == (if old_keys.contains(key) && (moved || !new_keys.contains(key)) {
                None
            } else {
                find(before, key)
            }),
        forall|key: Seq<u8>| #[trigger]
            find(after, key) == (if new_keys.contains(key) && (moved || !old_keys.contains(key)) {
                Some(new->Some_0.1)
            } else {
                find(middle, key)
            }),
    ensures
        index_true(after, docs_with(docs, id, new), index),
{
    reveal(index_true);
    let now = docs_with(docs, id, new);
    assert forall|key: Seq<u8>| #[trigger] find(after, key) == expected(now, index, key) by {
        assert(find(before, key) == expected(docs, index, key));
        assert(find(middle, key) == (if old_keys.contains(key) && (moved || !new_keys.contains(
            key,
        )) {
            None
        } else {
            find(before, key)
        }));
        match was {
            Some((doc, _)) => {
                if old_keys.contains(key) {
                    lemma_key_of_doc(doc, index, id, key);
                }
            },
            None => {},
        }
        match new {
            Some((doc, _)) => {
                if new_keys.contains(key) {
                    lemma_key_of_doc(doc, index, id, key);
                }
            },
            None => {},
        }
    }
}

/// Whether another document has values equal to those of document `id`.
pub open spec fn conflict(docs: Docs, index: IndexModel, id: Seq<u8>) -> bool {
    docs.dom().contains(id) && exists|other: Seq<u8>, tuple: Seq<DocModel>|
        other != id && docs.dom().contains(other) && #[trigger] has_tuple(docs[id].1, index, tuple)
            && #[trigger] collides(docs[other].1, index, tuple)
}

/// The records behind an index's entries can be read.
proof fn lemma_entries_readable(
    pages: Map<PageId, Seq<u8>>,
    own: Owners,
    root: PageId,
    entries: Seq<Entry>,
    current: PageId,
    docs: Docs,
    index: IndexModel,
    index_entries: Seq<Entry>,
    were: Docs,
    id: Seq<u8>,
    e: Entry,
)
    requires
        records_owned(pages, own, root, entries, current),
        sorted(entries),
        docs_at(pages, entries) == docs,
        sorted(index_entries),
        index_entries.contains(e),
        forall|key: Seq<u8>| #[trigger]
            find(index_entries, key) is Some ==> find(index_entries, key) == expected(
                were,
                index,
                key,
            ),
        forall|other: Seq<u8>|
            other != id ==> (#[trigger] were.dom().contains(other) <==> docs.dom().contains(other))
                && (docs.dom().contains(other) ==> were[other] == docs[other]),
        key_id(e.0) == id ==> docs.dom().contains(id) && docs[id].0 == e.1,
    ensures
        docs.dom().contains(key_id(e.0)),
        docs[key_id(e.0)].0 == e.1,
        record_at(pages, e.1) == Some((key_id(e.0), docs[key_id(e.0)].1)),
{
    reveal(records_owned);
    lemma_contained(index_entries, e);
    let kid = key_id(e.0);
    assert(docs.dom().contains(kid));
    assert(find(entries, kid) is Some);
    lemma_found(entries, kid);
    let found = (kid, find(entries, kid)->Some_0);
    let i = choose|i: int| 0 <= i < entries.len() && entries[i] == found;
    assert(record_owned(pages, own, root, entries[i]));
}

/// Whether the record behind every entry can be read, and is its document's.
pub open spec fn all_readable(pages: Map<PageId, Seq<u8>>, entries: Seq<Entry>, docs: Docs) -> bool {
    forall|e: Entry| #[trigger]
        entries.contains(e) ==> docs.dom().contains(key_id(e.0)) && record_at(pages, e.1) == Some(
            (key_id(e.0), docs[key_id(e.0)].1),
        )
}

/// What is known of an index that is about to change.
pub proof fn lemma_underway_start(
    pages: Map<PageId, Seq<u8>>,
    list: Seq<CollectionModel>,
    own: Owners,
    at: int,
    entries: Seq<Entry>,
    current: PageId,
    were: Docs,
    docs: Docs,
    k: int,
)
    requires
        underway(pages, list, own, at, entries, current, were, docs, k),
        0 <= k < list[at].indexes.len(),
    ensures
        has_tree(pages, list[at].indexes[k].root),
        index_true(entries_at(pages, list[at].indexes[k].root), were, list[at].indexes[k]),
        1 <= list[at].indexes[k].fields.len() <= MAX_COMPOUND_FIELDS,
{
    reveal(underway);
    assert(index_sound(pages, own, were, list[at].indexes[k]));
}

/// The documents under a unique index's entries, while one is being changed.
proof fn lemma_underway_readable(
    before: Map<PageId, Seq<u8>>,
    middle: Map<PageId, Seq<u8>>,
    list: Seq<CollectionModel>,
    own: Owners,
    at: int,
    entries: Seq<Entry>,
    current: PageId,
    were: Docs,
    docs: Docs,
    k: int,
    id: Seq<u8>,
    was: Option<(DocModel, RecordLocation)>,
    doc: DocModel,
    loc: RecordLocation,
    old_keys: Seq<Seq<u8>>,
    new_keys: Seq<Seq<u8>>,
    moved: bool,
)
    requires
        underway(before, list, own, at, entries, current, were, docs, k),
        0 <= k < list[at].indexes.len(),
        has_tree(middle, list[at].indexes[k].root),
        tree_grown(before, middle, list[at].indexes[k].root),
        known(were, id, was),
        docs == docs_with(were, id, Some((doc, loc))),
        forall|key: Seq<u8>| #[trigger]
            find(entries_at(middle, list[at].indexes[k].root), key) == (if old_keys.contains(key)
                && (moved || !new_keys.contains(key)) {
                None
            } else {
                find(entries_at(before, list[at].indexes[k].root), key)
            }),
        forall|key: Seq<u8>| #[trigger]
            old_keys.contains(key) <==> (was matches Some((doc, _)) && doc_has_key(
                doc,
                list[at].indexes[k],
                id,
                key,
            )),
        !moved ==> was is Some && was->Some_0.1 == loc,
        id.len() == 16,
    ensures
        all_readable(middle, entries_at(middle, list[at].indexes[k].root), docs),
        covers(entries_at(middle, list[at].indexes[k].root), docs, list[at].indexes[k], id),
        ids_whole(docs),
{
    reveal(index_true);
    let index = list[at].indexes[k];
    let root = list[at].meta.index_root;
    lemma_underway_start(before, list, own, at, entries, current, were, docs, k);
    lemma_underway_step(before, middle, list, own, at, entries, current, were, docs, k);
    let own1 = reowned(before, own, Owner::Tree(index.root));
    lemma_tree_facts(middle, index.root);
    lemma_tree_facts(middle, root);
    let there = entries_at(middle, index.root);
    let were_there = entries_at(before, index.root);
    assert forall|e: Entry| #[trigger] there.contains(e) implies docs.dom().contains(key_id(e.0))
        && record_at(middle, e.1) == Some((key_id(e.0), docs[key_id(e.0)].1)) by {
        lemma_contained(there, e);
        assert(find(there, e.0) == Some(e.1));
        assert(find(were_there, e.0) == expected(were, index, e.0));
        lemma_entries_readable(
            middle,
            own1,
            root,
            entries,
            current,
            docs,
            index,
            there,
            were,
            id,
            e,
        );
    }
    assert forall|other: Seq<u8>, key: Seq<u8>|
        other != id && docs.dom().contains(other) && other.len() == 16 && #[trigger] doc_has_key(
            docs[other].1,
            index,
            other,
            key,
        ) implies there.contains((key, docs[other].0)) by {
        lemma_key_of_doc(docs[other].1, index, other, key);
        assert(were.dom().contains(other) && were[other] == docs[other]);
        assert(find(were_there, key) == expected(were, index, key));
        if old_keys.contains(key) {
            lemma_key_of_doc(was->Some_0.0, index, id, key);
        }
        assert(find(there, key) == Some(docs[other].0));
        lemma_found(there, key);
    }
    reveal(records_owned);
    assert forall|other: Seq<u8>| #[trigger] docs.dom().contains(other) implies other.len()
        == 16 by {
        assert(find(entries, other) is Some);
        lemma_found(entries, other);
        let found = (other, find(entries, other)->Some_0);
        let i = choose|i: int| 0 <= i < entries.len() && entries[i] == found;
        assert(record_owned(middle, own1, root, entries[i]));
    }
}

/// An index was brought up to date.
proof fn lemma_underway_done(
    before: Map<PageId, Seq<u8>>,
    after: Map<PageId, Seq<u8>>,
    list: Seq<CollectionModel>,
    own: Owners,
    at: int,
    entries: Seq<Entry>,
    current: PageId,
    were: Docs,
    docs: Docs,
    k: int,
)
    requires
        underway(before, list, own, at, entries, current, were, docs, k),
        0 <= k < list[at].indexes.len(),
        has_tree(after, list[at].indexes[k].root),
        tree_grown(before, after, list[at].indexes[k].root),
        index_true(entries_at(after, list[at].indexes[k].root), docs, list[at].indexes[k]),
    ensures
        underway(
            after,
            list,
            reowned(before, own, Owner::Tree(list[at].indexes[k].root)),
            at,
            entries,
            current,
            were,
            docs,
            k + 1,
        ),
        others_same(before, after, list, at),
{
    lemma_underway_start(before, list, own, at, entries, current, were, docs, k);
    lemma_underway_step(before, after, list, own, at, entries, current, were, docs, k);
    reveal(underway);
    let now = reowned(before, own, Owner::Tree(list[at].indexes[k].root));
    assert(index_sound(after, now, docs, list[at].indexes[k]));
    assert forall|j: int| 0 <= j < list[at].indexes.len() implies index_sound(
        after,
        now,
        if j < k + 1 {
            docs
        } else {
            were
        },
        #[trigger] list[at].indexes[j],
    ) by {
        if j != k {
            assert(index_sound(
                after,
                now,
                if j < k {
                    docs
                } else {
                    were
                },
                list[at].indexes[j],
            ));
        }
    }
}

/// Whether an error names the index, the document whose values are taken, and
/// the one that has them.
pub open spec fn names_collision(
    e: Error,
    name: Seq<char>,
    index: IndexModel,
    held: Map<Seq<u8>, DocModel>,
    id: Seq<u8>,
    doc: DocModel,
) -> bool {
    e matches Error::DuplicateValue { collection, field, id: new, existing } && collection@ == name
        && field@ == index_name(index.fields) && new@ == id && existing@ != id
        && held.dom().contains(existing@) && documents_collide(held[existing@], doc, index)
}

/// Whether an error names an index and two documents that collide under it.
pub open spec fn collision_among(
    e: Error,
    name: Seq<char>,
    index: IndexModel,
    held: Map<Seq<u8>, DocModel>,
) -> bool {
    e matches Error::DuplicateValue { id, .. } && held.dom().contains(id@) && names_collision(
        e,
        name,
        index,
        held,
        id@,
        held[id@],
    )
}

/// What an error of a write to an index means.
pub open spec fn index_error(
    e: Error,
    name: Seq<char>,
    docs: Docs,
    index: IndexModel,
    id: Seq<u8>,
    broken: bool,
) -> bool {
    match e {
        Error::DuplicateValue { .. } => index.unique && docs.dom().contains(id) && names_collision(
            e,
            name,
            index,
            contents_of(docs),
            id,
            docs[id].1,
        ),
        Error::Io(_) => broken,
        _ => false,
    }
}

/// Whether an index holds every key of the documents other than `id`.
pub open spec fn covers(entries: Seq<Entry>, docs: Docs, index: IndexModel, id: Seq<u8>) -> bool {
    forall|other: Seq<u8>, key: Seq<u8>|
        other != id && docs.dom().contains(other) && other.len() == 16 && #[trigger] doc_has_key(
            docs[other].1,
            index,
            other,
            key,
        ) ==> entries.contains((key, docs[other].0))
}

/// Whether every document's id is one.
pub open spec fn ids_whole(docs: Docs) -> bool {
    forall|id: Seq<u8>| #[trigger] docs.dom().contains(id) ==> id.len() == 16
}

/// A document that collides has an entry under the tuple's key.
proof fn lemma_collision_found(
    pages: Map<PageId, Seq<u8>>,
    there: Seq<Entry>,
    docs: Docs,
    index: IndexModel,
    id: Seq<u8>,
    tuple: Seq<DocModel>,
    other: Seq<u8>,
)
    requires
        all_readable(pages, there, docs),
        covers(there, docs, index, id),
        ids_whole(docs),
        1 <= index.fields.len() <= MAX_COMPOUND_FIELDS,
        other != id,
        docs.dom().contains(other),
        collides(docs[other].1, index, tuple),
    ensures
        ({
            let under = in_range(there, prefix_range(tuple_key(tuple)));
            exists|i: int|
                0 <= i < under.len() && entry_collides(pages, index, id, tuple, #[trigger] under[i])
        }),
{
    let doc = docs[other].1;
    let its = choose|its: Seq<DocModel>|
        has_tuple(doc, index, its) && #[trigger] tuples_equal(its, tuple);
    tuples_are_indexed(doc, index, other, its);
    equal_tuples_share_a_key(its, tuple);
    let key = tuple_key(its) + other;
    lemma_key_of_doc(doc, index, other, key);
    let e = (key, docs[other].0);
    assert(there.contains(e));
    let range = prefix_range(tuple_key(tuple));
    prefix_range_is_exact(tuple_key(tuple), key);
    assert(key.take(tuple_key(tuple).len() as int) =~= tuple_key(tuple));
    let pred = |e: Entry| range.has(e.0);
    let under = in_range(there, range);
    assert(under == there.filter(pred));
    let k = choose|k: int| 0 <= k < there.len() && there[k] == e;
    assert(pred(there[k]));
    there.lemma_filter_contains(pred, k);
    let i = choose|i: int| 0 <= i < under.len() && under[i] == e;
    assert(entry_collides(pages, index, id, tuple, under[i]));
}

/// Checks each value of a document against a unique index.
pub fn check_tuples<S: PageStore>(
    store: &S,
    collection: &str,
    index: &IndexMeta,
    id: DocId,
    doc: &Document,
    Ghost(docs): Ghost<Docs>,
) -> (r: Result<(), Error>)
    requires
        store.wf(),
        1 <= index@.fields.len() <= MAX_COMPOUND_FIELDS,
        index.unique,
    ensures
        has_tree(store.pages(), index.root) && all_readable(
            store.pages(),
            entries_at(store.pages(), index.root),
            docs,
        ) && docs.dom().contains(id@) && docs[id@].1 == doc@ ==> match r {
            Ok(()) => covers(entries_at(store.pages(), index.root), docs, index@, id@)
                && ids_whole(docs) ==> !conflict(docs, index@, id@),
            Err(e) => index_error(e, collection@, docs, index@, id@, !store.reliable()),
        },
{
    let ghost pages = store.pages();
    let ghost there = entries_at(pages, index.root);
    let ghost good = has_tree(pages, index.root) && all_readable(pages, there, docs)
        && docs.dom().contains(id@) && docs[id@].1 == doc@;
    let tuples = unique_tuples(doc, index);
    let n: usize = tuples.len();
    for i in 0..n
        invariant
            n == tuples@.len(),
            store.wf(),
            store.pages() == pages,
            there == entries_at(pages, index.root),
            1 <= index@.fields.len() <= MAX_COMPOUND_FIELDS,
            index.unique,
            good == (has_tree(pages, index.root) && all_readable(pages, there, docs)
                && docs.dom().contains(id@) && docs[id@].1 == doc@),
            forall|i: int|
                0 <= i < tuples@.len() ==> (#[trigger] tuples@[i]).0@ == tuple_key(
                    models(tuples@[i].1@),
                ) && has_tuple(doc@, index@, models(tuples@[i].1@)),
            good && covers(there, docs, index@, id@) && ids_whole(docs) ==> forall|j: int, other: Seq<u8>|
                0 <= j < i && other != id@ && docs.dom().contains(other) ==> !(#[trigger] collides(
                    docs[other].1,
                    index@,
                    models((#[trigger] tuples@[j]).1@),
                )),
    {
        let ghost tuple = models(tuples@[i as int].1@);
        match check_unique(store, collection, index, id, tuples[i].0.as_slice(), &tuples[i].1) {
            Ok(()) => {
                proof {
                    if good && covers(there, docs, index@, id@) && ids_whole(docs) {
                        assert forall|other: Seq<u8>|
                            other != id@ && docs.dom().contains(other) implies !(
                        #[trigger] collides(docs[other].1, index@, tuple)) by {
                            if collides(docs[other].1, index@, tuple) {
                                lemma_collision_found(
                                    pages,
                                    there,
                                    docs,
                                    index@,
                                    id@,
                                    tuple,
                                    other,
                                );
                            }
                        }
                    }
                }
            },
            Err(e) => {
                proof {
                    if good {
                        let range = prefix_range(tuples@[i as int].0@);
                        let under = in_range(there, range);
                        let pred = |e: Entry| range.has(e.0);
                        assert forall|j: int| 0 <= j < under.len() implies docs.dom().contains(
                            key_id((#[trigger] under[j]).0),
                        ) && record_at(pages, under[j].1) == Some(
                            (key_id(under[j].0), docs[key_id(under[j].0)].1),
                        ) by {
                            assert(there.filter(pred) == under);
                            assert(there.filter(pred).contains(under[j]));
                            there.lemma_filter_contains_rev(pred, under[j]);
                        }
                        match e {
                            Error::DuplicateValue { existing, .. } => {
                                let j = choose|j: int|
                                    0 <= j < under.len() && key_id((#[trigger] under[j]).0)
                                        == existing@ && entry_collides(
                                        pages,
                                        index@,
                                        id@,
                                        tuple,
                                        under[j],
                                    );
                                let other = key_id(under[j].0);
                                assert(contents_of(docs)[other] == docs[other].1);
                                assert(has_tuple(docs[id@].1, index@, tuple));
                                assert(collides(docs[other].1, index@, tuple));
                                assert(other != id@ && docs.dom().contains(other));
                            },
                            _ => {},
                        }
                    }
                }
                return Err(e);
            },
        }
    }
    proof {
        if good && covers(there, docs, index@, id@) && ids_whole(docs) && conflict(
            docs,
            index@,
            id@,
        ) {
            let (other, tuple) = choose|other: Seq<u8>, tuple: Seq<DocModel>|
                other != id@ && docs.dom().contains(other) && #[trigger] has_tuple(
                    docs[id@].1,
                    index@,
                    tuple,
                ) && #[trigger] collides(docs[other].1, index@, tuple);
            let j = choose|j: int| 0 <= j < tuples@.len() && models((#[trigger] tuples@[j]).1@) == tuple;
            assert(collides(docs[other].1, index@, models(tuples@[j].1@)));
        }
    }
    Ok(())
}

/// Brings one secondary index from a document's old state to its new one.
fn update_index<S: PageStore>(
    store: &mut S,
    collection: &str,
    index: &IndexMeta,
    id: DocId,
    old_doc: Option<(&Document, RecordLocation)>,
    new_doc: Option<(&Document, RecordLocation)>,
    Ghost(list): Ghost<Seq<CollectionModel>>,
    Ghost(own): Ghost<Owners>,
    Ghost(at): Ghost<int>,
    Ghost(entries): Ghost<Seq<Entry>>,
    Ghost(current): Ghost<PageId>,
    Ghost(were): Ghost<Docs>,
    Ghost(docs): Ghost<Docs>,
    Ghost(k): Ghost<int>,
) -> (r: Result<Ghost<Owners>, Error>)
    requires
        old(store).wf(),
    ensures
        final(store).wf(),
        final(store).reliable() == old(store).reliable(),
        old(store).packed() && r is Ok ==> final(store).packed(),
        underway(old(store).pages(), list, own, at, entries, current, were, docs, k) && 0 <= k
            < list[at].indexes.len() && index@ == list[at].indexes[k] && known(
            were,
            id@,
            placed_model(old_doc),
        ) && docs == docs_with(were, id@, placed_model(new_doc)) ==> match r {
            Ok(now) => underway(
                final(store).pages(),
                list,
                now@,
                at,
                entries,
                current,
                were,
                docs,
                k + 1,
            ) && others_same(old(store).pages(), final(store).pages(), list, at) && (index.unique
                ==> !conflict(docs, index@, id@)),
            Err(e) => index_error(
                e,
                collection@,
                docs,
                index@,
                id@,
                !old(store).reliable() || final(store).full(),
            ),
        },
{
    let ghost before = store.pages();
    let ghost was = placed_model(old_doc);
    let ghost new = placed_model(new_doc);
    let ghost good = underway(before, list, own, at, entries, current, were, docs, k) && 0 <= k
        < list[at].indexes.len() && index@ == list[at].indexes[k] && known(were, id@, was) && docs
        == docs_with(were, id@, new);
    proof {
        if good {
            lemma_underway_start(before, list, own, at, entries, current, were, docs, k);
        }
    }
    if index.fields.len() < 1 || index.fields.len() > MAX_COMPOUND_FIELDS {
        return Err(Error::Io(corrupt("an index has a wrong number of fields")));
    }
    let moved: bool = match (old_doc, new_doc) {
        (Some((_, a)), Some((_, b))) => a != b,
        _ => true,
    };
    let old_keys: Vec<Vec<u8>> = match old_doc {
        Some((doc, _)) => index_keys(doc, index, id),
        None => Vec::new(),
    };
    let new_keys: Vec<Vec<u8>> = match new_doc {
        Some((doc, _)) => index_keys(doc, index, id),
        None => Vec::new(),
    };
    let ghost old_models = key_models(old_keys@);
    let ghost new_models = key_models(new_keys@);
    proof {
        assert forall|i: int| 0 <= i < new_keys@.len() implies (#[trigger] new_keys@[i])@.len()
            <= MAX_KEY_LEN by {
            assert(new_models[i] == new_keys@[i]@);
            assert(new_models.contains(new_models[i]));
            lemma_key_of_doc(new->Some_0.0, index@, id@, new_models[i]);
        }
    }
    match remove_keys(store, index.root, &old_keys, &new_keys, moved) {
        Ok(()) => {},
        Err(e) => return Err(Error::Io(e)),
    }
    let ghost middle = store.pages();
    let ghost now = reowned(before, own, Owner::Tree(index.root));
    let (doc, loc): (&Document, RecordLocation) = match new_doc {
        Some(placed) => placed,
        None => {
            proof {
                if good {
                    lemma_index_updated(
                        entries_at(before, index.root),
                        entries_at(middle, index.root),
                        entries_at(middle, index.root),
                        were,
                        index@,
                        id@,
                        was,
                        new,
                        old_models,
                        new_models,
                        moved,
                    );
                    lemma_underway_done(
                        before,
                        middle,
                        list,
                        own,
                        at,
                        entries,
                        current,
                        were,
                        docs,
                        k,
                    );
                }
            }
            return Ok(Ghost(now));
        },
    };
    proof {
        if good {
            lemma_underway_readable(
                before,
                middle,
                list,
                own,
                at,
                entries,
                current,
                were,
                docs,
                k,
                id@,
                was,
                doc@,
                loc,
                old_models,
                new_models,
                moved,
            );
        }
    }
    if index.unique {
        match check_tuples(store, collection, index, id, doc, Ghost(docs)) {
            Ok(()) => {},
            Err(e) => return Err(e),
        }
    }
    match insert_keys(store, index.root, &new_keys, &old_keys, moved, loc) {
        Ok(()) => {},
        Err(e) => return Err(Error::Io(e)),
    }
    let ghost after = store.pages();
    proof {
        if good {
            lemma_grown_twice(before, middle, after, index.root);
            lemma_index_updated(
                entries_at(before, index.root),
                entries_at(middle, index.root),
                entries_at(after, index.root),
                were,
                index@,
                id@,
                was,
                new,
                old_models,
                new_models,
                moved,
            );
            lemma_underway_done(before, after, list, own, at, entries, current, were, docs, k);
        }
    }
    Ok(Ghost(now))
}

/// Whether no unique index among the first `k` finds a document colliding.
pub open spec fn no_conflict(docs: Docs, indexes: Seq<IndexModel>, id: Seq<u8>, k: int) -> bool {
    forall|j: int|
        0 <= j < k && (#[trigger] indexes[j]).unique ==> !conflict(docs, indexes[j], id)
}

/// Brings every secondary index from a document's old state to its new one,
/// each a document and where it is, `None` for "not there". Only keys that
/// went away are removed and only new ones inserted; all of them, if the
/// document moved. A unique index checks every value of the document before
/// anything goes in: also one whose key stayed, since values that differ can
/// share a key.
pub fn update_secondary_indexes<S: PageStore>(
    store: &mut S,
    collection: &str,
    indexes: &[IndexMeta],
    id: DocId,
    old_doc: Option<(&Document, RecordLocation)>,
    new_doc: Option<(&Document, RecordLocation)>,
    Ghost(list): Ghost<Seq<CollectionModel>>,
    Ghost(own): Ghost<Owners>,
    Ghost(at): Ghost<int>,
    Ghost(entries): Ghost<Seq<Entry>>,
    Ghost(current): Ghost<PageId>,
    Ghost(were): Ghost<Docs>,
    Ghost(docs): Ghost<Docs>,
) -> (r: Result<Ghost<Owners>, Error>)
    requires
        old(store).wf(),
    ensures
        final(store).wf(),
        final(store).reliable() == old(store).reliable(),
        old(store).packed() && r is Ok ==> final(store).packed(),
        indexes@.len() == 0 ==> final(store).pages() == old(store).pages(),
        underway(old(store).pages(), list, own, at, entries, current, were, docs, 0)
            && index_models(indexes@) == list[at].indexes && known(
            were,
            id@,
            placed_model(old_doc),
        ) && docs == docs_with(were, id@, placed_model(new_doc)) ==> match r {
            Ok(now) => underway(
                final(store).pages(),
                list,
                now@,
                at,
                entries,
                current,
                were,
                docs,
                list[at].indexes.len() as int,
            ) && others_same(old(store).pages(), final(store).pages(), list, at) && no_conflict(
                docs,
                list[at].indexes,
                id@,
                list[at].indexes.len() as int,
            ),
            Err(e) => exists|k: int|
                0 <= k < list[at].indexes.len() && index_error(
                    e,
                    collection@,
                    docs,
                    #[trigger] list[at].indexes[k],
                    id@,
                    !old(store).reliable() || final(store).full(),
                ),
        },
{
    let ghost before = store.pages();
    let ghost good = underway(before, list, own, at, entries, current, were, docs, 0)
        && index_models(indexes@) == list[at].indexes && known(were, id@, placed_model(old_doc))
        && docs == docs_with(were, id@, placed_model(new_doc));
    let n: usize = indexes.len();
    let ghost mut now = own;
    for k in 0..n
        invariant
            n == indexes@.len(),
            store.wf(),
            store.reliable() == old(store).reliable(),
            old(store).packed() ==> store.packed(),
            before == old(store).pages(),
            n == 0 ==> store.pages() == before,
            good == (underway(before, list, own, at, entries, current, were, docs, 0)
                && index_models(indexes@) == list[at].indexes && known(
                were,
                id@,
                placed_model(old_doc),
            ) && docs == docs_with(were, id@, placed_model(new_doc))),
            good ==> underway(
                store.pages(),
                list,
                now,
                at,
                entries,
                current,
                were,
                docs,
                k as int,
            ),
            good ==> others_same(before, store.pages(), list, at),
            good ==> no_conflict(docs, list[at].indexes, id@, k as int),
    {
        let ghost pages = store.pages();
        proof {
            if good {
                assert(index_models(indexes@)[k as int] == indexes@[k as int]@);
            }
        }
        match update_index(
            store,
            collection,
            &indexes[k],
            id,
            old_doc,
            new_doc,
            Ghost(list),
            Ghost(now),
            Ghost(at),
            Ghost(entries),
            Ghost(current),
            Ghost(were),
            Ghost(docs),
            Ghost(k as int),
        ) {
            Ok(next) => {
                proof {
                    now = next@;
                    if good {
                        assert forall|i: int| 0 <= i < list.len() && i != at implies collection_docs(
                            store.pages(),
                            #[trigger] list[i],
                        ) == collection_docs(before, list[i]) by {
                            assert(collection_docs(pages, list[i]) == collection_docs(
                                before,
                                list[i],
                            ));
                        }
                    }
                }
            },
            Err(e) => {
                return Err(e);
            },
        }
    }
    Ok(Ghost(now))
}

} // verus!

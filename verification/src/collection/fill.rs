//! Filling a new index in key order, so that its leaves are full.

use super::indexing::{
    apart_under, fill_error, lemma_collision_among, lemma_fill_done, lemma_fill_used, lemma_filled,
};
use super::maintain::{lemma_grown_never, lemma_grown_twice};
use super::packing::{
    all_packed, collection_packed, lemma_data_stands, lemma_packed_stands, lemma_tags_apart,
    lemma_tight_more, lemma_tight_stands, tight,
};
use super::records::{lemma_contained, lemma_found};
use super::state::{
    collection_docs, collection_sound, entries_at, expected, index_sound, index_true,
    lemma_tree_facts, lemma_tree_step, record_owned, records_owned, reowned, roots_distinct,
    roots_of, sound, tree_owned, Docs, Owner, Owners,
};
use super::usage::{all_used, lemma_parts_owned};
use super::write::{
    all_readable, check_tuples, conflict, covers, ids_whole, lemma_underway_start, others_same,
    underway,
};
use crate::catalog::entry::IndexModel;
use crate::catalog::{CollectionModel, IndexMeta};
use crate::data::{get_record, record_at};
use crate::error::{Error, IoResult};
use crate::index::btree::{tree_grown, BTreeIndex};
use crate::index::entries::{find, inserted, lemma_key_position_is, sorted};
use crate::index::key::{key_id, MAX_COMPOUND_FIELDS, MAX_KEY_LEN};
use crate::index::node::entry_models;
use crate::index::sorting::{one_each, sort_entries};
use crate::index::tree::{has_tree, Entry};
use crate::index::Index;
use crate::order::bytes_lt;
use crate::secondary::{
    collides, doc_has_key, documents_collide, has_tuple, index_keys, key_models, lemma_key_of_doc,
};
use crate::storage::{PageId, PageStore, RecordLocation};
use vstd::prelude::*;
use vstd::slice::slice_to_vec;

verus! {

/// Whether a primary index's entries lead to these documents.
pub open spec fn leads_to(pages: Map<PageId, Seq<u8>>, entries: Seq<Entry>, docs: Docs) -> bool {
    &&& sorted(entries)
    &&& forall|j: int|
        0 <= j < entries.len() ==> docs.dom().contains((#[trigger] entries[j]).0)
            && docs[entries[j].0].0 == entries[j].1 && record_at(pages, entries[j].1) == Some(
            (entries[j].0, docs[entries[j].0].1),
        ) && entries[j].0.len() == 16
    &&& forall|id: Seq<u8>| #[trigger]
        docs.dom().contains(id) ==> entries.contains((id, docs[id].0))
}

/// The documents of a collection whose new index is to be filled.
proof fn lemma_leads_to(
    pages: Map<PageId, Seq<u8>>,
    list: Seq<CollectionModel>,
    own: Owners,
    at: int,
    entries: Seq<Entry>,
    current: PageId,
    were: Docs,
    docs: Docs,
    k: int,
)
    requires
        underway(pages, list, own, at, entries, current, were, docs, k),
    ensures
        leads_to(pages, entries, docs),
        ids_whole(docs),
{
    reveal(underway);
    reveal(records_owned);
    let root = list[at].meta.index_root;
    lemma_tree_facts(pages, root);
    assert forall|j: int| 0 <= j < entries.len() implies docs.dom().contains(
        (#[trigger] entries[j]).0,
    ) && docs[entries[j].0].0 == entries[j].1 && record_at(pages, entries[j].1) == Some(
        (entries[j].0, docs[entries[j].0].1),
    ) && entries[j].0.len() == 16 by {
        assert(entries.contains(entries[j]));
        lemma_contained(entries, entries[j]);
        assert(record_owned(pages, own, root, entries[j]));
    }
    assert forall|id: Seq<u8>| #[trigger] docs.dom().contains(id) implies entries.contains(
        (id, docs[id].0),
    ) && id.len() == 16 by {
        assert(find(entries, id) is Some);
        lemma_found(entries, id);
        let j = choose|j: int|
            0 <= j < entries.len() && entries[j] == (id, find(entries, id)->Some_0);
        assert(entries[j].0 == id);
    }
}

/// Whether an entry is one of the `j`th document's.
pub open spec fn key_from(
    entries: Seq<Entry>,
    docs: Docs,
    index: IndexModel,
    j: int,
    e: Entry,
) -> bool {
    e.1 == entries[j].1 && doc_has_key(docs[entries[j].0].1, index, entries[j].0, e.0)
}

/// Whether an entry is one of the first `n` documents'.
pub open spec fn key_of_first(
    entries: Seq<Entry>,
    docs: Docs,
    index: IndexModel,
    n: int,
    e: Entry,
) -> bool {
    exists|j: int| 0 <= j < n && #[trigger] key_from(entries, docs, index, j, e)
}

/// The keys of documents in an index, each with where its document is.
fn collect_keys<S: PageStore>(
    store: &S,
    index: &IndexMeta,
    found: &Vec<(Vec<u8>, RecordLocation)>,
    Ghost(docs): Ghost<Docs>,
) -> (r: Result<Vec<(Vec<u8>, RecordLocation)>, Error>)
    requires
        store.wf(),
        1 <= index@.fields.len() <= MAX_COMPOUND_FIELDS,
    ensures
        leads_to(store.pages(), entry_models(found@), docs) ==> match r {
            Ok(pairs) => forall|e: Entry| #[trigger]
                entry_models(pairs@).contains(e) <==> key_of_first(
                    entry_models(found@),
                    docs,
                    index@,
                    found@.len() as int,
                    e,
                ),
            Err(_) => !store.reliable(),
        },
{
    let ghost entries = entry_models(found@);
    let ghost pages = store.pages();
    let ghost good = leads_to(pages, entries, docs);
    let n: usize = found.len();
    let mut pairs: Vec<(Vec<u8>, RecordLocation)> = Vec::new();
    for i in 0..n
        invariant
            n == found@.len(),
            entries == entry_models(found@),
            store.wf(),
            pages == store.pages(),
            good == leads_to(pages, entries, docs),
            1 <= index@.fields.len() <= MAX_COMPOUND_FIELDS,
            good ==> forall|e: Entry| #[trigger]
                entry_models(pairs@).contains(e) <==> key_of_first(
                    entries,
                    docs,
                    index@,
                    i as int,
                    e,
                ),
    {
        let loc: RecordLocation = found[i].1;
        assert(entries[i as int].1 == loc);
        let (id, doc) = match get_record(store, loc) {
            Ok(read) => read,
            Err(e) => return Err(Error::Io(e)),
        };
        let keys = index_keys(&doc, index, id);
        let ghost models = key_models(keys@);
        let ghost had = entry_models(pairs@);
        let m: usize = keys.len();
        for k in 0..m
            invariant
                m == keys@.len(),
                models == key_models(keys@),
                forall|e: Entry| #[trigger]
                    entry_models(pairs@).contains(e) <==> had.contains(e) || (e.1 == loc
                        && models.take(k as int).contains(e.0)),
        {
            let ghost before = entry_models(pairs@);
            let ghost e1 = (models[k as int], loc);
            pairs.push((slice_to_vec(keys[k].as_slice()), loc));
            proof {
                let after = entry_models(pairs@);
                assert(after =~= before.push(e1));
                let a = models.take(k as int);
                let b = models.take(k + 1);
                assert(b =~= a.push(models[k as int]));
                assert forall|e: Entry| #[trigger] after.contains(e) <==> had.contains(e) || (e.1
                    == loc && b.contains(e.0)) by {
                    lemma_push_contains(before, e1, e);
                    lemma_push_contains(a, models[k as int], e.0);
                    assert(before.contains(e) <==> had.contains(e) || (e.1 == loc && a.contains(
                        e.0,
                    )));
                }
            }
        }
        proof {
            assert(models.take(m as int) =~= models);
            if good {
                assert forall|e: Entry| #[trigger] entry_models(pairs@).contains(e)
                    <==> key_of_first(entries, docs, index@, i + 1, e) by {
                    assert(had.contains(e) <==> key_of_first(entries, docs, index@, i as int, e));
                    assert(e.1 == loc && models.contains(e.0) <==> key_from(
                        entries,
                        docs,
                        index@,
                        i as int,
                        e,
                    ));
                    if key_of_first(entries, docs, index@, i as int, e) {
                        let j = choose|j: int|
                            0 <= j < i && #[trigger] key_from(entries, docs, index@, j, e);
                        assert(0 <= j < i + 1 && key_from(entries, docs, index@, j, e));
                    }
                    if key_of_first(entries, docs, index@, i + 1, e) {
                        let j = choose|j: int|
                            0 <= j < i + 1 && #[trigger] key_from(entries, docs, index@, j, e);
                        assert(j == i || 0 <= j < i);
                    }
                }
            }
        }
    }
    Ok(pairs)
}

proof fn lemma_push_contains<A>(s: Seq<A>, x: A, y: A)
    ensures
        s.push(x).contains(y) <==> s.contains(y) || y == x,
{
    let t = s.push(x);
    if t.contains(y) && y != x {
        let i = choose|i: int| 0 <= i < t.len() && t[i] == y;
        assert(s[i] == y);
    }
    if s.contains(y) {
        let i = choose|i: int| 0 <= i < s.len() && s[i] == y;
        assert(t[i] == y);
    }
    assert(t[s.len() as int] == x);
}

/// Each key is of one document, and so in one place.
proof fn lemma_one_each(
    pages: Map<PageId, Seq<u8>>,
    pairs: Seq<Entry>,
    entries: Seq<Entry>,
    docs: Docs,
    index: IndexModel,
)
    requires
        leads_to(pages, entries, docs),
        1 <= index.fields.len() <= MAX_COMPOUND_FIELDS,
        forall|e: Entry| #[trigger]
            pairs.contains(e) <==> key_of_first(entries, docs, index, entries.len() as int, e),
    ensures
        one_each(pairs, pairs),
        forall|e: Entry| #[trigger] pairs.contains(e) ==> e.0.len() <= MAX_KEY_LEN,
        forall|e: Entry| #[trigger]
            pairs.contains(e) <==> expected(docs, index, e.0) == Some(e.1),
{
    assert forall|e: Entry| #[trigger] pairs.contains(e) implies e.0.len() <= MAX_KEY_LEN
        && expected(docs, index, e.0) == Some(e.1) by {
        let j = choose|j: int|
            0 <= j < entries.len() && #[trigger] key_from(entries, docs, index, j, e);
        assert(entries[j].0.len() == 16);
        lemma_key_of_doc(docs[entries[j].0].1, index, entries[j].0, e.0);
    }
    assert forall|e: Entry| expected(docs, index, e.0) == Some(
        e.1,
    ) implies #[trigger] pairs.contains(e) by {
        let id = key_id(e.0);
        assert(entries.contains((id, docs[id].0)));
        let j = choose|j: int| 0 <= j < entries.len() && entries[j] == (id, docs[id].0);
        assert(key_from(entries, docs, index, j, e));
    }
    assert forall|i: int, j: int|
        0 <= i < pairs.len() && 0 <= j < pairs.len() && (#[trigger] pairs[i]).0 == (
        #[trigger] pairs[j]).0 implies pairs[i] == pairs[j] by {
        assert(pairs.contains(pairs[i]) && pairs.contains(pairs[j]));
    }
}

/// Puts entries into an empty index, in key order.
fn insert_in_order<S: PageStore>(
    store: &mut S,
    root: PageId,
    entries: &Vec<(Vec<u8>, RecordLocation)>,
) -> (r: IoResult<()>)
    requires
        old(store).wf(),
    ensures
        final(store).wf(),
        final(store).reliable() == old(store).reliable(),
        old(store).packed() && r is Ok ==> final(store).packed(),
        has_tree(old(store).pages(), root) && entries_at(old(store).pages(), root).len() == 0
            && sorted(entry_models(entries@)) && (forall|i: int|
            0 <= i < entries@.len() ==> (#[trigger] entry_models(entries@)[i]).0.len()
                <= MAX_KEY_LEN) ==> match r {
            Ok(()) => {
                &&& has_tree(final(store).pages(), root)
                &&& tree_grown(old(store).pages(), final(store).pages(), root)
                &&& entries_at(final(store).pages(), root) == entry_models(entries@)
                &&& tight(old(store).pages(), root) ==> tight(final(store).pages(), root)
            },
            Err(_) => !old(store).reliable() || final(store).full(),
        },
{
    let ghost before = store.pages();
    let ghost all = entry_models(entries@);
    let ghost good = has_tree(before, root) && entries_at(before, root).len() == 0 && sorted(all)
        && (forall|i: int| 0 <= i < entries@.len() ==> (#[trigger] all[i]).0.len() <= MAX_KEY_LEN);
    let n: usize = entries.len();
    let mut tree = BTreeIndex::new(root);
    proof {
        if good {
            lemma_grown_never(before, root);
            assert(entries_at(before, root) =~= all.take(0));
        }
    }
    for i in 0..n
        invariant
            n == entries@.len(),
            all == entry_models(entries@),
            before == old(store).pages(),
            tree.root == root,
            good == (has_tree(before, root) && entries_at(before, root).len() == 0 && sorted(all)
                && (forall|i: int|
                0 <= i < entries@.len() ==> (#[trigger] all[i]).0.len() <= MAX_KEY_LEN)),
            store.wf(),
            store.reliable() == old(store).reliable(),
            old(store).packed() ==> store.packed(),
            good ==> sorted(all) && forall|i: int|
                0 <= i < all.len() ==> (#[trigger] all[i]).0.len() <= MAX_KEY_LEN,
            good ==> has_tree(store.pages(), root) && tree_grown(before, store.pages(), root)
                && entries_at(store.pages(), root) == all.take(i as int),
            good && tight(before, root) ==> tight(store.pages(), root),
    {
        let ghost pages = store.pages();
        let ghost e = all[i as int];
        let ghost there = entries_at(pages, root);
        assert(e == (entries@[i as int].0@, entries@[i as int].1));
        proof {
            if good {
                lemma_tree_facts(pages, root);
                assert forall|k: int| 0 <= k < there.len() implies bytes_lt(
                    (#[trigger] there[k]).0,
                    e.0,
                ) by {
                    assert(there[k] == all[k]);
                    assert(bytes_lt(all[k].0, all[i as int].0));
                }
            }
        }
        match tree.insert(store, entries[i].0.as_slice(), entries[i].1) {
            Ok(()) => {
                proof {
                    if good {
                        lemma_tree_facts(store.pages(), root);
                        lemma_grown_twice(before, pages, store.pages(), root);
                        lemma_key_position_is(there, e.0, there.len() as int);
                        assert(all.take(i + 1) =~= there.push(e));
                        assert(inserted(there, e.0, e.1) =~= there.push(e));
                        if tight(before, root) {
                            lemma_tight_more(pages, store.pages(), root, e);
                        }
                    }
                }
            },
            Err(e) => return Err(e),
        }
    }
    assert(all.take(n as int) =~= all);
    Ok(())
}

/// An index that holds the keys of all documents is true.
proof fn lemma_index_true(
    there: Seq<Entry>,
    docs: Docs,
    index: IndexModel,
)
    requires
        sorted(there),
        forall|e: Entry| #[trigger]
            there.contains(e) <==> expected(docs, index, e.0) == Some(e.1),
    ensures
        index_true(there, docs, index),
{
    reveal(index_true);
    assert forall|key: Seq<u8>| #[trigger] find(there, key) == expected(docs, index, key) by {
        match expected(docs, index, key) {
            Some(loc) => {
                assert(there.contains((key, loc)));
                lemma_contained(there, (key, loc));
            },
            None => {
                if find(there, key) is Some {
                    lemma_found(there, key);
                }
            },
        }
    }
}

/// The entries of a true index lead to the documents, and to all of them.
proof fn lemma_true_covers(
    pages: Map<PageId, Seq<u8>>,
    entries: Seq<Entry>,
    there: Seq<Entry>,
    docs: Docs,
    index: IndexModel,
    id: Seq<u8>,
)
    requires
        leads_to(pages, entries, docs),
        ids_whole(docs),
        sorted(there),
        index_true(there, docs, index),
        1 <= index.fields.len() <= MAX_COMPOUND_FIELDS,
    ensures
        all_readable(pages, there, docs),
        covers(there, docs, index, id),
{
    reveal(index_true);
    assert forall|e: Entry| #[trigger] there.contains(e) implies docs.dom().contains(key_id(e.0))
        && record_at(pages, e.1) == Some((key_id(e.0), docs[key_id(e.0)].1)) by {
        lemma_contained(there, e);
        assert(find(there, e.0) == expected(docs, index, e.0));
        let other = key_id(e.0);
        assert(entries.contains((other, docs[other].0)));
        let j = choose|j: int| 0 <= j < entries.len() && entries[j] == (other, docs[other].0);
        assert(entries[j].1 == e.1);
    }
    assert forall|other: Seq<u8>, key: Seq<u8>|
        other != id && docs.dom().contains(other) && other.len() == 16 && #[trigger] doc_has_key(
            docs[other].1,
            index,
            other,
            key,
        ) implies there.contains((key, docs[other].0)) by {
        lemma_key_of_doc(docs[other].1, index, other, key);
        assert(find(there, key) == expected(docs, index, key));
        lemma_found(there, key);
    }
}

/// Refuses documents that collide under a unique index which holds all their
/// keys.
fn refuse_duplicates<S: PageStore>(
    store: &S,
    collection: &str,
    index: &IndexMeta,
    found: &Vec<(Vec<u8>, RecordLocation)>,
    Ghost(docs): Ghost<Docs>,
) -> (r: Result<(), Error>)
    requires
        store.wf(),
        1 <= index@.fields.len() <= MAX_COMPOUND_FIELDS,
        index.unique,
    ensures
        leads_to(store.pages(), entry_models(found@), docs) && ids_whole(docs) && has_tree(
            store.pages(),
            index.root,
        ) && index_true(entries_at(store.pages(), index.root), docs, index@) ==> match r {
            Ok(()) => apart_under(docs, index@),
            Err(e) => fill_error(e, collection@, docs, index@, !store.reliable()),
        },
{
    let ghost entries = entry_models(found@);
    let ghost pages = store.pages();
    let ghost there = entries_at(pages, index.root);
    let ghost good = leads_to(pages, entries, docs) && ids_whole(docs) && has_tree(
        pages,
        index.root,
    ) && index_true(there, docs, index@);
    let n: usize = found.len();
    for i in 0..n
        invariant
            n == found@.len(),
            entries == entry_models(found@),
            store.wf(),
            pages == store.pages(),
            there == entries_at(pages, index.root),
            index.unique,
            1 <= index@.fields.len() <= MAX_COMPOUND_FIELDS,
            good == (leads_to(pages, entries, docs) && ids_whole(docs) && has_tree(
                pages,
                index.root,
            ) && index_true(there, docs, index@)),
            good ==> forall|j: int|
                0 <= j < i ==> !conflict(docs, index@, (#[trigger] entries[j]).0),
    {
        let loc: RecordLocation = found[i].1;
        assert(entries[i as int].1 == loc);
        let (id, doc) = match get_record(store, loc) {
            Ok(read) => read,
            Err(e) => return Err(Error::Io(e)),
        };
        proof {
            if good {
                lemma_tree_facts(pages, index.root);
                lemma_true_covers(pages, entries, there, docs, index@, id@);
            }
        }
        match check_tuples(store, collection, index, id, &doc, Ghost(docs)) {
            Ok(()) => {},
            Err(e) => {
                proof {
                    if good {
                        lemma_collision_among(e, collection@, docs, docs, index@, id@);
                    }
                }
                return Err(e);
            },
        }
    }
    proof {
        if good {
            assert forall|a: Seq<u8>, b: Seq<u8>|
                a != b && docs.dom().contains(a) && docs.dom().contains(b) implies !(
            #[trigger] documents_collide(docs[a].1, docs[b].1, index@)) by {
                if documents_collide(docs[a].1, docs[b].1, index@) {
                    let tuple = choose|tuple: Seq<crate::document::DocModel>| #[trigger]
                        has_tuple(docs[b].1, index@, tuple) && collides(
                            docs[a].1,
                            index@,
                            tuple,
                        );
                    assert(conflict(docs, index@, b));
                    assert(entries.contains((b, docs[b].0)));
                    let j = choose|j: int|
                        0 <= j < entries.len() && entries[j] == (b, docs[b].0);
                    assert(!conflict(docs, index@, entries[j].0));
                }
            }
        }
    }
    Ok(())
}

/// The pages are full again once a new index was filled in order.
proof fn lemma_packed_filled(
    before: Map<PageId, Seq<u8>>,
    after: Map<PageId, Seq<u8>>,
    list: Seq<CollectionModel>,
    own: Owners,
    at: int,
    entries: Seq<Entry>,
    were: Docs,
    docs: Docs,
)
    requires
        list[at].indexes.len() > 0,
        underway(
            before,
            list,
            own,
            at,
            entries,
            list[at].meta.current_data_page,
            were,
            docs,
            list[at].indexes.len() - 1,
        ),
        has_tree(after, list[at].indexes.last().root),
        tree_grown(before, after, list[at].indexes.last().root),
        tight(after, list[at].indexes.last().root),
        all_packed(before, list),
    ensures
        all_packed(after, list),
{
    reveal(underway);
    reveal(all_packed);
    reveal(roots_distinct);
    let c = list[at];
    let k = c.indexes.len() - 1;
    let root = c.indexes.last().root;
    let tag = Owner::Tree(root);
    let now = reowned(before, own, tag);
    assert(roots_of(c)[k + 1] == root);
    assert(roots_of(c)[0] == c.meta.index_root);
    assert(index_sound(before, own, were, c.indexes[k]));
    lemma_tree_step(before, after, own, root);
    assert forall|i: int| 0 <= i < list.len() implies collection_packed(
        after,
        #[trigger] list[i],
    ) by {
        if i == at {
            assert(collection_packed(before, c));
            lemma_tree_facts(before, c.meta.index_root);
            assert forall|a: int| 0 <= a < roots_of(c).len() implies tight(
                after,
                #[trigger] roots_of(c)[a],
            ) by {
                if a != k + 1 {
                    assert(roots_of(list[at])[a] != roots_of(list[at])[k + 1]);
                    if a > 0 {
                        assert(index_sound(before, own, docs, c.indexes[a - 1]));
                        assert(roots_of(c)[a] == c.indexes[a - 1].root);
                    }
                    assert(tree_owned(before, own, roots_of(c)[a]));
                    lemma_tight_stands(before, after, own, now, tag, roots_of(c)[a]);
                }
            }
            assert(roots_of(list[at])[0] != roots_of(list[at])[k + 1]);
            super::state::lemma_tree_stands(before, after, own, now, tag, c.meta.index_root);
            lemma_data_stands(
                before,
                after,
                own,
                now,
                tag,
                c.meta.index_root,
                entries,
                c.meta.current_data_page,
            );
        } else {
            lemma_tags_apart(list, at, k + 1, i);
            assert(collection_sound(before, own, list[i]));
            lemma_parts_owned(before, own, list[i]);
            lemma_packed_stands(before, after, own, now, tag, list[i]);
        }
    }
}

/// Fills a new index from every document in the collection, in key order. A
/// unique one refuses documents with equal values.
pub fn fill_in_order<S: PageStore>(
    store: &mut S,
    collection: &str,
    index: &IndexMeta,
    primary: PageId,
    Ghost(list): Ghost<Seq<CollectionModel>>,
    Ghost(own): Ghost<Owners>,
    Ghost(at): Ghost<int>,
    Ghost(entries): Ghost<Seq<Entry>>,
    Ghost(docs): Ghost<Docs>,
) -> (r: Result<(), Error>)
    requires
        old(store).wf(),
        1 <= index@.fields.len() <= MAX_COMPOUND_FIELDS,
    ensures
        final(store).wf(),
        final(store).reliable() == old(store).reliable(),
        old(store).packed() && r is Ok ==> final(store).packed(),
        list[at].indexes.len() > 0 && underway(
            old(store).pages(),
            list,
            own,
            at,
            entries,
            list[at].meta.current_data_page,
            Map::empty(),
            docs,
            list[at].indexes.len() - 1,
        ) && index@ == list[at].indexes.last() && primary == list[at].meta.index_root ==> match r {
            Ok(()) => {
                &&& sound(final(store).pages(), list)
                &&& collection_docs(final(store).pages(), list[at]) == docs
                &&& others_same(old(store).pages(), final(store).pages(), list, at)
                &&& index.unique ==> apart_under(docs, index@)
                &&& all_used(old(store).pages(), list) ==> all_used(final(store).pages(), list)
                &&& all_packed(old(store).pages(), list) ==> all_packed(
                    final(store).pages(),
                    list,
                )
            },
            Err(e) => fill_error(
                e,
                collection@,
                docs,
                index@,
                !old(store).reliable() || final(store).full(),
            ),
        },
{
    let ghost before = store.pages();
    let ghost current = list[at].meta.current_data_page;
    let ghost nothing: Docs = Map::empty();
    let ghost k = list[at].indexes.len() - 1;
    let ghost good = list[at].indexes.len() > 0 && underway(
        before,
        list,
        own,
        at,
        entries,
        current,
        nothing,
        docs,
        k,
    ) && index@ == list[at].indexes.last() && primary == list[at].meta.index_root;
    proof {
        if good {
            lemma_leads_to(before, list, own, at, entries, current, nothing, docs, k);
            lemma_underway_start(before, list, own, at, entries, current, nothing, docs, k);
            lemma_empty_index(before, index@);
            reveal(underway);
            lemma_tree_facts(before, primary);
        }
    }
    let found = match BTreeIndex::new(primary).scan(store) {
        Ok(found) => found,
        Err(e) => return Err(Error::Io(e)),
    };
    let pairs = match collect_keys(store, index, &found, Ghost(docs)) {
        Ok(pairs) => pairs,
        Err(e) => return Err(e),
    };
    proof {
        if good {
            lemma_one_each(before, entry_models(pairs@), entries, docs, index@);
        }
    }
    let ordered = sort_entries(pairs);
    let ghost all = entry_models(ordered@);
    proof {
        if good {
            assert forall|i: int| 0 <= i < all.len() implies (#[trigger] all[i]).0.len()
                <= MAX_KEY_LEN by {
                assert(all.contains(all[i]));
            }
            assert forall|e: Entry| #[trigger] all.contains(e) <==> expected(docs, index@, e.0)
                == Some(e.1) by {}
            lemma_index_true(all, docs, index@);
        }
    }
    match insert_in_order(store, index.root, &ordered) {
        Ok(()) => {},
        Err(e) => return Err(Error::Io(e)),
    }
    let ghost after = store.pages();
    let ghost owners = reowned(before, own, Owner::Tree(index.root));
    proof {
        if good {
            lemma_filled(before, after, list, own, at, entries, current, nothing, docs, docs);
            lemma_leads_to(after, list, owners, at, entries, current, docs, docs, k);
            if all_used(before, list) {
                lemma_fill_used(before, after, list, own, at, entries, current, nothing, docs);
            }
            if all_packed(before, list) {
                assert(tight(before, index.root)) by {
                    lemma_own_tight(before, list, at);
                }
                lemma_packed_filled(before, after, list, own, at, entries, nothing, docs);
            }
        }
    }
    if index.unique {
        match refuse_duplicates(store, collection, index, &found, Ghost(docs)) {
            Ok(()) => {},
            Err(e) => return Err(e),
        }
    }
    proof {
        if good {
            lemma_fill_done(after, list, owners, at, entries, current, docs);
        }
    }
    Ok(())
}

/// A new index has no entry.
proof fn lemma_empty_index(pages: Map<PageId, Seq<u8>>, index: IndexModel)
    requires
        has_tree(pages, index.root),
        index_true(entries_at(pages, index.root), Map::empty(), index),
    ensures
        entries_at(pages, index.root).len() == 0,
{
    reveal(index_true);
    let there = entries_at(pages, index.root);
    lemma_tree_facts(pages, index.root);
    if there.len() > 0 {
        assert(there.contains(there[0]));
        lemma_contained(there, there[0]);
        let none: Docs = Map::empty();
        assert(find(there, there[0].0) == expected(none, index, there[0].0));
    }
}

proof fn lemma_own_tight(pages: Map<PageId, Seq<u8>>, list: Seq<CollectionModel>, at: int)
    requires
        0 <= at < list.len(),
        list[at].indexes.len() > 0,
        all_packed(pages, list),
    ensures
        tight(pages, list[at].indexes.last().root),
{
    reveal(all_packed);
    let k = list[at].indexes.len() - 1;
    assert(collection_packed(pages, list[at]));
    assert(roots_of(list[at])[k + 1] == list[at].indexes.last().root);
}

} // verus!

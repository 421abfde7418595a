//! Creating and dropping secondary indexes.

use super::apply::{contents_of, get_or_create_meta, stored_in, written};
use super::fill::fill_in_order;
use super::maintain::insert_keys;
use super::packing::{all_packed, lemma_packed_index};
use super::records::{lemma_contained, lemma_found};
use super::rest::{lemma_arrived, lemma_index_made, with_current};
use super::state::{
    collection_docs, entries_at, expected, index_sound, index_true, lemma_tree_facts, record_owned,
    records_owned, reowned, roots_of, sound, sound_with, Docs, Owner, Owners,
};
use super::usage::{
    all_used, lemma_root_used, lemma_underway_owned, lemma_used_more, lemma_used_root,
    lemma_used_tree, used_by, used_in,
};
use super::write::{
    all_readable, check_tuples, collision_among, conflict, covers, ids_whole, lemma_index_updated,
    lemma_underway_start, lemma_underway_step, names_collision, others_same, underway,
};
use crate::catalog::chain::chain;
use crate::catalog::entry::{short, strings_equal, texts, IndexModel};
use crate::catalog::{
    exists_in, index_models, index_position, indexes_of, is_invalid_input, lemma_index_position,
    lemma_position, lemma_position_is, meta_of, position, root_made, with_index, Catalog,
    CollectionModel, IndexMeta, IndexOptions,
};
use crate::data::{get_record, record_at};
use crate::decode::corrupt;
use crate::document::DocModel;
use crate::error::{Error, ErrorKind, IoError};
use crate::index::btree::{tree_grown, BTreeIndex};
use crate::index::entries::{find, sorted};
use crate::index::key::{key_id, MAX_COMPOUND_FIELDS, MAX_KEY_LEN};
use crate::index::tree::{has_tree, Entry};
use crate::index::node::entry_models;
use crate::index::Index;
use crate::secondary::{
    collides, collisions_are_mutual, doc_has_key, documents_collide, has_tuple, index_keys,
    field_values_of, key_models, lemma_key_of_doc, tuples_equal,
};
use crate::storage::{PageId, PageStore, RecordLocation};
use crate::text::{join, quoted};
use vstd::prelude::*;

verus! {

/// The documents of the first `n` entries.
spec fn first_docs(docs: Docs, entries: Seq<Entry>, n: int) -> Docs {
    Map::new(
        |id: Seq<u8>| docs.dom().contains(id) && among(entries, n, id),
        |id: Seq<u8>| docs[id],
    )
}

/// Whether `id` is the key of one of the first `n` entries.
spec fn among(entries: Seq<Entry>, n: int, id: Seq<u8>) -> bool {
    exists|j: int| 0 <= j < n && (#[trigger] entries[j]).0 == id
}

/// Whether no two documents collide under an index.
pub open spec fn apart_under(docs: Docs, index: IndexModel) -> bool {
    forall|a: Seq<u8>, b: Seq<u8>|
        a != b && docs.dom().contains(a) && docs.dom().contains(b) ==> !(
        #[trigger] documents_collide(docs[a].1, docs[b].1, index))
}

/// What is known of the next document to go into a new index.
proof fn lemma_fill_ready(
    pages: Map<PageId, Seq<u8>>,
    list: Seq<CollectionModel>,
    own: Owners,
    at: int,
    entries: Seq<Entry>,
    current: PageId,
    docs: Docs,
    k: int,
    i: int,
)
    requires
        underway(
            pages,
            list,
            own,
            at,
            entries,
            current,
            first_docs(docs, entries, i),
            docs,
            k,
        ),
        0 <= k < list[at].indexes.len(),
        0 <= i < entries.len(),
    ensures
        ({
            let index = list[at].indexes[k];
            let id = entries[i].0;
            let there = entries_at(pages, index.root);
            let now = first_docs(docs, entries, i + 1);
            &&& has_tree(pages, index.root)
            &&& index_true(there, first_docs(docs, entries, i), index)
            &&& 1 <= index.fields.len() <= MAX_COMPOUND_FIELDS
            &&& id.len() == 16
            &&& docs.dom().contains(id)
            &&& docs[id].0 == entries[i].1
            &&& record_at(pages, entries[i].1) == Some((id, docs[id].1))
            &&& !first_docs(docs, entries, i).dom().contains(id)
            &&& now == first_docs(docs, entries, i).insert(id, docs[id])
            &&& all_readable(pages, there, now)
            &&& covers(there, now, index, id)
            &&& ids_whole(now)
        }),
{
    reveal(index_true);
    lemma_underway_start(
        pages,
        list,
        own,
        at,
        entries,
        current,
        first_docs(docs, entries, i),
        docs,
        k,
    );
    reveal(underway);
    reveal(records_owned);
    let index = list[at].indexes[k];
    let root = list[at].meta.index_root;
    let were = first_docs(docs, entries, i);
    let now = first_docs(docs, entries, i + 1);
    let id = entries[i].0;
    lemma_tree_facts(pages, root);
    lemma_tree_facts(pages, index.root);
    assert(sorted(entries));
    assert forall|j: int| 0 <= j < entries.len() implies docs.dom().contains(
        (#[trigger] entries[j]).0,
    ) && docs[entries[j].0].0 == entries[j].1 && record_at(pages, entries[j].1) == Some(
        (entries[j].0, docs[entries[j].0].1),
    ) && entries[j].0.len() == 16 by {
        assert(entries.contains(entries[j]));
        lemma_contained(entries, entries[j]);
        assert(record_owned(pages, own, root, entries[j]));
    }
    assert(!were.dom().contains(id)) by {
        if were.dom().contains(id) {
            let j = choose|j: int| 0 <= j < i && (#[trigger] entries[j]).0 == id;
            crate::order::lemma_lt_irreflexive(id);
            assert(crate::order::bytes_lt(entries[j].0, entries[i].0));
        }
    }
    assert(now =~= were.insert(id, docs[id])) by {
        assert forall|other: Seq<u8>| #[trigger] now.dom().contains(other) <==> were.insert(
            id,
            docs[id],
        ).dom().contains(other) by {
            if now.dom().contains(other) && other != id {
                let j = choose|j: int| 0 <= j < i + 1 && (#[trigger] entries[j]).0 == other;
                assert(j < i);
            }
            if were.dom().contains(other) {
                let j = choose|j: int| 0 <= j < i && (#[trigger] entries[j]).0 == other;
                assert(0 <= j < i + 1 && entries[j].0 == other);
            }
            if other == id {
                assert(0 <= i < i + 1 && entries[i].0 == id);
            }
        }
    }
    let there = entries_at(pages, index.root);
    assert forall|e: Entry| #[trigger] there.contains(e) implies now.dom().contains(key_id(e.0))
        && record_at(pages, e.1) == Some((key_id(e.0), now[key_id(e.0)].1)) by {
        lemma_contained(there, e);
        assert(find(there, e.0) == expected(were, index, e.0));
        let kid = key_id(e.0);
        let j = choose|j: int| 0 <= j < i && (#[trigger] entries[j]).0 == kid;
        assert(entries[j].1 == e.1);
    }
    assert forall|other: Seq<u8>, key: Seq<u8>|
        other != id && now.dom().contains(other) && other.len() == 16 && #[trigger] doc_has_key(
            now[other].1,
            index,
            other,
            key,
        ) implies there.contains((key, now[other].0)) by {
        lemma_key_of_doc(now[other].1, index, other, key);
        assert(were.dom().contains(other));
        assert(find(there, key) == expected(were, index, key));
        lemma_found(there, key);
    }
    assert forall|other: Seq<u8>| #[trigger] now.dom().contains(other) implies other.len()
        == 16 by {
        let j = choose|j: int| 0 <= j < i + 1 && (#[trigger] entries[j]).0 == other;
        assert(entries[j].0.len() == 16);
    }
}

/// One more document is in a new index.
pub proof fn lemma_filled(
    before: Map<PageId, Seq<u8>>,
    after: Map<PageId, Seq<u8>>,
    list: Seq<CollectionModel>,
    own: Owners,
    at: int,
    entries: Seq<Entry>,
    current: PageId,
    were: Docs,
    now: Docs,
    docs: Docs,
)
    requires
        list[at].indexes.len() > 0,
        underway(
            before,
            list,
            own,
            at,
            entries,
            current,
            were,
            docs,
            list[at].indexes.len() - 1,
        ),
        has_tree(after, list[at].indexes.last().root),
        tree_grown(before, after, list[at].indexes.last().root),
        index_true(
            entries_at(after, list[at].indexes.last().root),
            now,
            list[at].indexes.last(),
        ),
    ensures
        underway(
            after,
            list,
            reowned(before, own, Owner::Tree(list[at].indexes.last().root)),
            at,
            entries,
            current,
            now,
            docs,
            list[at].indexes.len() - 1,
        ),
        others_same(before, after, list, at),
{
    let k = list[at].indexes.len() - 1;
    lemma_underway_start(before, list, own, at, entries, current, were, docs, k);
    lemma_underway_step(before, after, list, own, at, entries, current, were, docs, k);
    reveal(underway);
    let owners = reowned(before, own, Owner::Tree(list[at].indexes[k].root));
    assert forall|j: int| 0 <= j < list[at].indexes.len() implies index_sound(
        after,
        owners,
        if j < k {
            docs
        } else {
            now
        },
        #[trigger] list[at].indexes[j],
    ) by {
        if j != k {
            assert(index_sound(
                after,
                owners,
                if j < k {
                    docs
                } else {
                    were
                },
                list[at].indexes[j],
            ));
        }
    }
}

/// All entries lead to all documents.
proof fn lemma_all_first(
    pages: Map<PageId, Seq<u8>>,
    list: Seq<CollectionModel>,
    own: Owners,
    at: int,
    entries: Seq<Entry>,
    current: PageId,
    were: Docs,
    docs: Docs,
    k: int,
)
    requires
        underway(pages, list, own, at, entries, current, were, docs, k),
    ensures
        first_docs(docs, entries, entries.len() as int) == docs,
{
    reveal(underway);
    let all = first_docs(docs, entries, entries.len() as int);
    assert forall|id: Seq<u8>| #[trigger] docs.dom().contains(id) implies among(
        entries,
        entries.len() as int,
        id,
    ) by {
        assert(find(entries, id) is Some);
        lemma_found(entries, id);
        let j = choose|j: int|
            0 <= j < entries.len() && entries[j] == (id, find(entries, id)->Some_0);
        assert(entries[j].0 == id);
    }
    assert(all =~= docs);
}

/// A new index that agrees with every document is done.
pub proof fn lemma_fill_done(
    pages: Map<PageId, Seq<u8>>,
    list: Seq<CollectionModel>,
    own: Owners,
    at: int,
    entries: Seq<Entry>,
    current: PageId,
    docs: Docs,
)
    requires
        list[at].indexes.len() > 0,
        underway(
            pages,
            list,
            own,
            at,
            entries,
            current,
            docs,
            docs,
            list[at].indexes.len() - 1,
        ),
        current == list[at].meta.current_data_page,
    ensures
        sound(pages, list),
        collection_docs(pages, list[at]) == docs,
{
    assert(underway(
        pages,
        list,
        own,
        at,
        entries,
        current,
        docs,
        docs,
        list[at].indexes.len() as int,
    )) by {
        reveal(underway);
        assert forall|j: int| 0 <= j < list[at].indexes.len() implies index_sound(
            pages,
            own,
            docs,
            #[trigger] list[at].indexes[j],
        ) by {}
    }
    lemma_arrived(pages, list, own, at, entries, current, docs, docs);
}

/// Filling an index leaves no page unused.
pub proof fn lemma_fill_used(
    before: Map<PageId, Seq<u8>>,
    after: Map<PageId, Seq<u8>>,
    list: Seq<CollectionModel>,
    own: Owners,
    at: int,
    entries: Seq<Entry>,
    current: PageId,
    were: Docs,
    docs: Docs,
)
    requires
        list[at].indexes.len() > 0,
        underway(
            before,
            list,
            own,
            at,
            entries,
            current,
            were,
            docs,
            list[at].indexes.len() - 1,
        ),
        has_tree(after, list[at].indexes.last().root),
        tree_grown(before, after, list[at].indexes.last().root),
        current == list[at].meta.current_data_page,
        all_used(before, list),
    ensures
        all_used(after, list),
{
    let k = list[at].indexes.len() - 1;
    lemma_underway_owned(before, list, own, at, entries, current, were, docs, k);
    assert(0 <= at < list.len()) by {
        reveal(underway);
    }
    assert(with_current(list, at, current) =~= list);
    assert(roots_of(list[at])[k + 1] == list[at].indexes.last().root);
    lemma_used_tree(before, after, list, own, at, k + 1);
}

/// What an error of filling an index means.
pub open spec fn fill_error(
    e: Error,
    name: Seq<char>,
    docs: Docs,
    index: IndexModel,
    broken: bool,
) -> bool {
    broken || (index.unique && collision_among(e, name, index, contents_of(docs)))
}

/// Puts one document into a new index.
#[verifier::rlimit(40)]
fn fill_one<S: PageStore>(
    store: &mut S,
    collection: &str,
    index: &IndexMeta,
    loc: RecordLocation,
    Ghost(list): Ghost<Seq<CollectionModel>>,
    Ghost(own): Ghost<Owners>,
    Ghost(at): Ghost<int>,
    Ghost(entries): Ghost<Seq<Entry>>,
    Ghost(current): Ghost<PageId>,
    Ghost(docs): Ghost<Docs>,
    Ghost(i): Ghost<int>,
) -> (r: Result<Ghost<Owners>, Error>)
    requires
        old(store).wf(),
        1 <= index@.fields.len() <= MAX_COMPOUND_FIELDS,
    ensures
        final(store).wf(),
        final(store).reliable() == old(store).reliable(),
        old(store).packed() && r is Ok ==> final(store).packed(),
        list[at].indexes.len() > 0 && underway(
            old(store).pages(),
            list,
            own,
            at,
            entries,
            current,
            first_docs(docs, entries, i),
            docs,
            list[at].indexes.len() - 1,
        ) && index@ == list[at].indexes.last() && 0 <= i < entries.len() && entries[i].1 == loc
            && (index.unique ==> apart_under(first_docs(docs, entries, i), index@)) ==> match r {
            Ok(now) => {
                &&& underway(
                    final(store).pages(),
                    list,
                    now@,
                    at,
                    entries,
                    current,
                    first_docs(docs, entries, i + 1),
                    docs,
                    list[at].indexes.len() - 1,
                )
                &&& others_same(old(store).pages(), final(store).pages(), list, at)
                &&& index.unique ==> apart_under(first_docs(docs, entries, i + 1), index@)
                &&& current == list[at].meta.current_data_page && all_used(
                    old(store).pages(),
                    list,
                ) ==> all_used(final(store).pages(), list)
            },
            Err(e) => fill_error(
                e,
                collection@,
                docs,
                index@,
                !old(store).reliable() || final(store).full(),
            ),
        },
{
    let ghost before = store.pages();
    let ghost were = first_docs(docs, entries, i);
    let ghost now = first_docs(docs, entries, i + 1);
    let ghost k = list[at].indexes.len() - 1;
    let ghost good = list[at].indexes.len() > 0 && underway(
        before,
        list,
        own,
        at,
        entries,
        current,
        were,
        docs,
        k,
    ) && index@ == list[at].indexes.last() && 0 <= i < entries.len() && entries[i].1 == loc && (
    index.unique ==> apart_under(were, index@));
    proof {
        if good {
            lemma_fill_ready(before, list, own, at, entries, current, docs, k, i);
        }
    }
    let (id, doc) = match get_record(store, loc) {
        Ok(found) => found,
        Err(e) => return Err(Error::Io(e)),
    };
    if index.unique {
        match check_tuples(store, collection, index, id, &doc, Ghost(now)) {
            Ok(()) => {
                proof {
                    if good {
                        lemma_apart_with(were, now, index@, id@);
                    }
                }
            },
            Err(e) => {
                proof {
                    if good {
                        lemma_collision_among(e, collection@, now, docs, index@, id@);
                    }
                }
                return Err(e);
            },
        }
    }
    let keys = index_keys(&doc, index, id);
    let none: Vec<Vec<u8>> = Vec::new();
    let ghost models = key_models(keys@);
    proof {
        assert forall|j: int| 0 <= j < keys@.len() implies (#[trigger] keys@[j])@.len()
            <= MAX_KEY_LEN by {
            assert(models[j] == keys@[j]@);
            assert(models.contains(models[j]));
            lemma_key_of_doc(doc@, index@, id@, models[j]);
        }
    }
    match insert_keys(store, index.root, &keys, &none, true, loc) {
        Ok(()) => {},
        Err(e) => return Err(Error::Io(e)),
    }
    let ghost after = store.pages();
    proof {
        if good {
            let empty: Seq<Seq<u8>> = seq![];
            lemma_index_updated(
                entries_at(before, index.root),
                entries_at(before, index.root),
                entries_at(after, index.root),
                were,
                index@,
                id@,
                None,
                Some((doc@, loc)),
                empty,
                models,
                true,
            );
            lemma_filled(before, after, list, own, at, entries, current, were, now, docs);
            if current == list[at].meta.current_data_page && all_used(before, list) {
                lemma_fill_used(before, after, list, own, at, entries, current, were, docs);
            }
        }
    }
    Ok(Ghost(reowned(before, own, Owner::Tree(index.root))))
}

/// One more document that collides with none.
proof fn lemma_apart_with(were: Docs, now: Docs, index: IndexModel, id: Seq<u8>)
    requires
        apart_under(were, index),
        now.dom().contains(id),
        now == were.insert(id, now[id]),
        !conflict(now, index, id),
    ensures
        apart_under(now, index),
{
    assert forall|a: Seq<u8>, b: Seq<u8>|
        a != b && now.dom().contains(a) && now.dom().contains(b) implies !(
    #[trigger] documents_collide(now[a].1, now[b].1, index)) by {
        if documents_collide(now[a].1, now[b].1, index) {
            collisions_are_mutual(now[a].1, now[b].1, index);
            if a != id && b != id {
                assert(documents_collide(were[a].1, were[b].1, index));
            } else {
                let other = if a == id {
                    b
                } else {
                    a
                };
                assert(documents_collide(now[other].1, now[id].1, index));
                let tuple = choose|tuple: Seq<DocModel>| #[trigger]
                    has_tuple(now[id].1, index, tuple) && collides(now[other].1, index, tuple);
                assert(conflict(now, index, id));
            }
        }
    }
}

/// A collision among some documents is one among all.
pub proof fn lemma_collision_among(
    e: Error,
    name: Seq<char>,
    some: Docs,
    docs: Docs,
    index: IndexModel,
    id: Seq<u8>,
)
    requires
        forall|other: Seq<u8>| #[trigger]
            some.dom().contains(other) ==> docs.dom().contains(other) && docs[other] == some[other],
    ensures
        some.dom().contains(id) && names_collision(
            e,
            name,
            index,
            contents_of(some),
            id,
            some[id].1,
        ) ==> collision_among(e, name, index, contents_of(docs)),
{
    if some.dom().contains(id) && names_collision(
        e,
        name,
        index,
        contents_of(some),
        id,
        some[id].1,
    ) {
        let existing = e->DuplicateValue_existing@;
        assert(some.dom().contains(existing));
        assert(contents_of(docs)[existing] == contents_of(some)[existing]);
        assert(contents_of(docs)[id] == some[id].1);
    }
}

/// Fills a new index from every document in the collection. A unique index
/// checks each document as it goes in.
fn fill_index<S: PageStore>(
    store: &mut S,
    collection: &str,
    index: &IndexMeta,
    primary: PageId,
    Ghost(list): Ghost<Seq<CollectionModel>>,
    Ghost(own): Ghost<Owners>,
    Ghost(at): Ghost<int>,
    Ghost(entries): Ghost<Seq<Entry>>,
    Ghost(docs): Ghost<Docs>,
) -> (r: Result<(), Error>)
    requires
        old(store).wf(),
        1 <= index@.fields.len() <= MAX_COMPOUND_FIELDS,
    ensures
        final(store).wf(),
        final(store).reliable() == old(store).reliable(),
        old(store).packed() && r is Ok ==> final(store).packed(),
        list[at].indexes.len() > 0 && underway(
            old(store).pages(),
            list,
            own,
            at,
            entries,
            list[at].meta.current_data_page,
            Map::empty(),
            docs,
            list[at].indexes.len() - 1,
        ) && index@ == list[at].indexes.last() && primary == list[at].meta.index_root ==> match r {
            Ok(()) => {
                &&& sound(final(store).pages(), list)
                &&& collection_docs(final(store).pages(), list[at]) == docs
                &&& others_same(old(store).pages(), final(store).pages(), list, at)
                &&& index.unique ==> apart_under(docs, index@)
                &&& all_used(old(store).pages(), list) ==> all_used(final(store).pages(), list)
            },
            Err(e) => fill_error(
                e,
                collection@,
                docs,
                index@,
                !old(store).reliable() || final(store).full(),
            ),
        },
{
    let ghost before = store.pages();
    let ghost current = list[at].meta.current_data_page;
    let ghost good = list[at].indexes.len() > 0 && underway(
        before,
        list,
        own,
        at,
        entries,
        current,
        Map::empty(),
        docs,
        list[at].indexes.len() - 1,
    ) && index@ == list[at].indexes.last() && primary == list[at].meta.index_root;
    proof {
        if good {
            reveal(underway);
            lemma_tree_facts(before, primary);
        }
    }
    let found = match BTreeIndex::new(primary).scan(store) {
        Ok(found) => found,
        Err(e) => return Err(Error::Io(e)),
    };
    let ghost mut owners = own;
    let n: usize = found.len();
    proof {
        let nothing: Docs = Map::empty();
        assert(first_docs(docs, entries, 0) =~= nothing);
    }
    for i in 0..n
        invariant
            n == found@.len(),
            store.wf(),
            store.reliable() == old(store).reliable(),
            old(store).packed() ==> store.packed(),
            before == old(store).pages(),
            current == list[at].meta.current_data_page,
            1 <= index@.fields.len() <= MAX_COMPOUND_FIELDS,
            good == (list[at].indexes.len() > 0 && underway(
                before,
                list,
                own,
                at,
                entries,
                current,
                Map::empty(),
                docs,
                list[at].indexes.len() - 1,
            ) && index@ == list[at].indexes.last() && primary == list[at].meta.index_root),
            good ==> entry_models(found@) == entries,
            good ==> list[at].indexes.len() > 0 && index@ == list[at].indexes.last(),
            good ==> underway(
                store.pages(),
                list,
                owners,
                at,
                entries,
                current,
                first_docs(docs, entries, i as int),
                docs,
                list[at].indexes.len() - 1,
            ),
            good ==> others_same(before, store.pages(), list, at),
            good && all_used(before, list) ==> all_used(store.pages(), list),
            good && index.unique ==> apart_under(first_docs(docs, entries, i as int), index@),
    {
        let ghost pages = store.pages();
        let loc: RecordLocation = found[i].1;
        proof {
            if good {
                assert(entry_models(found@)[i as int].1 == loc);
            }
        }
        match fill_one(
            store,
            collection,
            index,
            loc,
            Ghost(list),
            Ghost(owners),
            Ghost(at),
            Ghost(entries),
            Ghost(current),
            Ghost(docs),
            Ghost(i as int),
        ) {
            Ok(now) => {
                proof {
                    owners = now@;
                    if good {
                        assert forall|j: int| 0 <= j < list.len() && j != at implies collection_docs(
                            store.pages(),
                            #[trigger] list[j],
                        ) == collection_docs(before, list[j]) by {
                            assert(collection_docs(pages, list[j]) == collection_docs(
                                before,
                                list[j],
                            ));
                        }
                    }
                }
            },
            Err(e) => return Err(e),
        }
    }
    proof {
        if good {
            assert(entries.len() == n);
            lemma_all_first(
                store.pages(),
                list,
                owners,
                at,
                entries,
                current,
                first_docs(docs, entries, n as int),
                docs,
                list[at].indexes.len() - 1,
            );
            lemma_fill_done(store.pages(), list, owners, at, entries, current, docs);
        }
    }
    Ok(())
}

/// "a unique, sparse", "a plain", ...: an index's options in an error.
fn describe(options: IndexOptions) -> (r: &'static str)
    ensures
        r@ == (match (options.unique, options.sparse) {
            (false, false) => "a plain"@,
            (true, false) => "a unique"@,
            (false, true) => "a sparse"@,
            (true, true) => "a unique, sparse"@,
        }),
{
    match (options.unique, options.sparse) {
        (false, false) => "a plain",
        (true, false) => "a unique",
        (false, true) => "a sparse",
        (true, true) => "a unique, sparse",
    }
}

/// A collection keeps its place in the list when it changes.
proof fn lemma_place_stays(
    list: Seq<CollectionModel>,
    at: int,
    c: CollectionModel,
    name: Seq<char>,
)
    requires
        0 <= at < list.len(),
        c.name == list[at].name,
    ensures
        position(list.update(at, c), name) == position(list, name),
        exists_in(list.update(at, c), name) == exists_in(list, name),
{
    let now = list.update(at, c);
    lemma_position(list, name);
    lemma_position(now, name);
    assert forall|i: int| 0 <= i < list.len() implies (#[trigger] now[i]).name == list[i].name by {}
    if exists_in(list, name) {
        let i = position(list, name) as int;
        assert(now[i].name == name);
        lemma_position_is(now, name, i);
    } else if exists_in(now, name) {
        let i = position(now, name) as int;
        assert(list[i].name == name);
        assert forall|k: int| 0 <= k < i implies (#[trigger] list[k]).name != name by {
            assert(now[k].name != name);
        }
        lemma_position_is(list, name, i);
    }
}

/// What the collections hold is the same, and so are all indexes but those of
/// one collection, and everything is sound.
pub open spec fn indexes_changed(
    before: Map<PageId, Seq<u8>>,
    list: Seq<CollectionModel>,
    after: Map<PageId, Seq<u8>>,
    now: Seq<CollectionModel>,
    name: Seq<char>,
    indexes: Seq<IndexModel>,
) -> bool {
    &&& sound(after, now)
    &&& exists_in(now, name)
    &&& indexes_of(now, name) == indexes
    &&& forall|other: Seq<char>| #[trigger]
        stored_in(after, now, other) == stored_in(before, list, other)
    &&& forall|other: Seq<char>|
        other != name ==> #[trigger] meta_of(now, other) == meta_of(list, other)
    &&& forall|other: Seq<char>|
        other != name ==> #[trigger] indexes_of(now, other) == indexes_of(list, other)
}

/// A change to one collection's indexes, its documents the same.
pub proof fn lemma_indexes_changed(
    before: Map<PageId, Seq<u8>>,
    after: Map<PageId, Seq<u8>>,
    list: Seq<CollectionModel>,
    at: int,
    c: CollectionModel,
)
    requires
        0 <= at < list.len(),
        at == position(list, c.name),
        c.name == list[at].name,
        c.meta == list[at].meta,
        sound(after, list.update(at, c)),
        collection_docs(after, c) == collection_docs(before, list[at]),
        others_same(before, after, list, at),
    ensures
        indexes_changed(before, list, after, list.update(at, c), c.name, c.indexes),
{
    let now = list.update(at, c);
    lemma_place_stays(list, at, c, c.name);
    assert forall|other: Seq<char>| #[trigger] stored_in(after, now, other) == stored_in(
        before,
        list,
        other,
    ) by {
        lemma_place_stays(list, at, c, other);
        lemma_position(list, other);
        if exists_in(list, other) {
            let i = position(list, other) as int;
            if i != at {
                assert(now[i] == list[i]);
                assert(collection_docs(after, list[i]) == collection_docs(before, list[i]));
            }
        }
    }
    assert forall|other: Seq<char>| other != c.name implies #[trigger] meta_of(now, other)
        == meta_of(list, other) by {
        lemma_place_stays(list, at, c, other);
        lemma_position(list, other);
    }
    assert forall|other: Seq<char>| other != c.name implies #[trigger] indexes_of(now, other)
        == indexes_of(list, other) by {
        lemma_place_stays(list, at, c, other);
        lemma_position(list, other);
    }
}

/// What making an index leaves.
pub open spec fn index_built(
    before: Map<PageId, Seq<u8>>,
    list: Seq<CollectionModel>,
    after: Map<PageId, Seq<u8>>,
    now: Seq<CollectionModel>,
    name: Seq<char>,
    index: IndexModel,
) -> bool {
    &&& indexes_changed(before, list, after, now, name, indexes_of(list, name).push(index))
    &&& index.unique ==> held_apart(stored_in(before, list, name), index)
}

/// Whether no two documents collide under an index.
pub open spec fn held_apart(held: Map<Seq<u8>, DocModel>, index: IndexModel) -> bool {
    forall|a: Seq<u8>, b: Seq<u8>|
        a != b && held.dom().contains(a) && held.dom().contains(b) ==> !(
        #[trigger] documents_collide(held[a], held[b], index))
}

/// Why an index can't be made: a name too long, documents that collide, or a
/// medium that failed.
pub open spec fn build_error(
    e: Error,
    list: Seq<CollectionModel>,
    name: Seq<char>,
    held: Map<Seq<u8>, DocModel>,
    fields: Seq<Seq<char>>,
    options: IndexOptions,
    broken: bool,
) -> bool {
    ||| broken
    ||| is_invalid_input(e) && ((!exists_in(list, name) && !short(name)) || exists|i: int|
        0 <= i < fields.len() && !short(#[trigger] fields[i]))
    ||| options.unique && collision_among(
        e,
        name,
        IndexModel { fields, root: 0, unique: options.unique, sparse: options.sparse },
        held,
    )
}

/// Which tree an index is in doesn't matter to what collides.
pub proof fn lemma_same_collision(x: DocModel, y: DocModel, a: IndexModel, b: IndexModel)
    requires
        a.fields == b.fields,
        documents_collide(x, y, a),
    ensures
        documents_collide(x, y, b),
{
    let tuple = choose|tuple: Seq<DocModel>| #[trigger]
        has_tuple(y, a, tuple) && collides(x, a, tuple);
    let other = choose|other: Seq<DocModel>|
        has_tuple(x, a, other) && #[trigger] tuples_equal(other, tuple);
    lemma_same_tuples(x, a, b, other);
    lemma_same_tuples(y, a, b, tuple);
    assert(has_tuple(x, b, other));
    assert(collides(x, b, tuple));
    assert(has_tuple(y, b, tuple));
}

proof fn lemma_same_tuples(m: DocModel, a: IndexModel, b: IndexModel, tuple: Seq<DocModel>)
    requires
        a.fields == b.fields,
    ensures
        has_tuple(m, a, tuple) == has_tuple(m, b, tuple),
{
    assert(field_values_of(m, a) =~= field_values_of(m, b));
}

/// Makes the secondary index on `fields` and fills it from every document in
/// the collection: `false` if it exists as asked. An existing index with
/// other options is an error, not changed: the caller drops it first. A
/// unique index checks each document as it goes in, so the first duplicate
/// fails. Makes the collection if needed. After an error the store may be
/// half changed: the caller rolls it back.
pub fn build_index<S: PageStore>(
    catalog: &mut Catalog,
    store: &mut S,
    collection: &str,
    fields: &[String],
    options: IndexOptions,
) -> (r: Result<bool, Error>)
    requires
        old(store).wf(),
        1 <= fields@.len() <= MAX_COMPOUND_FIELDS,
    ensures
        final(store).wf(),
        final(store).reliable() == old(store).reliable(),
        old(store).packed() && r is Ok ==> final(store).packed(),
        ({
            let indexes = indexes_of(old(catalog)@, collection@);
            let k = index_position(indexes, texts(fields@)) as int;
            if k < indexes.len() {
                &&& final(catalog)@ == old(catalog)@
                &&& final(store).pages() == old(store).pages()
                &&& match r {
                    Ok(made) => !made && indexes[k].unique == options.unique && indexes[k].sparse
                        == options.sparse,
                    Err(e) => is_invalid_input(e) && (indexes[k].unique != options.unique
                        || indexes[k].sparse != options.sparse),
                }
            } else {
                sound(old(store).pages(), old(catalog)@) ==> match r {
                    Ok(made) => made && (all_used(old(store).pages(), old(catalog)@) ==> all_used(
                        final(store).pages(),
                        final(catalog)@,
                    )) && exists|root: PageId|
                        #[trigger] index_built(
                            old(store).pages(),
                            old(catalog)@,
                            final(store).pages(),
                            final(catalog)@,
                            collection@,
                            index_with(texts(fields@), root, options),
                        ),
                    Err(e) => build_error(
                        e,
                        old(catalog)@,
                        collection@,
                        stored_in(old(store).pages(), old(catalog)@, collection@),
                        texts(fields@),
                        options,
                        !old(store).reliable() || final(store).full(),
                    ),
                }
            }
        }),
{
    match existing_index(catalog.indexes(collection), fields) {
        Some(existing) => {
            if existing.unique == options.unique && existing.sparse == options.sparse {
                return Ok(false);
            }
            let name = existing.name();
            let message = join(
                &[
                    quoted(collection).as_str(),
                    " already has ",
                    describe(existing.options()),
                    " index on ",
                    quoted(name.as_str()).as_str(),
                    ", not ",
                    describe(options),
                    "; drop it first",
                ],
            );
            return Err(Error::Io(IoError::new(ErrorKind::InvalidInput, message)));
        },
        None => {},
    }
    make_index(catalog, store, collection, fields, options, false)
}

/// Nothing is left unused by a new index.
proof fn lemma_index_used(
    before: Map<PageId, Seq<u8>>,
    after: Map<PageId, Seq<u8>>,
    list: Seq<CollectionModel>,
    own: Owners,
    at: int,
    index: IndexModel,
)
    requires
        sound_with(before, list, own),
        all_used(before, list),
        0 <= at < list.len(),
        root_made(before, after, index.root),
    ensures
        all_used(
            after,
            list.update(
                at,
                CollectionModel { indexes: list[at].indexes.push(index), ..list[at] },
            ),
        ),
{
    let c = CollectionModel { indexes: list[at].indexes.push(index), ..list[at] };
    let now = list.update(at, c);
    lemma_used_root(before, after, list, own, index.root);
    let last = list[at].indexes.len() as int;
    assert(roots_of(c)[last + 1] == index.root);
    lemma_root_used(after, c, last + 1, index.root);
    assert forall|p: PageId| #[trigger] after.dom().contains(p) implies chain(after).contains(p)
        || used_in(after, now, p) by {
        if p == index.root {
            assert(used_by(after, now[at], p));
        } else if !chain(after).contains(p) {
            let i = choose|i: int| 0 <= i < list.len() && used_by(after, #[trigger] list[i], p);
            if i == at {
                lemma_used_more(after, list[at], index, p);
            } else {
                assert(now[i] == list[i]);
            }
            assert(used_by(after, now[i], p));
        }
    }
}

/// Makes the secondary index on `fields`, which isn't there yet. The documents
/// go in one after the other, or, `in_order`, all their keys at once, sorted, so
/// that the index's leaves are full.
#[verifier::spinoff_prover]
pub fn make_index<S: PageStore>(
    catalog: &mut Catalog,
    store: &mut S,
    collection: &str,
    fields: &[String],
    options: IndexOptions,
    in_order: bool,
) -> (r: Result<bool, Error>)
    requires
        old(store).wf(),
        1 <= fields@.len() <= MAX_COMPOUND_FIELDS,
        index_position(indexes_of(old(catalog)@, collection@), texts(fields@)) == indexes_of(
            old(catalog)@,
            collection@,
        ).len(),
    ensures
        final(store).wf(),
        final(store).reliable() == old(store).reliable(),
        old(store).packed() && r is Ok ==> final(store).packed(),
        sound(old(store).pages(), old(catalog)@) ==> match r {
            Ok(made) => made && (all_used(old(store).pages(), old(catalog)@) ==> all_used(
                final(store).pages(),
                final(catalog)@,
            )) && (in_order && all_packed(old(store).pages(), old(catalog)@) ==> all_packed(
                final(store).pages(),
                final(catalog)@,
            )) && exists|root: PageId|
                #[trigger] index_built(
                    old(store).pages(),
                    old(catalog)@,
                    final(store).pages(),
                    final(catalog)@,
                    collection@,
                    index_with(texts(fields@), root, options),
                ),
            Err(e) => build_error(
                e,
                old(catalog)@,
                collection@,
                stored_in(old(store).pages(), old(catalog)@, collection@),
                texts(fields@),
                options,
                !old(store).reliable() || final(store).full(),
            ),
        },
{
    let ghost before = store.pages();
    let ghost list = catalog@;
    let ghost held = stored_in(before, list, collection@);
    let meta = match get_or_create_meta(catalog, store, collection) {
        Ok(meta) => meta,
        Err(e) => return Err(e),
    };
    let ghost made = store.pages();
    let ghost with = catalog@;
    let ghost at = position(with, collection@) as int;
    let ghost good = sound(before, list);
    let ghost own = choose|own: Owners| sound_with(made, with, own);
    proof {
        lemma_position(with, collection@);
        if good {
            assert(indexes_of(with, collection@) == indexes_of(list, collection@));
            assert(stored_in(made, with, collection@) == held);
        }
    }
    let index = match catalog.create_index(store, collection, fields, options) {
        Ok(index) => index,
        Err(e) => {
            proof {
                if good {
                    if exists|i: int| 0 <= i < fields@.len() && !short((#[trigger] fields@[i])@) {
                        let i = choose|i: int|
                            0 <= i < fields@.len() && !short((#[trigger] fields@[i])@);
                        assert(texts(fields@)[i] == fields@[i]@);
                        assert(!short(texts(fields@)[i]));
                    }
                }
            }
            return Err(e);
        },
    };
    let ghost rooted = store.pages();
    let ghost now = catalog@;
    let ghost docs = collection_docs(made, with[at]);
    let ghost entries = entries_at(made, meta.index_root);
    let ghost mut owners = own;
    let ghost short_fields = forall|i: int|
        0 <= i < fields@.len() ==> short((#[trigger] fields@[i])@);
    proof {
        if good && short_fields {
            owners = lemma_index_made(made, rooted, with, own, at, index@);
            if all_used(made, with) {
                lemma_index_used(made, rooted, with, own, at, index@);
            }
            if all_packed(made, with) {
                lemma_packed_index(made, rooted, with, own, at, index@);
            }
        }
    }
    if index.fields.len() < 1 || index.fields.len() > MAX_COMPOUND_FIELDS {
        return Err(Error::Io(corrupt("an index has a wrong number of fields")));
    }
    let filled = if in_order {
        fill_in_order(
            store,
            collection,
            &index,
            meta.index_root,
            Ghost(now),
            Ghost(owners),
            Ghost(at),
            Ghost(entries),
            Ghost(docs),
        )
    } else {
        fill_index(
            store,
            collection,
            &index,
            meta.index_root,
            Ghost(now),
            Ghost(owners),
            Ghost(at),
            Ghost(entries),
            Ghost(docs),
        )
    };
    match filled {
        Ok(()) => {
            proof {
                if good {
                    lemma_built(
                        before,
                        list,
                        made,
                        with,
                        rooted,
                        store.pages(),
                        collection@,
                        index@,
                    );
                    assert(index@ == index_with(texts(fields@), index.root, options));
                }
            }
            Ok(true)
        },
        Err(e) => {
            proof {
                if good {
                    lemma_not_built(
                        e,
                        collection@,
                        docs,
                        held,
                        index@,
                        !store.reliable() || store.full(),
                    );
                }
            }
            Err(e)
        },
    }
}

/// An index with these options.
pub open spec fn index_with(fields: Seq<Seq<char>>, root: PageId, options: IndexOptions) -> IndexModel {
    IndexModel { fields, root, unique: options.unique, sparse: options.sparse }
}

/// The index on these fields.
pub fn existing_index<'a>(indexes: &'a [IndexMeta], fields: &[String]) -> (r: Option<&'a IndexMeta>)
    ensures
        ({
            let models = index_models(indexes@);
            let k = index_position(models, texts(fields@)) as int;
            match r {
                Some(index) => k < models.len() && index@ == models[k],
                None => k == models.len(),
            }
        }),
{
    let n: usize = indexes.len();
    let ghost models = index_models(indexes@);
    proof {
        lemma_index_position(models, texts(fields@));
    }
    for i in 0..n
        invariant
            n == indexes@.len(),
            models == index_models(indexes@),
            forall|k: int| 0 <= k < i ==> (#[trigger] models[k]).fields != texts(fields@),
    {
        assert(models[i as int] == indexes@[i as int]@);
        if strings_equal(indexes[i].fields.as_slice(), fields) {
            proof {
                lemma_index_position(models, texts(fields@));
                let k = index_position(models, texts(fields@)) as int;
                if k > i {
                    assert(models[i as int].fields != texts(fields@));
                }
            }
            return Some(&indexes[i]);
        }
    }
    proof {
        lemma_index_position(models, texts(fields@));
    }
    None
}

/// What a new index leaves, from when its collection was there.
proof fn lemma_built(
    before: Map<PageId, Seq<u8>>,
    list: Seq<CollectionModel>,
    made: Map<PageId, Seq<u8>>,
    with: Seq<CollectionModel>,
    rooted: Map<PageId, Seq<u8>>,
    after: Map<PageId, Seq<u8>>,
    name: Seq<char>,
    index: IndexModel,
)
    requires
        written(before, list, made, with, name, stored_in(before, list, name)),
        ({
            let at = position(with, name) as int;
            let now = with_index(with, name, index);
            &&& sound(after, now)
            &&& collection_docs(after, now[at]) == collection_docs(made, with[at])
            &&& others_same(made, rooted, with, at)
            &&& others_same(rooted, after, now, at)
            &&& index.unique ==> apart_under(collection_docs(made, with[at]), index)
        }),
    ensures
        index_built(before, list, after, with_index(with, name, index), name, index),
{
    let at = position(with, name) as int;
    let now = with_index(with, name, index);
    lemma_position(with, name);
    let c = CollectionModel { indexes: with[at].indexes.push(index), ..with[at] };
    assert(others_same(made, after, with, at)) by {
        assert forall|i: int| 0 <= i < with.len() && i != at implies collection_docs(
            after,
            #[trigger] with[i],
        ) == collection_docs(made, with[i]) by {
            assert(now[i] == with[i]);
            assert(collection_docs(after, now[i]) == collection_docs(rooted, now[i]));
        }
    }
    lemma_indexes_changed(made, after, with, at, c);
    assert(indexes_of(with, name) == indexes_of(list, name));
    assert forall|other: Seq<char>| #[trigger] stored_in(after, now, other) == stored_in(
        before,
        list,
        other,
    ) by {
        assert(stored_in(after, now, other) == stored_in(made, with, other));
        if other != name {
            assert(stored_in(made, with, other) == stored_in(before, list, other));
        }
    }
    assert forall|other: Seq<char>| other != name implies #[trigger] meta_of(now, other)
        == meta_of(list, other) by {
        assert(meta_of(now, other) == meta_of(with, other));
        assert(meta_of(with, other) == meta_of(list, other));
    }
    assert forall|other: Seq<char>| other != name implies #[trigger] indexes_of(now, other)
        == indexes_of(list, other) by {
        assert(indexes_of(now, other) == indexes_of(with, other));
        assert(indexes_of(with, other) == indexes_of(list, other));
    }
    let held = stored_in(before, list, name);
    let docs = collection_docs(made, with[at]);
    assert(stored_in(made, with, name) == contents_of(docs));
    if index.unique {
        assert forall|a: Seq<u8>, b: Seq<u8>|
            a != b && held.dom().contains(a) && held.dom().contains(b) implies !(
        #[trigger] documents_collide(held[a], held[b], index)) by {
            assert(docs.dom().contains(a) && docs.dom().contains(b));
            assert(!documents_collide(docs[a].1, docs[b].1, index));
        }
    }
}

/// Documents that keep an index from being filled collide, whatever tree it
/// is in.
proof fn lemma_not_built(
    e: Error,
    name: Seq<char>,
    docs: Docs,
    held: Map<Seq<u8>, DocModel>,
    index: IndexModel,
    broken: bool,
)
    requires
        fill_error(e, name, docs, index, broken),
        held == contents_of(docs),
    ensures
        broken || (index.unique && collision_among(
            e,
            name,
            IndexModel { root: 0, ..index },
            held,
        )),
{
    if !broken {
        let id = e->DuplicateValue_id@;
        let existing = e->DuplicateValue_existing@;
        lemma_same_collision(held[existing], held[id], index, IndexModel { root: 0, ..index });
    }
}

} // verus!

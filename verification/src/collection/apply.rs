//! Applying one change to its collection.

use super::maintain::copy_text;
use super::packing::{
    all_packed, comes_last, keeps_packed, lemma_packed_catalog, lemma_packed_insert,
    lemma_packed_made,
};
use super::records::{lemma_found, lemma_record_added, lemma_record_changed, lemma_record_gone};
use super::rest::{
    lemma_arrived, lemma_arrived_elsewhere, lemma_collection_made, lemma_get_underway,
    lemma_rest_stands, lemma_take_apart, rest_sound, with_current,
};
use super::state::{
    collection_docs, docs_at, entries_at, lemma_catalog_stands, lemma_records_stand,
    lemma_tree_facts, lemma_tree_step, record_owned, records_owned, reowned, roots_of, sound,
    sound_with, step, tree_owned, Docs, Owner, Owners,
};
use super::usage::{
    all_owned, all_used, busy, keeps_used, lemma_root_used, lemma_sound_owned,
    lemma_underway_owned, lemma_used_catalog, lemma_used_insert, lemma_used_root, parts_owned,
    used_by, used_in,
};
use super::write::{
    conflict, docs_with, index_error, known, names_collision, no_conflict, others_same, placed_model, underway,
    update_secondary_indexes,
};
use crate::catalog::chain::{catalog_written, chain};
use crate::catalog::entry::{short, IndexModel};
use crate::catalog::{
    exists_in, index_models, indexes_of, is_invalid_input, lemma_list_push, lemma_position,
    lemma_position_is, meta_of, names_distinct, position, root_made, Catalog, CollectionMeta,
    CollectionModel, IndexMeta,
};
use crate::data::{
    delete_record, get_record, insert_record, is_data_page, record_at, record_chain, storable,
    update_record,
};
use crate::document::{
    lemma_entry_position, lemma_with_entry_distinct, valid, with_entry, within,
    within_is_within_depth, DocId, DocModel, Document, MAX_NESTING,
};
use crate::encoding::encoded;
use crate::error::{Error, ErrorKind, IoError};
use crate::index::btree::{tree_entries, BTreeIndex};
use crate::index::entries::{
    find, inserted, key_position, lemma_after_position, lemma_inserted_sorted, lemma_key_position,
    lemma_key_position_is, lemma_removed_sorted, removed, removed_is_not_found, sorted,
};
use crate::index::key;
use crate::index::tree::{has_tree, Entry};
use crate::index::Index;
use crate::order::{bytes_lt, lemma_lt_asymmetric, lemma_lt_irreflexive};
use crate::secondary::{collides, collisions_are_mutual, documents_collide, has_tuple};
use crate::storage::{PageId, PageStore, RecordLocation};
use crate::text::{decimal_text, join, quoted};
use crate::txn::WriteOp;
use vstd::prelude::*;
use vstd::string::StringExecFns;

verus! {

/// The documents by id.
pub open spec fn contents_of(docs: Docs) -> Map<Seq<u8>, DocModel> {
    docs.map_values(|placed: (RecordLocation, DocModel)| placed.1)
}

/// What a collection holds: nothing if it doesn't exist.
pub open spec fn stored_in(
    pages: Map<PageId, Seq<u8>>,
    list: Seq<CollectionModel>,
    name: Seq<char>,
) -> Map<Seq<u8>, DocModel> {
    if exists_in(list, name) {
        contents_of(collection_docs(pages, list[position(list, name) as int]))
    } else {
        Map::empty()
    }
}

/// A document as it is stored: an object has its own id as `_id`, whatever it
/// had there.
pub open spec fn with_id_of(m: DocModel, id: Seq<u8>) -> DocModel {
    match m {
        DocModel::Object(entries) => DocModel::Object(
            with_entry(entries, "_id"@, DocModel::Id(id)),
        ),
        _ => m,
    }
}

/// Whether another document has values equal to those of `doc`.
pub open spec fn would_conflict(
    held: Map<Seq<u8>, DocModel>,
    index: IndexModel,
    id: Seq<u8>,
    doc: DocModel,
) -> bool {
    exists|other: Seq<u8>, tuple: Seq<DocModel>|
        other != id && held.dom().contains(other) && #[trigger] has_tuple(doc, index, tuple)
            && #[trigger] collides(held[other], index, tuple)
}

/// Whether a unique index refuses a document.
pub open spec fn refused(
    held: Map<Seq<u8>, DocModel>,
    indexes: Seq<IndexModel>,
    id: Seq<u8>,
    doc: DocModel,
) -> bool {
    exists|k: int|
        0 <= k < indexes.len() && (#[trigger] indexes[k]).unique && would_conflict(
            held,
            indexes[k],
            id,
            doc,
        )
}

/// Whether an error names the unique index that refuses a document, and
/// another document with equal values.
pub open spec fn refused_with(
    e: Error,
    name: Seq<char>,
    held: Map<Seq<u8>, DocModel>,
    indexes: Seq<IndexModel>,
    id: Seq<u8>,
    doc: DocModel,
) -> bool {
    exists|k: int|
        0 <= k < indexes.len() && (#[trigger] indexes[k]).unique && names_collision(
            e,
            name,
            indexes[k],
            held,
            id,
            doc,
        )
}

/// What a write leaves: a sound database in which one collection holds
/// `held`, and everything else is as it was.
pub open spec fn written(
    before: Map<PageId, Seq<u8>>,
    list: Seq<CollectionModel>,
    after: Map<PageId, Seq<u8>>,
    now: Seq<CollectionModel>,
    name: Seq<char>,
    held: Map<Seq<u8>, DocModel>,
) -> bool {
    &&& sound(after, now)
    &&& exists_in(now, name)
    &&& stored_in(after, now, name) =~= held
    &&& forall|other: Seq<char>|
        other != name ==> #[trigger] stored_in(after, now, other) == stored_in(before, list, other)
    &&& forall|other: Seq<char>|
        other != name ==> #[trigger] meta_of(now, other) == meta_of(list, other)
    &&& forall|other: Seq<char>| #[trigger] indexes_of(now, other) == indexes_of(list, other)
}

/// Merges `_id` into a document before it's stored, so that an object always
/// reports its own id when read back.
pub fn with_id(doc: Document, id: DocId) -> (r: Document)
    ensures
        r@ == with_id_of(doc@, id@),
{
    match doc {
        Document::Object(mut fields) => {
            fields.insert(String::from_str("_id"), Document::Id(id));
            Document::Object(fields)
        },
        other => other,
    }
}

/// A document that was valid still is.
pub proof fn lemma_with_id_valid(m: DocModel, id: Seq<u8>)
    requires
        valid(m),
        id.len() == 16,
    ensures
        valid(with_id_of(m, id)),
{
    match m {
        DocModel::Object(entries) => {
            let now = with_entry(entries, "_id"@, DocModel::Id(id));
            lemma_with_entry_distinct(entries, "_id"@, DocModel::Id(id));
            lemma_entry_position(entries, "_id"@);
            assert forall|i: int| 0 <= i < now.len() implies valid(#[trigger] now[i].1) by {
                if i < entries.len() && now[i] == entries[i] {
                    assert(valid(entries[i].1));
                }
            }
        },
        _ => {},
    }
}

/// A document nested deeper than the limit is refused like a name too long.
fn refuse_too_deep(collection: &str, id: &DocId, doc: &Document) -> (r: Result<(), Error>)
    ensures
        match r {
            Ok(()) => within(doc@, MAX_NESTING as int),
            Err(e) => !within(doc@, MAX_NESTING as int) && is_invalid_input(e),
        },
{
    if doc.nests_too_deep() {
        let id_text = id.to_string();
        let limit = decimal_text(MAX_NESTING as u64);
        let message = join(
            &[
                "document ",
                id_text.as_str(),
                " for collection ",
                quoted(collection).as_str(),
                " nests deeper than the limit of ",
                limit.as_str(),
                " levels",
            ],
        );
        return Err(Error::Io(IoError::new(ErrorKind::InvalidInput, message)));
    }
    Ok(())
}

/// Where collection `at` stands in the middle of a write: its indexes all
/// agree with `docs`, only its catalog entry may be behind.
spec fn arriving(
    pages: Map<PageId, Seq<u8>>,
    list: Seq<CollectionModel>,
    at: int,
    current: PageId,
    docs: Docs,
) -> bool {
    exists|own: Owners, entries: Seq<Entry>, were: Docs|
        underway(
            pages,
            list,
            own,
            at,
            entries,
            current,
            were,
            docs,
            list[at].indexes.len() as int,
        )
}

/// Stores a new document and brings all indexes along; gives the collection's
/// new current data page.
fn insert_into<S: PageStore>(
    store: &mut S,
    collection: &str,
    meta: CollectionMeta,
    indexes: &[IndexMeta],
    id: DocId,
    doc: &Document,
    Ghost(list): Ghost<Seq<CollectionModel>>,
    Ghost(at): Ghost<int>,
) -> (r: Result<PageId, Error>)
    requires
        old(store).wf(),
    ensures
        final(store).wf(),
        final(store).reliable() == old(store).reliable(),
        old(store).packed() && r is Ok ==> final(store).packed(),
        sound(old(store).pages(), list) && 0 <= at < list.len() && list[at].meta == meta
            && index_models(indexes@) == list[at].indexes && storable(doc@) && !collection_docs(
            old(store).pages(),
            list[at],
        ).dom().contains(id@) ==> match r {
            Ok(current) => exists|loc: RecordLocation|
                #![trigger collection_docs(old(store).pages(), list[at]).insert(id@, (loc, doc@))]
                arriving(
                    final(store).pages(),
                    list,
                    at,
                    current,
                    collection_docs(old(store).pages(), list[at]).insert(id@, (loc, doc@)),
                ) && others_same(old(store).pages(), final(store).pages(), list, at) && !refused(
                    contents_of(collection_docs(old(store).pages(), list[at])),
                    list[at].indexes,
                    id@,
                    doc@,
                ) && keeps_used(
                    old(store).pages(),
                    list,
                    final(store).pages(),
                    with_current(list, at, current),
                    at,
                ) && keeps_packed(
                    old(store).pages(),
                    list,
                    final(store).pages(),
                    with_current(list, at, current),
                    at,
                    id@,
                ),
            Err(e) => write_error(
                e,
                collection@,
                contents_of(collection_docs(old(store).pages(), list[at])),
                list[at].indexes,
                id@,
                doc@,
                !old(store).reliable() || final(store).full(),
            ),
        },
{
    let ghost before = store.pages();
    let ghost root = meta.index_root;
    let ghost own = choose|own: Owners| sound_with(before, list, own);
    let ghost entries = entries_at(before, root);
    let ghost were = collection_docs(before, list[at]);
    let ghost good = sound(before, list) && 0 <= at < list.len() && list[at].meta == meta
        && index_models(indexes@) == list[at].indexes && storable(doc@) && !were.dom().contains(id@);
    proof {
        store.lemma_pages();
        if good {
            lemma_take_apart(before, list, own, at);
            reveal(records_owned);
        }
    }
    let mut current: PageId = meta.current_data_page;
    let loc: RecordLocation = match insert_record(store, &mut current, id, doc) {
        Ok(loc) => loc,
        Err(e) => return Err(Error::Io(e)),
    };
    let ghost middle = store.pages();
    let ghost longer = inserted(entries, id@, loc);
    let ghost docs = were.insert(id@, (loc, doc@));
    let ghost own1 = reowned(before, own, Owner::Data(root));
    proof {
        if good {
            assert(find(entries, id@) is None) by {
                if find(entries, id@) is Some {
                    assert(docs_at(before, entries).dom().contains(id@));
                }
            }
            lemma_record_added(
                before,
                middle,
                own,
                root,
                entries,
                meta.current_data_page,
                loc,
                id@,
                doc@,
            );
            lemma_rest_stands(before, middle, list, own, own1, Owner::Data(root), at, were);
            super::state::lemma_tree_stands(before, middle, own, own1, Owner::Data(root), root);
        }
    }
    let key = key::primary(id);
    let mut primary = BTreeIndex::new(meta.index_root);
    match primary.insert(store, key.as_slice(), loc) {
        Ok(()) => {},
        Err(e) => return Err(Error::Io(e)),
    }
    let ghost after = store.pages();
    let ghost own2 = reowned(middle, own1, Owner::Tree(root));
    proof {
        if good {
            lemma_tree_facts(middle, root);
            lemma_tree_facts(after, root);
            lemma_tree_step(middle, after, own1, root);
            lemma_rest_stands(middle, after, list, own1, own2, Owner::Tree(root), at, were);
            lemma_inserted_sorted(entries, id@, loc);
            lemma_records_stand(
                middle,
                after,
                own1,
                own2,
                Owner::Tree(root),
                root,
                longer,
                current,
            );
            lemma_get_underway(after, list, own2, at, longer, current, were, docs);
        }
    }
    match update_secondary_indexes(
        store,
        collection,
        indexes,
        id,
        None,
        Some((doc, loc)),
        Ghost(list),
        Ghost(own2),
        Ghost(at),
        Ghost(longer),
        Ghost(current),
        Ghost(were),
        Ghost(docs),
    ) {
        Ok(now) => {
            proof {
                if good {
                    assert(arriving(store.pages(), list, at, current, docs));
                    lemma_others_chain(before, middle, after, store.pages(), list, at);
                    lemma_not_refused(were, docs, list[at].indexes, id@, doc@);
                    if all_used(before, list) && busy(before, list[at])
                        && list[at].indexes.len() == 0 {
                        assert(indexes@.len() == index_models(indexes@).len());
                        lemma_sound_owned(before, list, own);
                        lemma_chain_stands_twice(
                            before,
                            middle,
                            after,
                            list,
                            own,
                            own1,
                            own2,
                            at,
                            were,
                        );
                        lemma_used_insert(
                            before,
                            middle,
                            after,
                            list,
                            own,
                            own1,
                            own2,
                            at,
                            id@,
                            doc@,
                            loc,
                        );
                    }
                    if all_packed(before, list) && list[at].indexes.len() == 0 && comes_last(
                        before,
                        list[at],
                        id@,
                    ) {
                        assert(indexes@.len() == index_models(indexes@).len());
                        lemma_packed_insert(
                            before,
                            middle,
                            after,
                            list,
                            own,
                            own1,
                            own2,
                            at,
                            were,
                            id@,
                            doc@,
                            loc,
                        );
                    }
                }
            }
            Ok(current)
        },
        Err(e) => {
            proof {
                if good {
                    lemma_write_error(
                        e,
                        collection@,
                        were,
                        docs,
                        list[at].indexes,
                        id@,
                        doc@,
                        !store.reliable() || store.full(),
                    );
                }
            }
            Err(e)
        },
    }
}

/// The catalog's pages stand through two changes to a collection's own.
proof fn lemma_chain_stands_twice(
    before: Map<PageId, Seq<u8>>,
    middle: Map<PageId, Seq<u8>>,
    after: Map<PageId, Seq<u8>>,
    list: Seq<CollectionModel>,
    own: Owners,
    own1: Owners,
    own2: Owners,
    at: int,
    docs: Docs,
)
    requires
        rest_sound(before, list, own, at, docs),
        rest_sound(middle, list, own1, at, docs),
        step(before, middle, own, own1, Owner::Data(list[at].meta.index_root)),
        step(middle, after, own1, own2, Owner::Tree(list[at].meta.index_root)),
    ensures
        chain(after) == chain(before),
{
    reveal(rest_sound);
    lemma_catalog_stands(
        before,
        middle,
        own,
        own1,
        Owner::Data(list[at].meta.index_root),
        list,
    );
    lemma_catalog_stands(
        middle,
        after,
        own1,
        own2,
        Owner::Tree(list[at].meta.index_root),
        list,
    );
}

/// What stands through three changes stands.
proof fn lemma_others_chain(
    a: Map<PageId, Seq<u8>>,
    b: Map<PageId, Seq<u8>>,
    c: Map<PageId, Seq<u8>>,
    d: Map<PageId, Seq<u8>>,
    list: Seq<CollectionModel>,
    at: int,
)
    requires
        others_same(a, b, list, at),
        others_same(b, c, list, at),
        others_same(c, d, list, at),
    ensures
        others_same(a, d, list, at),
{
    assert forall|i: int| 0 <= i < list.len() && i != at implies collection_docs(
        d,
        #[trigger] list[i],
    ) == collection_docs(a, list[i]) by {
        assert(collection_docs(b, list[i]) == collection_docs(a, list[i]));
        assert(collection_docs(c, list[i]) == collection_docs(b, list[i]));
    }
}

/// What an error of a write to a collection means: a document too large, a
/// unique index that refuses it, or a medium that failed.
pub open spec fn write_error(
    e: Error,
    name: Seq<char>,
    held: Map<Seq<u8>, DocModel>,
    indexes: Seq<IndexModel>,
    id: Seq<u8>,
    doc: DocModel,
    broken: bool,
) -> bool {
    broken || match e {
        Error::DuplicateValue { .. } => refused_with(e, name, held, indexes, id, doc),
        Error::Io(io) => io.kind == ErrorKind::InvalidInput && encoded(doc).len() > u32::MAX,
        _ => false,
    }
}

/// What no unique index refuses, the collection doesn't.
proof fn lemma_not_refused(
    were: Docs,
    docs: Docs,
    indexes: Seq<IndexModel>,
    id: Seq<u8>,
    doc: DocModel,
)
    requires
        no_conflict(docs, indexes, id, indexes.len() as int),
        docs.dom().contains(id),
        docs[id].1 == doc,
        forall|other: Seq<u8>|
            other != id ==> (#[trigger] docs.dom().contains(other) <==> were.dom().contains(other))
                && (were.dom().contains(other) ==> docs[other] == were[other]),
    ensures
        !refused(contents_of(were), indexes, id, doc),
{
    let held = contents_of(were);
    assert forall|k: int| 0 <= k < indexes.len() && (#[trigger] indexes[k]).unique implies
        !would_conflict(held, indexes[k], id, doc) by {
        if would_conflict(held, indexes[k], id, doc) {
            let (other, tuple) = choose|other: Seq<u8>, tuple: Seq<DocModel>|
                other != id && held.dom().contains(other) && #[trigger] has_tuple(
                    doc,
                    indexes[k],
                    tuple,
                ) && #[trigger] collides(held[other], indexes[k], tuple);
            assert(docs.dom().contains(other));
            assert(has_tuple(docs[id].1, indexes[k], tuple));
            assert(collides(docs[other].1, indexes[k], tuple));
            assert(conflict(docs, indexes[k], id));
        }
    }
}

/// An index's refusal is the collection's.
proof fn lemma_write_error(
    e: Error,
    name: Seq<char>,
    were: Docs,
    docs: Docs,
    indexes: Seq<IndexModel>,
    id: Seq<u8>,
    doc: DocModel,
    broken: bool,
)
    requires
        exists|k: int|
            0 <= k < indexes.len() && index_error(
                e,
                name,
                docs,
                #[trigger] indexes[k],
                id,
                broken,
            ),
        forall|other: Seq<u8>|
            other != id ==> (#[trigger] docs.dom().contains(other) <==> were.dom().contains(other))
                && (were.dom().contains(other) ==> docs[other] == were[other]),
        docs.dom().contains(id) ==> docs[id].1 == doc,
        docs.dom().contains(id),
    ensures
        write_error(e, name, contents_of(were), indexes, id, doc, broken),
{
    let k = choose|k: int|
        0 <= k < indexes.len() && index_error(e, name, docs, #[trigger] indexes[k], id, broken);
    match e {
        Error::DuplicateValue { existing, .. } => {
            let held = contents_of(were);
            assert(docs.dom().contains(existing@));
            assert(held.dom().contains(existing@));
            assert(held[existing@] == docs[existing@].1);
            assert(names_collision(e, name, indexes[k], held, id, doc));
        },
        _ => {},
    }
}

/// Nothing is left unused by a change to the catalog.
proof fn lemma_catalog_used(
    before: Map<PageId, Seq<u8>>,
    after: Map<PageId, Seq<u8>>,
    list: Seq<CollectionModel>,
    own: Owners,
    at: int,
)
    requires
        all_owned(before, list, own),
        catalog_written(before, after),
        0 <= at < list.len(),
    ensures
        all_used(before, list) ==> all_used(after, list),
        busy(before, list[at]) ==> busy(after, list[at]),
{
    let now = reowned(before, own, Owner::Catalog);
    assert(forall|p: PageId| #[trigger] chain(before).contains(p) ==> own[p] == Owner::Catalog) by {
        reveal(all_owned);
    }
    super::state::lemma_catalog_step(before, after, own);
    if all_used(before, list) {
        lemma_used_catalog(before, after, list, own, now);
    }
    let root = list[at].meta.index_root;
    assert(tree_owned(before, own, root)) by {
        reveal(all_owned);
        reveal(parts_owned);
        assert(parts_owned(before, own, list[at]));
        assert(roots_of(list[at])[0] == root);
    }
    super::state::lemma_tree_stands(before, after, own, now, Owner::Catalog, root);
}

/// Persists a collection's current data page if a write moved it to a newly
/// allocated page: a catalog write only once per filled page.
fn save_current_data_page<S: PageStore>(
    catalog: &mut Catalog,
    store: &mut S,
    collection: &str,
    meta: &CollectionMeta,
    current: PageId,
    Ghost(at): Ghost<int>,
    Ghost(docs): Ghost<Docs>,
) -> (r: Result<(), Error>)
    requires
        old(store).wf(),
        exists_in(old(catalog)@, collection@),
    ensures
        final(store).wf(),
        final(store).reliable() == old(store).reliable(),
        old(store).packed() && r is Ok ==> final(store).packed(),
        at == position(old(catalog)@, collection@) && old(catalog)@[at].meta == *meta && arriving(
            old(store).pages(),
            old(catalog)@,
            at,
            current,
            docs,
        ) ==> match r {
            Ok(()) => {
                &&& final(catalog)@ == with_current(old(catalog)@, at, current)
                &&& sound(final(store).pages(), final(catalog)@)
                &&& collection_docs(final(store).pages(), final(catalog)@[at]) == docs
                &&& others_same(old(store).pages(), final(store).pages(), old(catalog)@, at)
                &&& all_used(old(store).pages(), final(catalog)@) ==> all_used(
                    final(store).pages(),
                    final(catalog)@,
                )
                &&& busy(old(store).pages(), final(catalog)@[at]) ==> busy(
                    final(store).pages(),
                    final(catalog)@[at],
                )
                &&& all_packed(old(store).pages(), final(catalog)@) ==> all_packed(
                    final(store).pages(),
                    final(catalog)@,
                )
            },
            Err(_) => !old(store).reliable(),
        },
{
    let ghost before = store.pages();
    let ghost list = catalog@;
    let ghost good = at == position(list, collection@) && list[at].meta == *meta && arriving(
        before,
        list,
        at,
        current,
        docs,
    );
    let ghost (own, entries, were) = choose|own: Owners, entries: Seq<Entry>, were: Docs|
        underway(
            before,
            list,
            own,
            at,
            entries,
            current,
            were,
            docs,
            list[at].indexes.len() as int,
        );
    proof {
        if good {
            lemma_arrived(before, list, own, at, entries, current, were, docs);
        }
    }
    if current == meta.current_data_page {
        proof {
            if good {
                assert(with_current(list, at, current) =~= list);
            }
        }
        return Ok(());
    }
    match catalog.set_current_data_page(store, collection, current) {
        Ok(()) => {
            proof {
                if good {
                    lemma_arrived_elsewhere(
                        before,
                        store.pages(),
                        list,
                        own,
                        at,
                        entries,
                        current,
                        were,
                        docs,
                    );
                    lemma_underway_owned(
                        before,
                        list,
                        own,
                        at,
                        entries,
                        current,
                        were,
                        docs,
                        list[at].indexes.len() as int,
                    );
                    lemma_catalog_used(before, store.pages(), catalog@, own, at);
                    if all_packed(before, catalog@) {
                        lemma_packed_catalog(before, store.pages(), catalog@, own);
                    }
                }
            }
            Ok(())
        },
        Err(e) => Err(e),
    }
}

/// Replacing an entry is taking it out and putting it in again.
proof fn lemma_reinserted(entries: Seq<Entry>, key: Seq<u8>, loc: RecordLocation)
    requires
        sorted(entries),
        find(entries, key) is Some,
    ensures
        inserted(removed(entries, key), key, loc) == inserted(entries, key, loc),
        find(entries, key) == Some(loc) ==> inserted(entries, key, loc) == entries,
{
    lemma_key_position(entries, key);
    lemma_after_position(entries, key);
    let at = key_position(entries, key);
    let less = removed(entries, key);
    assert(less == entries.remove(at));
    lemma_lt_irreflexive(key);
    assert forall|i: int| 0 <= i < at implies bytes_lt((#[trigger] less[i]).0, key) by {
        assert(less[i] == entries[i]);
    }
    if at < less.len() {
        assert(less[at] == entries[at + 1]);
        assert(bytes_lt(key, entries[at + 1].0));
        lemma_lt_asymmetric(key, entries[at + 1].0);
    }
    lemma_key_position_is(less, key, at);
    removed_is_not_found(entries, key, key);
    assert(inserted(less, key, loc) =~= inserted(entries, key, loc));
    if find(entries, key) == Some(loc) {
        assert(inserted(entries, key, loc) =~= entries);
    }
}

/// The document stored at `loc`, if the collection has secondary indexes to
/// take its old keys out of: otherwise it isn't read at all.
fn old_document<S: PageStore>(indexes: &[IndexMeta], store: &S, loc: RecordLocation) -> (r: Result<
    Option<Document>,
    Error,
>)
    requires
        store.wf(),
    ensures
        match r {
            Ok(Some(doc)) => indexes@.len() > 0 && record_at(store.pages(), loc) is Some
                && record_at(store.pages(), loc)->Some_0.1 == doc@,
            Ok(None) => indexes@.len() == 0,
            Err(_) => !store.reliable() || record_at(store.pages(), loc) is None,
        },
{
    if indexes.len() == 0 {
        return Ok(None);
    }
    match get_record(store, loc) {
        Ok((_, doc)) => Ok(Some(doc)),
        Err(e) => Err(Error::Io(e)),
    }
}

/// Brings the secondary indexes along once a record has changed.
fn bring_along<S: PageStore>(
    store: &mut S,
    collection: &str,
    indexes: &[IndexMeta],
    id: DocId,
    old_doc: &Option<Document>,
    loc: RecordLocation,
    new_doc: Option<(&Document, RecordLocation)>,
    Ghost(list): Ghost<Seq<CollectionModel>>,
    Ghost(own): Ghost<Owners>,
    Ghost(at): Ghost<int>,
    Ghost(entries): Ghost<Seq<Entry>>,
    Ghost(current): Ghost<PageId>,
    Ghost(were): Ghost<Docs>,
    Ghost(docs): Ghost<Docs>,
) -> (r: Result<(), Error>)
    requires
        old(store).wf(),
    ensures
        final(store).wf(),
        final(store).reliable() == old(store).reliable(),
        underway(old(store).pages(), list, own, at, entries, current, were, docs, 0)
            && index_models(indexes@) == list[at].indexes && (match *old_doc {
            Some(doc) => known(were, id@, Some((doc@, loc))),
            None => indexes@.len() == 0,
        }) && docs == docs_with(were, id@, placed_model(new_doc)) ==> match r {
            Ok(()) => arriving(final(store).pages(), list, at, current, docs) && others_same(
                old(store).pages(),
                final(store).pages(),
                list,
                at,
            ) && no_conflict(docs, list[at].indexes, id@, list[at].indexes.len() as int),
            Err(e) => exists|k: int|
                0 <= k < list[at].indexes.len() && index_error(
                    e,
                    collection@,
                    docs,
                    #[trigger] list[at].indexes[k],
                    id@,
                    !old(store).reliable() || final(store).full(),
                ),
        },
{
    let was: Option<(&Document, RecordLocation)> = match old_doc {
        Some(doc) => Some((doc, loc)),
        None => {
            if indexes.len() == 0 {
                proof {
                    assert(index_models(indexes@).len() == 0);
                    if underway(store.pages(), list, own, at, entries, current, were, docs, 0)
                        && list[at].indexes.len() == 0 {
                        assert(arriving(store.pages(), list, at, current, docs));
                    }
                }
                return Ok(());
            }
            None
        },
    };
    match update_secondary_indexes(
        store,
        collection,
        indexes,
        id,
        was,
        new_doc,
        Ghost(list),
        Ghost(own),
        Ghost(at),
        Ghost(entries),
        Ghost(current),
        Ghost(were),
        Ghost(docs),
    ) {
        Ok(_) => Ok(()),
        Err(e) => Err(e),
    }
}

/// What is known of a collection before one of its documents changes.
spec fn ready(
    pages: Map<PageId, Seq<u8>>,
    list: Seq<CollectionModel>,
    at: int,
    meta: CollectionMeta,
    indexes: Seq<IndexMeta>,
    id: Seq<u8>,
    loc: RecordLocation,
) -> bool {
    &&& sound(pages, list)
    &&& 0 <= at < list.len()
    &&& list[at].meta == meta
    &&& index_models(indexes) == list[at].indexes
    &&& find(entries_at(pages, meta.index_root), id) == Some(loc)
}

/// A collection's document is where the primary index says.
proof fn lemma_ready(
    pages: Map<PageId, Seq<u8>>,
    list: Seq<CollectionModel>,
    own: Owners,
    at: int,
    id: Seq<u8>,
    loc: RecordLocation,
)
    requires
        sound_with(pages, list, own),
        0 <= at < list.len(),
        find(entries_at(pages, list[at].meta.index_root), id) == Some(loc),
    ensures
        record_chain(pages, loc) is Some,
        record_at(pages, loc) is Some,
        collection_docs(pages, list[at]).dom().contains(id),
        collection_docs(pages, list[at])[id] == (loc, record_at(pages, loc)->Some_0.1),
        list[at].meta.current_data_page == 0 || is_data_page(
            pages,
            list[at].meta.current_data_page,
        ),
{
    lemma_take_apart(pages, list, own, at);
    reveal(records_owned);
    let entries = entries_at(pages, list[at].meta.index_root);
    lemma_found(entries, id);
    let i = choose|i: int| 0 <= i < entries.len() && entries[i] == (id, loc);
    assert(record_owned(pages, own, list[at].meta.index_root, entries[i]));
    assert(docs_at(pages, entries).dom().contains(id));
}

/// Replaces a document and brings all indexes along; gives the collection's
/// new current data page.
fn replace_in<S: PageStore>(
    store: &mut S,
    collection: &str,
    meta: CollectionMeta,
    indexes: &[IndexMeta],
    id: DocId,
    loc: RecordLocation,
    doc: &Document,
    Ghost(list): Ghost<Seq<CollectionModel>>,
    Ghost(at): Ghost<int>,
) -> (r: Result<PageId, Error>)
    requires
        old(store).wf(),
    ensures
        final(store).wf(),
        final(store).reliable() == old(store).reliable(),
        ready(old(store).pages(), list, at, meta, indexes@, id@, loc) && storable(doc@) ==> match r {
            Ok(current) => exists|now: RecordLocation|
                #![trigger collection_docs(old(store).pages(), list[at]).insert(id@, (now, doc@))]
                arriving(
                    final(store).pages(),
                    list,
                    at,
                    current,
                    collection_docs(old(store).pages(), list[at]).insert(id@, (now, doc@)),
                ) && others_same(old(store).pages(), final(store).pages(), list, at) && !refused(
                    contents_of(collection_docs(old(store).pages(), list[at])),
                    list[at].indexes,
                    id@,
                    doc@,
                ),
            Err(e) => write_error(
                e,
                collection@,
                contents_of(collection_docs(old(store).pages(), list[at])),
                list[at].indexes,
                id@,
                doc@,
                !old(store).reliable() || final(store).full(),
            ),
        },
{
    let ghost before = store.pages();
    let ghost root = meta.index_root;
    let ghost own = choose|own: Owners| sound_with(before, list, own);
    let ghost entries = entries_at(before, root);
    let ghost were = collection_docs(before, list[at]);
    let ghost good = ready(before, list, at, meta, indexes@, id@, loc) && storable(doc@);
    proof {
        store.lemma_pages();
        if good {
            lemma_take_apart(before, list, own, at);
            lemma_ready(before, list, own, at, id@, loc);
        }
    }
    let old_doc = match old_document(indexes, store, loc) {
        Ok(found) => found,
        Err(e) => return Err(e),
    };
    let mut current: PageId = meta.current_data_page;
    let now: RecordLocation = match update_record(store, &mut current, loc, id, doc) {
        Ok(now) => now,
        Err(e) => return Err(Error::Io(e)),
    };
    let ghost middle = store.pages();
    let ghost changed = inserted(entries, id@, now);
    let ghost docs = were.insert(id@, (now, doc@));
    let ghost own1 = reowned(before, own, Owner::Data(root));
    proof {
        if good {
            lemma_record_changed(
                before,
                middle,
                own,
                root,
                entries,
                meta.current_data_page,
                loc,
                now,
                id@,
                doc@,
                current,
            );
            lemma_rest_stands(before, middle, list, own, own1, Owner::Data(root), at, were);
            super::state::lemma_tree_stands(before, middle, own, own1, Owner::Data(root), root);
            lemma_reinserted(entries, id@, now);
        }
    }
    let ghost mut own2 = own1;
    if now.page != loc.page || now.slot != loc.slot {
        match move_entry(
            store,
            meta.index_root,
            id,
            now,
            Ghost(list),
            Ghost(at),
            Ghost(own1),
            Ghost(were),
            Ghost(entries),
            Ghost(current),
        ) {
            Ok(owners) => {
                proof {
                    own2 = owners@;
                }
            },
            Err(e) => return Err(e),
        }
    }
    let ghost after = store.pages();
    proof {
        if good {
            lemma_get_underway(after, list, own2, at, changed, current, were, docs);
        }
    }
    match bring_along(
        store,
        collection,
        indexes,
        id,
        &old_doc,
        loc,
        Some((doc, now)),
        Ghost(list),
        Ghost(own2),
        Ghost(at),
        Ghost(changed),
        Ghost(current),
        Ghost(were),
        Ghost(docs),
    ) {
        Ok(()) => {
            proof {
                if good {
                    lemma_others_chain(before, middle, after, store.pages(), list, at);
                    lemma_not_refused(were, docs, list[at].indexes, id@, doc@);
                }
            }
            Ok(current)
        },
        Err(e) => {
            proof {
                if good {
                    lemma_write_error(
                        e,
                        collection@,
                        were,
                        docs,
                        list[at].indexes,
                        id@,
                        doc@,
                        !store.reliable() || store.full(),
                    );
                }
            }
            Err(e)
        },
    }
}

/// Points a document's entry in the primary index to where it moved.
fn move_entry<S: PageStore>(
    store: &mut S,
    root: PageId,
    id: DocId,
    now: RecordLocation,
    Ghost(list): Ghost<Seq<CollectionModel>>,
    Ghost(at): Ghost<int>,
    Ghost(own): Ghost<Owners>,
    Ghost(were): Ghost<Docs>,
    Ghost(entries): Ghost<Seq<Entry>>,
    Ghost(current): Ghost<PageId>,
) -> (r: Result<Ghost<Owners>, Error>)
    requires
        old(store).wf(),
    ensures
        final(store).wf(),
        final(store).reliable() == old(store).reliable(),
        rest_sound(old(store).pages(), list, own, at, were) && list[at].meta.index_root == root
            && tree_owned(old(store).pages(), own, root) && entries_at(old(store).pages(), root)
            == entries && sorted(entries) && find(entries, id@) is Some && records_owned(
            old(store).pages(),
            own,
            root,
            inserted(entries, id@, now),
            current,
        ) ==> match r {
            Ok(owners) => {
                &&& rest_sound(final(store).pages(), list, owners@, at, were)
                &&& tree_owned(final(store).pages(), owners@, root)
                &&& entries_at(final(store).pages(), root) == inserted(entries, id@, now)
                &&& records_owned(
                    final(store).pages(),
                    owners@,
                    root,
                    inserted(entries, id@, now),
                    current,
                )
                &&& docs_at(final(store).pages(), inserted(entries, id@, now)) == docs_at(
                    old(store).pages(),
                    inserted(entries, id@, now),
                )
                &&& others_same(old(store).pages(), final(store).pages(), list, at)
            },
            Err(_) => !old(store).reliable() || final(store).full(),
        },
{
    let ghost before = store.pages();
    let ghost changed = inserted(entries, id@, now);
    let ghost good = rest_sound(before, list, own, at, were) && list[at].meta.index_root == root
        && tree_owned(before, own, root) && entries_at(before, root) == entries && sorted(entries)
        && find(entries, id@) is Some && records_owned(before, own, root, changed, current);
    let key = key::primary(id);
    let mut primary = BTreeIndex::new(root);
    match primary.remove(store, key.as_slice()) {
        Ok(()) => {},
        Err(e) => {
            proof {
                if good {
                    lemma_tree_facts(before, root);
                }
            }
            return Err(Error::Io(e));
        },
    }
    let ghost middle = store.pages();
    let ghost own1 = reowned(before, own, Owner::Tree(root));
    proof {
        if good {
            lemma_tree_facts(before, root);
            lemma_tree_facts(middle, root);
            lemma_tree_step(before, middle, own, root);
            lemma_rest_stands(before, middle, list, own, own1, Owner::Tree(root), at, were);
            lemma_removed_sorted(entries, id@);
            lemma_inserted_sorted(entries, id@, now);
            lemma_records_stand(
                before,
                middle,
                own,
                own1,
                Owner::Tree(root),
                root,
                changed,
                current,
            );
            lemma_reinserted(entries, id@, now);
        }
    }
    match primary.insert(store, key.as_slice(), now) {
        Ok(()) => {},
        Err(e) => return Err(Error::Io(e)),
    }
    let ghost after = store.pages();
    let ghost own2 = reowned(middle, own1, Owner::Tree(root));
    proof {
        if good {
            lemma_tree_facts(after, root);
            lemma_tree_step(middle, after, own1, root);
            lemma_rest_stands(middle, after, list, own1, own2, Owner::Tree(root), at, were);
            lemma_records_stand(
                middle,
                after,
                own1,
                own2,
                Owner::Tree(root),
                root,
                changed,
                current,
            );
            lemma_others_chain(before, before, middle, after, list, at);
        }
    }
    Ok(Ghost(own2))
}

/// Deletes a document and its keys.
fn delete_from<S: PageStore>(
    store: &mut S,
    collection: &str,
    meta: CollectionMeta,
    indexes: &[IndexMeta],
    id: DocId,
    loc: RecordLocation,
    Ghost(list): Ghost<Seq<CollectionModel>>,
    Ghost(at): Ghost<int>,
) -> (r: Result<(), Error>)
    requires
        old(store).wf(),
    ensures
        final(store).wf(),
        final(store).reliable() == old(store).reliable(),
        ready(old(store).pages(), list, at, meta, indexes@, id@, loc) ==> match r {
            Ok(()) => {
                &&& sound(final(store).pages(), list)
                &&& collection_docs(final(store).pages(), list[at]) == collection_docs(
                    old(store).pages(),
                    list[at],
                ).remove(id@)
                &&& others_same(old(store).pages(), final(store).pages(), list, at)
            },
            Err(_) => !old(store).reliable() || final(store).full(),
        },
{
    let ghost before = store.pages();
    let ghost root = meta.index_root;
    let ghost own = choose|own: Owners| sound_with(before, list, own);
    let ghost entries = entries_at(before, root);
    let ghost were = collection_docs(before, list[at]);
    let ghost current = meta.current_data_page;
    let ghost good = ready(before, list, at, meta, indexes@, id@, loc);
    proof {
        if good {
            lemma_take_apart(before, list, own, at);
            lemma_ready(before, list, own, at, id@, loc);
        }
    }
    let old_doc = match old_document(indexes, store, loc) {
        Ok(found) => found,
        Err(e) => return Err(e),
    };
    match delete_record(store, meta.current_data_page, loc) {
        Ok(()) => {},
        Err(e) => return Err(Error::Io(e)),
    }
    let ghost middle = store.pages();
    let ghost less = removed(entries, id@);
    let ghost docs = were.remove(id@);
    let ghost own1 = reowned(before, own, Owner::Data(root));
    proof {
        if good {
            lemma_record_gone(before, middle, own, root, entries, current, loc, id@);
            lemma_rest_stands(before, middle, list, own, own1, Owner::Data(root), at, were);
            super::state::lemma_tree_stands(before, middle, own, own1, Owner::Data(root), root);
            lemma_tree_facts(middle, root);
        }
    }
    let key = key::primary(id);
    let mut primary = BTreeIndex::new(meta.index_root);
    match primary.remove(store, key.as_slice()) {
        Ok(()) => {},
        Err(e) => return Err(Error::Io(e)),
    }
    let ghost after = store.pages();
    let ghost own2 = reowned(middle, own1, Owner::Tree(root));
    proof {
        if good {
            lemma_tree_facts(after, root);
            lemma_tree_step(middle, after, own1, root);
            lemma_rest_stands(middle, after, list, own1, own2, Owner::Tree(root), at, were);
            lemma_removed_sorted(entries, id@);
            lemma_records_stand(middle, after, own1, own2, Owner::Tree(root), root, less, current);
            lemma_get_underway(after, list, own2, at, less, current, were, docs);
        }
    }
    match bring_along(
        store,
        collection,
        indexes,
        id,
        &old_doc,
        loc,
        None,
        Ghost(list),
        Ghost(own2),
        Ghost(at),
        Ghost(less),
        Ghost(current),
        Ghost(were),
        Ghost(docs),
    ) {
        Ok(()) => {
            proof {
                if good {
                    lemma_others_chain(before, middle, after, store.pages(), list, at);
                    let (own3, entries3, were3) = choose|own: Owners, entries: Seq<Entry>, were: Docs|
                        underway(
                            store.pages(),
                            list,
                            own,
                            at,
                            entries,
                            current,
                            were,
                            docs,
                            list[at].indexes.len() as int,
                        );
                    lemma_arrived(store.pages(), list, own3, at, entries3, current, were3, docs);
                }
            }
            Ok(())
        },
        Err(e) => {
            proof {
                if good {
                    let k = choose|k: int|
                        0 <= k < list[at].indexes.len() && index_error(
                            e,
                            collection@,
                            docs,
                            #[trigger] list[at].indexes[k],
                            id@,
                            !store.reliable() || store.full(),
                        );
                    assert(!conflict(docs, list[at].indexes[k], id@));
                }
            }
            Err(e)
        },
    }
}

/// A collection keeps its place in the list when its current page changes.
proof fn lemma_position_stays(list: Seq<CollectionModel>, at: int, current: PageId, name: Seq<char>)
    requires
        0 <= at < list.len(),
    ensures
        position(with_current(list, at, current), name) == position(list, name),
        exists_in(with_current(list, at, current), name) == exists_in(list, name),
{
    let now = with_current(list, at, current);
    lemma_position(list, name);
    lemma_position(now, name);
    assert forall|i: int| 0 <= i < list.len() implies (#[trigger] now[i]).name == list[i].name by {}
    if exists_in(list, name) {
        let i = position(list, name) as int;
        assert(now[i].name == name);
        lemma_position_is(now, name, i);
    } else if exists_in(now, name) {
        let i = position(now, name) as int;
        assert(list[i].name == name);
        assert forall|k: int| 0 <= k < i implies (#[trigger] list[k]).name != name by {
            assert(now[k].name != name);
        }
        lemma_position_is(list, name, i);
    }
}

/// A change to one collection's documents is a write to that collection.
proof fn lemma_written(
    before: Map<PageId, Seq<u8>>,
    after: Map<PageId, Seq<u8>>,
    list: Seq<CollectionModel>,
    at: int,
    current: PageId,
    docs: Docs,
)
    requires
        names_distinct(list),
        0 <= at < list.len(),
        at == position(list, list[at].name),
        sound(after, with_current(list, at, current)),
        collection_docs(after, with_current(list, at, current)[at]) == docs,
        others_same(before, after, list, at),
    ensures
        written(
            before,
            list,
            after,
            with_current(list, at, current),
            list[at].name,
            contents_of(docs),
        ),
{
    let now = with_current(list, at, current);
    let name = list[at].name;
    lemma_position_stays(list, at, current, name);
    assert forall|other: Seq<char>| other != name implies #[trigger] stored_in(after, now, other)
        == stored_in(before, list, other) && meta_of(now, other) == meta_of(list, other) by {
        lemma_position_stays(list, at, current, other);
        lemma_position(list, other);
        if exists_in(list, other) {
            let i = position(list, other) as int;
            assert(list[i].name == other);
            assert(now[i] == list[i]);
            assert(collection_docs(after, list[i]) == collection_docs(before, list[i]));
        }
    }
    assert forall|other: Seq<char>| other != name implies #[trigger] meta_of(now, other) == meta_of(
        list,
        other,
    ) by {
        assert(stored_in(after, now, other) == stored_in(before, list, other));
    }
    assert forall|other: Seq<char>| #[trigger] indexes_of(now, other) == indexes_of(list, other) by {
        lemma_position_stays(list, at, current, other);
        lemma_position(list, other);
    }
}

/// A collection just made is empty, and the others are as they were.
proof fn lemma_made(
    before: Map<PageId, Seq<u8>>,
    after: Map<PageId, Seq<u8>>,
    list: Seq<CollectionModel>,
    c: CollectionModel,
)
    requires
        names_distinct(list),
        !exists_in(list, c.name),
        sound(after, list.push(c)),
        collection_docs(after, c) =~= Map::empty(),
        c.indexes.len() == 0,
        forall|i: int|
            0 <= i < list.len() ==> collection_docs(after, #[trigger] list[i]) == collection_docs(
                before,
                list[i],
            ),
    ensures
        written(before, list, after, list.push(c), c.name, Map::empty()),
{
    let now = list.push(c);
    lemma_list_push(list, c);
    lemma_position(list, c.name);
    lemma_position(now, c.name);
    assert forall|other: Seq<char>| other != c.name implies #[trigger] stored_in(after, now, other)
        == stored_in(before, list, other) by {
        lemma_position(list, other);
        lemma_position(now, other);
        if exists_in(list, other) {
            let i = position(list, other) as int;
            assert(now[i] == list[i]);
            assert forall|k: int| 0 <= k < i implies (#[trigger] now[k]).name != other by {
                assert(now[k] == list[k]);
            }
            lemma_position_is(now, other, i);
        } else if exists_in(now, other) {
            let i = position(now, other) as int;
            assert(now[i].name == other);
            assert(i < list.len());
            assert(meta_of(now, other) is Some);
            assert(meta_of(now, other) == meta_of(list, other));
        }
    }
    assert(meta_of(now, c.name) is Some);
    let i = position(now, c.name) as int;
    assert(i == list.len()) by {
        if i < list.len() {
            assert(list[i].name == c.name);
            assert(now[i].name == c.name);
            assert(now[list.len() as int].name == c.name);
        }
    }
    assert(stored_in(after, now, c.name) =~= Map::empty());
    assert(indexes_of(list, c.name) =~= indexes_of(now, c.name));
    assert forall|other: Seq<char>| #[trigger] indexes_of(now, other) == indexes_of(list, other) by {
        if other != c.name {
        }
    }
}

/// One write after another is one write.
pub proof fn lemma_written_twice(
    a: Map<PageId, Seq<u8>>,
    la: Seq<CollectionModel>,
    b: Map<PageId, Seq<u8>>,
    lb: Seq<CollectionModel>,
    c: Map<PageId, Seq<u8>>,
    lc: Seq<CollectionModel>,
    name: Seq<char>,
    held: Map<Seq<u8>, DocModel>,
    now: Map<Seq<u8>, DocModel>,
)
    requires
        written(a, la, b, lb, name, held),
        written(b, lb, c, lc, name, now),
    ensures
        written(a, la, c, lc, name, now),
{
    assert forall|other: Seq<char>| other != name implies #[trigger] stored_in(c, lc, other)
        == stored_in(a, la, other) by {
        assert(stored_in(c, lc, other) == stored_in(b, lb, other));
        assert(stored_in(b, lb, other) == stored_in(a, la, other));
    }
    assert forall|other: Seq<char>| other != name implies #[trigger] meta_of(lc, other) == meta_of(
        la,
        other,
    ) by {
        assert(meta_of(lc, other) == meta_of(lb, other));
        assert(meta_of(lb, other) == meta_of(la, other));
    }
    assert forall|other: Seq<char>| #[trigger] indexes_of(lc, other) == indexes_of(la, other) by {
        assert(indexes_of(lc, other) == indexes_of(lb, other));
        assert(indexes_of(lb, other) == indexes_of(la, other));
    }
}

/// What a collection's primary index finds is what the collection holds.
proof fn lemma_holds(
    pages: Map<PageId, Seq<u8>>,
    list: Seq<CollectionModel>,
    name: Seq<char>,
    id: Seq<u8>,
)
    requires
        sound(pages, list),
        exists_in(list, name),
    ensures
        ({
            let at = position(list, name) as int;
            &&& has_tree(pages, list[at].meta.index_root)
            &&& tree_entries(pages, list[at].meta.index_root) == Some(
                entries_at(pages, list[at].meta.index_root),
            )
            &&& find(entries_at(pages, list[at].meta.index_root), id) is Some <==> stored_in(
                pages,
                list,
                name,
            ).dom().contains(id)
            &&& collection_docs(pages, list[at]).dom().contains(id) <==> stored_in(
                pages,
                list,
                name,
            ).dom().contains(id)
            &&& meta_of(list, name) == Some(list[at].meta)
            &&& indexes_of(list, name) == list[at].indexes
            &&& names_distinct(list)
            &&& list[at].name == name
        }),
{
    let own = choose|own: Owners| sound_with(pages, list, own);
    let at = position(list, name) as int;
    lemma_position(list, name);
    lemma_take_apart(pages, list, own, at);
    lemma_tree_facts(pages, list[at].meta.index_root);
}

/// Why a document, as it is stored, can't go in: its id is there, the
/// collection isn't and can't be made, it is nested too deep or too long, or a
/// unique index refuses it. `there` is whether the collection exists, and
/// `broken` stands for a medium that failed or is full.
pub open spec fn insert_refused(
    e: Error,
    name: Seq<char>,
    there: bool,
    held: Map<Seq<u8>, DocModel>,
    indexes: Seq<IndexModel>,
    id: Seq<u8>,
    doc: DocModel,
    broken: bool,
) -> bool {
    broken || match e {
        Error::DuplicateId { collection, id: taken } => collection@ == name && taken@ == id
            && held.dom().contains(id),
        Error::Io(io) => io.kind == ErrorKind::InvalidInput && !held.dom().contains(id) && (!there
            && !short(name) || !within(doc, MAX_NESTING as int) || encoded(doc).len() > u32::MAX),
        Error::DuplicateValue { .. } => !held.dom().contains(id) && refused_with(
            e,
            name,
            held,
            indexes,
            id,
            doc,
        ),
        _ => false,
    }
}

/// Why a document can't become another: it isn't there, it is nested too deep
/// or too long, a unique index refuses it, or the medium failed.
pub open spec fn update_refused(
    e: Error,
    name: Seq<char>,
    held: Map<Seq<u8>, DocModel>,
    indexes: Seq<IndexModel>,
    id: Seq<u8>,
    doc: DocModel,
    broken: bool,
) -> bool {
    broken || match e {
        Error::NotFound { collection, id: missing } => collection@ == name && missing@ == id
            && !held.dom().contains(id),
        Error::Io(io) => io.kind == ErrorKind::InvalidInput && held.dom().contains(id) && (!within(
            doc,
            MAX_NESTING as int,
        ) || encoded(doc).len() > u32::MAX),
        Error::DuplicateValue { .. } => held.dom().contains(id) && refused_with(
            e,
            name,
            held,
            indexes,
            id,
            doc,
        ),
        _ => false,
    }
}

/// Why a change to a collection with these indexes is refused. Whatever else
/// is wrong, an insert of an id that is there and a change of one that isn't
/// are found first.
pub open spec fn op_refused(
    e: Error,
    op: WriteOp,
    there: bool,
    held: Map<Seq<u8>, DocModel>,
    indexes: Seq<IndexModel>,
    broken: bool,
) -> bool {
    match op {
        WriteOp::Insert(name, id, doc) => insert_refused(
            e,
            name@,
            there,
            held,
            indexes,
            id@,
            with_id_of(doc@, id@),
            broken,
        ),
        WriteOp::Update(name, id, doc) => update_refused(
            e,
            name@,
            held,
            indexes,
            id@,
            with_id_of(doc@, id@),
            broken,
        ),
        WriteOp::Delete(name, id) => broken || (e matches Error::NotFound {
            collection,
            id: missing,
        } && collection@ == name@ && missing@ == id@ && !held.dom().contains(id@)),
    }
}

/// What a change makes of a collection: an insert needs an id that isn't
/// there, an update or a delete one that is.
pub open spec fn op_applied(op: WriteOp, held: Map<Seq<u8>, DocModel>) -> Option<
    Map<Seq<u8>, DocModel>,
> {
    match op {
        WriteOp::Insert(_, id, doc) => if held.dom().contains(id@) {
            None
        } else {
            Some(held.insert(id@, with_id_of(doc@, id@)))
        },
        WriteOp::Update(_, id, doc) => if held.dom().contains(id@) {
            Some(held.insert(id@, with_id_of(doc@, id@)))
        } else {
            None
        },
        WriteOp::Delete(_, id) => if held.dom().contains(id@) {
            Some(held.remove(id@))
        } else {
            None
        },
    }
}

/// Whether no unique index refuses a change.
pub open spec fn op_unique(
    op: WriteOp,
    held: Map<Seq<u8>, DocModel>,
    indexes: Seq<IndexModel>,
) -> bool {
    match op {
        WriteOp::Insert(_, id, doc) => !refused(held, indexes, id@, with_id_of(doc@, id@)),
        WriteOp::Update(_, id, doc) => !refused(held, indexes, id@, with_id_of(doc@, id@)),
        WriteOp::Delete(_, _) => true,
    }
}

/// Whether a change writes no document that is nested too deep.
pub open spec fn op_shallow(op: WriteOp) -> bool {
    match op {
        WriteOp::Insert(_, id, doc) => within(with_id_of(doc@, id@), MAX_NESTING as int),
        WriteOp::Update(_, id, doc) => within(with_id_of(doc@, id@), MAX_NESTING as int),
        WriteOp::Delete(_, _) => true,
    }
}

/// Whether no two documents are equal in what a unique index compares.
pub open spec fn values_unique(held: Map<Seq<u8>, DocModel>, indexes: Seq<IndexModel>) -> bool {
    forall|k: int, a: Seq<u8>, b: Seq<u8>|
        0 <= k < indexes.len() && (#[trigger] indexes[k]).unique && a != b && held.dom().contains(a)
            && held.dom().contains(b) ==> !(#[trigger] documents_collide(
            held[a],
            held[b],
            indexes[k],
        ))
}

/// A unique index's constraint survives every change that is applied.
pub proof fn uniqueness_is_kept(
    op: WriteOp,
    held: Map<Seq<u8>, DocModel>,
    indexes: Seq<IndexModel>,
)
    requires
        values_unique(held, indexes),
        op_applied(op, held) is Some,
        op_unique(op, held, indexes),
    ensures
        values_unique(op_applied(op, held)->Some_0, indexes),
{
    let now = op_applied(op, held)->Some_0;
    assert forall|k: int, a: Seq<u8>, b: Seq<u8>|
        0 <= k < indexes.len() && (#[trigger] indexes[k]).unique && a != b && now.dom().contains(a)
            && now.dom().contains(b) implies !(#[trigger] documents_collide(
        now[a],
        now[b],
        indexes[k],
    )) by {
        let (id, doc) = match op {
            WriteOp::Insert(_, id, doc) => (id@, with_id_of(doc@, id@)),
            WriteOp::Update(_, id, doc) => (id@, with_id_of(doc@, id@)),
            WriteOp::Delete(_, id) => (id@, DocModel::Null),
        };
        if documents_collide(now[a], now[b], indexes[k]) {
            collisions_are_mutual(now[a], now[b], indexes[k]);
            if a != id && b != id {
                assert(documents_collide(held[a], held[b], indexes[k]));
            } else {
                let other = if a == id {
                    b
                } else {
                    a
                };
                assert(documents_collide(now[other], now[id], indexes[k]));
                let tuple = choose|tuple: Seq<DocModel>| #[trigger]
                    has_tuple(now[id], indexes[k], tuple) && collides(
                        now[other],
                        indexes[k],
                        tuple,
                    );
                assert(held[other] == now[other]);
                assert(collides(held[other], indexes[k], tuple));
                assert(would_conflict(held, indexes[k], id, doc));
            }
        }
    }
}

/// Whether a change holds a document that can be one: no field twice, text
/// that fits.
pub open spec fn op_valid(op: WriteOp) -> bool {
    match op {
        WriteOp::Insert(_, _, doc) => valid(doc@),
        WriteOp::Update(_, _, doc) => valid(doc@),
        WriteOp::Delete(_, _) => true,
    }
}

/// Nothing is left unused by a new collection.
proof fn lemma_made_used(
    before: Map<PageId, Seq<u8>>,
    after: Map<PageId, Seq<u8>>,
    list: Seq<CollectionModel>,
    c: CollectionModel,
)
    requires
        sound(before, list),
        all_used(before, list),
        root_made(before, after, c.meta.index_root),
    ensures
        all_used(after, list.push(c)),
{
    let own = choose|own: Owners| sound_with(before, list, own);
    let more = list.push(c);
    let root = c.meta.index_root;
    lemma_used_root(before, after, list, own, root);
    assert(roots_of(c)[0] == root);
    lemma_root_used(after, c, 0, root);
    assert forall|p: PageId| #[trigger] after.dom().contains(p) implies chain(after).contains(p)
        || used_in(after, more, p) by {
        if p == root {
            assert(more[list.len() as int] == c);
            assert(used_by(after, more[list.len() as int], p));
        } else if !chain(after).contains(p) {
            let i = choose|i: int| 0 <= i < list.len() && used_by(after, #[trigger] list[i], p);
            assert(more[i] == list[i]);
            assert(used_by(after, more[i], p));
        }
    }
}

/// A collection's metadata; the first insert makes the collection.
pub fn get_or_create_meta<S: PageStore>(
    catalog: &mut Catalog,
    store: &mut S,
    collection: &str,
) -> (r: Result<CollectionMeta, Error>)
    requires
        old(store).wf(),
    ensures
        final(store).wf(),
        final(store).reliable() == old(store).reliable(),
        old(store).packed() && r is Ok ==> final(store).packed(),
        r is Ok ==> exists_in(final(catalog)@, collection@) && indexes_of(
            final(catalog)@,
            collection@,
        ) == indexes_of(old(catalog)@, collection@),
        sound(old(store).pages(), old(catalog)@) ==> match r {
            Ok(meta) => {
                &&& meta_of(final(catalog)@, collection@) == Some(meta)
                &&& all_used(old(store).pages(), old(catalog)@) ==> all_used(
                    final(store).pages(),
                    final(catalog)@,
                )
                &&& all_packed(old(store).pages(), old(catalog)@) ==> all_packed(
                    final(store).pages(),
                    final(catalog)@,
                )
                &&& !exists_in(old(catalog)@, collection@) ==> meta.current_data_page == 0
                &&& written(
                    old(store).pages(),
                    old(catalog)@,
                    final(store).pages(),
                    final(catalog)@,
                    collection@,
                    stored_in(old(store).pages(), old(catalog)@, collection@),
                )
            },
            Err(e) => !exists_in(old(catalog)@, collection@) && (!old(store).reliable() || final(store).full() || (!short(collection@) && is_invalid_input(e))),
        },
{
    match catalog.get(collection) {
        Some(meta) => return Ok(*meta),
        None => {},
    }
    let ghost before = store.pages();
    let ghost list = catalog@;
    match catalog.create_collection(store, collection) {
        Ok(meta) => {
            proof {
                if sound(before, list) {
                    lemma_collection_made(
                        before,
                        store.pages(),
                        list,
                        collection@,
                        meta.index_root,
                    );
                    let c = CollectionModel { name: collection@, meta, indexes: seq![] };
                    lemma_made(before, store.pages(), list, c);
                    lemma_list_push(list, c);
                    if all_used(before, list) {
                        lemma_made_used(before, store.pages(), list, c);
                    }
                    if all_packed(before, list) {
                        let own = choose|own: Owners| sound_with(before, list, own);
                        lemma_packed_made(before, store.pages(), list, own, c);
                    }
                }
            }
            Ok(meta)
        },
        Err(e) => Err(e),
    }
}

/// Where document `id` of a collection lives: `Error::NotFound` if the
/// collection or the document doesn't exist.
fn locate<S: PageStore>(catalog: &Catalog, store: &S, collection: &str, id: DocId) -> (r: Result<
    (CollectionMeta, RecordLocation),
    Error,
>)
    requires
        store.wf(),
    ensures
        r is Ok ==> exists_in(catalog@, collection@),
        sound(store.pages(), catalog@) ==> match r {
            Ok((meta, loc)) => {
                &&& meta_of(catalog@, collection@) == Some(meta)
                &&& find(entries_at(store.pages(), meta.index_root), id@) == Some(loc)
                &&& stored_in(store.pages(), catalog@, collection@).dom().contains(id@)
            },
            Err(Error::NotFound { collection: name, id: missing }) => name@ == collection@
                && missing@ == id@ && !stored_in(
                store.pages(),
                catalog@,
                collection@,
            ).dom().contains(id@),
            Err(_) => !store.reliable(),
        },
{
    proof {
        if sound(store.pages(), catalog@) && exists_in(catalog@, collection@) {
            lemma_holds(store.pages(), catalog@, collection@, id@);
        }
    }
    let meta: CollectionMeta = match catalog.get(collection) {
        Some(meta) => *meta,
        None => return Err(Error::NotFound { collection: copy_text(collection), id }),
    };
    let key = key::primary(id);
    match BTreeIndex::new(meta.index_root).lookup(store, key.as_slice()) {
        Ok(Some(loc)) => Ok((meta, loc)),
        Ok(None) => Err(Error::NotFound { collection: copy_text(collection), id }),
        Err(e) => Err(Error::Io(e)),
    }
}

/// Inserts a document: `Error::DuplicateId` if its collection has the id.
fn apply_insert<S: PageStore>(
    catalog: &mut Catalog,
    store: &mut S,
    collection: &str,
    id: DocId,
    doc: &Document,
    Ghost(op): Ghost<WriteOp>,
) -> (r: Result<(), Error>)
    requires
        old(store).wf(),
        op matches WriteOp::Insert(n, i, d) && n@ == collection@ && i == id && d == *doc,
    ensures
        final(store).wf(),
        final(store).reliable() == old(store).reliable(),
        sound(old(store).pages(), old(catalog)@) && op_valid(op) ==> op_outcome(
            op,
            old(store).pages(),
            old(catalog)@,
            final(store).pages(),
            final(catalog)@,
            r,
            !old(store).reliable() || final(store).full(),
        ),
{
    let ghost before = store.pages();
    let ghost list = catalog@;
    let ghost good = sound(before, list) && op_valid(op);
    let ghost held = stored_in(before, list, collection@);
    let meta: CollectionMeta = match get_or_create_meta(catalog, store, collection) {
        Ok(meta) => meta,
        Err(e) => return Err(e),
    };
    let ghost made = store.pages();
    let ghost with = catalog@;
    let ghost at = position(with, collection@) as int;
    proof {
        if good {
            lemma_holds(made, with, collection@, id@);
            assert(indexes_of(with, collection@) == indexes_of(list, collection@));
        }
    }
    let key = key::primary(id);
    match BTreeIndex::new(meta.index_root).lookup(store, key.as_slice()) {
        Ok(Some(_)) => return Err(Error::DuplicateId { collection: copy_text(collection), id }),
        Ok(None) => {},
        Err(e) => return Err(Error::Io(e)),
    }
    let doc = with_id(doc.clone(), id);
    match refuse_too_deep(collection, &id, &doc) {
        Ok(()) => {},
        Err(e) => return Err(e),
    }
    proof {
        if good {
            lemma_with_id_valid(op->Insert_2@, id@);
            within_is_within_depth(doc@, MAX_NESTING as int, MAX_NESTING as int);
        }
    }
    let current: PageId = match insert_into(
        store,
        collection,
        meta,
        catalog.indexes(collection),
        id,
        &doc,
        Ghost(with),
        Ghost(at),
    ) {
        Ok(current) => current,
        Err(e) => return Err(e),
    };
    let ghost were = collection_docs(made, with[at]);
    let ghost loc = choose|loc: RecordLocation|
        #![trigger were.insert(id@, (loc, doc@))]
        arriving(store.pages(), with, at, current, were.insert(id@, (loc, doc@)));
    let ghost docs = were.insert(id@, (loc, doc@));
    let ghost after = store.pages();
    match save_current_data_page(
        catalog,
        store,
        collection,
        &meta,
        current,
        Ghost(at),
        Ghost(docs),
    ) {
        Ok(()) => {
            proof {
                if good {
                    lemma_others_chain(made, made, after, store.pages(), with, at);
                    lemma_written(made, store.pages(), with, at, current, docs);
                    assert(contents_of(docs) =~= held.insert(id@, doc@));
                    lemma_written_twice(
                        before,
                        list,
                        made,
                        with,
                        store.pages(),
                        catalog@,
                        collection@,
                        held,
                        contents_of(docs),
                    );
                }
            }
            Ok(())
        },
        Err(e) => Err(e),
    }
}

/// Replaces a document: `Error::NotFound` if its collection hasn't the id.
fn apply_update<S: PageStore>(
    catalog: &mut Catalog,
    store: &mut S,
    collection: &str,
    id: DocId,
    doc: &Document,
    Ghost(op): Ghost<WriteOp>,
) -> (r: Result<(), Error>)
    requires
        old(store).wf(),
        op matches WriteOp::Update(n, i, d) && n@ == collection@ && i == id && d == *doc,
    ensures
        final(store).wf(),
        final(store).reliable() == old(store).reliable(),
        sound(old(store).pages(), old(catalog)@) && op_valid(op) ==> op_outcome(
            op,
            old(store).pages(),
            old(catalog)@,
            final(store).pages(),
            final(catalog)@,
            r,
            !old(store).reliable() || final(store).full(),
        ),
{
    let ghost before = store.pages();
    let ghost list = catalog@;
    let ghost good = sound(before, list) && op_valid(op);
    let ghost held = stored_in(before, list, collection@);
    let ghost at = position(list, collection@) as int;
    proof {
        if good && exists_in(list, collection@) {
            lemma_holds(before, list, collection@, id@);
        }
    }
    let (meta, loc) = match locate(catalog, store, collection, id) {
        Ok(found) => found,
        Err(e) => return Err(e),
    };
    let doc = with_id(doc.clone(), id);
    match refuse_too_deep(collection, &id, &doc) {
        Ok(()) => {},
        Err(e) => return Err(e),
    }
    proof {
        if good {
            lemma_with_id_valid(op->Update_2@, id@);
            within_is_within_depth(doc@, MAX_NESTING as int, MAX_NESTING as int);
        }
    }
    let current: PageId = match replace_in(
        store,
        collection,
        meta,
        catalog.indexes(collection),
        id,
        loc,
        &doc,
        Ghost(list),
        Ghost(at),
    ) {
        Ok(current) => current,
        Err(e) => return Err(e),
    };
    let ghost were = collection_docs(before, list[at]);
    let ghost now = choose|now: RecordLocation|
        #![trigger were.insert(id@, (now, doc@))]
        arriving(store.pages(), list, at, current, were.insert(id@, (now, doc@)));
    let ghost docs = were.insert(id@, (now, doc@));
    let ghost after = store.pages();
    match save_current_data_page(
        catalog,
        store,
        collection,
        &meta,
        current,
        Ghost(at),
        Ghost(docs),
    ) {
        Ok(()) => {
            proof {
                if good {
                    lemma_others_chain(before, before, after, store.pages(), list, at);
                    lemma_written(before, store.pages(), list, at, current, docs);
                    assert(contents_of(docs) =~= held.insert(id@, doc@));
                }
            }
            Ok(())
        },
        Err(e) => Err(e),
    }
}

/// Deletes a document: `Error::NotFound` if its collection hasn't the id.
fn apply_delete<S: PageStore>(
    catalog: &mut Catalog,
    store: &mut S,
    collection: &str,
    id: DocId,
    Ghost(op): Ghost<WriteOp>,
) -> (r: Result<(), Error>)
    requires
        old(store).wf(),
        op matches WriteOp::Delete(n, i) && n@ == collection@ && i == id,
    ensures
        final(store).wf(),
        final(store).reliable() == old(store).reliable(),
        sound(old(store).pages(), old(catalog)@) && op_valid(op) ==> op_outcome(
            op,
            old(store).pages(),
            old(catalog)@,
            final(store).pages(),
            final(catalog)@,
            r,
            !old(store).reliable() || final(store).full(),
        ),
{
    let ghost before = store.pages();
    let ghost list = catalog@;
    let ghost good = sound(before, list);
    let ghost held = stored_in(before, list, collection@);
    let ghost at = position(list, collection@) as int;
    proof {
        if good && exists_in(list, collection@) {
            lemma_holds(before, list, collection@, id@);
        }
    }
    let (meta, loc) = match locate(catalog, store, collection, id) {
        Ok(found) => found,
        Err(e) => return Err(e),
    };
    match delete_from(
        store,
        collection,
        meta,
        catalog.indexes(collection),
        id,
        loc,
        Ghost(list),
        Ghost(at),
    ) {
        Ok(()) => {
            proof {
                if good {
                    let current = meta.current_data_page;
                    let docs = collection_docs(before, list[at]).remove(id@);
                    assert(with_current(list, at, current) =~= list);
                    lemma_written(before, store.pages(), list, at, current, docs);
                    assert(contents_of(docs) =~= held.remove(id@));
                }
            }
            Ok(())
        },
        Err(e) => Err(e),
    }
}

/// What comes of a change to a sound database: it is applied and nothing else
/// changes, or it is refused for a reason.
pub open spec fn op_outcome(
    op: WriteOp,
    before: Map<PageId, Seq<u8>>,
    list: Seq<CollectionModel>,
    after: Map<PageId, Seq<u8>>,
    now: Seq<CollectionModel>,
    r: Result<(), Error>,
    broken: bool,
) -> bool {
    let held = stored_in(before, list, op.name());
    match r {
        Ok(()) => op_applied(op, held) is Some && op_shallow(op) && op_unique(
            op,
            held,
            indexes_of(list, op.name()),
        ) && written(before, list, after, now, op.name(), op_applied(op, held)->Some_0),
        Err(e) => op_refused(
            e,
            op,
            exists_in(list, op.name()),
            held,
            indexes_of(list, op.name()),
            broken,
        ),
    }
}

/// Applies one change to its collection and to all of its indexes. After an
/// error the store may be half changed: the caller rolls it back.
pub fn apply_write_op<S: PageStore>(catalog: &mut Catalog, store: &mut S, op: &WriteOp) -> (r:
    Result<(), Error>)
    requires
        old(store).wf(),
    ensures
        final(store).wf(),
        final(store).reliable() == old(store).reliable(),
        sound(old(store).pages(), old(catalog)@) && op_valid(*op) ==> op_outcome(
            *op,
            old(store).pages(),
            old(catalog)@,
            final(store).pages(),
            final(catalog)@,
            r,
            !old(store).reliable() || final(store).full(),
        ),
{
    match op {
        WriteOp::Insert(collection, id, doc) => apply_insert(
            catalog,
            store,
            collection.as_str(),
            *id,
            doc,
            Ghost(*op),
        ),
        WriteOp::Update(collection, id, doc) => apply_update(
            catalog,
            store,
            collection.as_str(),
            *id,
            doc,
            Ghost(*op),
        ),
        WriteOp::Delete(collection, id) => apply_delete(
            catalog,
            store,
            collection.as_str(),
            *id,
            Ghost(*op),
        ),
    }
}

/// Stores a document as it is, under an id that isn't there. After an error
/// the store may be half changed.
pub fn insert_stored<S: PageStore>(
    catalog: &mut Catalog,
    store: &mut S,
    collection: &str,
    id: DocId,
    doc: &Document,
) -> (r: Result<(), Error>)
    requires
        old(store).wf(),
    ensures
        final(store).wf(),
        final(store).reliable() == old(store).reliable(),
        old(store).packed() && r is Ok ==> final(store).packed(),
        sound(old(store).pages(), old(catalog)@) && exists_in(old(catalog)@, collection@)
            && storable(doc@) && !stored_in(
            old(store).pages(),
            old(catalog)@,
            collection@,
        ).dom().contains(id@) ==> ({
            let held = stored_in(old(store).pages(), old(catalog)@, collection@);
            match r {
                Ok(()) => written(
                    old(store).pages(),
                    old(catalog)@,
                    final(store).pages(),
                    final(catalog)@,
                    collection@,
                    held.insert(id@, doc@),
                ) && keeps_used(
                    old(store).pages(),
                    old(catalog)@,
                    final(store).pages(),
                    final(catalog)@,
                    position(old(catalog)@, collection@) as int,
                ) && keeps_packed(
                    old(store).pages(),
                    old(catalog)@,
                    final(store).pages(),
                    final(catalog)@,
                    position(old(catalog)@, collection@) as int,
                    id@,
                ) && position(final(catalog)@, collection@) == position(
                    old(catalog)@,
                    collection@,
                ),
                Err(e) => write_error(
                    e,
                    collection@,
                    held,
                    indexes_of(old(catalog)@, collection@),
                    id@,
                    doc@,
                    !old(store).reliable() || final(store).full(),
                ),
            }
        }),
{
    let ghost before = store.pages();
    let ghost list = catalog@;
    let ghost at = position(list, collection@) as int;
    let ghost held = stored_in(before, list, collection@);
    let ghost good = sound(before, list) && exists_in(list, collection@) && storable(doc@)
        && !held.dom().contains(id@);
    proof {
        if good {
            lemma_holds(before, list, collection@, id@);
        }
    }
    let meta: CollectionMeta = match catalog.get(collection) {
        Some(meta) => *meta,
        None => return Err(Error::NotFound { collection: copy_text(collection), id }),
    };
    let current: PageId = match insert_into(
        store,
        collection,
        meta,
        catalog.indexes(collection),
        id,
        doc,
        Ghost(list),
        Ghost(at),
    ) {
        Ok(current) => current,
        Err(e) => return Err(e),
    };
    let ghost were = collection_docs(before, list[at]);
    let ghost loc = choose|loc: RecordLocation|
        #![trigger were.insert(id@, (loc, doc@))]
        arriving(store.pages(), list, at, current, were.insert(id@, (loc, doc@)));
    let ghost docs = were.insert(id@, (loc, doc@));
    let ghost after = store.pages();
    match save_current_data_page(
        catalog,
        store,
        collection,
        &meta,
        current,
        Ghost(at),
        Ghost(docs),
    ) {
        Ok(()) => {
            proof {
                if good {
                    lemma_others_chain(before, before, after, store.pages(), list, at);
                    lemma_written(before, store.pages(), list, at, current, docs);
                    assert(contents_of(docs) =~= held.insert(id@, doc@));
                    lemma_position_stays(list, at, current, collection@);
                }
            }
            Ok(())
        },
        Err(e) => Err(e),
    }
}

} // verus!

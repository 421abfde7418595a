//! What a database's pages hold together: which page belongs to what, and
//! how the documents and the indexes agree.

use crate::catalog::chain::{catalog_written, chain, is_catalog_page};
use crate::catalog::entry::IndexModel;
use crate::catalog::{agrees, lemma_agrees_frame, CollectionModel};
use crate::data::{
    data_slot, is_data_page, is_overflow_page, lemma_record_chain, lemma_record_frame, record_at,
    record_chain, storable,
};
use crate::document::DocModel;
use crate::index::btree::{lemma_tree_at, tree_entries, tree_grown, tree_pages};
use crate::index::entries::{find, has_key, sorted};
use crate::index::key::{key_id, MAX_COMPOUND_FIELDS};
use crate::index::tree::{
    contents, has_tree, ids, is_tree, lemma_contents_in_order, lemma_stored_frame, lemma_stored_ids,
    tree_at, Entry,
};
use crate::secondary::doc_has_key;
use crate::storage::{PageId, RecordLocation};
use vstd::prelude::*;

verus! {

/// What a page belongs to: the catalog, an index by its root, or the records
/// of the collection whose primary index has this root.
pub ghost enum Owner {
    Catalog,
    Tree(PageId),
    Data(PageId),
}

/// The owners of pages.
pub type Owners = Map<PageId, Owner>;

/// Whether an index is whole and all its pages are its own.
pub open spec fn tree_owned(pages: Map<PageId, Seq<u8>>, own: Owners, root: PageId) -> bool {
    &&& has_tree(pages, root)
    &&& forall|p: PageId| #[trigger]
        tree_pages(pages, root).contains(p) ==> own[p] == Owner::Tree(root)
}

/// The entries of an index that is whole.
pub open spec fn entries_at(pages: Map<PageId, Seq<u8>>, root: PageId) -> Seq<Entry> {
    contents(tree_at(pages, root))
}

/// Whether the record of a primary index's entry is there, and all its pages
/// belong to the collection.
pub open spec fn record_owned(
    pages: Map<PageId, Seq<u8>>,
    own: Owners,
    root: PageId,
    entry: Entry,
) -> bool {
    &&& entry.0.len() == 16
    &&& record_at(pages, entry.1) matches Some((id, doc)) && id == entry.0 && storable(doc)
    &&& own[entry.1.page] == Owner::Data(root)
    &&& record_chain(pages, entry.1) is Some
    &&& forall|p: PageId| #[trigger]
        record_chain(pages, entry.1)->Some_0.contains(p) ==> own[p] == Owner::Data(root)
}

/// Whether two records share no overflow page.
pub open spec fn chains_apart(
    pages: Map<PageId, Seq<u8>>,
    a: RecordLocation,
    b: RecordLocation,
) -> bool {
    forall|p: PageId|
        !(#[trigger] record_chain(pages, a)->Some_0.contains(p) && record_chain(
            pages,
            b,
        )->Some_0.contains(p))
}

/// Whether every record of a collection is there.
#[verifier::opaque]
pub open spec fn records_owned(
    pages: Map<PageId, Seq<u8>>,
    own: Owners,
    root: PageId,
    entries: Seq<Entry>,
    current: PageId,
) -> bool {
    &&& forall|i: int|
        0 <= i < entries.len() ==> record_owned(pages, own, root, #[trigger] entries[i])
    &&& forall|i: int, j: int|
        0 <= i < entries.len() && 0 <= j < entries.len() && i != j ==> chains_apart(
            pages,
            (#[trigger] entries[i]).1,
            (#[trigger] entries[j]).1,
        )
    &&& current != 0 ==> is_data_page(pages, current) && own[current] == Owner::Data(root)
}

/// The documents of a collection, by id, each with where it is.
pub type Docs = Map<Seq<u8>, (RecordLocation, DocModel)>;

/// The documents that a primary index leads to.
pub open spec fn docs_at(pages: Map<PageId, Seq<u8>>, entries: Seq<Entry>) -> Docs {
    Map::new(
        |id: Seq<u8>| find(entries, id) is Some,
        |id: Seq<u8>|
            (
                find(entries, id)->Some_0,
                record_at(pages, find(entries, id)->Some_0)->Some_0.1,
            ),
    )
}

/// Where a secondary index's key should lead.
pub open spec fn expected(docs: Docs, index: IndexModel, key: Seq<u8>) -> Option<RecordLocation> {
    let id = key_id(key);
    if key.len() >= 16 && docs.dom().contains(id) && doc_has_key(docs[id].1, index, id, key) {
        Some(docs[id].0)
    } else {
        None
    }
}

/// Whether a secondary index has exactly the keys of the documents, each
/// leading to its document.
#[verifier::opaque]
pub open spec fn index_true(entries: Seq<Entry>, docs: Docs, index: IndexModel) -> bool {
    forall|key: Seq<u8>| #[trigger] find(entries, key) == expected(docs, index, key)
}

/// The roots of a collection's indexes, the primary one first.
pub open spec fn roots_of(c: CollectionModel) -> Seq<PageId> {
    seq![c.meta.index_root] + Seq::new(c.indexes.len(), |k: int| c.indexes[k].root)
}

/// The documents of a collection.
pub open spec fn collection_docs(pages: Map<PageId, Seq<u8>>, c: CollectionModel) -> Docs {
    docs_at(pages, entries_at(pages, c.meta.index_root))
}

/// Whether a secondary index is whole, its own, and true.
pub open spec fn index_sound(
    pages: Map<PageId, Seq<u8>>,
    own: Owners,
    docs: Docs,
    index: IndexModel,
) -> bool {
    &&& 1 <= index.fields.len() <= MAX_COMPOUND_FIELDS
    &&& tree_owned(pages, own, index.root)
    &&& index_true(entries_at(pages, index.root), docs, index)
}

/// Whether a collection is as it should be.
#[verifier::opaque]
pub open spec fn collection_sound(
    pages: Map<PageId, Seq<u8>>,
    own: Owners,
    c: CollectionModel,
) -> bool {
    &&& tree_owned(pages, own, c.meta.index_root)
    &&& records_owned(
        pages,
        own,
        c.meta.index_root,
        entries_at(pages, c.meta.index_root),
        c.meta.current_data_page,
    )
    &&& forall|k: int|
        0 <= k < c.indexes.len() ==> index_sound(
            pages,
            own,
            collection_docs(pages, c),
            #[trigger] c.indexes[k],
        )
}

/// Whether no two indexes of the database have the same root.
#[verifier::opaque]
pub open spec fn roots_distinct(list: Seq<CollectionModel>) -> bool {
    forall|i: int, a: int, j: int, b: int|
        #![trigger roots_of(list[i])[a], roots_of(list[j])[b]]
        0 <= i < list.len() && 0 <= j < list.len() && 0 <= a < roots_of(list[i]).len() && 0 <= b
            < roots_of(list[j]).len() && roots_of(list[i])[a] == roots_of(list[j])[b] ==> i == j
            && a == b
}

/// Whether a database is as it should be, with these owners.
pub open spec fn sound_with(
    pages: Map<PageId, Seq<u8>>,
    list: Seq<CollectionModel>,
    own: Owners,
) -> bool {
    &&& agrees(list, pages)
    &&& forall|p: PageId| #[trigger] chain(pages).contains(p) ==> own[p] == Owner::Catalog
    &&& roots_distinct(list)
    &&& forall|i: int| 0 <= i < list.len() ==> collection_sound(pages, own, #[trigger] list[i])
}

/// Whether a database is as it should be: the catalog pages hold what the
/// catalog says; every collection's documents are where its primary index
/// says; every secondary index has exactly the keys of the documents; and no
/// page belongs to two of them.
pub open spec fn sound(pages: Map<PageId, Seq<u8>>, list: Seq<CollectionModel>) -> bool {
    exists|own: Owners| sound_with(pages, list, own)
}

// ---------------------------------------------------------------------
// What stands when something else changes.

/// A change to what `tag` owns: the other pages stand, and stay where they
/// belong.
pub open spec fn step(
    before: Map<PageId, Seq<u8>>,
    after: Map<PageId, Seq<u8>>,
    own: Owners,
    now: Owners,
    tag: Owner,
) -> bool {
    forall|p: PageId|
        #![trigger before.dom().contains(p)]
        #![trigger own[p]]
        before.dom().contains(p) && own[p] != tag ==> after.dom().contains(p) && after[p]
            == before[p] && now[p] == own[p]
}

/// The owners once new pages belong to `tag`.
pub open spec fn reowned(before: Map<PageId, Seq<u8>>, own: Owners, tag: Owner) -> Owners {
    Map::new(
        |p: PageId| true,
        |p: PageId|
            if before.dom().contains(p) {
                own[p]
            } else {
                tag
            },
    )
}

/// An index's pages are in the store, and its entries in order.
pub proof fn lemma_tree_facts(pages: Map<PageId, Seq<u8>>, root: PageId)
    requires
        has_tree(pages, root),
    ensures
        is_tree(pages, root, tree_at(pages, root)),
        tree_entries(pages, root) == Some(entries_at(pages, root)),
        sorted(entries_at(pages, root)),
        forall|p: PageId| #[trigger]
            tree_pages(pages, root).contains(p) ==> pages.dom().contains(p),
{
    let t = tree_at(pages, root);
    lemma_contents_in_order(t, seq![], None);
    assert forall|p: PageId| #[trigger] tree_pages(pages, root).contains(
        p,
    ) implies pages.dom().contains(p) by {
        lemma_stored_ids(pages, t, p);
    }
}

/// An index stands where its pages do.
pub proof fn lemma_tree_stands(
    before: Map<PageId, Seq<u8>>,
    after: Map<PageId, Seq<u8>>,
    own: Owners,
    now: Owners,
    tag: Owner,
    root: PageId,
)
    requires
        tree_owned(before, own, root),
        step(before, after, own, now, tag),
        tag != Owner::Tree(root),
    ensures
        tree_owned(after, now, root),
        tree_at(after, root) == tree_at(before, root),
        entries_at(after, root) == entries_at(before, root),
        tree_pages(after, root) == tree_pages(before, root),
{
    lemma_tree_facts(before, root);
    let t = tree_at(before, root);
    let pids = ids(t);
    assert forall|p: PageId| #[trigger] pids.contains(p) implies after.dom().contains(p)
        && after[p] == before[p] && now[p] == own[p] by {
        assert(tree_pages(before, root).contains(p));
        assert(own[p] == Owner::Tree(root));
    }
    lemma_stored_frame(before, after, t);
    assert(is_tree(after, root, t));
    lemma_tree_at(after, root, t);
    assert forall|p: PageId| #[trigger] tree_pages(after, root).contains(p) implies now[p]
        == Owner::Tree(root) by {
        assert(pids.contains(p));
        assert(tree_pages(before, root).contains(p));
    }
}

/// A record stands where its pages do.
pub proof fn lemma_record_stands(
    before: Map<PageId, Seq<u8>>,
    after: Map<PageId, Seq<u8>>,
    own: Owners,
    now: Owners,
    tag: Owner,
    root: PageId,
    entry: Entry,
)
    requires
        record_owned(before, own, root, entry),
        step(before, after, own, now, tag),
        tag != Owner::Data(root),
    ensures
        record_owned(after, now, root, entry),
        record_at(after, entry.1) == record_at(before, entry.1),
        record_chain(after, entry.1) == record_chain(before, entry.1),
{
    let loc = entry.1;
    let pids = record_chain(before, loc)->Some_0;
    lemma_record_chain(before, loc);
    assert(before.dom().contains(loc.page));
    assert(own[loc.page] == Owner::Data(root));
    assert forall|i: int| 0 <= i < pids.len() implies after.dom().contains(#[trigger] pids[i])
        && after[pids[i]] == before[pids[i]] by {
        assert(pids.contains(pids[i]));
        assert(is_overflow_page(before, pids[i]));
    }
    assert(data_slot(after, loc) == data_slot(before, loc));
    lemma_record_frame(before, after, loc);
    assert forall|p: PageId| #[trigger] record_chain(after, loc)->Some_0.contains(p) implies now[p]
        == Owner::Data(root) by {
        assert(pids.contains(p));
        let i = choose|i: int| 0 <= i < pids.len() && pids[i] == p;
        assert(is_overflow_page(before, pids[i]));
        assert(own[p] == Owner::Data(root));
    }
}

/// A collection's records stand where their pages do.
pub proof fn lemma_records_stand(
    before: Map<PageId, Seq<u8>>,
    after: Map<PageId, Seq<u8>>,
    own: Owners,
    now: Owners,
    tag: Owner,
    root: PageId,
    entries: Seq<Entry>,
    current: PageId,
)
    requires
        records_owned(before, own, root, entries, current),
        sorted(entries),
        step(before, after, own, now, tag),
        tag != Owner::Data(root),
    ensures
        records_owned(after, now, root, entries, current),
        docs_at(after, entries) == docs_at(before, entries),
{
    reveal(records_owned);
    assert forall|i: int| 0 <= i < entries.len() implies record_owned(
        after,
        now,
        root,
        #[trigger] entries[i],
    ) && record_at(after, entries[i].1) == record_at(before, entries[i].1) && record_chain(
        after,
        entries[i].1,
    ) == record_chain(before, entries[i].1) by {
        lemma_record_stands(before, after, own, now, tag, root, entries[i]);
    }
    assert forall|i: int, j: int|
        0 <= i < entries.len() && 0 <= j < entries.len() && i != j implies chains_apart(
        after,
        (#[trigger] entries[i]).1,
        (#[trigger] entries[j]).1,
    ) by {
        assert(chains_apart(before, entries[i].1, entries[j].1));
        assert(record_owned(after, now, root, entries[i]));
        assert(record_owned(after, now, root, entries[j]));
        assert forall|p: PageId| !(#[trigger] record_chain(after, entries[i].1)->Some_0.contains(p)
            && record_chain(after, entries[j].1)->Some_0.contains(p)) by {
            assert(!(record_chain(before, entries[i].1)->Some_0.contains(p) && record_chain(
                before,
                entries[j].1,
            )->Some_0.contains(p)));
        }
    }
    if current != 0 {
        assert(before.dom().contains(current));
        assert(own[current] == Owner::Data(root));
    }
    lemma_docs_same(before, after, entries);
}

/// The documents are the same where every record is.
pub proof fn lemma_docs_same(
    before: Map<PageId, Seq<u8>>,
    after: Map<PageId, Seq<u8>>,
    entries: Seq<Entry>,
)
    requires
        forall|i: int|
            0 <= i < entries.len() ==> record_at(after, (#[trigger] entries[i]).1) == record_at(
                before,
                entries[i].1,
            ),
    ensures
        docs_at(after, entries) == docs_at(before, entries),
{
    let a = docs_at(before, entries);
    let b = docs_at(after, entries);
    assert forall|id: Seq<u8>| #[trigger] a.dom().contains(id) implies a[id] == b[id] by {
        assert(has_key(entries, id));
        crate::index::entries::lemma_key_position(entries, id);
        let at = crate::index::entries::key_position(entries, id);
        assert(entries[at].1 == find(entries, id)->Some_0);
    }
    assert(a =~= b);
}

/// A collection stands where its pages do.
pub proof fn lemma_collection_stands(
    before: Map<PageId, Seq<u8>>,
    after: Map<PageId, Seq<u8>>,
    own: Owners,
    now: Owners,
    tag: Owner,
    c: CollectionModel,
)
    requires
        collection_sound(before, own, c),
        step(before, after, own, now, tag),
        tag != Owner::Data(c.meta.index_root),
        forall|a: int| 0 <= a < roots_of(c).len() ==> tag != Owner::Tree(#[trigger] roots_of(c)[a]),
    ensures
        collection_sound(after, now, c),
        collection_docs(after, c) == collection_docs(before, c),
{
    reveal(collection_sound);
    let root = c.meta.index_root;
    assert(roots_of(c)[0] == root);
    lemma_tree_facts(before, root);
    lemma_tree_stands(before, after, own, now, tag, root);
    lemma_records_stand(
        before,
        after,
        own,
        now,
        tag,
        root,
        entries_at(before, root),
        c.meta.current_data_page,
    );
    assert forall|k: int| 0 <= k < c.indexes.len() implies index_sound(
        after,
        now,
        collection_docs(after, c),
        #[trigger] c.indexes[k],
    ) by {
        assert(roots_of(c)[k + 1] == c.indexes[k].root);
        assert(index_sound(before, own, collection_docs(before, c), c.indexes[k]));
        lemma_tree_stands(before, after, own, now, tag, c.indexes[k].root);
    }
}

/// A change to an index is a step.
pub proof fn lemma_tree_step(
    before: Map<PageId, Seq<u8>>,
    after: Map<PageId, Seq<u8>>,
    own: Owners,
    root: PageId,
)
    requires
        tree_owned(before, own, root),
        has_tree(after, root),
        tree_grown(before, after, root),
    ensures
        step(before, after, own, reowned(before, own, Owner::Tree(root)), Owner::Tree(root)),
        tree_owned(after, reowned(before, own, Owner::Tree(root)), root),
{
    let tag = Owner::Tree(root);
    let now = reowned(before, own, tag);
    assert forall|p: PageId|
        #![trigger before.dom().contains(p)]
        #![trigger own[p]]
        before.dom().contains(p) && own[p] != tag implies after.dom().contains(p) && after[p]
        == before[p] && now[p] == own[p] by {
        assert(!tree_pages(before, root).contains(p));
    }
    assert forall|p: PageId| #[trigger] tree_pages(after, root).contains(p) implies now[p]
        == tag by {
        assert(tree_pages(before, root).contains(p) || !before.dom().contains(p));
    }
}

/// A change to the catalog is a step.
pub proof fn lemma_catalog_step(
    before: Map<PageId, Seq<u8>>,
    after: Map<PageId, Seq<u8>>,
    own: Owners,
)
    requires
        forall|p: PageId| #[trigger] chain(before).contains(p) ==> own[p] == Owner::Catalog,
        catalog_written(before, after),
    ensures
        step(before, after, own, reowned(before, own, Owner::Catalog), Owner::Catalog),
        forall|p: PageId| #[trigger]
            chain(after).contains(p) ==> reowned(before, own, Owner::Catalog)[p] == Owner::Catalog,
{
    let now = reowned(before, own, Owner::Catalog);
    assert forall|p: PageId|
        #![trigger before.dom().contains(p)]
        #![trigger own[p]]
        before.dom().contains(p) && own[p] != Owner::Catalog implies after.dom().contains(p)
        && after[p] == before[p] && now[p] == own[p] by {
        assert(!chain(before).contains(p));
    }
    assert forall|p: PageId| #[trigger] chain(after).contains(p) implies now[p]
        == Owner::Catalog by {
        assert(chain(before).contains(p) || !before.dom().contains(p));
    }
}

/// The catalog stands where its pages do.
pub proof fn lemma_catalog_stands(
    before: Map<PageId, Seq<u8>>,
    after: Map<PageId, Seq<u8>>,
    own: Owners,
    now: Owners,
    tag: Owner,
    list: Seq<CollectionModel>,
)
    requires
        agrees(list, before),
        forall|p: PageId| #[trigger] chain(before).contains(p) ==> own[p] == Owner::Catalog,
        step(before, after, own, now, tag),
        tag != Owner::Catalog,
    ensures
        agrees(list, after),
        chain(after) == chain(before),
        forall|p: PageId| #[trigger] chain(after).contains(p) ==> now[p] == Owner::Catalog,
{
    let cids = chain(before);
    assert forall|p: PageId| #[trigger] cids.contains(p) implies after.dom().contains(p)
        && after[p] == before[p] && now[p] == own[p] by {
        let i = choose|i: int| 0 <= i < cids.len() && cids[i] == p;
        assert(is_catalog_page(before, cids[i]));
        assert(own[p] == Owner::Catalog);
    }
    lemma_agrees_frame(list, before, after);
}

} // verus!

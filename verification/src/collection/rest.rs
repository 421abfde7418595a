//! What stands while one collection is being written to.

use super::state::{
    collection_docs, collection_sound, docs_at, entries_at, index_sound, index_true,
    lemma_catalog_stands, lemma_catalog_step, lemma_collection_stands, lemma_records_stand,
    lemma_tree_facts, lemma_tree_stands, records_owned, reowned, roots_distinct, roots_of, sound,
    sound_with, step, tree_owned, Docs, Owner, Owners,
};
use super::write::{lemma_root_apart, others_same, underway};
use crate::catalog::chain::{catalog_written, chain};
use crate::catalog::entry::IndexModel;
use crate::catalog::{agrees, root_made, CollectionMeta, CollectionModel};
use crate::index::btree::{tree_entries, tree_pages};
use crate::index::entries::sorted;
use crate::index::key::MAX_COMPOUND_FIELDS;
use crate::index::tree::{has_tree, Entry};
use crate::storage::PageId;
use vstd::prelude::*;

verus! {

/// Everything but collection `at`'s records and primary index is as it
/// should be, its secondary indexes with regard to `docs`.
#[verifier::opaque]
pub open spec fn rest_sound(
    pages: Map<PageId, Seq<u8>>,
    list: Seq<CollectionModel>,
    own: Owners,
    at: int,
    docs: Docs,
) -> bool {
    &&& 0 <= at < list.len()
    &&& agrees(list, pages)
    &&& forall|p: PageId| #[trigger] chain(pages).contains(p) ==> own[p] == Owner::Catalog
    &&& roots_distinct(list)
    &&& forall|i: int|
        0 <= i < list.len() && i != at ==> collection_sound(pages, own, #[trigger] list[i])
    &&& forall|j: int|
        0 <= j < list[at].indexes.len() ==> index_sound(
            pages,
            own,
            docs,
            #[trigger] list[at].indexes[j],
        )
}

/// A sound database, taken apart at one collection.
pub proof fn lemma_take_apart(
    pages: Map<PageId, Seq<u8>>,
    list: Seq<CollectionModel>,
    own: Owners,
    at: int,
)
    requires
        sound_with(pages, list, own),
        0 <= at < list.len(),
    ensures
        ({
            let c = list[at];
            let root = c.meta.index_root;
            let entries = entries_at(pages, root);
            &&& rest_sound(pages, list, own, at, collection_docs(pages, c))
            &&& tree_owned(pages, own, root)
            &&& has_tree(pages, root)
            &&& sorted(entries)
            &&& records_owned(pages, own, root, entries, c.meta.current_data_page)
            &&& docs_at(pages, entries) == collection_docs(pages, c)
        }),
{
    reveal(rest_sound);
    reveal(collection_sound);
    assert(collection_sound(pages, own, list[at]));
    lemma_tree_facts(pages, list[at].meta.index_root);
}

/// A change to the collection's own records or primary index leaves the rest
/// standing.
pub proof fn lemma_rest_stands(
    before: Map<PageId, Seq<u8>>,
    after: Map<PageId, Seq<u8>>,
    list: Seq<CollectionModel>,
    own: Owners,
    now: Owners,
    tag: Owner,
    at: int,
    docs: Docs,
)
    requires
        rest_sound(before, list, own, at, docs),
        step(before, after, own, now, tag),
        tag == Owner::Data(list[at].meta.index_root) || tag == Owner::Tree(
            list[at].meta.index_root,
        ),
    ensures
        rest_sound(after, list, now, at, docs),
        others_same(before, after, list, at),
{
    reveal(rest_sound);
    let c = list[at];
    let root = c.meta.index_root;
    assert(roots_of(c)[0] == root);
    lemma_catalog_stands(before, after, own, now, tag, list);
    assert forall|i: int| 0 <= i < list.len() && i != at implies collection_sound(
        after,
        now,
        #[trigger] list[i],
    ) && collection_docs(after, list[i]) == collection_docs(before, list[i]) by {
        assert forall|a: int| 0 <= a < roots_of(list[i]).len() implies tag != Owner::Tree(
            #[trigger] roots_of(list[i])[a],
        ) by {
            lemma_root_apart(list, at, 0, i, a);
        }
        assert(roots_of(list[i])[0] == list[i].meta.index_root);
        lemma_root_apart(list, at, 0, i, 0);
        lemma_collection_stands(before, after, own, now, tag, list[i]);
    }
    assert forall|j: int| 0 <= j < c.indexes.len() implies index_sound(
        after,
        now,
        docs,
        #[trigger] c.indexes[j],
    ) by {
        assert(index_sound(before, own, docs, c.indexes[j]));
        assert(roots_of(c)[j + 1] == c.indexes[j].root);
        lemma_root_apart(list, at, 0, at, j + 1);
        lemma_tree_stands(before, after, own, now, tag, c.indexes[j].root);
    }
}

/// Once records and primary index are where they will be, the secondary
/// indexes are next.
pub proof fn lemma_get_underway(
    pages: Map<PageId, Seq<u8>>,
    list: Seq<CollectionModel>,
    own: Owners,
    at: int,
    entries: Seq<Entry>,
    current: PageId,
    were: Docs,
    docs: Docs,
)
    requires
        rest_sound(pages, list, own, at, were),
        tree_owned(pages, own, list[at].meta.index_root),
        entries_at(pages, list[at].meta.index_root) == entries,
        records_owned(pages, own, list[at].meta.index_root, entries, current),
        docs_at(pages, entries) == docs,
    ensures
        underway(pages, list, own, at, entries, current, were, docs, 0),
{
    reveal(rest_sound);
    reveal(underway);
}

/// The list with a collection's current data page replaced.
pub open spec fn with_current(list: Seq<CollectionModel>, at: int, current: PageId) -> Seq<
    CollectionModel,
> {
    let meta = CollectionMeta { current_data_page: current, ..list[at].meta };
    list.update(at, CollectionModel { meta, ..list[at] })
}

/// Once the secondary indexes agree too, only the catalog may be behind.
pub proof fn lemma_arrived(
    pages: Map<PageId, Seq<u8>>,
    list: Seq<CollectionModel>,
    own: Owners,
    at: int,
    entries: Seq<Entry>,
    current: PageId,
    were: Docs,
    docs: Docs,
)
    requires
        underway(
            pages,
            list,
            own,
            at,
            entries,
            current,
            were,
            docs,
            list[at].indexes.len() as int,
        ),
    ensures
        agrees(list, pages),
        current == list[at].meta.current_data_page ==> sound_with(pages, list, own),
        collection_docs(pages, list[at]) == docs,
        collection_docs(pages, with_current(list, at, current)[at]) == docs,
{
    reveal(underway);
    reveal(collection_sound);
    let c = list[at];
    if current == c.meta.current_data_page {
        assert forall|j: int| 0 <= j < c.indexes.len() implies index_sound(
            pages,
            own,
            collection_docs(pages, c),
            #[trigger] c.indexes[j],
        ) by {
            assert(index_sound(pages, own, docs, c.indexes[j]));
        }
        assert(collection_sound(pages, own, c));
        assert forall|i: int| 0 <= i < list.len() implies collection_sound(
            pages,
            own,
            #[trigger] list[i],
        ) by {}
    }
}

/// Once the catalog is brought along, the database is sound.
pub proof fn lemma_arrived_elsewhere(
    before: Map<PageId, Seq<u8>>,
    after: Map<PageId, Seq<u8>>,
    list: Seq<CollectionModel>,
    own: Owners,
    at: int,
    entries: Seq<Entry>,
    current: PageId,
    were: Docs,
    docs: Docs,
)
    requires
        underway(
            before,
            list,
            own,
            at,
            entries,
            current,
            were,
            docs,
            list[at].indexes.len() as int,
        ),
        catalog_written(before, after),
        agrees(with_current(list, at, current), after),
    ensures
        sound(after, with_current(list, at, current)),
        others_same(before, after, list, at),
        collection_docs(after, with_current(list, at, current)[at]) == docs,
{
    reveal(underway);
    reveal(collection_sound);
    let tag = Owner::Catalog;
    let now = reowned(before, own, tag);
    let list2 = with_current(list, at, current);
    let c = list[at];
    let c2 = list2[at];
    let root = c.meta.index_root;
    lemma_catalog_step(before, after, own);
    assert forall|i: int| 0 <= i < list.len() && i != at implies collection_sound(
        after,
        now,
        #[trigger] list[i],
    ) && collection_docs(after, list[i]) == collection_docs(before, list[i]) by {
        lemma_collection_stands(before, after, own, now, tag, list[i]);
    }
    lemma_tree_facts(before, root);
    lemma_tree_stands(before, after, own, now, tag, root);
    lemma_records_stand(before, after, own, now, tag, root, entries, current);
    assert forall|j: int| 0 <= j < c2.indexes.len() implies index_sound(
        after,
        now,
        docs,
        #[trigger] c2.indexes[j],
    ) by {
        assert(index_sound(before, own, docs, c.indexes[j]));
        lemma_tree_stands(before, after, own, now, tag, c.indexes[j].root);
    }
    assert(collection_sound(after, now, c2));
    assert(roots_distinct(list2)) by {
        reveal(roots_distinct);
        assert forall|i: int, a: int, j: int, b: int|
            #![trigger roots_of(list2[i])[a], roots_of(list2[j])[b]]
            0 <= i < list2.len() && 0 <= j < list2.len() && 0 <= a < roots_of(list2[i]).len() && 0
                <= b < roots_of(list2[j]).len() && roots_of(list2[i])[a] == roots_of(
                list2[j],
            )[b] implies i == j && a == b by {
            assert(roots_of(list2[i]) =~= roots_of(list[i]));
            assert(roots_of(list2[j]) =~= roots_of(list[j]));
            assert(roots_of(list[i])[a] == roots_of(list[j])[b]);
        }
    }
    assert forall|i: int| 0 <= i < list2.len() implies collection_sound(
        after,
        now,
        #[trigger] list2[i],
    ) by {
        if i != at {
            assert(list2[i] == list[i]);
        }
    }
    assert(sound_with(after, list2, now));
}

/// The owners once a new index's root and new catalog pages are there.
spec fn with_root(
    before: Map<PageId, Seq<u8>>,
    own: Owners,
    root: PageId,
) -> Owners {
    Map::new(
        |p: PageId| true,
        |p: PageId|
            if before.dom().contains(p) {
                own[p]
            } else if p == root {
                Owner::Tree(root)
            } else {
                Owner::Catalog
            },
    )
}

/// The root of an index is one of its pages, so it is in the store.
proof fn lemma_root_in_store(pages: Map<PageId, Seq<u8>>, root: PageId)
    requires
        has_tree(pages, root),
    ensures
        pages.dom().contains(root),
{
    lemma_tree_facts(pages, root);
    crate::index::tree::lemma_root_in_ids(crate::index::tree::tree_at(pages, root));
}

/// Every root of a sound collection is in the store.
proof fn lemma_roots_in_store(
    pages: Map<PageId, Seq<u8>>,
    own: Owners,
    c: CollectionModel,
    a: int,
)
    requires
        collection_sound(pages, own, c),
        0 <= a < roots_of(c).len(),
    ensures
        pages.dom().contains(roots_of(c)[a]),
{
    reveal(collection_sound);
    if a == 0 {
        lemma_root_in_store(pages, c.meta.index_root);
    } else {
        assert(index_sound(pages, own, collection_docs(pages, c), c.indexes[a - 1]));
        lemma_root_in_store(pages, c.indexes[a - 1].root);
    }
}

/// A database with a new, empty collection is sound.
pub proof fn lemma_collection_made(
    before: Map<PageId, Seq<u8>>,
    after: Map<PageId, Seq<u8>>,
    list: Seq<CollectionModel>,
    name: Seq<char>,
    root: PageId,
)
    requires
        sound(before, list),
        root_made(before, after, root),
        agrees(
            list.push(
                CollectionModel {
                    name,
                    meta: CollectionMeta { index_root: root, current_data_page: 0 },
                    indexes: seq![],
                },
            ),
            after,
        ),
    ensures
        ({
            let c = CollectionModel {
                name,
                meta: CollectionMeta { index_root: root, current_data_page: 0 },
                indexes: seq![],
            };
            &&& sound(after, list.push(c))
            &&& collection_docs(after, c) =~= Map::empty()
            &&& forall|i: int|
                0 <= i < list.len() ==> collection_docs(after, #[trigger] list[i])
                    == collection_docs(before, list[i])
        }),
{
    reveal(collection_sound);
    let own = choose|own: Owners| sound_with(before, list, own);
    let c = CollectionModel {
        name,
        meta: CollectionMeta { index_root: root, current_data_page: 0 },
        indexes: seq![],
    };
    let longer = list.push(c);
    let now = with_root(before, own, root);
    assert(step(before, after, own, now, Owner::Catalog)) by {
        assert forall|p: PageId|
            #![trigger before.dom().contains(p)]
            #![trigger own[p]]
            before.dom().contains(p) && own[p] != Owner::Catalog implies after.dom().contains(p)
            && after[p] == before[p] && now[p] == own[p] by {
            assert(!chain(before).contains(p));
        }
    }
    assert forall|i: int| 0 <= i < list.len() implies collection_sound(
        after,
        now,
        #[trigger] list[i],
    ) && collection_docs(after, list[i]) == collection_docs(before, list[i]) by {
        lemma_collection_stands(before, after, own, now, Owner::Catalog, list[i]);
    }
    let none: Seq<Entry> = seq![];
    assert(entries_at(after, root) == none) by {
        assert(tree_entries(after, root) == Some(none));
    }
    assert(tree_owned(after, now, root)) by {
        assert(tree_entries(after, root) is Some);
        assert(tree_pages(after, root) =~= seq![root]);
        assert forall|p: PageId| #[trigger] tree_pages(after, root).contains(p) implies now[p]
            == Owner::Tree(root) by {}
    }
    reveal(records_owned);
    assert(records_owned(after, now, root, none, 0));
    assert(collection_sound(after, now, c));
    assert(docs_at(after, none) =~= Map::empty());
    assert(roots_distinct(longer)) by {
        reveal(roots_distinct);
        assert forall|i: int, a: int, j: int, b: int|
            #![trigger roots_of(longer[i])[a], roots_of(longer[j])[b]]
            0 <= i < longer.len() && 0 <= j < longer.len() && 0 <= a < roots_of(longer[i]).len()
                && 0 <= b < roots_of(longer[j]).len() && roots_of(longer[i])[a] == roots_of(
                longer[j],
            )[b] implies i == j && a == b by {
            let n = list.len();
            if i < n {
                lemma_roots_in_store(before, own, list[i], a);
            }
            if j < n {
                lemma_roots_in_store(before, own, list[j], b);
            }
            if i < n && j < n {
                assert(roots_of(list[i])[a] == roots_of(list[j])[b]);
            }
        }
    }
    assert forall|p: PageId| #[trigger] chain(after).contains(p) implies now[p]
        == Owner::Catalog by {
        assert(chain(before).contains(p) || !before.dom().contains(p));
    }
    assert forall|i: int| 0 <= i < longer.len() implies collection_sound(
        after,
        now,
        #[trigger] longer[i],
    ) by {
        if i < list.len() {
            assert(longer[i] == list[i]);
        }
    }
    assert(sound_with(after, longer, now));
}

/// A new index's root is no other index's.
proof fn lemma_roots_with_index(
    before: Map<PageId, Seq<u8>>,
    list: Seq<CollectionModel>,
    own: Owners,
    at: int,
    index: IndexModel,
)
    requires
        sound_with(before, list, own),
        0 <= at < list.len(),
        !before.dom().contains(index.root),
    ensures
        roots_distinct(
            list.update(
                at,
                CollectionModel { indexes: list[at].indexes.push(index), ..list[at] },
            ),
        ),
{
    reveal(roots_distinct);
    let c = CollectionModel { indexes: list[at].indexes.push(index), ..list[at] };
    let longer = list.update(at, c);
    let last = roots_of(list[at]).len();
    assert(roots_of(c) =~= roots_of(list[at]).push(index.root));
    assert forall|i: int, a: int| #![trigger roots_of(longer[i])[a]]
        0 <= i < longer.len() && 0 <= a < roots_of(longer[i]).len() && !(i == at && a
            == last) implies 0 <= a < roots_of(list[i]).len() && roots_of(longer[i])[a] == roots_of(
        list[i],
    )[a] && before.dom().contains(roots_of(list[i])[a]) by {
        lemma_roots_in_store(before, own, list[i], a);
    }
    assert forall|i: int, a: int, j: int, b: int|
        #![trigger roots_of(longer[i])[a], roots_of(longer[j])[b]]
        0 <= i < longer.len() && 0 <= j < longer.len() && 0 <= a < roots_of(longer[i]).len()
            && 0 <= b < roots_of(longer[j]).len() && roots_of(longer[i])[a] == roots_of(
            longer[j],
        )[b] implies i == j && a == b by {
        if !(i == at && a == last) && !(j == at && b == last) {
            assert(roots_of(list[i])[a] == roots_of(list[j])[b]);
        }
    }
}

/// A database with a new, empty index is on its way: the index agrees with no
/// documents yet.
pub proof fn lemma_index_made(
    before: Map<PageId, Seq<u8>>,
    after: Map<PageId, Seq<u8>>,
    list: Seq<CollectionModel>,
    own: Owners,
    at: int,
    index: IndexModel,
) -> (now: Owners)
    requires
        sound_with(before, list, own),
        0 <= at < list.len(),
        1 <= index.fields.len() <= MAX_COMPOUND_FIELDS,
        root_made(before, after, index.root),
        agrees(
            list.update(
                at,
                CollectionModel { indexes: list[at].indexes.push(index), ..list[at] },
            ),
            after,
        ),
    ensures
        ({
            let c = CollectionModel { indexes: list[at].indexes.push(index), ..list[at] };
            &&& underway(
                after,
                list.update(at, c),
                now,
                at,
                entries_at(before, c.meta.index_root),
                c.meta.current_data_page,
                Map::empty(),
                collection_docs(before, list[at]),
                list[at].indexes.len() as int,
            )
            &&& others_same(before, after, list, at)
        }),
{
    reveal(collection_sound);
    let c = CollectionModel { indexes: list[at].indexes.push(index), ..list[at] };
    let longer = list.update(at, c);
    let root = index.root;
    let now = with_root(before, own, root);
    assert(step(before, after, own, now, Owner::Catalog)) by {
        assert forall|p: PageId|
            #![trigger before.dom().contains(p)]
            #![trigger own[p]]
            before.dom().contains(p) && own[p] != Owner::Catalog implies after.dom().contains(p)
            && after[p] == before[p] && now[p] == own[p] by {
            assert(!chain(before).contains(p));
        }
    }
    assert forall|i: int| 0 <= i < list.len() implies collection_sound(
        after,
        now,
        #[trigger] list[i],
    ) && collection_docs(after, list[i]) == collection_docs(before, list[i]) by {
        lemma_collection_stands(before, after, own, now, Owner::Catalog, list[i]);
    }
    lemma_tree_facts(before, c.meta.index_root);
    super::state::lemma_tree_stands(before, after, own, now, Owner::Catalog, c.meta.index_root);
    let none: Seq<Entry> = seq![];
    assert(entries_at(after, root) == none) by {
        assert(tree_entries(after, root) == Some(none));
    }
    assert(tree_owned(after, now, root)) by {
        assert(tree_entries(after, root) is Some);
        assert(tree_pages(after, root) =~= seq![root]);
        assert forall|p: PageId| #[trigger] tree_pages(after, root).contains(p) implies now[p]
            == Owner::Tree(root) by {}
    }
    let nothing: Docs = Map::empty();
    assert(index_true(none, nothing, index)) by {
        reveal(index_true);
    }
    lemma_roots_with_index(before, list, own, at, index);
    assert forall|p: PageId| #[trigger] chain(after).contains(p) implies now[p]
        == Owner::Catalog by {
        assert(chain(before).contains(p) || !before.dom().contains(p));
    }
    let docs = collection_docs(before, list[at]);
    assert(collection_sound(after, now, list[at]));
    assert forall|j: int| 0 <= j < c.indexes.len() implies index_sound(
        after,
        now,
        if j < list[at].indexes.len() {
            docs
        } else {
            nothing
        },
        #[trigger] c.indexes[j],
    ) by {
        if j < list[at].indexes.len() {
            assert(c.indexes[j] == list[at].indexes[j]);
        }
    }
    reveal(underway);
    assert forall|i: int| 0 <= i < longer.len() && i != at implies collection_sound(
        after,
        now,
        #[trigger] longer[i],
    ) by {
        assert(longer[i] == list[i]);
    }
    now
}

} // verus!

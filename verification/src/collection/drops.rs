//! Dropping indexes and collections, and giving their pages back.

use super::apply::stored_in;
use super::indexing::{indexes_changed, lemma_indexes_changed};
use super::rest::lemma_take_apart;
use super::state::{
    chains_apart, collection_docs, collection_sound, entries_at, index_sound,
    lemma_catalog_stands, lemma_catalog_step, lemma_collection_stands, lemma_tree_facts,
    lemma_tree_stands, record_owned, records_owned, reowned, roots_distinct, roots_of, sound,
    sound_with, step, tree_owned, Owner, Owners,
};
use super::usage::{
    index_page, lemma_parts_owned, lemma_usage_stands, record_page, used_by,
};
use super::write::{lemma_root_apart, others_same};
use crate::catalog::chain::{catalog_written, chain};
use crate::catalog::entry::texts;
use crate::catalog::{
    agrees, exists_in, index_models, index_position, indexes_of, lemma_index_position,
    lemma_position, lemma_position_is, meta_of, names_distinct, position, without_index, Catalog,
    CollectionMeta, CollectionModel, IndexMeta,
};
use crate::data::{chains_at, free_collection_pages, holds_records, record_chain};
use crate::error::Error;
use crate::index::btree::{tree_pages, BTreeIndex};
use crate::index::node::entry_models;
use crate::index::tree::Entry;
use crate::index::Index;
use crate::storage::{PageId, PageStore, RecordLocation};
use vstd::prelude::*;

verus! {

/// Giving a tree's pages back touches nothing else.
proof fn lemma_tree_freed(
    before: Map<PageId, Seq<u8>>,
    after: Map<PageId, Seq<u8>>,
    own: Owners,
    root: PageId,
)
    requires
        tree_owned(before, own, root),
        after == before.remove_keys(tree_pages(before, root).to_set()),
    ensures
        step(before, after, own, own, Owner::Tree(root)),
{
    let gone = tree_pages(before, root);
    assert forall|p: PageId|
        #![trigger before.dom().contains(p)]
        #![trigger own[p]]
        before.dom().contains(p) && own[p] != Owner::Tree(root) implies after.dom().contains(p)
        && after[p] == before[p] by {
        assert(!gone.contains(p));
        assert(!gone.to_set().contains(p));
    }
}

/// The roots that are left are distinct, and none is the one that goes.
proof fn lemma_roots_without(list: Seq<CollectionModel>, at: int, k: int)
    requires
        roots_distinct(list),
        0 <= at < list.len(),
        0 <= k < list[at].indexes.len(),
    ensures
        roots_distinct(without_index(list, at, k)),
        forall|i: int, a: int|
            0 <= i < list.len() && 0 <= a < roots_of(
                #[trigger] without_index(list, at, k)[i],
            ).len() ==> list[at].indexes[k].root != #[trigger] roots_of(
                without_index(list, at, k)[i],
            )[a],
{
    let less = without_index(list, at, k);
    let c = list[at];
    assert forall|i: int, a: int| #![trigger roots_of(less[i])[a]]
        0 <= i < less.len() && 0 <= a < roots_of(less[i]).len() implies ({
        let was = if i == at && a > k {
            a + 1
        } else {
            a
        };
        0 <= was < roots_of(list[i]).len() && roots_of(less[i])[a] == roots_of(list[i])[was] && !(i
            == at && was == k + 1)
    }) by {}
    assert(roots_of(c)[k + 1] == c.indexes[k].root);
    assert(roots_distinct(less)) by {
        reveal(roots_distinct);
        assert forall|i: int, a: int, j: int, b: int|
            #![trigger roots_of(less[i])[a], roots_of(less[j])[b]]
            0 <= i < less.len() && 0 <= j < less.len() && 0 <= a < roots_of(less[i]).len() && 0
                <= b < roots_of(less[j]).len() && roots_of(less[i])[a] == roots_of(
                less[j],
            )[b] implies i == j && a == b by {
            let was_a = if i == at && a > k {
                a + 1
            } else {
                a
            };
            let was_b = if j == at && b > k {
                b + 1
            } else {
                b
            };
            assert(roots_of(list[i])[was_a] == roots_of(list[j])[was_b]);
        }
    }
    assert forall|i: int, a: int|
        0 <= i < list.len() && 0 <= a < roots_of(#[trigger] less[i]).len() implies c.indexes[k].root
        != #[trigger] roots_of(less[i])[a] by {
        let was = if i == at && a > k {
            a + 1
        } else {
            a
        };
        lemma_root_apart(list, at, k + 1, i, was);
    }
}

/// A collection without one of its indexes is sound.
proof fn lemma_sound_without(
    pages: Map<PageId, Seq<u8>>,
    own: Owners,
    c: CollectionModel,
    k: int,
)
    requires
        collection_sound(pages, own, c),
        0 <= k < c.indexes.len(),
    ensures
        collection_sound(pages, own, CollectionModel { indexes: c.indexes.remove(k), ..c }),
        tree_owned(pages, own, c.indexes[k].root),
{
    reveal(collection_sound);
    let less = CollectionModel { indexes: c.indexes.remove(k), ..c };
    assert(index_sound(pages, own, collection_docs(pages, c), c.indexes[k]));
    assert forall|j: int| 0 <= j < less.indexes.len() implies index_sound(
        pages,
        own,
        collection_docs(pages, less),
        #[trigger] less.indexes[j],
    ) by {
        let was = if j < k {
            j
        } else {
            j + 1
        };
        assert(less.indexes[j] == c.indexes[was]);
        assert(index_sound(pages, own, collection_docs(pages, c), c.indexes[was]));
    }
}

/// A database whose catalog no longer lists an index; its tree is still there.
proof fn lemma_index_unlisted(
    before: Map<PageId, Seq<u8>>,
    middle: Map<PageId, Seq<u8>>,
    list: Seq<CollectionModel>,
    own: Owners,
    at: int,
    k: int,
)
    requires
        sound_with(before, list, own),
        0 <= at < list.len(),
        0 <= k < list[at].indexes.len(),
        catalog_written(before, middle),
        agrees(without_index(list, at, k), middle),
    ensures
        ({
            let now = reowned(before, own, Owner::Catalog);
            &&& sound_with(middle, without_index(list, at, k), now)
            &&& tree_owned(middle, now, list[at].indexes[k].root)
            &&& forall|i: int, a: int|
                0 <= i < list.len() && 0 <= a < roots_of(
                    #[trigger] without_index(list, at, k)[i],
                ).len() ==> list[at].indexes[k].root != #[trigger] roots_of(
                    without_index(list, at, k)[i],
                )[a]
            &&& collection_docs(middle, without_index(list, at, k)[at]) == collection_docs(
                before,
                list[at],
            )
            &&& others_same(before, middle, list, at)
        }),
{
    let now = reowned(before, own, Owner::Catalog);
    let less = without_index(list, at, k);
    let c = list[at];
    lemma_catalog_step(before, middle, own);
    assert forall|i: int| 0 <= i < list.len() implies collection_sound(
        middle,
        now,
        #[trigger] list[i],
    ) && collection_docs(middle, list[i]) == collection_docs(before, list[i]) by {
        lemma_collection_stands(before, middle, own, now, Owner::Catalog, list[i]);
    }
    lemma_sound_without(middle, now, c, k);
    assert forall|i: int| 0 <= i < less.len() implies collection_sound(
        middle,
        now,
        #[trigger] less[i],
    ) by {
        if i != at {
            assert(less[i] == list[i]);
        }
    }
    lemma_roots_without(list, at, k);
}

/// A tree that no index has goes, and nothing changes.
proof fn lemma_stray_freed(
    before: Map<PageId, Seq<u8>>,
    after: Map<PageId, Seq<u8>>,
    list: Seq<CollectionModel>,
    own: Owners,
    root: PageId,
)
    requires
        sound_with(before, list, own),
        tree_owned(before, own, root),
        after == before.remove_keys(tree_pages(before, root).to_set()),
        forall|i: int, a: int|
            0 <= i < list.len() && 0 <= a < roots_of(#[trigger] list[i]).len() ==> root
                != #[trigger] roots_of(list[i])[a],
    ensures
        sound_with(after, list, own),
        forall|i: int|
            0 <= i < list.len() ==> collection_docs(after, #[trigger] list[i]) == collection_docs(
                before,
                list[i],
            ),
{
    lemma_tree_freed(before, after, own, root);
    lemma_catalog_stands(before, after, own, own, Owner::Tree(root), list);
    assert forall|i: int| 0 <= i < list.len() implies collection_sound(
        after,
        own,
        #[trigger] list[i],
    ) && collection_docs(after, list[i]) == collection_docs(before, list[i]) by {
        assert forall|a: int| 0 <= a < roots_of(list[i]).len() implies Owner::Tree(root)
            != Owner::Tree(#[trigger] roots_of(list[i])[a]) by {}
        lemma_collection_stands(before, after, own, own, Owner::Tree(root), list[i]);
    }
}

/// Drops the secondary index on `fields` and frees its pages: `false` if
/// there was none. After an error the store may be half changed: the caller
/// rolls it back.
pub fn drop_index<S: PageStore>(
    catalog: &mut Catalog,
    store: &mut S,
    collection: &str,
    fields: &[String],
) -> (r: Result<bool, Error>)
    requires
        old(store).wf(),
    ensures
        final(store).wf(),
        final(store).reliable() == old(store).reliable(),
        ({
            let indexes = indexes_of(old(catalog)@, collection@);
            let k = index_position(indexes, texts(fields@)) as int;
            if k < indexes.len() {
                sound(old(store).pages(), old(catalog)@) ==> match r {
                    Ok(dropped) => dropped && indexes_changed(
                        old(store).pages(),
                        old(catalog)@,
                        final(store).pages(),
                        final(catalog)@,
                        collection@,
                        indexes.remove(k),
                    ) && forall|p: PageId| #[trigger]
                        tree_pages(old(store).pages(), indexes[k].root).contains(p)
                            ==> !final(store).pages().dom().contains(p),
                    Err(_) => !old(store).reliable(),
                }
            } else {
                r matches Ok(dropped) && !dropped && final(catalog)@ == old(catalog)@
                    && final(store).pages() == old(store).pages()
            }
        }),
{
    let ghost before = store.pages();
    let ghost list = catalog@;
    let ghost good = sound(before, list);
    let ghost own = choose|own: Owners| sound_with(before, list, own);
    let ghost at = position(list, collection@) as int;
    let ghost indexes = indexes_of(list, collection@);
    let ghost k = index_position(indexes, texts(fields@)) as int;
    proof {
        lemma_position(list, collection@);
        lemma_index_position(indexes, texts(fields@));
    }
    let index = match catalog.drop_index(store, collection, fields) {
        Ok(Some(index)) => index,
        Ok(None) => return Ok(false),
        Err(e) => return Err(e),
    };
    let ghost middle = store.pages();
    let ghost now = reowned(before, own, Owner::Catalog);
    proof {
        if good {
            lemma_index_unlisted(before, middle, list, own, at, k);
        }
    }
    match BTreeIndex::new(index.root).free_all(store) {
        Ok(()) => {},
        Err(e) => return Err(Error::Io(e)),
    }
    proof {
        if good {
            let less = without_index(list, at, k);
            lemma_stray_freed(middle, store.pages(), less, now, index.root);
            assert(others_same(before, store.pages(), list, at)) by {
                assert forall|i: int| 0 <= i < list.len() && i != at implies collection_docs(
                    store.pages(),
                    #[trigger] list[i],
                ) == collection_docs(before, list[i]) by {
                    assert(less[i] == list[i]);
                    assert(collection_docs(middle, list[i]) == collection_docs(before, list[i]));
                }
            }
            assert(collection_docs(store.pages(), less[at]) == collection_docs(before, list[at]));
            lemma_indexes_changed(before, store.pages(), list, at, less[at]);
            lemma_catalog_step(before, middle, own);
            reveal(collection_sound);
            assert(index_sound(before, own, collection_docs(before, list[at]), list[at].indexes[k]));
            lemma_tree_stands(before, middle, own, now, Owner::Catalog, index.root);
            assert forall|p: PageId| #[trigger]
                tree_pages(before, index.root).contains(p) implies !store.pages().dom().contains(
                p,
            ) by {
                assert(tree_pages(middle, index.root).to_set().contains(p));
            }
        }
    }
    Ok(true)
}

/// A collection the catalog no longer lists, on its way out: its trees from
/// the root `from` on are still there, everything else is as it should be.
spec fn leaving(
    pages: Map<PageId, Seq<u8>>,
    list: Seq<CollectionModel>,
    own: Owners,
    at: int,
    from: int,
) -> bool {
    &&& 0 <= at < list.len()
    &&& agrees(list.remove(at), pages)
    &&& forall|p: PageId| #[trigger] chain(pages).contains(p) ==> own[p] == Owner::Catalog
    &&& roots_distinct(list)
    &&& forall|i: int|
        0 <= i < list.len() && i != at ==> collection_sound(pages, own, #[trigger] list[i])
    &&& forall|a: int|
        from <= a < roots_of(list[at]).len() ==> tree_owned(
            pages,
            own,
            #[trigger] roots_of(list[at])[a],
        )
}

/// A change to what belongs to the collection leaves the rest.
proof fn lemma_leaving_step(
    before: Map<PageId, Seq<u8>>,
    after: Map<PageId, Seq<u8>>,
    list: Seq<CollectionModel>,
    own: Owners,
    at: int,
    from: int,
    tag: Owner,
    next: int,
)
    requires
        leaving(before, list, own, at, from),
        step(before, after, own, own, tag),
        0 <= from <= next,
        tag == Owner::Data(list[at].meta.index_root) || (next == from + 1 && from < roots_of(
            list[at],
        ).len() && tag == Owner::Tree(roots_of(list[at])[from])),
    ensures
        leaving(after, list, own, at, next),
        others_same(before, after, list, at),
        chain(after) == chain(before),
        forall|a: int|
            next <= a < roots_of(list[at]).len() ==> tree_pages(
                after,
                #[trigger] roots_of(list[at])[a],
            ) == tree_pages(before, roots_of(list[at])[a]),
{
    lemma_catalog_stands(before, after, own, own, tag, list.remove(at));
    assert(roots_of(list[at])[0] == list[at].meta.index_root);
    assert forall|i: int| 0 <= i < list.len() && i != at implies collection_sound(
        after,
        own,
        #[trigger] list[i],
    ) && collection_docs(after, list[i]) == collection_docs(before, list[i]) by {
        assert(roots_of(list[i])[0] == list[i].meta.index_root);
        lemma_root_apart(list, at, 0, i, 0);
        assert forall|a: int| 0 <= a < roots_of(list[i]).len() implies tag != Owner::Tree(
            #[trigger] roots_of(list[i])[a],
        ) by {
            if tag != Owner::Data(list[at].meta.index_root) {
                lemma_root_apart(list, at, from, i, a);
            }
        }
        lemma_collection_stands(before, after, own, own, tag, list[i]);
    }
    assert forall|a: int| next <= a < roots_of(list[at]).len() implies tree_owned(
        after,
        own,
        #[trigger] roots_of(list[at])[a],
    ) && tree_pages(after, roots_of(list[at])[a]) == tree_pages(
        before,
        roots_of(list[at])[a],
    ) by {
        if tag != Owner::Data(list[at].meta.index_root) {
            lemma_root_apart(list, at, from, at, a);
        }
        lemma_tree_stands(before, after, own, own, tag, roots_of(list[at])[a]);
    }
}

/// A collection that has left.
proof fn lemma_left(
    pages: Map<PageId, Seq<u8>>,
    list: Seq<CollectionModel>,
    own: Owners,
    at: int,
    from: int,
)
    requires
        leaving(pages, list, own, at, from),
    ensures
        sound_with(pages, list.remove(at), own),
{
    let less = list.remove(at);
    assert forall|i: int| 0 <= i < less.len() implies collection_sound(
        pages,
        own,
        #[trigger] less[i],
    ) by {
        let was = if i < at {
            i
        } else {
            i + 1
        };
        assert(less[i] == list[was]);
    }
    assert(roots_distinct(less)) by {
        reveal(roots_distinct);
        assert forall|i: int, a: int, j: int, b: int|
            #![trigger roots_of(less[i])[a], roots_of(less[j])[b]]
            0 <= i < less.len() && 0 <= j < less.len() && 0 <= a < roots_of(less[i]).len() && 0
                <= b < roots_of(less[j]).len() && roots_of(less[i])[a] == roots_of(
                less[j],
            )[b] implies i == j && a == b by {
            let was_i = if i < at {
                i
            } else {
                i + 1
            };
            let was_j = if j < at {
                j
            } else {
                j + 1
            };
            assert(roots_of(list[was_i])[a] == roots_of(list[was_j])[b]);
        }
    }
}

/// Where a collection's records are.
pub open spec fn places(entries: Seq<Entry>) -> Seq<RecordLocation> {
    Seq::new(entries.len(), |i: int| entries[i].1)
}

/// The overflow pages of a collection's records are all there, none twice,
/// and all the collection's.
pub proof fn lemma_chains(
    pages: Map<PageId, Seq<u8>>,
    own: Owners,
    root: PageId,
    entries: Seq<Entry>,
    current: PageId,
    n: int,
)
    requires
        records_owned(pages, own, root, entries, current),
        0 <= n <= entries.len(),
    ensures
        chains_at(pages, places(entries).take(n)) matches Some(ids) && ids.no_duplicates() && (
        forall|p: PageId| #[trigger]
            ids.contains(p) ==> own[p] == Owner::Data(root) && exists|i: int|
                0 <= i < n && record_chain(pages, (#[trigger] entries[i]).1)->Some_0.contains(p)),
    decreases n,
{
    reveal(records_owned);
    let front = places(entries).take(n);
    if n > 0 {
        lemma_chains(pages, own, root, entries, current, n - 1);
        assert(front.drop_last() =~= places(entries).take(n - 1));
        assert(front.last() == entries[n - 1].1);
        assert(record_owned(pages, own, root, entries[n - 1]));
        let ids = chains_at(pages, front.drop_last())->Some_0;
        let more = record_chain(pages, front.last())->Some_0;
        crate::data::lemma_record_chain(pages, front.last());
        let all = ids + more;
        assert forall|p: PageId| #[trigger] ids.contains(p) implies !more.contains(p) by {
            let i = choose|i: int|
                0 <= i < n - 1 && record_chain(pages, (#[trigger] entries[i]).1)->Some_0.contains(p);
            assert(chains_apart(pages, entries[i].1, entries[n - 1].1));
        }
        assert forall|i: int, j: int| 0 <= i < j < all.len() implies all[i] != all[j] by {
            if i < ids.len() && j >= ids.len() {
                assert(ids.contains(all[i]));
                assert(more.contains(all[j]));
            }
        }
        assert forall|p: PageId| #[trigger] all.contains(p) implies own[p] == Owner::Data(root)
            && exists|i: int|
            0 <= i < n && record_chain(pages, (#[trigger] entries[i]).1)->Some_0.contains(p) by {
            let k = choose|k: int| 0 <= k < all.len() && all[k] == p;
            if k < ids.len() {
                assert(ids.contains(p));
                let i = choose|i: int|
                    0 <= i < n - 1 && record_chain(
                        pages,
                        (#[trigger] entries[i]).1,
                    )->Some_0.contains(p);
                assert(0 <= i < n);
            } else {
                assert(more[k - ids.len()] == p);
                assert(more.contains(p));
                assert(record_chain(pages, entries[n - 1].1)->Some_0.contains(p));
            }
        }
    } else {
        assert(front.len() == 0);
    }
}

/// The catalog no longer lists a collection.
proof fn lemma_unlisted(
    before: Map<PageId, Seq<u8>>,
    middle: Map<PageId, Seq<u8>>,
    list: Seq<CollectionModel>,
    own: Owners,
    at: int,
)
    requires
        sound_with(before, list, own),
        0 <= at < list.len(),
        catalog_written(before, middle),
        agrees(list.remove(at), middle),
    ensures
        ({
            let now = reowned(before, own, Owner::Catalog);
            let c = list[at];
            &&& leaving(middle, list, now, at, 0)
            &&& collection_sound(middle, now, c)
            &&& entries_at(middle, c.meta.index_root) == entries_at(before, c.meta.index_root)
            &&& others_same(before, middle, list, at)
        }),
{
    reveal(collection_sound);
    let now = reowned(before, own, Owner::Catalog);
    let c = list[at];
    lemma_catalog_step(before, middle, own);
    assert forall|i: int| 0 <= i < list.len() implies collection_sound(
        middle,
        now,
        #[trigger] list[i],
    ) && collection_docs(middle, list[i]) == collection_docs(before, list[i]) by {
        lemma_collection_stands(before, middle, own, now, Owner::Catalog, list[i]);
    }
    lemma_tree_stands(before, middle, own, now, Owner::Catalog, c.meta.index_root);
    assert forall|a: int| 0 <= a < roots_of(c).len() implies tree_owned(
        middle,
        now,
        #[trigger] roots_of(c)[a],
    ) by {
        if a > 0 {
            assert(index_sound(middle, now, collection_docs(middle, c), c.indexes[a - 1]));
        }
    }
}

/// Giving a collection's records back touches nothing else.
proof fn lemma_records_freed(
    before: Map<PageId, Seq<u8>>,
    after: Map<PageId, Seq<u8>>,
    own: Owners,
    root: PageId,
    entries: Seq<Entry>,
    current: PageId,
)
    requires
        records_owned(before, own, root, entries, current),
        forall|p: PageId| #[trigger]
            after.dom().contains(p) <==> before.dom().contains(p) && !chains_at(
                before,
                places(entries),
            )->Some_0.contains(p) && !holds_records(current, places(entries), p),
        forall|p: PageId| #[trigger] after.dom().contains(p) ==> after[p] == before[p],
    ensures
        step(before, after, own, own, Owner::Data(root)),
{
    lemma_chains(before, own, root, entries, current, entries.len() as int);
    reveal(records_owned);
    assert(places(entries).take(entries.len() as int) =~= places(entries));
    assert forall|p: PageId|
        #![trigger before.dom().contains(p)]
        #![trigger own[p]]
        before.dom().contains(p) && own[p] != Owner::Data(root) implies after.dom().contains(p)
        && after[p] == before[p] by {
        if holds_records(current, places(entries), p) {
            if !(current != 0 && p == current) {
                let i = choose|i: int|
                    0 <= i < places(entries).len() && (#[trigger] places(entries)[i]).page == p;
                assert(record_owned(before, own, root, entries[i]));
            }
        }
        assert(after.dom().contains(p));
    }
}

/// What dropping a collection leaves.
pub open spec fn collection_dropped(
    before: Map<PageId, Seq<u8>>,
    list: Seq<CollectionModel>,
    after: Map<PageId, Seq<u8>>,
    now: Seq<CollectionModel>,
    name: Seq<char>,
) -> bool {
    &&& sound(after, now)
    &&& !exists_in(now, name)
    &&& forall|other: Seq<char>|
        other != name ==> #[trigger] stored_in(after, now, other) == stored_in(before, list, other)
    &&& forall|other: Seq<char>|
        other != name ==> #[trigger] meta_of(now, other) == meta_of(list, other)
    &&& forall|other: Seq<char>|
        other != name ==> #[trigger] indexes_of(now, other) == indexes_of(list, other)
    &&& forall|p: PageId| #[trigger]
        after.dom().contains(p) <==> (before.dom().contains(p) || chain(after).contains(p))
            && !used_by(before, list[position(list, name) as int], p)
}

/// Where a collection is in the list without another.
proof fn lemma_place_without(list: Seq<CollectionModel>, at: int, other: Seq<char>)
    requires
        names_distinct(list),
        0 <= at < list.len(),
    ensures
        ({
            let less = list.remove(at);
            if other == list[at].name {
                !exists_in(less, other)
            } else {
                exists_in(less, other) == exists_in(list, other) && (exists_in(list, other) ==> (
                position(list, other) != at && less[position(less, other) as int]
                    == list[position(list, other) as int]))
            }
        }),
{
    let less = list.remove(at);
    lemma_position(list, other);
    lemma_position(less, other);
    if exists_in(less, other) {
        let j = position(less, other) as int;
        let was = if j < at {
            j
        } else {
            j + 1
        };
        assert(less[j] == list[was]);
        assert(list[was].name == other);
        assert forall|k: int| 0 <= k < was implies (#[trigger] list[k]).name != other by {
            assert(list[k].name != list[was].name);
        }
        lemma_position_is(list, other, was);
    } else if exists_in(list, other) && other != list[at].name {
        let i = position(list, other) as int;
        let now = if i < at {
            i
        } else {
            i - 1
        };
        assert(less[now] == list[i]);
        assert(less[now].name == other);
    }
}

/// The contract of a drop, from what it did.
proof fn lemma_collection_dropped(
    before: Map<PageId, Seq<u8>>,
    after: Map<PageId, Seq<u8>>,
    list: Seq<CollectionModel>,
    at: int,
)
    requires
        names_distinct(list),
        0 <= at < list.len(),
        sound(after, list.remove(at)),
        others_same(before, after, list, at),
        forall|p: PageId| #[trigger]
            after.dom().contains(p) <==> (before.dom().contains(p) || chain(after).contains(p))
                && !used_by(before, list[at], p),
    ensures
        collection_dropped(before, list, after, list.remove(at), list[at].name),
{
    let less = list.remove(at);
    let name = list[at].name;
    lemma_place_without(list, at, name);
    lemma_position(list, name);
    assert(position(list, name) == at) by {
        let i = position(list, name) as int;
        if i != at {
            assert(list[i].name == list[at].name);
        }
    }
    assert forall|other: Seq<char>| other != name implies #[trigger] stored_in(after, less, other)
        == stored_in(before, list, other) by {
        lemma_place_without(list, at, other);
        lemma_position(list, other);
        if exists_in(list, other) {
            let i = position(list, other) as int;
            assert(collection_docs(after, list[i]) == collection_docs(before, list[i]));
        }
    }
    assert forall|other: Seq<char>| other != name implies #[trigger] meta_of(less, other)
        == meta_of(list, other) by {
        lemma_place_without(list, at, other);
    }
    assert forall|other: Seq<char>| other != name implies #[trigger] indexes_of(less, other)
        == indexes_of(list, other) by {
        lemma_place_without(list, at, other);
    }
}

/// Whether a page belongs to one of a collection's indexes from `from` up to
/// `upto`.
spec fn between_trees(
    pages: Map<PageId, Seq<u8>>,
    c: CollectionModel,
    from: int,
    upto: int,
    p: PageId,
) -> bool {
    exists|a: int|
        from <= a < upto && a < roots_of(c).len() && tree_pages(
            pages,
            #[trigger] roots_of(c)[a],
        ).contains(p)
}

/// Where things stand once a collection's indexes below `upto`, but for the
/// first, are freed.
#[verifier::opaque]
spec fn trees_freed(
    before: Map<PageId, Seq<u8>>,
    now: Map<PageId, Seq<u8>>,
    list: Seq<CollectionModel>,
    own: Owners,
    at: int,
    upto: int,
) -> bool {
    &&& leaving(now, list, own, at, upto)
    &&& others_same(before, now, list, at)
    &&& chain(now) == chain(before)
    &&& forall|a: int|
        upto <= a < roots_of(list[at]).len() ==> tree_pages(now, #[trigger] roots_of(list[at])[a])
            == tree_pages(before, roots_of(list[at])[a])
    &&& forall|p: PageId| #[trigger]
        now.dom().contains(p) <==> before.dom().contains(p) && !between_trees(
            before,
            list[at],
            1,
            upto,
            p,
        )
}

/// The next index to free is whole.
proof fn lemma_next_tree(
    before: Map<PageId, Seq<u8>>,
    now: Map<PageId, Seq<u8>>,
    list: Seq<CollectionModel>,
    own: Owners,
    at: int,
    k: int,
)
    requires
        trees_freed(before, now, list, own, at, k),
        1 <= k < roots_of(list[at]).len(),
    ensures
        tree_owned(now, own, roots_of(list[at])[k]),
{
    reveal(trees_freed);
    assert(tree_owned(now, own, roots_of(list[at])[k]));
}

/// One more index is freed.
proof fn lemma_one_tree_freed(
    before: Map<PageId, Seq<u8>>,
    pages: Map<PageId, Seq<u8>>,
    after: Map<PageId, Seq<u8>>,
    list: Seq<CollectionModel>,
    own: Owners,
    at: int,
    k: int,
)
    requires
        trees_freed(before, pages, list, own, at, k),
        1 <= k < roots_of(list[at]).len(),
        after == pages.remove_keys(tree_pages(pages, roots_of(list[at])[k]).to_set()),
    ensures
        trees_freed(before, after, list, own, at, k + 1),
{
    lemma_next_tree(before, pages, list, own, at, k);
    reveal(trees_freed);
    let c = list[at];
    let root = roots_of(c)[k];
    lemma_tree_freed(pages, after, own, root);
    lemma_leaving_step(pages, after, list, own, at, k, Owner::Tree(root), k + 1);
    assert(tree_pages(pages, root) == tree_pages(before, root));
    let gone = tree_pages(before, root);
    assert forall|p: PageId| #[trigger] after.dom().contains(p) <==> before.dom().contains(p)
        && !between_trees(before, c, 1, k + 1, p) by {
        assert(gone.to_set().contains(p) <==> gone.contains(p));
        assert(after.dom().contains(p) <==> pages.dom().contains(p) && !gone.contains(p));
        lemma_one_more_between(before, c, k, p);
    }
    assert forall|i: int| 0 <= i < list.len() && i != at implies collection_docs(
        after,
        #[trigger] list[i],
    ) == collection_docs(before, list[i]) by {
        assert(collection_docs(pages, list[i]) == collection_docs(before, list[i]));
    }
}

/// The pages of one more index.
proof fn lemma_one_more_between(
    pages: Map<PageId, Seq<u8>>,
    c: CollectionModel,
    k: int,
    p: PageId,
)
    requires
        1 <= k < roots_of(c).len(),
    ensures
        between_trees(pages, c, 1, k + 1, p) <==> between_trees(pages, c, 1, k, p) || tree_pages(
            pages,
            roots_of(c)[k],
        ).contains(p),
{
    if between_trees(pages, c, 1, k, p) {
        let a = choose|a: int|
            1 <= a < k && a < roots_of(c).len() && tree_pages(
                pages,
                #[trigger] roots_of(c)[a],
            ).contains(p);
        assert(1 <= a < k + 1);
    }
    if between_trees(pages, c, 1, k + 1, p) {
        let a = choose|a: int|
            1 <= a < k + 1 && a < roots_of(c).len() && tree_pages(
                pages,
                #[trigger] roots_of(c)[a],
            ).contains(p);
        if a < k {
            assert(between_trees(pages, c, 1, k, p));
        }
    }
}

/// Frees the trees of a collection's secondary indexes.
fn free_trees<S: PageStore>(
    store: &mut S,
    indexes: &Vec<IndexMeta>,
    Ghost(list): Ghost<Seq<CollectionModel>>,
    Ghost(own): Ghost<Owners>,
    Ghost(at): Ghost<int>,
) -> (r: Result<(), Error>)
    requires
        old(store).wf(),
    ensures
        final(store).wf(),
        final(store).reliable() == old(store).reliable(),
        leaving(old(store).pages(), list, own, at, 1) && index_models(indexes@)
            == list[at].indexes ==> match r {
            Ok(()) => leaving(
                final(store).pages(),
                list,
                own,
                at,
                roots_of(list[at]).len() as int,
            ) && others_same(old(store).pages(), final(store).pages(), list, at) && chain(
                final(store).pages(),
            ) == chain(old(store).pages()) && forall|p: PageId| #[trigger]
                final(store).pages().dom().contains(p) <==> old(store).pages().dom().contains(p)
                    && !between_trees(
                    old(store).pages(),
                    list[at],
                    1,
                    roots_of(list[at]).len() as int,
                    p,
                ),
            Err(_) => !old(store).reliable(),
        },
{
    let ghost before = store.pages();
    let ghost good = leaving(before, list, own, at, 1) && index_models(indexes@)
        == list[at].indexes;
    let n: usize = indexes.len();
    proof {
        if good {
            reveal(trees_freed);
            assert(index_models(indexes@).len() == n);
            assert(roots_of(list[at]).len() == n + 1);
            assert(trees_freed(before, before, list, own, at, 1));
        }
    }
    for k in 0..n
        invariant
            n == indexes@.len(),
            store.wf(),
            store.reliable() == old(store).reliable(),
            before == old(store).pages(),
            good == (leaving(before, list, own, at, 1) && index_models(indexes@)
                == list[at].indexes),
            good ==> roots_of(list[at]).len() == n + 1,
            good ==> trees_freed(before, store.pages(), list, own, at, k + 1),
    {
        let ghost pages = store.pages();
        proof {
            if good {
                assert(index_models(indexes@)[k as int] == indexes@[k as int]@);
                assert(roots_of(list[at])[k + 1] == indexes@[k as int].root);
                lemma_next_tree(before, pages, list, own, at, k + 1);
            }
        }
        match BTreeIndex::new(indexes[k].root).free_all(store) {
            Ok(()) => {},
            Err(e) => return Err(Error::Io(e)),
        }
        proof {
            if good {
                lemma_one_tree_freed(before, pages, store.pages(), list, own, at, k + 1);
            }
        }
    }
    proof {
        if good {
            reveal(trees_freed);
        }
    }
    Ok(())
}

/// What is left once a collection's pages are given back: the pages there
/// were without those, and what the catalog added to itself.
proof fn lemma_all_given_back(
    before: Map<PageId, Seq<u8>>,
    listed: Map<PageId, Seq<u8>>,
    freed: Map<PageId, Seq<u8>>,
    rootless: Map<PageId, Seq<u8>>,
    after: Map<PageId, Seq<u8>>,
    list: Seq<CollectionModel>,
    own: Owners,
    at: int,
)
    requires
        sound_with(before, list, own),
        0 <= at < list.len(),
        catalog_written(before, listed),
        entries_at(listed, list[at].meta.index_root) == entries_at(
            before,
            list[at].meta.index_root,
        ),
        forall|p: PageId| #[trigger]
            freed.dom().contains(p) <==> listed.dom().contains(p) && !record_page(
                listed,
                list[at],
                p,
            ),
        forall|a: int|
            0 <= a < roots_of(list[at]).len() ==> tree_pages(freed, #[trigger] roots_of(list[at])[a])
                == tree_pages(listed, roots_of(list[at])[a]),
        rootless == freed.remove_keys(tree_pages(freed, list[at].meta.index_root).to_set()),
        forall|a: int|
            1 <= a < roots_of(list[at]).len() ==> tree_pages(
                rootless,
                #[trigger] roots_of(list[at])[a],
            ) == tree_pages(freed, roots_of(list[at])[a]),
        forall|p: PageId| #[trigger]
            after.dom().contains(p) <==> rootless.dom().contains(p) && !between_trees(
                rootless,
                list[at],
                1,
                roots_of(list[at]).len() as int,
                p,
            ),
        chain(after) == chain(listed),
    ensures
        forall|p: PageId| #[trigger]
            after.dom().contains(p) <==> (before.dom().contains(p) || chain(after).contains(p))
                && !used_by(before, list[at], p),
{
    let c = list[at];
    let n = roots_of(c).len() as int;
    let now = reowned(before, own, Owner::Catalog);
    lemma_catalog_step(before, listed, own);
    lemma_parts_owned(before, own, c);
    lemma_usage_stands(before, listed, own, now, Owner::Catalog, c);
    assert(roots_of(c)[0] == c.meta.index_root);
    assert forall|p: PageId| #[trigger]
        after.dom().contains(p) <==> (before.dom().contains(p) || chain(after).contains(p))
            && !used_by(before, c, p) by {
        let in_root = tree_pages(freed, c.meta.index_root).contains(p);
        assert(rootless.dom().contains(p) <==> freed.dom().contains(p) && !in_root);
        assert(index_page(listed, c, n, p) <==> in_root || between_trees(rootless, c, 1, n, p)) by {
            if index_page(listed, c, n, p) {
                let a = choose|a: int|
                    0 <= a < n && a < n && tree_pages(
                        listed,
                        #[trigger] roots_of(c)[a],
                    ).contains(p);
                if a > 0 {
                    assert(tree_pages(rootless, roots_of(c)[a]).contains(p));
                }
            }
            if in_root {
                assert(tree_pages(listed, roots_of(c)[0]).contains(p));
            }
            if between_trees(rootless, c, 1, n, p) {
                let a = choose|a: int|
                    1 <= a < n && a < n && tree_pages(
                        rootless,
                        #[trigger] roots_of(c)[a],
                    ).contains(p);
                assert(tree_pages(listed, roots_of(c)[a]).contains(p));
            }
        }
        assert(used_by(listed, c, p) <==> used_by(before, c, p));
    }
}

/// What stands through one change and the next stands through both.
proof fn lemma_others_same(
    before: Map<PageId, Seq<u8>>,
    middle: Map<PageId, Seq<u8>>,
    after: Map<PageId, Seq<u8>>,
    list: Seq<CollectionModel>,
    at: int,
)
    requires
        others_same(before, middle, list, at),
        others_same(middle, after, list, at),
    ensures
        others_same(before, after, list, at),
{
    assert forall|i: int| 0 <= i < list.len() && i != at implies collection_docs(
        after,
        #[trigger] list[i],
    ) == collection_docs(before, list[i]) by {
        assert(collection_docs(middle, list[i]) == collection_docs(before, list[i]));
    }
}

/// Where entries lead.
fn places_of(entries: &Vec<(Vec<u8>, RecordLocation)>) -> (r: Vec<RecordLocation>)
    ensures
        r@ == places(entry_models(entries@)),
{
    let mut locs: Vec<RecordLocation> = Vec::new();
    let n: usize = entries.len();
    for i in 0..n
        invariant
            n == entries@.len(),
            locs@ =~= places(entry_models(entries@)).take(i as int),
    {
        locs.push(entries[i].1);
    }
    assert(locs@ =~= places(entry_models(entries@)));
    locs
}

/// Deletes a collection: its documents, its indexes and its catalog entry, and
/// frees their pages for reuse; `false` if there was no such collection.
/// After an error the store may be half changed: the caller rolls it back.
#[verifier::rlimit(40)]
pub fn drop_collection<S: PageStore>(catalog: &mut Catalog, store: &mut S, name: &str) -> (r:
    Result<bool, Error>)
    requires
        old(store).wf(),
    ensures
        final(store).wf(),
        final(store).reliable() == old(store).reliable(),
        if exists_in(old(catalog)@, name@) {
            sound(old(store).pages(), old(catalog)@) ==> match r {
                Ok(dropped) => dropped && collection_dropped(
                    old(store).pages(),
                    old(catalog)@,
                    final(store).pages(),
                    final(catalog)@,
                    name@,
                ),
                Err(_) => !old(store).reliable(),
            }
        } else {
            r matches Ok(dropped) && !dropped && final(catalog)@ == old(catalog)@
                && final(store).pages() == old(store).pages()
        },
{
    let ghost before = store.pages();
    let ghost list = catalog@;
    let ghost good = sound(before, list);
    let ghost own = choose|own: Owners| sound_with(before, list, own);
    let ghost at = position(list, name@) as int;
    proof {
        lemma_position(list, name@);
        if good && exists_in(list, name@) {
            lemma_take_apart(before, list, own, at);
            lemma_tree_facts(before, list[at].meta.index_root);
        }
    }
    let meta: CollectionMeta = match catalog.get(name) {
        Some(meta) => *meta,
        None => return Ok(false),
    };
    let primary = BTreeIndex::new(meta.index_root);
    let entries = match primary.scan(store) {
        Ok(entries) => entries,
        Err(e) => return Err(Error::Io(e)),
    };
    let locs = places_of(&entries);
    let indexes = match catalog.drop_collection(store, name) {
        Ok(Some((_, indexes))) => indexes,
        Ok(None) => return Ok(false),
        Err(e) => return Err(e),
    };
    let ghost listed = store.pages();
    let ghost now = reowned(before, own, Owner::Catalog);
    let ghost root = meta.index_root;
    proof {
        if good {
            lemma_unlisted(before, listed, list, own, at);
            reveal(collection_sound);
            let found = entries_at(listed, root);
            lemma_chains(listed, now, root, found, meta.current_data_page, found.len() as int);
            assert(places(found).take(found.len() as int) =~= places(found));
            reveal(records_owned);
        }
    }
    match free_collection_pages(store, meta.current_data_page, locs.as_slice()) {
        Ok(()) => {},
        Err(e) => return Err(Error::Io(e)),
    }
    let ghost freed = store.pages();
    proof {
        if good {
            let found = entries_at(listed, root);
            lemma_records_freed(listed, freed, now, root, found, meta.current_data_page);
            lemma_leaving_step(listed, freed, list, now, at, 0, Owner::Data(root), 0);
            assert(roots_of(list[at])[0] == root);
            assert(tree_owned(freed, now, roots_of(list[at])[0]));
        }
    }
    match primary.free_all(store) {
        Ok(()) => {},
        Err(e) => return Err(Error::Io(e)),
    }
    let ghost rootless = store.pages();
    proof {
        if good {
            lemma_tree_freed(freed, rootless, now, root);
            lemma_leaving_step(freed, rootless, list, now, at, 0, Owner::Tree(root), 1);
        }
    }
    match free_trees(store, &indexes, Ghost(list), Ghost(now), Ghost(at)) {
        Ok(()) => {
            proof {
                if good {
                    let after = store.pages();
                    lemma_left(after, list, now, at, roots_of(list[at]).len() as int);
                    lemma_others_same(before, listed, freed, list, at);
                    lemma_others_same(before, freed, rootless, list, at);
                    lemma_others_same(before, rootless, after, list, at);
                    lemma_all_given_back(
                        before,
                        listed,
                        freed,
                        rootless,
                        after,
                        list,
                        own,
                        at,
                    );
                    lemma_collection_dropped(before, after, list, at);
                }
            }
            Ok(true)
        },
        Err(e) => Err(e),
    }
}

} // verus!

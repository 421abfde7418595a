//! Which pages belong to a collection, and what stays used when something else
//! changes.

use super::drops::{lemma_chains, places};
use super::rest::with_current;
use super::state::{
    collection_docs, collection_sound, entries_at, index_sound, lemma_catalog_stands,
    lemma_record_stands, lemma_records_stand, lemma_tree_facts, lemma_tree_stands, lemma_tree_step, record_owned,
    records_owned, reowned, roots_distinct, roots_of, sound_with, step, tree_owned, Docs, Owner,
    Owners,
};
use super::write::{lemma_root_apart, underway};
use crate::catalog::chain::chain;
use crate::catalog::entry::IndexModel;
use crate::catalog::{agrees, root_made, CollectionModel};
use crate::data::{
    chains_at, holds_records, is_data_page, is_overflow_page, lemma_record_chain, record_at,
    record_chain, record_stored,
};
use crate::document::DocModel;
use crate::index::btree::{tree_grown, tree_pages};
use crate::index::entries::{find, inserted, key_position, lemma_key_position, sorted};
use crate::index::tree::{has_tree, Entry};
use crate::storage::{PageId, RecordLocation};
use vstd::prelude::*;

verus! {

/// Whether a page holds a collection's records, or more of one.
pub open spec fn record_page(pages: Map<PageId, Seq<u8>>, c: CollectionModel, p: PageId) -> bool {
    let locs = places(entries_at(pages, c.meta.index_root));
    holds_records(c.meta.current_data_page, locs, p) || (chains_at(pages, locs) matches Some(ids)
        && ids.contains(p))
}

/// Whether a page belongs to one of the first `n` indexes, the primary one
/// first.
pub open spec fn index_page(
    pages: Map<PageId, Seq<u8>>,
    c: CollectionModel,
    n: int,
    p: PageId,
) -> bool {
    exists|a: int|
        0 <= a < n && a < roots_of(c).len() && tree_pages(
            pages,
            #[trigger] roots_of(c)[a],
        ).contains(p)
}

/// Whether a page belongs to a collection, as far as its first `n` indexes.
pub open spec fn used_of(
    pages: Map<PageId, Seq<u8>>,
    c: CollectionModel,
    n: int,
    p: PageId,
) -> bool {
    index_page(pages, c, n, p) || record_page(pages, c, p)
}

/// Whether a page belongs to a collection.
pub open spec fn used_by(pages: Map<PageId, Seq<u8>>, c: CollectionModel, p: PageId) -> bool {
    used_of(pages, c, roots_of(c).len() as int, p)
}

/// A collection's trees are whole and its own.
pub proof fn lemma_roots(pages: Map<PageId, Seq<u8>>, own: Owners, c: CollectionModel, a: int)
    requires
        collection_sound(pages, own, c),
        0 <= a < roots_of(c).len(),
    ensures
        has_tree(pages, roots_of(c)[a]),
        tree_pages(pages, roots_of(c)[a]).no_duplicates(),
        forall|p: PageId| #[trigger]
            tree_pages(pages, roots_of(c)[a]).contains(p) ==> own[p] == Owner::Tree(roots_of(c)[a])
                && pages.dom().contains(p),
        sorted(entries_at(pages, roots_of(c)[a])),
{
    reveal(collection_sound);
    if a > 0 {
        assert(roots_of(c)[a] == c.indexes[a - 1].root);
        assert(index_sound(pages, own, collection_docs(pages, c), c.indexes[a - 1]));
    } else {
        assert(roots_of(c)[0] == c.meta.index_root);
    }
    let root = roots_of(c)[a];
    assert(tree_owned(pages, own, root));
    lemma_tree_facts(pages, root);
}

/// The pages of a collection's records are its own.
pub proof fn lemma_record_pages(pages: Map<PageId, Seq<u8>>, own: Owners, c: CollectionModel)
    requires
        collection_sound(pages, own, c),
    ensures
        ({
            let locs = places(entries_at(pages, c.meta.index_root));
            &&& chains_at(pages, locs) matches Some(ids) && ids.no_duplicates() && (forall|
                p: PageId,
            | #[trigger]
                ids.contains(p) ==> !is_data_page(pages, p))
            &&& forall|p: PageId| #[trigger]
                holds_records(c.meta.current_data_page, locs, p) ==> is_data_page(pages, p)
            &&& c.meta.current_data_page == 0 || is_data_page(pages, c.meta.current_data_page)
        }),
        forall|p: PageId| #[trigger]
            record_page(pages, c, p) ==> own[p] == Owner::Data(c.meta.index_root)
                && pages.dom().contains(p),
{
    reveal(collection_sound);
    let root = c.meta.index_root;
    let current = c.meta.current_data_page;
    let entries = entries_at(pages, root);
    let locs = places(entries);
    lemma_chains(pages, own, root, entries, current, entries.len() as int);
    assert(locs.take(entries.len() as int) =~= locs);
    reveal(records_owned);
    let chained = chains_at(pages, locs)->Some_0;
    assert forall|p: PageId| #[trigger] chained.contains(p) implies !is_data_page(pages, p)
        && pages.dom().contains(p) by {
        let i = choose|i: int|
            0 <= i < entries.len() && record_chain(
                pages,
                (#[trigger] entries[i]).1,
            )->Some_0.contains(p);
        assert(record_owned(pages, own, root, entries[i]));
        lemma_record_chain(pages, entries[i].1);
        let ids = record_chain(pages, entries[i].1)->Some_0;
        let k = choose|k: int| 0 <= k < ids.len() && ids[k] == p;
        assert(is_overflow_page(pages, ids[k]));
    }
    assert forall|p: PageId| #[trigger] holds_records(current, locs, p) implies is_data_page(
        pages,
        p,
    ) && own[p] == Owner::Data(root) by {
        if !(current != 0 && p == current) {
            let i = choose|i: int| 0 <= i < locs.len() && (#[trigger] locs[i]).page == p;
            assert(record_owned(pages, own, root, entries[i]));
            assert(record_at(pages, entries[i].1) is Some);
        }
    }
}

/// A collection's pages belong to it.
pub proof fn lemma_used(
    pages: Map<PageId, Seq<u8>>,
    own: Owners,
    c: CollectionModel,
    n: int,
    p: PageId,
)
    requires
        collection_sound(pages, own, c),
        used_of(pages, c, n, p),
    ensures
        pages.dom().contains(p),
        own[p] == Owner::Data(c.meta.index_root) || exists|a: int|
            0 <= a < n && a < roots_of(c).len() && own[p] == Owner::Tree(#[trigger] roots_of(c)[a]),
        used_by(pages, c, p),
{
    if record_page(pages, c, p) {
        lemma_record_pages(pages, own, c);
    } else {
        let a = choose|a: int|
            0 <= a < n && a < roots_of(c).len() && tree_pages(
                pages,
                #[trigger] roots_of(c)[a],
            ).contains(p);
        lemma_roots(pages, own, c, a);
        assert(index_page(pages, c, roots_of(c).len() as int, p));
    }
}

/// No page belongs to two collections.
pub proof fn lemma_used_once(
    pages: Map<PageId, Seq<u8>>,
    list: Seq<CollectionModel>,
    own: Owners,
    i: int,
    j: int,
    p: PageId,
)
    requires
        sound_with(pages, list, own),
        0 <= i < list.len(),
        0 <= j < list.len(),
        used_by(pages, list[i], p),
        used_by(pages, list[j], p),
    ensures
        i == j,
{
    reveal(roots_distinct);
    let x = list[i];
    let y = list[j];
    lemma_used(pages, own, x, roots_of(x).len() as int, p);
    lemma_used(pages, own, y, roots_of(y).len() as int, p);
    assert(roots_of(x)[0] == x.meta.index_root);
    assert(roots_of(y)[0] == y.meta.index_root);
    if own[p] == Owner::Data(x.meta.index_root) {
        assert(own[p] == Owner::Data(y.meta.index_root));
        assert(roots_of(list[i])[0] == roots_of(list[j])[0]);
    } else {
        let a = choose|a: int|
            0 <= a < roots_of(x).len() && own[p] == Owner::Tree(#[trigger] roots_of(x)[a]);
        let b = choose|b: int|
            0 <= b < roots_of(y).len() && own[p] == Owner::Tree(#[trigger] roots_of(y)[b]);
        assert(roots_of(list[i])[a] == roots_of(list[j])[b]);
    }
}

/// Whether every page in the store is used: by the catalog or by a
/// collection.
pub open spec fn all_used(pages: Map<PageId, Seq<u8>>, list: Seq<CollectionModel>) -> bool {
    forall|p: PageId| #[trigger]
        pages.dom().contains(p) ==> chain(pages).contains(p) || used_in(pages, list, p)
}

/// Whether a page belongs to a collection of the list.
pub open spec fn used_in(
    pages: Map<PageId, Seq<u8>>,
    list: Seq<CollectionModel>,
    p: PageId,
) -> bool {
    exists|i: int| 0 <= i < list.len() && used_by(pages, #[trigger] list[i], p)
}

/// Records' overflow pages are the same where each record's are.
pub proof fn lemma_chains_same(
    before: Map<PageId, Seq<u8>>,
    after: Map<PageId, Seq<u8>>,
    locs: Seq<RecordLocation>,
)
    requires
        forall|i: int|
            0 <= i < locs.len() ==> record_chain(after, #[trigger] locs[i]) == record_chain(
                before,
                locs[i],
            ),
    ensures
        chains_at(after, locs) == chains_at(before, locs),
    decreases locs.len(),
{
    if locs.len() > 0 {
        assert(locs.last() == locs[locs.len() - 1]);
        assert forall|i: int| 0 <= i < locs.drop_last().len() implies record_chain(
            after,
            #[trigger] locs.drop_last()[i],
        ) == record_chain(before, locs.drop_last()[i]) by {
            assert(locs.drop_last()[i] == locs[i]);
        }
        lemma_chains_same(before, after, locs.drop_last());
    }
}

/// Whether a collection's trees and records are whole, and all their pages its
/// own.
#[verifier::opaque]
pub open spec fn parts_owned(pages: Map<PageId, Seq<u8>>, own: Owners, c: CollectionModel) -> bool {
    &&& forall|a: int|
        0 <= a < roots_of(c).len() ==> tree_owned(pages, own, #[trigger] roots_of(c)[a])
    &&& records_owned(
        pages,
        own,
        c.meta.index_root,
        entries_at(pages, c.meta.index_root),
        c.meta.current_data_page,
    )
}

/// Whether the catalog's pages and all collections' are their own.
#[verifier::opaque]
pub open spec fn all_owned(
    pages: Map<PageId, Seq<u8>>,
    list: Seq<CollectionModel>,
    own: Owners,
) -> bool {
    &&& forall|p: PageId| #[trigger] chain(pages).contains(p) ==> own[p] == Owner::Catalog
    &&& roots_distinct(list)
    &&& forall|i: int| 0 <= i < list.len() ==> parts_owned(pages, own, #[trigger] list[i])
}

/// A sound collection's pages are its own.
pub proof fn lemma_parts_owned(pages: Map<PageId, Seq<u8>>, own: Owners, c: CollectionModel)
    requires
        collection_sound(pages, own, c),
    ensures
        parts_owned(pages, own, c),
{
    reveal(collection_sound);
    reveal(parts_owned);
    assert forall|a: int| 0 <= a < roots_of(c).len() implies tree_owned(
        pages,
        own,
        #[trigger] roots_of(c)[a],
    ) by {
        if a > 0 {
            assert(index_sound(pages, own, collection_docs(pages, c), c.indexes[a - 1]));
        }
    }
}

/// In a sound database the pages are as they should be.
pub proof fn lemma_sound_owned(
    pages: Map<PageId, Seq<u8>>,
    list: Seq<CollectionModel>,
    own: Owners,
)
    requires
        sound_with(pages, list, own),
    ensures
        all_owned(pages, list, own),
{
    reveal(all_owned);
    assert forall|i: int| 0 <= i < list.len() implies parts_owned(
        pages,
        own,
        #[trigger] list[i],
    ) by {
        lemma_parts_owned(pages, own, list[i]);
    }
}

/// A collection uses the same pages after a change to something else.
pub proof fn lemma_usage_stands(
    before: Map<PageId, Seq<u8>>,
    after: Map<PageId, Seq<u8>>,
    own: Owners,
    now: Owners,
    tag: Owner,
    c: CollectionModel,
)
    requires
        parts_owned(before, own, c),
        step(before, after, own, now, tag),
        tag != Owner::Data(c.meta.index_root),
        forall|a: int| 0 <= a < roots_of(c).len() ==> tag != Owner::Tree(#[trigger] roots_of(c)[a]),
    ensures
        parts_owned(after, now, c),
        forall|p: PageId| #[trigger] used_by(after, c, p) <==> used_by(before, c, p),
        forall|p: PageId| #[trigger] record_page(after, c, p) <==> record_page(before, c, p),
        forall|a: int|
            0 <= a < roots_of(c).len() ==> tree_pages(after, #[trigger] roots_of(c)[a])
                == tree_pages(before, roots_of(c)[a]),
{
    reveal(parts_owned);
    let n = roots_of(c).len() as int;
    assert forall|a: int| 0 <= a < n implies tree_pages(after, #[trigger] roots_of(c)[a])
        == tree_pages(before, roots_of(c)[a]) && tree_owned(after, now, roots_of(c)[a]) by {
        lemma_tree_stands(before, after, own, now, tag, roots_of(c)[a]);
    }
    assert(roots_of(c)[0] == c.meta.index_root);
    lemma_tree_stands(before, after, own, now, tag, roots_of(c)[0]);
    lemma_tree_facts(before, c.meta.index_root);
    let entries = entries_at(before, c.meta.index_root);
    lemma_chains_stand(
        before,
        after,
        own,
        now,
        tag,
        c.meta.index_root,
        entries,
        c.meta.current_data_page,
    );
    lemma_records_stand(
        before,
        after,
        own,
        now,
        tag,
        c.meta.index_root,
        entries,
        c.meta.current_data_page,
    );
    assert forall|p: PageId| #[trigger] used_by(after, c, p) <==> used_by(before, c, p) by {
        if index_page(after, c, n, p) {
            let a = choose|a: int|
                0 <= a < n && tree_pages(after, #[trigger] roots_of(c)[a]).contains(p);
            assert(tree_pages(before, roots_of(c)[a]).contains(p));
        }
        if index_page(before, c, n, p) {
            let a = choose|a: int|
                0 <= a < n && tree_pages(before, #[trigger] roots_of(c)[a]).contains(p);
            assert(tree_pages(after, roots_of(c)[a]).contains(p));
        }
    }
}

/// A collection's overflow pages stand where they are.
proof fn lemma_chains_stand(
    before: Map<PageId, Seq<u8>>,
    after: Map<PageId, Seq<u8>>,
    own: Owners,
    now: Owners,
    tag: Owner,
    root: PageId,
    entries: Seq<Entry>,
    current: PageId,
)
    requires
        records_owned(before, own, root, entries, current),
        step(before, after, own, now, tag),
        tag != Owner::Data(root),
    ensures
        chains_at(after, places(entries)) == chains_at(before, places(entries)),
        forall|i: int|
            0 <= i < entries.len() ==> record_chain(after, (#[trigger] entries[i]).1)
                == record_chain(before, entries[i].1),
{
    reveal(records_owned);
    assert forall|i: int| 0 <= i < entries.len() implies record_chain(
        after,
        (#[trigger] entries[i]).1,
    ) == record_chain(before, entries[i].1) by {
        assert(record_owned(before, own, root, entries[i]));
        lemma_record_stands(before, after, own, now, tag, root, entries[i]);
    }
    assert forall|i: int| 0 <= i < places(entries).len() implies record_chain(
        after,
        #[trigger] places(entries)[i],
    ) == record_chain(before, places(entries)[i]) by {
        assert(record_chain(after, entries[i].1) == record_chain(before, entries[i].1));
    }
    lemma_chains_same(before, after, places(entries));
}

/// The overflow pages of one record are among those of all.
proof fn lemma_chain_among(pages: Map<PageId, Seq<u8>>, locs: Seq<RecordLocation>, i: int, p: PageId)
    requires
        0 <= i < locs.len(),
        chains_at(pages, locs) is Some,
        record_chain(pages, locs[i]) matches Some(ids) && ids.contains(p),
    ensures
        chains_at(pages, locs)->Some_0.contains(p),
    decreases locs.len(),
{
    let front = chains_at(pages, locs.drop_last())->Some_0;
    let ids = record_chain(pages, locs.last())->Some_0;
    if i == locs.len() - 1 {
        let k = choose|k: int| 0 <= k < ids.len() && ids[k] == p;
        assert((front + ids)[front.len() + k] == p);
    } else {
        assert(locs.drop_last()[i] == locs[i]);
        lemma_chain_among(pages, locs.drop_last(), i, p);
        let k = choose|k: int| 0 <= k < front.len() && front[k] == p;
        assert((front + ids)[k] == p);
    }
}

/// An overflow page is one of a record's.
proof fn lemma_chain_whose(pages: Map<PageId, Seq<u8>>, locs: Seq<RecordLocation>, p: PageId) -> (i:
    int)
    requires
        chains_at(pages, locs) matches Some(ids) && ids.contains(p),
    ensures
        0 <= i < locs.len(),
        record_chain(pages, locs[i]) matches Some(ids) && ids.contains(p),
    decreases locs.len(),
{
    let front = chains_at(pages, locs.drop_last())->Some_0;
    let ids = record_chain(pages, locs.last())->Some_0;
    let k = choose|k: int| 0 <= k < (front + ids).len() && (front + ids)[k] == p;
    if k < front.len() {
        assert(front[k] == p);
        let i = lemma_chain_whose(pages, locs.drop_last(), p);
        assert(locs.drop_last()[i] == locs[i]);
        i
    } else {
        assert(ids[k - front.len()] == p);
        locs.len() - 1
    }
}

/// Nothing is left unused by a change to the catalog, or by an index's new
/// root but for that root.
pub proof fn lemma_used_catalog(
    before: Map<PageId, Seq<u8>>,
    after: Map<PageId, Seq<u8>>,
    list: Seq<CollectionModel>,
    own: Owners,
    now: Owners,
)
    requires
        all_owned(before, list, own),
        all_used(before, list),
        step(before, after, own, now, Owner::Catalog),
        forall|p: PageId| #[trigger] chain(before).contains(p) ==> chain(after).contains(p),
    ensures
        forall|p: PageId| #[trigger]
            before.dom().contains(p) ==> chain(after).contains(p) || used_in(after, list, p),
        forall|i: int, p: PageId|
            0 <= i < list.len() ==> (#[trigger] used_by(after, list[i], p) <==> used_by(
                before,
                list[i],
                p,
            )),
{
    reveal(all_owned);
    assert forall|i: int, p: PageId| 0 <= i < list.len() implies (#[trigger] used_by(
        after,
        list[i],
        p,
    ) <==> used_by(before, list[i], p)) by {
        lemma_usage_stands(before, after, own, now, Owner::Catalog, list[i]);
    }
    assert forall|p: PageId| #[trigger] before.dom().contains(p) implies chain(after).contains(p)
        || used_in(after, list, p) by {
        if !chain(before).contains(p) {
            let i = choose|i: int| 0 <= i < list.len() && used_by(before, #[trigger] list[i], p);
            assert(used_by(after, list[i], p));
        }
    }
}

/// Nothing is left unused when one of a collection's secondary indexes grows.
pub proof fn lemma_used_tree(
    before: Map<PageId, Seq<u8>>,
    after: Map<PageId, Seq<u8>>,
    list: Seq<CollectionModel>,
    own: Owners,
    at: int,
    a: int,
)
    requires
        all_owned(before, list, own),
        all_used(before, list),
        0 <= at < list.len(),
        0 < a < roots_of(list[at]).len(),
        has_tree(after, roots_of(list[at])[a]),
        tree_grown(before, after, roots_of(list[at])[a]),
        agrees(list, before),
    ensures
        all_used(after, list),
{
    reveal(all_owned);
    reveal(parts_owned);
    let c = list[at];
    let n = roots_of(c).len() as int;
    let root = roots_of(c)[a];
    let tag = Owner::Tree(root);
    let now = reowned(before, own, tag);
    assert(parts_owned(before, own, c));
    assert(tree_owned(before, own, root));
    lemma_tree_step(before, after, own, root);
    lemma_catalog_stands(before, after, own, now, tag, list);
    assert forall|i: int, p: PageId|
        0 <= i < list.len() && i != at && #[trigger] used_by(before, list[i], p) implies used_by(
        after,
        list[i],
        p,
    ) by {
        assert forall|b: int| 0 <= b < roots_of(list[i]).len() implies tag != Owner::Tree(
            #[trigger] roots_of(list[i])[b],
        ) by {
            lemma_root_apart(list, at, a, i, b);
        }
        lemma_usage_stands(before, after, own, now, tag, list[i]);
    }
    assert(roots_of(c)[0] == c.meta.index_root);
    lemma_root_apart(list, at, a, at, 0);
    lemma_tree_stands(before, after, own, now, tag, c.meta.index_root);
    lemma_chains_stand(
        before,
        after,
        own,
        now,
        tag,
        c.meta.index_root,
        entries_at(before, c.meta.index_root),
        c.meta.current_data_page,
    );
    assert forall|p: PageId| #[trigger] used_by(before, c, p) implies used_by(after, c, p) by {
        if index_page(before, c, n, p) {
            let b = choose|b: int|
                0 <= b < n && tree_pages(before, #[trigger] roots_of(c)[b]).contains(p);
            if b != a {
                lemma_root_apart(list, at, a, at, b);
                assert(tree_owned(before, own, roots_of(c)[b]));
                lemma_tree_stands(before, after, own, now, tag, roots_of(c)[b]);
            }
            assert(tree_pages(after, roots_of(c)[b]).contains(p));
        }
    }
    assert forall|p: PageId| #[trigger] after.dom().contains(p) implies chain(after).contains(p)
        || used_in(after, list, p) by {
        if tree_pages(after, root).contains(p) {
            assert(tree_pages(after, roots_of(c)[a]).contains(p));
            assert(index_page(after, c, n, p));
            assert(used_by(after, list[at], p));
        } else if !chain(before).contains(p) {
            assert(before.dom().contains(p));
            let i = choose|i: int| 0 <= i < list.len() && used_by(before, #[trigger] list[i], p);
            assert(used_by(after, list[i], p));
        }
    }
}

/// In the middle of a write the pages are as they should be, once the catalog
/// is brought along.
pub proof fn lemma_underway_owned(
    pages: Map<PageId, Seq<u8>>,
    list: Seq<CollectionModel>,
    own: Owners,
    at: int,
    entries: Seq<Entry>,
    current: PageId,
    were: Docs,
    docs: Docs,
    k: int,
)
    requires
        underway(pages, list, own, at, entries, current, were, docs, k),
    ensures
        all_owned(pages, with_current(list, at, current), own),
        agrees(list, pages),
{
    reveal(underway);
    reveal(all_owned);
    let list2 = with_current(list, at, current);
    let c = list[at];
    let c2 = list2[at];
    assert(roots_distinct(list2)) by {
        reveal(roots_distinct);
        assert forall|i: int, a: int, j: int, b: int|
            #![trigger roots_of(list2[i])[a], roots_of(list2[j])[b]]
            0 <= i < list2.len() && 0 <= j < list2.len() && 0 <= a < roots_of(list2[i]).len() && 0
                <= b < roots_of(list2[j]).len() && roots_of(list2[i])[a] == roots_of(
                list2[j],
            )[b] implies i == j && a == b by {
            assert(roots_of(list2[i]) =~= roots_of(list[i]));
            assert(roots_of(list2[j]) =~= roots_of(list[j]));
            assert(roots_of(list[i])[a] == roots_of(list[j])[b]);
        }
    }
    assert forall|i: int| 0 <= i < list2.len() implies parts_owned(
        pages,
        own,
        #[trigger] list2[i],
    ) by {
        if i == at {
            reveal(parts_owned);
            assert forall|a: int| 0 <= a < roots_of(c2).len() implies tree_owned(
                pages,
                own,
                #[trigger] roots_of(c2)[a],
            ) by {
                if a > 0 {
                    assert(index_sound(
                        pages,
                        own,
                        if a - 1 < k {
                            docs
                        } else {
                            were
                        },
                        c.indexes[a - 1],
                    ));
                }
            }
        } else {
            assert(list2[i] == list[i]);
            lemma_parts_owned(pages, own, list[i]);
        }
    }
}

/// Nothing is left unused when a new collection or a new index is made.
pub proof fn lemma_used_root(
    before: Map<PageId, Seq<u8>>,
    after: Map<PageId, Seq<u8>>,
    list: Seq<CollectionModel>,
    own: Owners,
    root: PageId,
)
    requires
        sound_with(before, list, own),
        all_used(before, list),
        root_made(before, after, root),
    ensures
        forall|p: PageId| #[trigger]
            after.dom().contains(p) ==> p == root || chain(after).contains(p) || used_in(
                after,
                list,
                p,
            ),
        tree_pages(after, root).contains(root),
{
    let now = reowned(before, own, Owner::Catalog);
    lemma_sound_owned(before, list, own);
    assert(step(before, after, own, now, Owner::Catalog)) by {
        assert forall|p: PageId|
            #![trigger before.dom().contains(p)]
            #![trigger own[p]]
            before.dom().contains(p) && own[p] != Owner::Catalog implies after.dom().contains(p)
            && after[p] == before[p] && now[p] == own[p] by {
            assert(!chain(before).contains(p));
        }
    }
    lemma_used_catalog(before, after, list, own, now);
    assert(tree_pages(after, root)[0] == root);
}

/// A page that an index's root page stands for belongs to the collection that
/// has the index.
pub proof fn lemma_root_used(pages: Map<PageId, Seq<u8>>, c: CollectionModel, a: int, p: PageId)
    requires
        0 <= a < roots_of(c).len(),
        tree_pages(pages, roots_of(c)[a]).contains(p),
    ensures
        used_by(pages, c, p),
{
    assert(index_page(pages, c, roots_of(c).len() as int, p));
}

/// A collection with one more index uses what it did.
pub proof fn lemma_used_more(
    pages: Map<PageId, Seq<u8>>,
    c: CollectionModel,
    index: IndexModel,
    p: PageId,
)
    requires
        used_by(pages, c, p),
    ensures
        used_by(pages, CollectionModel { indexes: c.indexes.push(index), ..c }, p),
{
    let more = CollectionModel { indexes: c.indexes.push(index), ..c };
    if index_page(pages, c, roots_of(c).len() as int, p) {
        let a = choose|a: int|
            0 <= a < roots_of(c).len() && tree_pages(pages, #[trigger] roots_of(c)[a]).contains(p);
        assert(roots_of(more)[a] == roots_of(c)[a]);
        lemma_root_used(pages, more, a, p);
    }
}

/// Whether a collection's current data page, if it has one, holds a document.
pub open spec fn busy(pages: Map<PageId, Seq<u8>>, c: CollectionModel) -> bool {
    c.meta.current_data_page == 0 || page_among(
        entries_at(pages, c.meta.index_root),
        c.meta.current_data_page,
    )
}

/// Whether nothing is left unused by a write to a collection without secondary
/// indexes, its current data page busy, and that page is busy again.
pub open spec fn keeps_used(
    before: Map<PageId, Seq<u8>>,
    list: Seq<CollectionModel>,
    after: Map<PageId, Seq<u8>>,
    now: Seq<CollectionModel>,
    at: int,
) -> bool {
    all_used(before, list) && busy(before, list[at]) && list[at].indexes.len() == 0 ==> all_used(
        after,
        now,
    ) && busy(after, now[at])
}

/// Whether one of the entries leads to a page.
pub open spec fn page_among(entries: Seq<Entry>, page: PageId) -> bool {
    exists|i: int| 0 <= i < entries.len() && (#[trigger] entries[i]).1.page == page
}

/// Nothing is left unused when a document is stored in a collection without
/// secondary indexes, its current data page busy.
pub proof fn lemma_used_insert(
    before: Map<PageId, Seq<u8>>,
    middle: Map<PageId, Seq<u8>>,
    after: Map<PageId, Seq<u8>>,
    list: Seq<CollectionModel>,
    own: Owners,
    own1: Owners,
    own2: Owners,
    at: int,
    id: Seq<u8>,
    doc: DocModel,
    loc: RecordLocation,
)
    requires
        all_owned(before, list, own),
        all_used(before, list),
        0 <= at < list.len(),
        list[at].indexes.len() == 0,
        busy(before, list[at]),
        record_stored(before, middle, list[at].meta.current_data_page, loc, id, doc),
        loc.page != 0,
        step(before, middle, own, own1, Owner::Data(list[at].meta.index_root)),
        step(middle, after, own1, own2, Owner::Tree(list[at].meta.index_root)),
        tree_owned(middle, own1, list[at].meta.index_root),
        has_tree(after, list[at].meta.index_root),
        tree_grown(middle, after, list[at].meta.index_root),
        entries_at(after, list[at].meta.index_root) == inserted(
            entries_at(before, list[at].meta.index_root),
            id,
            loc,
        ),
        find(entries_at(before, list[at].meta.index_root), id) is None,
        forall|e: Entry| #[trigger]
            entries_at(before, list[at].meta.index_root).contains(e) ==> record_chain(middle, e.1)
                == record_chain(before, e.1),
        records_owned(
            middle,
            own1,
            list[at].meta.index_root,
            entries_at(after, list[at].meta.index_root),
            loc.page,
        ),
        chain(after) == chain(before),
    ensures
        all_used(after, with_current(list, at, loc.page)),
        busy(after, with_current(list, at, loc.page)[at]),
{
    reveal(all_owned);
    let c = list[at];
    let root = c.meta.index_root;
    let list2 = with_current(list, at, loc.page);
    let c2 = list2[at];
    let entries = entries_at(before, root);
    let longer = entries_at(after, root);
    assert(roots_of(c)[0] == root);
    assert(roots_of(c2)[0] == root);
    assert forall|i: int, p: PageId|
        0 <= i < list.len() && i != at && #[trigger] used_by(before, list[i], p) implies used_by(
        after,
        list[i],
        p,
    ) by {
        assert(roots_of(list[i])[0] == list[i].meta.index_root);
        lemma_root_apart(list, at, 0, i, 0);
        assert forall|b: int| 0 <= b < roots_of(list[i]).len() implies Owner::Tree(root)
            != Owner::Tree(#[trigger] roots_of(list[i])[b]) by {
            lemma_root_apart(list, at, 0, i, b);
        }
        lemma_usage_stands(before, middle, own, own1, Owner::Data(root), list[i]);
        lemma_usage_stands(middle, after, own1, own2, Owner::Tree(root), list[i]);
    }
    assert(tree_owned(before, own, root)) by {
        reveal(parts_owned);
        assert(parts_owned(before, own, c));
        assert(tree_owned(before, own, roots_of(c)[0]));
    }
    lemma_tree_facts(before, root);
    lemma_tree_stands(before, middle, own, own1, Owner::Data(root), root);
    lemma_chains_stand(middle, after, own1, own2, Owner::Tree(root), root, longer, loc.page);
    let whole = longer.len() as int;
    lemma_chains(middle, own1, root, longer, loc.page, whole);
    assert(places(longer).take(whole) =~= places(longer));
    assert(chains_at(after, places(longer)) is Some);
    let new = key_position(entries, id);
    lemma_key_position(entries, id);
    assert(longer[new] == (id, loc));
    assert(places(longer)[new] == loc);
    assert forall|e: Entry| #[trigger] entries.contains(e) implies longer.contains(e) by {
        let i = choose|i: int| 0 <= i < entries.len() && entries[i] == e;
        if i < new {
            assert(longer[i] == e);
        } else {
            assert(longer[i + 1] == e);
        }
    }
    assert forall|p: PageId| #[trigger] used_by(before, c, p) implies used_by(after, c2, p) by {
        if index_page(before, c, roots_of(c).len() as int, p) {
            let b = choose|b: int|
                0 <= b < roots_of(c).len() && tree_pages(
                    before,
                    #[trigger] roots_of(c)[b],
                ).contains(p);
            assert(b == 0);
            assert(tree_pages(after, roots_of(c2)[0]).contains(p));
            assert(index_page(after, c2, roots_of(c2).len() as int, p));
        } else if holds_records(c.meta.current_data_page, places(entries), p) {
            assert(page_among(entries, p)) by {
                if c.meta.current_data_page == 0 || p != c.meta.current_data_page {
                    let i = choose|i: int|
                        0 <= i < places(entries).len() && (#[trigger] places(entries)[i]).page == p;
                    assert(entries[i].1.page == p);
                }
            }
            let i = choose|i: int| 0 <= i < entries.len() && (#[trigger] entries[i]).1.page == p;
            assert(entries.contains(entries[i]));
            let k = choose|k: int| 0 <= k < longer.len() && longer[k] == entries[i];
            assert(places(longer)[k].page == p);
        } else {
            let i = lemma_chain_whose(before, places(entries), p);
            assert(entries.contains(entries[i]));
            let k = choose|k: int| 0 <= k < longer.len() && longer[k] == entries[i];
            assert(record_chain(after, longer[k].1) == record_chain(middle, longer[k].1));
            assert(places(longer)[k] == entries[i].1);
            lemma_chain_among(after, places(longer), k, p);
        }
    }
    assert forall|p: PageId| #[trigger] after.dom().contains(p) implies chain(after).contains(p)
        || used_in(after, list2, p) by {
        if tree_pages(after, root).contains(p) {
            assert(tree_pages(after, roots_of(c2)[0]).contains(p));
            assert(index_page(after, c2, roots_of(c2).len() as int, p));
            assert(used_by(after, list2[at], p));
        } else if p == loc.page {
            assert(places(longer)[new].page == p);
            assert(used_by(after, list2[at], p));
        } else if record_chain(middle, loc)->Some_0.contains(p) {
            assert(record_chain(after, longer[new].1) == record_chain(middle, longer[new].1));
            lemma_chain_among(after, places(longer), new, p);
            assert(used_by(after, list2[at], p));
        } else if !chain(before).contains(p) {
            assert(before.dom().contains(p));
            let i = choose|i: int| 0 <= i < list.len() && used_by(before, #[trigger] list[i], p);
            if i == at {
                assert(used_by(after, list2[at], p));
            } else {
                assert(list2[i] == list[i]);
                assert(used_by(after, list2[i], p));
            }
        }
    }
    assert(longer[new].1.page == loc.page);
}

} // verus!

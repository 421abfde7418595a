//! Which page belongs to what in a file where nothing is wrong.

use crate::catalog::chain::{chain, has_chain, is_catalog_page};
use crate::catalog::CollectionModel;
use crate::check::{
    checked_apart, claimable, claimed, docs_are_records, docs_of_entries, holds_right, should_hold,
    unowned, Checked,
};
use crate::collection::apply::{contents_of, values_unique};
use crate::collection::drops::places;
use crate::collection::state::{
    collection_docs, collection_sound, entries_at, index_sound, index_true, record_owned,
    records_owned, roots_of, Owner, Owners,
};
use crate::collection::usage::{
    index_page, lemma_record_pages, lemma_roots, lemma_used, record_page, used_by, used_of,
};
use crate::data::{ascending, chains_at, holds_records};
use crate::index::btree::tree_pages;
use crate::index::entries::{find, key_position, lemma_has_key, lemma_key_position};
use crate::index::key::{key_id, MAX_COMPOUND_FIELDS};
use crate::index::reach::{reached, scanned};
use crate::index::tree::Entry;
use crate::secondary::{doc_has_key, documents_collide, lemma_key_of_doc};
use crate::storage::PageId;
use vstd::prelude::*;

verus! {

/// Whether a file is as it should be: a database that is whole, where no
/// unique index has two equal values, and every page of the file is the
/// header, free, or belongs to the catalog or a collection.
pub open spec fn consistent(
    pages: Map<PageId, Seq<u8>>,
    list: Seq<CollectionModel>,
    free: Seq<PageId>,
    page_count: int,
) -> bool {
    &&& crate::collection::state::sound(pages, list)
    &&& forall|i: int|
        0 <= i < list.len() ==> values_unique(
            contents_of(collection_docs(pages, #[trigger] list[i])),
            list[i].indexes,
        )
    &&& free_apart(pages, free, page_count)
    &&& forall|p: PageId|
        0 < p < page_count && !#[trigger] free.contains(p) ==> chain(pages).contains(p) || exists|
            i: int,
        |
            0 <= i < list.len() && used_by(pages, #[trigger] list[i], p)
}

/// Whether the pages in use and the free ones are apart, and all in the file.
pub open spec fn free_apart(
    pages: Map<PageId, Seq<u8>>,
    free: Seq<PageId>,
    page_count: int,
) -> bool {
    &&& page_count > 0
    &&& free.no_duplicates()
    &&& forall|i: int|
        0 <= i < free.len() ==> 0 < #[trigger] free[i] < page_count && !pages.dom().contains(free[i])
    &&& forall|p: PageId| #[trigger] pages.dom().contains(p) ==> 0 < p < page_count
}

/// Whether a page is found where a part of a collection is looked for, however
/// damaged the collection is: the pages reached from the primary index's root
/// (part 0), the data pages of its records (part 1), their overflow pages
/// (part 2), and the pages reached from each secondary index's root (from part
/// 3 on).
pub open spec fn part_page(
    pages: Map<PageId, Seq<u8>>,
    c: CollectionModel,
    part: int,
    p: PageId,
) -> bool {
    if part == 0 {
        reached(pages, c.meta.index_root) matches Some(ids) && ids.contains(p)
    } else if part == 1 {
        scanned(pages, c.meta.index_root) matches Some(entries) && holds_records(
            c.meta.current_data_page,
            places(entries),
            p,
        )
    } else if part == 2 {
        scanned(pages, c.meta.index_root) matches Some(entries) && (chains_at(
            pages,
            places(entries),
        ) matches Some(ids) && ids.contains(p))
    } else {
        0 <= part - 3 < c.indexes.len() && (reached(pages, c.indexes[part - 3].root) matches Some(
            ids,
        ) && ids.contains(p))
    }
}

/// Whether a page is found in one of a collection's first `n` parts.
pub open spec fn part_of_first(
    pages: Map<PageId, Seq<u8>>,
    c: CollectionModel,
    n: int,
    p: PageId,
) -> bool {
    exists|part: int| 0 <= part < n && #[trigger] part_page(pages, c, part, p)
}

/// Whether a page is found in a part of a collection.
pub open spec fn part_of(pages: Map<PageId, Seq<u8>>, c: CollectionModel, p: PageId) -> bool {
    part_of_first(pages, c, 3 + c.indexes.len() as int, p)
}

/// Whether every part of a collection can be read.
pub open spec fn parts_readable(pages: Map<PageId, Seq<u8>>, c: CollectionModel) -> bool {
    &&& reached(pages, c.meta.index_root) is Some
    &&& scanned(pages, c.meta.index_root) matches Some(entries) && chains_at(
        pages,
        places(entries),
    ) is Some
    &&& forall|k: int|
        0 <= k < c.indexes.len() ==> reached(pages, (#[trigger] c.indexes[k]).root) is Some
            && scanned(pages, c.indexes[k].root) is Some
}

/// The owners once the pages of a collection's first `n` parts are claimed,
/// each of them owned by nothing before and found in one part only.
pub open spec fn first_taken(
    before: Seq<Option<String>>,
    after: Seq<Option<String>>,
    pages: Map<PageId, Seq<u8>>,
    c: CollectionModel,
    n: int,
) -> bool {
    &&& after.len() == before.len()
    &&& forall|p: PageId|
        p < before.len() ==> ((#[trigger] after[p as int]) is Some <==> before[p as int] is Some
            || part_of_first(pages, c, n, p))
    &&& forall|part: int, p: PageId|
        0 <= part < n && #[trigger] part_page(pages, c, part, p) ==> unowned(before, p)
    &&& forall|a: int, b: int, p: PageId|
        0 <= a < n && 0 <= b < n && #[trigger] part_page(pages, c, a, p) && #[trigger] part_page(
            pages,
            c,
            b,
            p,
        ) ==> a == b
}

/// The pages of one more part are claimed.
pub proof fn lemma_part_taken(
    before: Seq<Option<String>>,
    middle: Seq<Option<String>>,
    after: Seq<Option<String>>,
    pages: Map<PageId, Seq<u8>>,
    c: CollectionModel,
    n: int,
    ids: Seq<PageId>,
)
    requires
        n >= 0,
        first_taken(before, middle, pages, c, n),
        claimable(middle, ids),
        claimed(middle, after, ids),
        forall|p: PageId| #[trigger] ids.contains(p) <==> part_page(pages, c, n, p),
    ensures
        first_taken(before, after, pages, c, n + 1),
{
    assert forall|p: PageId| #[trigger] part_page(pages, c, n, p) implies unowned(middle, p)
        && unowned(before, p) && !part_of_first(pages, c, n, p) by {
        assert(ids.contains(p));
        let k = choose|k: int| 0 <= k < ids.len() && ids[k] == p;
        assert(unowned(middle, ids[k]));
        assert(middle[p as int] is None);
    }
    assert forall|p: PageId| part_of_first(pages, c, n + 1, p) <==> part_of_first(pages, c, n, p)
        || #[trigger] ids.contains(p) by {
        if part_of_first(pages, c, n + 1, p) {
            let part = choose|part: int|
                0 <= part < n + 1 && #[trigger] part_page(pages, c, part, p);
            if part < n {
                assert(part_of_first(pages, c, n, p));
            }
        }
        if part_of_first(pages, c, n, p) {
            let part = choose|part: int| 0 <= part < n && #[trigger] part_page(pages, c, part, p);
            assert(0 <= part < n + 1 && part_page(pages, c, part, p));
        }
        if ids.contains(p) {
            assert(part_page(pages, c, n, p));
        }
    }
    assert forall|p: PageId| p < before.len() implies ((#[trigger] after[p as int]) is Some
        <==> before[p as int] is Some || part_of_first(pages, c, n + 1, p)) by {
        assert(middle[p as int] is Some <==> before[p as int] is Some || part_of_first(
            pages,
            c,
            n,
            p,
        ));
        assert(ids.contains(p) || !ids.contains(p));
    }
    assert forall|a: int, b: int, p: PageId|
        0 <= a < n + 1 && 0 <= b < n + 1 && #[trigger] part_page(pages, c, a, p)
            && #[trigger] part_page(pages, c, b, p) implies a == b by {
        if a == n && b < n {
            assert(part_of_first(pages, c, n, p));
        }
        if b == n && a < n {
            assert(part_of_first(pages, c, n, p));
        }
    }
}

/// Whether every page of a file has exactly one place: the header, the
/// catalog's pages, the free list, or one part of one collection.
pub open spec fn owned_once(
    pages: Map<PageId, Seq<u8>>,
    list: Seq<CollectionModel>,
    catalog: Seq<PageId>,
    free: Seq<PageId>,
    page_count: int,
) -> bool {
    &&& catalog.no_duplicates()
    &&& free.no_duplicates()
    &&& forall|p: PageId| #[trigger]
        catalog.contains(p) ==> 0 < p < page_count && !free.contains(p)
    &&& forall|p: PageId| #[trigger] free.contains(p) ==> 0 < p < page_count
    &&& forall|i: int, p: PageId|
        0 <= i < list.len() && #[trigger] part_of(pages, list[i], p) ==> 0 < p < page_count
            && !catalog.contains(p) && !free.contains(p)
    &&& forall|i: int, j: int, p: PageId|
        0 <= i < list.len() && 0 <= j < list.len() && #[trigger] part_of(pages, list[i], p)
            && #[trigger] part_of(pages, list[j], p) ==> i == j
    &&& forall|i: int, a: int, b: int, p: PageId|
        0 <= i < list.len() && 0 <= a < 3 + list[i].indexes.len() && 0 <= b < 3
            + list[i].indexes.len() && #[trigger] part_page(pages, list[i], a, p)
            && #[trigger] part_page(pages, list[i], b, p) ==> a == b
    &&& forall|p: PageId|
        0 < p < page_count && !#[trigger] free.contains(p) ==> catalog.contains(p) || exists|i: int|
            0 <= i < list.len() && part_of(pages, #[trigger] list[i], p)
}

/// Whether no two of a collection's indexes have the same root.
pub open spec fn roots_apart(c: CollectionModel) -> bool {
    forall|a: int, b: int|
        0 <= a < b < roots_of(c).len() ==> #[trigger] roots_of(c)[a] != #[trigger] roots_of(c)[b]
}

/// Whether a collection is whole, and none of its pages is claimed yet.
pub open spec fn awaiting(
    pages: Map<PageId, Seq<u8>>,
    own: Owners,
    c: CollectionModel,
    owners: Seq<Option<String>>,
) -> bool {
    &&& collection_sound(pages, own, c)
    &&& roots_apart(c)
    &&& forall|p: PageId| #[trigger] used_by(pages, c, p) ==> unowned(owners, p)
}

/// Whether a collection's pages can be claimed.
pub open spec fn can_claim(
    pages: Map<PageId, Seq<u8>>,
    c: CollectionModel,
    owners: Seq<Option<String>>,
) -> bool {
    exists|own: Owners| awaiting(pages, own, c, owners)
}

/// The owners once a collection's pages are claimed, as far as its first `n`
/// indexes.
pub open spec fn owned_now(
    before: Seq<Option<String>>,
    after: Seq<Option<String>>,
    pages: Map<PageId, Seq<u8>>,
    c: CollectionModel,
    n: int,
) -> bool {
    &&& after.len() == before.len()
    &&& forall|p: PageId|
        p < before.len() ==> ((#[trigger] after[p as int]) is Some <==> before[p as int] is Some
            || used_of(pages, c, n, p))
}

/// The primary index's pages can be claimed.
pub proof fn lemma_claim_primary(
    pages: Map<PageId, Seq<u8>>,
    own: Owners,
    c: CollectionModel,
    owners: Seq<Option<String>>,
)
    requires
        awaiting(pages, own, c, owners),
    ensures
        claimable(owners, tree_pages(pages, c.meta.index_root)),
{
    lemma_roots(pages, own, c, 0);
    let ids = tree_pages(pages, roots_of(c)[0]);
    assert forall|i: int| 0 <= i < ids.len() implies unowned(owners, #[trigger] ids[i]) by {
        assert(ids.contains(ids[i]));
        assert(index_page(pages, c, roots_of(c).len() as int, ids[i]));
        assert(used_by(pages, c, ids[i]));
    }
}

/// Once the primary index's pages are claimed, those of the records can be,
/// and then those of large ones.
pub proof fn lemma_claim_records(
    pages: Map<PageId, Seq<u8>>,
    own: Owners,
    c: CollectionModel,
    before: Seq<Option<String>>,
    first: Seq<Option<String>>,
    data: Seq<PageId>,
    second: Seq<Option<String>>,
    third: Seq<Option<String>>,
)
    requires
        awaiting(pages, own, c, before),
        claimed(before, first, tree_pages(pages, c.meta.index_root)),
        ascending(data),
        forall|p: PageId| #[trigger]
            data.contains(p) <==> holds_records(
                c.meta.current_data_page,
                places(entries_at(pages, c.meta.index_root)),
                p,
            ),
    ensures
        claimable(first, data),
        claimed(first, second, data) ==> claimable(
            second,
            chains_at(pages, places(entries_at(pages, c.meta.index_root)))->Some_0,
        ),
        claimed(first, second, data) && claimed(
            second,
            third,
            chains_at(pages, places(entries_at(pages, c.meta.index_root)))->Some_0,
        ) ==> owned_now(before, third, pages, c, 1),
{
    let root = c.meta.index_root;
    let locs = places(entries_at(pages, root));
    let chained = chains_at(pages, locs)->Some_0;
    let tree = tree_pages(pages, root);
    assert(roots_of(c)[0] == root);
    lemma_roots(pages, own, c, 0);
    lemma_record_pages(pages, own, c);
    assert forall|i: int| 0 <= i < data.len() implies unowned(first, #[trigger] data[i]) by {
        let p = data[i];
        assert(data.contains(p));
        assert(record_page(pages, c, p));
        assert(used_by(pages, c, p));
        assert(unowned(before, p));
        assert(!tree.contains(p));
        assert(first[p as int] is Some <==> before[p as int] is Some || tree.contains(p));
    }
    if claimed(first, second, data) {
        assert forall|i: int| 0 <= i < chained.len() implies unowned(
            second,
            #[trigger] chained[i],
        ) by {
            let p = chained[i];
            assert(chained.contains(p));
            assert(record_page(pages, c, p));
            assert(used_by(pages, c, p));
            assert(unowned(before, p));
            assert(!tree.contains(p));
            assert(!data.contains(p));
            assert(first[p as int] is Some <==> before[p as int] is Some || tree.contains(p));
            assert(second[p as int] is Some <==> first[p as int] is Some || data.contains(p));
        }
        if claimed(second, third, chained) {
            assert forall|p: PageId| p < before.len() implies ((
            #[trigger] third[p as int]) is Some <==> before[p as int] is Some || used_of(
                pages,
                c,
                1,
                p,
            )) by {
                assert(first[p as int] is Some <==> before[p as int] is Some || tree.contains(p));
                assert(second[p as int] is Some <==> first[p as int] is Some || data.contains(p));
                assert(index_page(pages, c, 1, p) <==> tree.contains(p)) by {
                    if tree.contains(p) {
                        assert(tree_pages(pages, roots_of(c)[0]).contains(p));
                    }
                }
                assert(record_page(pages, c, p) <==> data.contains(p) || chained.contains(p));
            }
        }
    }
}

/// The next index's pages can be claimed.
pub proof fn lemma_claim_index(
    pages: Map<PageId, Seq<u8>>,
    own: Owners,
    c: CollectionModel,
    before: Seq<Option<String>>,
    owners: Seq<Option<String>>,
    after: Seq<Option<String>>,
    k: int,
)
    requires
        awaiting(pages, own, c, before),
        0 <= k < c.indexes.len(),
        owned_now(before, owners, pages, c, k + 1),
    ensures
        claimable(owners, tree_pages(pages, c.indexes[k].root)),
        claimed(owners, after, tree_pages(pages, c.indexes[k].root)) ==> owned_now(
            before,
            after,
            pages,
            c,
            k + 2,
        ),
{
    let root = c.indexes[k].root;
    assert(roots_of(c)[k + 1] == root);
    let ids = tree_pages(pages, root);
    lemma_roots(pages, own, c, k + 1);
    assert forall|i: int| 0 <= i < ids.len() implies unowned(owners, #[trigger] ids[i]) by {
        let p = ids[i];
        assert(ids.contains(p));
        assert(tree_pages(pages, roots_of(c)[k + 1]).contains(p));
        assert(index_page(pages, c, roots_of(c).len() as int, p));
        assert(used_by(pages, c, p));
        assert(unowned(before, p));
        if used_of(pages, c, k + 1, p) {
            lemma_used(pages, own, c, k + 1, p);
            let a = choose|a: int|
                0 <= a < k + 1 && a < roots_of(c).len() && own[p] == Owner::Tree(
                    #[trigger] roots_of(c)[a],
                );
            assert(roots_of(c)[a] != roots_of(c)[k + 1]);
        }
        assert(owners[p as int] is Some <==> before[p as int] is Some || used_of(
            pages,
            c,
            k + 1,
            p,
        ));
    }
    if claimed(owners, after, ids) {
        assert forall|p: PageId| p < before.len() implies ((#[trigger] after[p as int]) is Some
            <==> before[p as int] is Some || used_of(pages, c, k + 2, p)) by {
            assert(owners[p as int] is Some <==> before[p as int] is Some || used_of(
                pages,
                c,
                k + 1,
                p,
            ));
            assert(index_page(pages, c, k + 2, p) <==> index_page(pages, c, k + 1, p)
                || ids.contains(p)) by {
                if ids.contains(p) {
                    assert(tree_pages(pages, roots_of(c)[k + 1]).contains(p));
                }
                if index_page(pages, c, k + 2, p) {
                    let a = choose|a: int|
                        0 <= a < k + 2 && a < roots_of(c).len() && tree_pages(
                            pages,
                            #[trigger] roots_of(c)[a],
                        ).contains(p);
                    if a < k + 1 {
                        assert(index_page(pages, c, k + 1, p));
                    }
                }
                if index_page(pages, c, k + 1, p) {
                    let a = choose|a: int|
                        0 <= a < k + 1 && a < roots_of(c).len() && tree_pages(
                            pages,
                            #[trigger] roots_of(c)[a],
                        ).contains(p);
                    assert(0 <= a < k + 2);
                }
            }
        }
    }
}

/// What the documents read of a whole collection are.
pub proof fn lemma_read(
    pages: Map<PageId, Seq<u8>>,
    own: Owners,
    c: CollectionModel,
    docs: Seq<Checked>,
    i: int,
)
    requires
        collection_sound(pages, own, c),
        docs_of_entries(docs, entries_at(pages, c.meta.index_root)),
        docs_are_records(pages, docs),
        0 <= i < docs.len(),
    ensures
        ({
            let held = collection_docs(pages, c);
            let id = docs[i].0@;
            &&& id.len() == 16
            &&& id == entries_at(pages, c.meta.index_root)[i].0
            &&& held.dom().contains(id)
            &&& held[id].0 == docs[i].2
            &&& held[id].1 == docs[i].1@
        }),
{
    reveal(collection_sound);
    reveal(records_owned);
    lemma_roots(pages, own, c, 0);
    let entries = entries_at(pages, c.meta.index_root);
    assert(record_owned(pages, own, c.meta.index_root, entries[i]));
    assert(entries[i].0.skip(0) =~= entries[i].0);
    lemma_has_key(entries, entries[i].0, i);
}

/// An index of a whole collection holds exactly the keys of the documents.
pub proof fn lemma_right(
    pages: Map<PageId, Seq<u8>>,
    own: Owners,
    c: CollectionModel,
    docs: Seq<Checked>,
    k: int,
)
    requires
        collection_sound(pages, own, c),
        docs_of_entries(docs, entries_at(pages, c.meta.index_root)),
        docs_are_records(pages, docs),
        0 <= k < c.indexes.len(),
    ensures
        1 <= c.indexes[k].fields.len() <= MAX_COMPOUND_FIELDS,
        holds_right(entries_at(pages, c.indexes[k].root), docs, c.indexes[k]),
        values_unique(contents_of(collection_docs(pages, c)), c.indexes) && c.indexes[k].unique
            ==> checked_apart(docs, c.indexes[k]),
{
    let index = c.indexes[k];
    let held = collection_docs(pages, c);
    let primary = entries_at(pages, c.meta.index_root);
    let entries = entries_at(pages, index.root);
    assert(roots_of(c)[k + 1] == index.root);
    assert(roots_of(c)[0] == c.meta.index_root);
    lemma_roots(pages, own, c, k + 1);
    lemma_roots(pages, own, c, 0);
    assert(index_sound(pages, own, held, index)) by {
        reveal(collection_sound);
    }
    reveal(index_true);
    assert forall|e: Entry| #[trigger] entries.contains(e) <==> should_hold(docs, index, e) by {
        if entries.contains(e) {
            let at = choose|at: int| 0 <= at < entries.len() && entries[at] == e;
            lemma_has_key(entries, e.0, at);
            assert(find(entries, e.0) == Some(e.1));
            let id = key_id(e.0);
            assert(held.dom().contains(id));
            lemma_key_position(primary, id);
            let i = key_position(primary, id);
            assert(primary[i].0 == id);
            lemma_read(pages, own, c, docs, i);
            assert(docs[i].2 == e.1 && doc_has_key(docs[i].1@, index, docs[i].0@, e.0));
        }
        if should_hold(docs, index, e) {
            let i = choose|i: int|
                0 <= i < docs.len() && (#[trigger] docs[i]).2 == e.1 && doc_has_key(
                    docs[i].1@,
                    index,
                    docs[i].0@,
                    e.0,
                );
            lemma_read(pages, own, c, docs, i);
            lemma_key_of_doc(docs[i].1@, index, docs[i].0@, e.0);
            assert(find(entries, e.0) == Some(e.1));
            lemma_key_position(entries, e.0);
            let at = key_position(entries, e.0);
            assert(entries[at] == e);
        }
    }
    if values_unique(contents_of(held), c.indexes) && index.unique {
        assert forall|i: int, j: int| 0 <= i < j < docs.len() implies !documents_collide(
            (#[trigger] docs[i]).1@,
            (#[trigger] docs[j]).1@,
            index,
        ) by {
            lemma_read(pages, own, c, docs, i);
            lemma_read(pages, own, c, docs, j);
            if docs[i].0@ == docs[j].0@ {
                lemma_has_key(primary, docs[i].0@, i);
                lemma_has_key(primary, docs[j].0@, j);
            }
            let all = contents_of(held);
            assert(!documents_collide(all[docs[i].0@], all[docs[j].0@], c.indexes[k]));
        }
    }
}

/// The catalog's pages are in the store, none twice.
pub proof fn lemma_catalog_pages(pages: Map<PageId, Seq<u8>>)
    requires
        has_chain(pages),
    ensures
        chain(pages).no_duplicates(),
        forall|p: PageId| #[trigger] chain(pages).contains(p) ==> pages.dom().contains(p),
{
    let ids = chain(pages);
    assert forall|p: PageId| #[trigger] ids.contains(p) implies pages.dom().contains(p) by {
        let i = choose|i: int| 0 <= i < ids.len() && ids[i] == p;
        assert(is_catalog_page(pages, ids[i]));
    }
}

} // verus!

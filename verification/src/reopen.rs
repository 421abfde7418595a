//! What a database is once its catalog is read again.

use crate::catalog::chain::catalog_cells;
use crate::catalog::{
    catalog_survives_reopen, each_index_once, indexes_of, lemma_place, lemma_position, loaded,
    meta_of, names_distinct, position, same_catalog, CollectionModel,
};
use crate::collection::apply::stored_in;
use crate::collection::state::{
    collection_docs, collection_sound, index_sound, roots_distinct, roots_of, sound, sound_with,
    Owners,
};
use crate::storage::PageId;
use vstd::prelude::*;

verus! {

/// No collection of a sound database has an index twice.
proof fn lemma_indexes_once(list: Seq<CollectionModel>)
    requires
        roots_distinct(list),
    ensures
        each_index_once(list),
{
    reveal(roots_distinct);
    assert forall|i: int| 0 <= i < list.len() implies (#[trigger] list[i]).indexes.no_duplicates() by {
        let c = list[i];
        assert forall|a: int, b: int|
            0 <= a < c.indexes.len() && 0 <= b < c.indexes.len() && a != b implies c.indexes[a]
            != c.indexes[b] by {
            assert(roots_of(list[i])[a + 1] == c.indexes[a].root);
            assert(roots_of(list[i])[b + 1] == c.indexes[b].root);
        }
    }
}

/// Where one of a collection's roots is in a catalog that says the same.
proof fn lemma_root_place(
    list: Seq<CollectionModel>,
    found: Seq<CollectionModel>,
    i: int,
    a: int,
) -> (r: (int, int))
    requires
        names_distinct(found),
        same_catalog(list, found),
        0 <= i < found.len(),
        0 <= a < roots_of(found[i]).len(),
    ensures
        0 <= r.0 < list.len(),
        list[r.0].name == found[i].name,
        list[r.0].meta == found[i].meta,
        0 <= r.1 < roots_of(list[r.0]).len(),
        roots_of(list[r.0])[r.1] == roots_of(found[i])[a],
        a == 0 <==> r.1 == 0,
        a > 0 ==> list[r.0].indexes[r.1 - 1] == found[i].indexes[a - 1],
{
    let name = found[i].name;
    lemma_place(found, i);
    lemma_position(list, name);
    assert(meta_of(found, name) == meta_of(list, name));
    let at = position(list, name) as int;
    if a == 0 {
        (at, 0int)
    } else {
        let index = found[i].indexes[a - 1];
        assert(indexes_of(found, name).contains(index));
        let k = choose|k: int| 0 <= k < list[at].indexes.len() && list[at].indexes[k] == index;
        assert(roots_of(list[at])[k + 1] == index.root);
        assert(roots_of(found[i])[a] == index.root);
        (at, k + 1)
    }
}

/// No two indexes of a catalog that says the same have the same root.
proof fn lemma_same_roots(list: Seq<CollectionModel>, found: Seq<CollectionModel>)
    requires
        roots_distinct(list),
        names_distinct(found),
        each_index_once(found),
        same_catalog(list, found),
    ensures
        roots_distinct(found),
{
    reveal(roots_distinct);
    assert forall|i: int, a: int, j: int, b: int|
        #![trigger roots_of(found[i])[a], roots_of(found[j])[b]]
        0 <= i < found.len() && 0 <= j < found.len() && 0 <= a < roots_of(found[i]).len() && 0 <= b
            < roots_of(found[j]).len() && roots_of(found[i])[a] == roots_of(
            found[j],
        )[b] implies i == j && a == b by {
        let (x, k) = lemma_root_place(list, found, i, a);
        let (y, m) = lemma_root_place(list, found, j, b);
        assert(roots_of(list[x])[k] == roots_of(list[y])[m]);
        assert(x == y && k == m);
        assert(found[i].name == found[j].name);
        if i < j {
            assert(found[i].name != found[j].name);
        } else if j < i {
            assert(found[j].name != found[i].name);
        }
        if a != b {
            assert(found[i].indexes.no_duplicates());
            assert(found[i].indexes[a - 1] == found[i].indexes[b - 1]);
        }
    }
}

/// A reopened database is sound and holds the same: the catalog that is loaded
/// from the pages of a sound database has the same collections, each with the
/// same documents and the same indexes.
pub proof fn reopened_database_is_sound(list: Seq<CollectionModel>, pages: Map<PageId, Seq<u8>>)
    requires
        sound(pages, list),
    ensures
        loaded(catalog_cells(pages)) matches Some(found) && sound(pages, found) && same_catalog(
            list,
            found,
        ) && forall|name: Seq<char>| #[trigger]
            stored_in(pages, found, name) == stored_in(pages, list, name),
{
    let own = choose|own: Owners| sound_with(pages, list, own);
    lemma_indexes_once(list);
    catalog_survives_reopen(list, pages);
    let found = loaded(catalog_cells(pages))->Some_0;
    lemma_same_roots(list, found);
    assert forall|i: int| 0 <= i < found.len() implies collection_sound(
        pages,
        own,
        #[trigger] found[i],
    ) by {
        let c = found[i];
        let (at, _k) = lemma_root_place(list, found, i, 0);
        assert(collection_sound(pages, own, list[at]));
        reveal(collection_sound);
        assert forall|k: int| 0 <= k < c.indexes.len() implies index_sound(
            pages,
            own,
            collection_docs(pages, c),
            #[trigger] c.indexes[k],
        ) by {
            let (x, m) = lemma_root_place(list, found, i, k + 1);
            assert(collection_sound(pages, own, list[x]));
            assert(index_sound(
                pages,
                own,
                collection_docs(pages, list[x]),
                list[x].indexes[m - 1],
            ));
        }
    }
    assert(sound_with(pages, found, own));
    assert forall|name: Seq<char>| #[trigger] stored_in(pages, found, name) == stored_in(
        pages,
        list,
        name,
    ) by {
        assert(meta_of(found, name) == meta_of(list, name));
    }
}

} // verus!

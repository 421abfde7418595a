//! How full the pages of a database are that was filled in order: every
//! collection's documents by id, every index by key.

use super::rest::{rest_sound, with_current};
use super::state::{
    collection_docs, collection_sound, docs_at, entries_at, lemma_records_stand, lemma_tree_facts,
    lemma_tree_stands, record_owned, records_owned, roots_distinct, roots_of, sound_with, step,
    tree_owned, Docs, Owner, Owners,
};
use super::usage::{all_owned, lemma_parts_owned, lemma_sound_owned, parts_owned};
use crate::catalog::chain::chain;
use crate::catalog::entry::IndexModel;
use crate::catalog::{root_made, CollectionModel};
use crate::data::{cell_len, data_slot, record_stored, room_for};
use crate::document::DocModel;
use crate::index::entries::{inserted, lemma_key_position_is, sorted};
use crate::index::runs::{
    at_edge, edge_kept, filled, filled_leaves_are_full, leaf_runs, leaves_full,
    lemma_branch_has_leaves, lemma_lone_leaf,
};
use crate::index::btree::tree_pages;
use crate::index::tree::{has_tree, tree_at, Entry};
use crate::order::{bytes_lt, lemma_lt_irreflexive};
use crate::storage::{PageId, RecordLocation};
use vstd::prelude::*;

verus! {

/// Whether the leaves of the tree at `root` are as they are when its entries
/// come in order.
pub open spec fn tight(pages: Map<PageId, Seq<u8>>, root: PageId) -> bool {
    leaf_runs(pages, root) == filled(entries_at(pages, root))
}

/// Whether the next document is on another page.
pub open spec fn moves_on(entries: Seq<Entry>, k: int) -> bool {
    entries[k].1.page != entries[k + 1].1.page
}

/// Whether no later document is on a document's page.
pub open spec fn left_behind(entries: Seq<Entry>, k: int) -> bool {
    forall|m: int| k < m < entries.len() ==> (#[trigger] entries[m]).1.page != entries[k].1.page
}

/// Whether documents, in id order, fill one page after the other: where the
/// next one is on another page, it had no room on this one, and none comes back
/// to it. The last one is on the current page.
pub open spec fn data_full(
    pages: Map<PageId, Seq<u8>>,
    entries: Seq<Entry>,
    docs: Docs,
    current: PageId,
) -> bool {
    &&& entries.len() == 0 ==> current == 0
    &&& entries.len() > 0 ==> current == entries.last().1.page
    &&& forall|k: int|
        0 <= k < entries.len() - 1 && #[trigger] moves_on(entries, k) ==> !room_for(
            pages,
            entries[k].1.page,
            cell_len(docs[entries[k + 1].0].1),
        ) && left_behind(entries, k)
}

/// Whether a collection's documents fill their pages, and its indexes their
/// leaves.
pub open spec fn collection_packed(pages: Map<PageId, Seq<u8>>, c: CollectionModel) -> bool {
    &&& forall|a: int| 0 <= a < roots_of(c).len() ==> tight(pages, #[trigger] roots_of(c)[a])
    &&& data_full(
        pages,
        entries_at(pages, c.meta.index_root),
        collection_docs(pages, c),
        c.meta.current_data_page,
    )
}

/// Whether every collection's pages are full.
#[verifier::opaque]
pub open spec fn all_packed(pages: Map<PageId, Seq<u8>>, list: Seq<CollectionModel>) -> bool {
    forall|i: int| 0 <= i < list.len() ==> collection_packed(pages, #[trigger] list[i])
}

/// Whether an id comes behind all others of a collection.
pub open spec fn comes_last(pages: Map<PageId, Seq<u8>>, c: CollectionModel, id: Seq<u8>) -> bool {
    forall|i: int|
        0 <= i < entries_at(pages, c.meta.index_root).len() ==> bytes_lt(
            (#[trigger] entries_at(pages, c.meta.index_root)[i]).0,
            id,
        )
}

/// Whether a write to a collection without secondary indexes, of a document
/// behind all others, leaves the pages full.
pub open spec fn keeps_packed(
    before: Map<PageId, Seq<u8>>,
    list: Seq<CollectionModel>,
    after: Map<PageId, Seq<u8>>,
    now: Seq<CollectionModel>,
    at: int,
    id: Seq<u8>,
) -> bool {
    all_packed(before, list) && list[at].indexes.len() == 0 && comes_last(before, list[at], id)
        ==> all_packed(after, now)
}

/// Whether every leaf of a collection's indexes but the last of each is full.
pub open spec fn collection_leaves_full(pages: Map<PageId, Seq<u8>>, c: CollectionModel) -> bool {
    &&& leaves_full(pages, c.meta.index_root)
    &&& forall|k: int|
        0 <= k < c.indexes.len() ==> leaves_full(pages, (#[trigger] c.indexes[k]).root)
}

/// Indexes that were filled in order have full leaves.
pub proof fn packed_leaves_are_full(pages: Map<PageId, Seq<u8>>, c: CollectionModel)
    requires
        collection_packed(pages, c),
    ensures
        collection_leaves_full(pages, c),
{
    assert forall|a: int| 0 <= a < roots_of(c).len() implies leaves_full(
        pages,
        #[trigger] roots_of(c)[a],
    ) by {
        assert(tight(pages, roots_of(c)[a]));
        filled_leaves_are_full(entries_at(pages, roots_of(c)[a]));
    }
    assert(roots_of(c)[0] == c.meta.index_root);
    assert forall|k: int| 0 <= k < c.indexes.len() implies leaves_full(
        pages,
        (#[trigger] c.indexes[k]).root,
    ) by {
        assert(roots_of(c)[k + 1] == c.indexes[k].root);
    }
}

/// A tree's leaves stand where its pages do.
pub proof fn lemma_tight_stands(
    before: Map<PageId, Seq<u8>>,
    after: Map<PageId, Seq<u8>>,
    own: Owners,
    now: Owners,
    tag: Owner,
    root: PageId,
)
    requires
        tree_owned(before, own, root),
        step(before, after, own, now, tag),
        tag != Owner::Tree(root),
        tight(before, root),
    ensures
        tight(after, root),
{
    lemma_tree_stands(before, after, own, now, tag, root);
}

/// Data pages stand.
pub proof fn lemma_data_stands(
    before: Map<PageId, Seq<u8>>,
    after: Map<PageId, Seq<u8>>,
    own: Owners,
    now: Owners,
    tag: Owner,
    root: PageId,
    entries: Seq<Entry>,
    current: PageId,
)
    requires
        records_owned(before, own, root, entries, current),
        sorted(entries),
        step(before, after, own, now, tag),
        tag != Owner::Data(root),
        data_full(before, entries, docs_at(before, entries), current),
    ensures
        data_full(after, entries, docs_at(after, entries), current),
{
    lemma_records_stand(before, after, own, now, tag, root, entries, current);
    reveal(records_owned);
    assert forall|k: int| 0 <= k < entries.len() - 1 && #[trigger] moves_on(
        entries,
        k,
    ) implies !room_for(
        after,
        entries[k].1.page,
        cell_len(docs_at(after, entries)[entries[k + 1].0].1),
    ) && left_behind(entries, k) by {
        assert(record_owned(before, own, root, entries[k]));
        assert(data_slot(before, entries[k].1) is Some);
        assert(before.dom().contains(entries[k].1.page));
    }
}

/// A collection's pages stand.
pub proof fn lemma_packed_stands(
    before: Map<PageId, Seq<u8>>,
    after: Map<PageId, Seq<u8>>,
    own: Owners,
    now: Owners,
    tag: Owner,
    c: CollectionModel,
)
    requires
        parts_owned(before, own, c),
        step(before, after, own, now, tag),
        tag != Owner::Data(c.meta.index_root),
        forall|a: int| 0 <= a < roots_of(c).len() ==> tag != Owner::Tree(#[trigger] roots_of(c)[a]),
        collection_packed(before, c),
    ensures
        collection_packed(after, c),
{
    reveal(parts_owned);
    let root = c.meta.index_root;
    assert(roots_of(c)[0] == root);
    assert(tree_owned(before, own, roots_of(c)[0]));
    lemma_tree_facts(before, root);
    lemma_tree_stands(before, after, own, now, tag, root);
    lemma_data_stands(
        before,
        after,
        own,
        now,
        tag,
        root,
        entries_at(before, root),
        c.meta.current_data_page,
    );
    assert forall|a: int| 0 <= a < roots_of(c).len() implies tight(
        after,
        #[trigger] roots_of(c)[a],
    ) by {
        assert(tree_owned(before, own, roots_of(c)[a]));
        lemma_tight_stands(before, after, own, now, tag, roots_of(c)[a]);
    }
}

/// What belongs to one collection belongs to no other.
pub proof fn lemma_tags_apart(list: Seq<CollectionModel>, at: int, a: int, i: int)
    requires
        roots_distinct(list),
        0 <= at < list.len(),
        0 <= a < roots_of(list[at]).len(),
        0 <= i < list.len(),
        i != at,
    ensures
        forall|b: int|
            0 <= b < roots_of(list[i]).len() ==> #[trigger] roots_of(list[i])[b] != roots_of(
                list[at],
            )[a],
        list[i].meta.index_root != list[at].meta.index_root,
{
    reveal(roots_distinct);
    assert(roots_of(list[i])[0] == list[i].meta.index_root);
    assert(roots_of(list[at])[0] == list[at].meta.index_root);
}

/// Nothing but the catalog's pages, and new ones, changed.
pub open spec fn catalog_only(
    before: Map<PageId, Seq<u8>>,
    after: Map<PageId, Seq<u8>>,
) -> bool {
    forall|p: PageId| #[trigger]
        before.dom().contains(p) && !chain(before).contains(p) ==> after.dom().contains(p)
            && after[p] == before[p]
}

/// A change to the catalog's pages leaves the others full.
pub proof fn lemma_packed_catalog(
    before: Map<PageId, Seq<u8>>,
    after: Map<PageId, Seq<u8>>,
    list: Seq<CollectionModel>,
    own: Owners,
)
    requires
        all_owned(before, list, own),
        catalog_only(before, after),
        all_packed(before, list),
    ensures
        all_packed(after, list),
{
    reveal(all_packed);
    reveal(all_owned);
    assert(step(before, after, own, own, Owner::Catalog)) by {
        assert forall|p: PageId|
            #![trigger before.dom().contains(p)]
            #![trigger own[p]]
            before.dom().contains(p) && own[p] != Owner::Catalog implies after.dom().contains(p)
            && after[p] == before[p] && own[p] == own[p] by {
            assert(!chain(before).contains(p));
        }
    }
    assert forall|i: int| 0 <= i < list.len() implies collection_packed(
        after,
        #[trigger] list[i],
    ) by {
        assert(parts_owned(before, own, list[i]));
        lemma_packed_stands(before, after, own, own, Owner::Catalog, list[i]);
    }
}

/// A new collection's pages are full.
pub proof fn lemma_packed_made(
    before: Map<PageId, Seq<u8>>,
    after: Map<PageId, Seq<u8>>,
    list: Seq<CollectionModel>,
    own: Owners,
    c: CollectionModel,
)
    requires
        sound_with(before, list, own),
        catalog_only(before, after),
        all_packed(before, list),
        c.indexes.len() == 0,
        c.meta.current_data_page == 0,
        has_tree(after, c.meta.index_root),
        tree_pages(after, c.meta.index_root).len() == 1,
        entries_at(after, c.meta.index_root).len() == 0,
    ensures
        all_packed(after, list.push(c)),
{
    lemma_sound_owned(before, list, own);
    lemma_packed_catalog(before, after, list, own);
    lemma_new_root_tight(after, c.meta.index_root);
    reveal(all_packed);
    let now = list.push(c);
    assert forall|i: int| 0 <= i < now.len() implies collection_packed(
        after,
        #[trigger] now[i],
    ) by {
        if i < list.len() {
            assert(now[i] == list[i]);
        } else {
            assert(roots_of(c)[0] == c.meta.index_root);
        }
    }
}

/// A new index's leaf is full enough: it is the only one.
pub proof fn lemma_packed_index(
    before: Map<PageId, Seq<u8>>,
    after: Map<PageId, Seq<u8>>,
    list: Seq<CollectionModel>,
    own: Owners,
    at: int,
    index: IndexModel,
)
    requires
        sound_with(before, list, own),
        all_packed(before, list),
        0 <= at < list.len(),
        root_made(before, after, index.root),
    ensures
        all_packed(
            after,
            list.update(
                at,
                CollectionModel { indexes: list[at].indexes.push(index), ..list[at] },
            ),
        ),
{
    lemma_sound_owned(before, list, own);
    lemma_packed_catalog(before, after, list, own);
    lemma_new_root_tight(after, index.root);
    reveal(all_packed);
    let c = CollectionModel { indexes: list[at].indexes.push(index), ..list[at] };
    let now = list.update(at, c);
    assert forall|i: int| 0 <= i < now.len() implies collection_packed(
        after,
        #[trigger] now[i],
    ) by {
        assert(collection_packed(after, list[i]));
        if i == at {
            let n = roots_of(list[at]).len() as int;
            assert forall|a: int| 0 <= a < roots_of(c).len() implies tight(
                after,
                #[trigger] roots_of(c)[a],
            ) by {
                if a < n {
                    assert(roots_of(c)[a] == roots_of(list[at])[a]);
                } else {
                    assert(roots_of(c)[a] == index.root);
                }
            }
        }
    }
}

/// A new, empty tree is one empty leaf.
pub proof fn lemma_new_root_tight(pages: Map<PageId, Seq<u8>>, root: PageId)
    requires
        has_tree(pages, root),
        tree_pages(pages, root).len() == 1,
        entries_at(pages, root).len() == 0,
    ensures
        tight(pages, root),
{
    lemma_tree_facts(pages, root);
    lemma_lone_leaf(tree_at(pages, root));
    assert(entries_at(pages, root) =~= Seq::<Entry>::empty());
    assert(leaf_runs(pages, root) == seq![entries_at(pages, root)]);
}

/// One more entry behind all others leaves a tree's leaves full.
pub proof fn lemma_tight_more(
    before: Map<PageId, Seq<u8>>,
    after: Map<PageId, Seq<u8>>,
    root: PageId,
    e: Entry,
)
    requires
        has_tree(before, root),
        tight(before, root),
        forall|i: int|
            0 <= i < entries_at(before, root).len() ==> bytes_lt(
                (#[trigger] entries_at(before, root)[i]).0,
                e.0,
            ),
        edge_kept(tree_at(before, root), e, 0, leaf_runs(after, root)),
        entries_at(after, root) == inserted(entries_at(before, root), e.0, e.1),
    ensures
        tight(after, root),
        entries_at(after, root) == entries_at(before, root).push(e),
{
    let entries = entries_at(before, root);
    let t = tree_at(before, root);
    lemma_tree_facts(before, root);
    lemma_key_position_is(entries, e.0, entries.len() as int);
    assert(inserted(entries, e.0, e.1) =~= entries.push(e));
    filled_leaves_are_full(entries);
    if t is Branch {
        lemma_branch_has_leaves(t);
    }
    assert(at_edge(t, e.0, 0));
    assert(entries.push(e).drop_last() =~= entries);
}

/// One more document behind all others leaves the data pages full.
proof fn lemma_data_more(
    before: Map<PageId, Seq<u8>>,
    middle: Map<PageId, Seq<u8>>,
    own: Owners,
    root: PageId,
    entries: Seq<Entry>,
    current: PageId,
    loc: RecordLocation,
    id: Seq<u8>,
    doc: DocModel,
)
    requires
        !before.dom().contains(0),
        records_owned(before, own, root, entries, current),
        data_full(before, entries, docs_at(before, entries), current),
        record_stored(before, middle, current, loc, id, doc),
        forall|i: int| 0 <= i < entries.len() ==> bytes_lt((#[trigger] entries[i]).0, id),
        docs_at(middle, entries.push((id, loc))) == docs_at(before, entries).insert(
            id,
            (loc, doc),
        ),
        loc.page != 0,
    ensures
        data_full(
            middle,
            entries.push((id, loc)),
            docs_at(middle, entries.push((id, loc))),
            loc.page,
        ),
{
    reveal(records_owned);
    let longer = entries.push((id, loc));
    let docs = docs_at(middle, longer);
    let n = entries.len() as int;
    assert forall|k: int| 0 <= k < n implies before.dom().contains(
        (#[trigger] entries[k]).1.page,
    ) by {
        assert(record_owned(before, own, root, entries[k]));
        assert(data_slot(before, entries[k].1) is Some);
    }
    assert forall|k: int| 0 <= k < longer.len() - 1 && #[trigger] moves_on(
        longer,
        k,
    ) implies !room_for(middle, longer[k].1.page, cell_len(docs[longer[k + 1].0].1))
        && left_behind(longer, k) by {
        let page = entries[k].1.page;
        assert(before.dom().contains(page));
        if k < n - 1 {
            assert(longer[k] == entries[k] && longer[k + 1] == entries[k + 1]);
            assert(moves_on(entries, k));
            assert(left_behind(entries, k));
            assert(entries[n - 1].1.page != page);
            lemma_lt_irreflexive(id);
            assert(entries[k + 1].0 != id);
            assert(middle[page] == before[page]);
            assert forall|m: int| k < m < longer.len() implies (#[trigger] longer[m]).1.page
                != longer[k].1.page by {
                if m < n {
                    assert(longer[m] == entries[m]);
                }
            }
        } else {
            assert(longer[k + 1] == (id, loc));
            assert(page == current);
        }
    }
}

/// Storing a document behind all others leaves the pages full.
pub proof fn lemma_packed_insert(
    before: Map<PageId, Seq<u8>>,
    middle: Map<PageId, Seq<u8>>,
    after: Map<PageId, Seq<u8>>,
    list: Seq<CollectionModel>,
    own: Owners,
    own1: Owners,
    own2: Owners,
    at: int,
    were: Docs,
    id: Seq<u8>,
    doc: DocModel,
    loc: RecordLocation,
)
    requires
        0 <= at < list.len(),
        list[at].indexes.len() == 0,
        all_packed(before, list),
        comes_last(before, list[at], id),
        !before.dom().contains(0),
        rest_sound(before, list, own, at, were),
        rest_sound(middle, list, own1, at, were),
        tree_owned(before, own, list[at].meta.index_root),
        tree_owned(middle, own1, list[at].meta.index_root),
        records_owned(
            before,
            own,
            list[at].meta.index_root,
            entries_at(before, list[at].meta.index_root),
            list[at].meta.current_data_page,
        ),
        record_stored(before, middle, list[at].meta.current_data_page, loc, id, doc),
        loc.page != 0,
        step(before, middle, own, own1, Owner::Data(list[at].meta.index_root)),
        step(middle, after, own1, own2, Owner::Tree(list[at].meta.index_root)),
        records_owned(
            middle,
            own1,
            list[at].meta.index_root,
            entries_at(after, list[at].meta.index_root),
            loc.page,
        ),
        docs_at(middle, entries_at(after, list[at].meta.index_root)) == docs_at(
            before,
            entries_at(before, list[at].meta.index_root),
        ).insert(id, (loc, doc)),
        has_tree(after, list[at].meta.index_root),
        entries_at(after, list[at].meta.index_root) == inserted(
            entries_at(before, list[at].meta.index_root),
            id,
            loc,
        ),
        edge_kept(
            tree_at(middle, list[at].meta.index_root),
            (id, loc),
            0,
            leaf_runs(after, list[at].meta.index_root),
        ),
    ensures
        all_packed(after, with_current(list, at, loc.page)),
{
    reveal(all_packed);
    reveal(rest_sound);
    let root = list[at].meta.index_root;
    let current = list[at].meta.current_data_page;
    let entries = entries_at(before, root);
    let now = with_current(list, at, loc.page);
    assert(collection_packed(before, list[at]));
    assert(roots_of(list[at])[0] == root);
    lemma_tree_facts(before, root);
    lemma_tree_stands(before, middle, own, own1, Owner::Data(root), root);
    lemma_tight_stands(before, middle, own, own1, Owner::Data(root), root);
    lemma_tight_more(middle, after, root, (id, loc));
    lemma_data_more(before, middle, own, root, entries, current, loc, id, doc);
    lemma_tree_facts(after, root);
    lemma_data_stands(
        middle,
        after,
        own1,
        own2,
        Owner::Tree(root),
        root,
        entries_at(after, root),
        loc.page,
    );
    assert forall|i: int| 0 <= i < now.len() implies collection_packed(
        after,
        #[trigger] now[i],
    ) by {
        if i == at {
            assert forall|a: int| 0 <= a < roots_of(now[at]).len() implies tight(
                after,
                #[trigger] roots_of(now[at])[a],
            ) by {
                assert(roots_of(now[at])[0] == root);
            }
        } else {
            assert(now[i] == list[i]);
            lemma_tags_apart(list, at, 0, i);
            assert(collection_sound(before, own, list[i]));
            assert(collection_sound(middle, own1, list[i]));
            lemma_parts_owned(before, own, list[i]);
            lemma_parts_owned(middle, own1, list[i]);
            lemma_packed_stands(before, middle, own, own1, Owner::Data(root), list[i]);
            lemma_packed_stands(middle, after, own1, own2, Owner::Tree(root), list[i]);
        }
    }
}

} // verus!
